//! Whom the names in a query mean.
use vstd::prelude::*;
use vstd::utf8::*;

use crate::ids::Uuid;
use crate::query::matching::{
    alias_fits, by_alias, by_title, lemma_folded_valid, name_key, occurs_in, people_meant,
    squeezed,
};
use crate::text::{char_at, folded, lower_byte, utf8, white};
use crate::words::lemma_ascii_char;

verus! {

/// An ASCII character that does not count in a name: white space or an underscore.
pub open spec fn is_gap(x: u8) -> bool {
    9 <= x <= 13 || x == 32 || x == 95
}

/// What counts of an ASCII name: its characters but gaps, capitals as small letters.
pub open spec fn counted_letters(b: Seq<u8>) -> Seq<u8>
    decreases b.len(),
{
    if b.len() == 0 {
        Seq::empty()
    } else if is_gap(b.last()) {
        counted_letters(b.drop_last())
    } else if 65 <= b.last() <= 90 {
        counted_letters(b.drop_last()).push((b.last() + 32) as u8)
    } else {
        counted_letters(b.drop_last()).push(b.last())
    }
}

/// All of it is ASCII.
pub open spec fn plain_ascii(b: Seq<u8>) -> bool {
    valid_utf8(b) && forall|i: int| 0 <= i < b.len() ==> #[trigger] b[i] < 128
}

proof fn lemma_squeezed_ascii(b: Seq<u8>, f: Seq<u8>, p: int)
    requires
        f == folded(b),
        valid_utf8(f),
        forall|i: int| 0 <= i < b.len() ==> #[trigger] b[i] < 128,
        0 <= p <= b.len(),
    ensures
        squeezed(counted_letters(b.subrange(0, p)), f, p) == counted_letters(b),
    decreases b.len() - p,
{
    let acc = counted_letters(b.subrange(0, p));
    if p < b.len() {
        let n = p + 1;
        assert(f[p] == lower_byte(b[p]));
        lemma_ascii_char(f, p);
        let more = b.subrange(0, n);
        assert(more.drop_last() =~= b.subrange(0, p));
        assert(more.last() == b[p]);
        assert(f.subrange(p, n) =~= seq![lower_byte(b[p])]);
        assert(white(char_at(f, p)) || f[p] == 95 <==> is_gap(b[p]));
        if !is_gap(b[p]) {
            assert(acc + f.subrange(p, n) =~= acc.push(lower_byte(b[p])));
            assert(counted_letters(more) =~= acc.push(lower_byte(b[p])));
        }
        lemma_squeezed_ascii(b, f, n);
    } else {
        assert(b.subrange(0, p) =~= b);
    }
}

/// A name that is all ASCII is compared by its characters but white space and underscores,
/// letter case aside, and by all of these in their order.
pub proof fn names_are_compared_by_their_letters(b: Seq<u8>)
    requires
        plain_ascii(b),
    ensures
        name_key(b) == counted_letters(b),
{
    lemma_folded_valid(b);
    assert(b.subrange(0, 0) =~= Seq::empty());
    lemma_squeezed_ascii(b, folded(b), 0);
}

/// A person's alias holds the name.
pub open spec fn alias_holds(
    aliases: Seq<(Seq<u8>, Uuid, Seq<u8>)>,
    i: int,
    name: Seq<u8>,
) -> bool {
    &&& 0 <= i < aliases.len()
    &&& aliases[i].2 == utf8("person"@)
    &&& occurs_in(name_key(aliases[i].0), name_key(name))
}

/// The name of an entity that a cell stands for holds the name.
pub open spec fn title_holds(titles: Seq<(Uuid, Seq<u8>)>, t: int, name: Seq<u8>) -> bool {
    0 <= t < titles.len() && occurs_in(titles[t].1, name_key(name))
}

/// The name means `id`: an alias of it holds the name; or none of all aliases does, and its own
/// name does. A name without letters means nobody.
pub open spec fn means(
    name: Seq<u8>,
    aliases: Seq<(Seq<u8>, Uuid, Seq<u8>)>,
    titles: Seq<(Uuid, Seq<u8>)>,
    id: Uuid,
) -> bool {
    name_key(name).len() > 0 && {
        ||| exists|i: int| #[trigger] alias_holds(aliases, i, name) && aliases[i].1 == id
        ||| (forall|i: int| !(#[trigger] alias_holds(aliases, i, name))) && exists|t: int|
            #[trigger] title_holds(titles, t, name) && titles[t].0 == id
    }
}

proof fn lemma_found_by_alias(
    out: Seq<Uuid>,
    name: Seq<u8>,
    aliases: Seq<(Seq<u8>, Uuid, Seq<u8>)>,
    n: int,
    id: Uuid,
)
    requires
        0 <= n <= aliases.len(),
    ensures
        by_alias(out, name_key(name), aliases, n).contains(id) <==> out.contains(id) || exists|i: int|
            i < n && #[trigger] alias_holds(aliases, i, name) && aliases[i].1 == id,
    decreases n,
{
    let needle = name_key(name);
    if n > 0 {
        lemma_found_by_alias(out, name, aliases, n - 1, id);
        let before = by_alias(out, needle, aliases, n - 1);
        let after = by_alias(out, needle, aliases, n);
        let (alias, who, kind) = aliases[n - 1];
        assert(alias_holds(aliases, n - 1, name) <==> kind == utf8("person"@) && occurs_in(
            name_key(alias),
            needle,
        ));
        if after != before {
            assert(after == before.push(who));
            assert(after[after.len() - 1] == who);
            if before.contains(id) {
                let j = choose|j: int| 0 <= j < before.len() && before[j] == id;
                assert(after[j] == id);
            }
        }
    }
}

proof fn lemma_found_by_title(
    out: Seq<Uuid>,
    name: Seq<u8>,
    titles: Seq<(Uuid, Seq<u8>)>,
    n: int,
    id: Uuid,
)
    requires
        0 <= n <= titles.len(),
    ensures
        by_title(out, name_key(name), titles, n).contains(id) <==> out.contains(id) || exists|t: int|
            t < n && #[trigger] title_holds(titles, t, name) && titles[t].0 == id,
    decreases n,
{
    let needle = name_key(name);
    if n > 0 {
        lemma_found_by_title(out, name, titles, n - 1, id);
        let before = by_title(out, needle, titles, n - 1);
        let after = by_title(out, needle, titles, n);
        let (who, title) = titles[n - 1];
        assert(title_holds(titles, n - 1, name) <==> occurs_in(title, needle));
        if after != before {
            assert(after == before.push(who));
            assert(after[after.len() - 1] == who);
            if before.contains(id) {
                let j = choose|j: int| 0 <= j < before.len() && before[j] == id;
                assert(after[j] == id);
            }
        }
    }
}

/// The people that names mean are just those that one of the names means: everyone with an alias
/// that holds the name, and only where no alias does, everyone whose own name holds it.
pub proof fn everyone_a_name_means_is_meant(
    names: Seq<Seq<u8>>,
    aliases: Seq<(Seq<u8>, Uuid, Seq<u8>)>,
    titles: Seq<(Uuid, Seq<u8>)>,
    n: int,
    id: Uuid,
)
    requires
        0 <= n <= names.len(),
    ensures
        people_meant(names, aliases, titles, n).contains(id) <==> exists|k: int|
            0 <= k < n && means(#[trigger] names[k], aliases, titles, id),
    decreases n,
{
    if n > 0 {
        let name = names[n - 1];
        let needle = name_key(name);
        everyone_a_name_means_is_meant(names, aliases, titles, n - 1, id);
        let before = people_meant(names, aliases, titles, n - 1);
        if needle.len() > 0 {
            let all = aliases.len() as int;
            lemma_found_by_alias(before, name, aliases, all, id);
            let found = by_alias(before, needle, aliases, all);
            lemma_found_by_title(found, name, titles, titles.len() as int, id);
            assert(alias_fits(needle, aliases, all) <==> exists|i: int| #[trigger]
                alias_holds(aliases, i, name)) by {
                if alias_fits(needle, aliases, all) {
                    let i = choose|i: int|
                        0 <= i < all && (#[trigger] aliases[i]).2 == utf8("person"@) && occurs_in(
                            name_key(aliases[i].0),
                            needle,
                        );
                    assert(alias_holds(aliases, i, name));
                }
                if exists|i: int| #[trigger] alias_holds(aliases, i, name) {
                    let i = choose|i: int| #[trigger] alias_holds(aliases, i, name);
                    assert(aliases[i].2 == utf8("person"@));
                }
            }
        }
        assert(means(name, aliases, titles, id) ==> exists|k: int|
            0 <= k < n && means(#[trigger] names[k], aliases, titles, id));
    } else {
        assert(!people_meant(names, aliases, titles, n).contains(id));
    }
}

} // verus!
