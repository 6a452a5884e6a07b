//! The names that people have and are found by.
use vstd::prelude::*;
use vstd::utf8::*;

use crate::cell::rows::free_of;
use crate::cell::urls::solid_end;
use crate::cell::wrap::{
    first_solid, lemma_next_boundary, lemma_no_boundary_before, lemma_no_boundary_between,
    lemma_prev_boundary, next_boundary, prev_boundary, trailing_tags, trimmed_end, white_before,
    word_start, Span,
};
use crate::clipboard::pages::{bare, lemma_prev_in_part};
use crate::persist::naming::{alias_of, display_name, underscored};
use crate::text::{
    boundary, char_at, first_byte, folded, is_ascii_bytes, lemma_boundary_ends, lemma_first_byte,
    lower_byte, lower_case, white,
};
use crate::words::{
    all_words, is_word, joined, joined_words_are_split_again, lemma_ascii_char, lemma_joined_push,
    lemma_part,
};

verus! {

proof fn lemma_underscored(ws: Seq<Seq<u8>>)
    requires
        forall|i: int| 0 <= i < ws.len() ==> is_ascii_bytes(#[trigger] ws[i]),
        forall|i: int, k: int|
            #![trigger ws[i][k]]
            0 <= i < ws.len() && 0 <= k < ws[i].len() ==> ws[i][k] != 32,
    ensures
        underscored(ws).len() == joined(ws).len(),
        forall|i: int|
            0 <= i < joined(ws).len() ==> #[trigger] underscored(ws)[i] == (if joined(ws)[i] == 32 {
                95
            } else {
                lower_byte(joined(ws)[i])
            }),
    decreases ws.len(),
{
    if ws.len() == 1 {
        assert(is_ascii_bytes(ws[0]));
        assert forall|i: int| 0 <= i < ws[0].len() implies #[trigger] underscored(ws)[i]
            == lower_byte(ws[0][i]) && ws[0][i] != 32 by {}
    } else if ws.len() > 1 {
        let front = ws.drop_last();
        let last = ws.last();
        assert(ws =~= front.push(last));
        assert(last == ws[ws.len() - 1]);
        lemma_underscored(front);
        lemma_joined_push(front, last);
        let (j, u) = (joined(ws), underscored(ws));
        let n = joined(front).len() as int;
        assert(j == joined(front) + seq![32u8] + last);
        assert(u == underscored(front) + seq![95u8] + lower_case(last));
        assert(is_ascii_bytes(last));
        assert forall|i: int| 0 <= i < j.len() implies #[trigger] u[i] == (if j[i] == 32 {
            95
        } else {
            lower_byte(j[i])
        }) by {
            if i < n {
                assert(j[i] == joined(front)[i]);
                assert(u[i] == underscored(front)[i]);
            } else if i > n {
                assert(j[i] == last[i - n - 1]);
                assert(ws[ws.len() - 1][i - n - 1] != 32);
                assert(u[i] == folded(last)[i - n - 1]);
            }
        }
    }
}

/// The alias of an ASCII name whose words have one space between them is the name with underscores
/// for the spaces and small letters for the capitals.
pub proof fn aliases_spell_the_name(ws: Seq<Seq<u8>>)
    requires
        all_words(ws),
        forall|i: int| 0 <= i < ws.len() ==> is_ascii_bytes(#[trigger] ws[i]),
    ensures
        alias_of(joined(ws)).len() == joined(ws).len(),
        forall|i: int|
            0 <= i < joined(ws).len() ==> #[trigger] alias_of(joined(ws))[i] == (if joined(ws)[i]
                == 32 {
                95
            } else {
                lower_byte(joined(ws)[i])
            }),
{
    joined_words_are_split_again(ws);
    assert forall|i: int, k: int|
        #![trigger ws[i][k]]
        0 <= i < ws.len() && 0 <= k < ws[i].len() implies ws[i][k] != 32 by {
        assert(is_word(ws[i]));
        if ws[i][k] == 32 {
            lemma_boundary_ends(ws[i]);
            lemma_ascii_char(ws[i], k);
            lemma_solid_throughout(ws[i], 0, k);
        }
    }
    lemma_underscored(ws);
}

proof fn lemma_word_back(b: Seq<u8>, s: int, e: int)
    requires
        valid_utf8(b),
        boundary(b, s),
        boundary(b, e),
        s <= e,
        s == 0 || white_before(b, s),
        forall|q: int| s <= q < e && #[trigger] boundary(b, q) ==> !white(char_at(b, q)),
    ensures
        word_start(b, e) == s,
    decreases e - s,
{
    lemma_prev_boundary(b, e);
    lemma_no_boundary_before(b, e);
    let p = prev_boundary(b, e);
    if s < e {
        if p < s {
            assert(!boundary(b, s));
        }
        lemma_word_back(b, s, p);
    }
}

proof fn lemma_word_within(b: Seq<u8>, e: int) -> (s: int)
    requires
        valid_utf8(b),
        boundary(b, e),
    ensures
        s == word_start(b, e),
        0 <= s <= e,
        e > 0 && !white_before(b, e) ==> s < e,
    decreases e,
{
    lemma_prev_boundary(b, e);
    if e > 0 && !white_before(b, e) {
        lemma_word_within(b, prev_boundary(b, e))
    } else {
        e
    }
}

/// The name of a title that is one text without `#` is that text. A tag behind it does not count:
/// with a space and `#` and a word put behind the title, the name stays the same.
pub proof fn tags_are_no_part_of_the_name(t: Seq<u8>, word: Seq<u8>)
    requires
        bare(t),
        free_of(t, 10),
        free_of(t, 35),
        is_word(word),
        free_of(word, 10),
    ensures
        display_name(t) == Some(t),
        display_name(t + seq![32u8, 35u8] + word) == Some(t),
{
    lemma_boundary_ends(t);
    let n = t.len() as int;
    lemma_first_byte(t, 10, 0);
    assert(first_byte(t, 10, 0) == n);
    assert(!white_before(t, n));
    assert(trimmed_end(t, n) == n);
    let s0 = lemma_word_within(t, n);
    assert(trailing_tags(t, n) =~= Seq::empty());
    assert(first_solid(t, 0, n) == 0);
    assert(t.subrange(0, n) =~= t);

    let b = t + seq![32u8, 35u8] + word;
    let m = b.len() as int;
    lemma_tagged_title(t, word);
    lemma_boundary_ends(b);
    lemma_boundary_ends(word);
    lemma_first_byte(b, 10, 0);
    assert forall|i: int| 0 <= i < m implies #[trigger] b[i] != 10 by {
        if i < n {
            assert(b[i] == t[i]);
        } else if i >= n + 2 {
            assert(b[i] == word[i - n - 2]);
        }
    }
    assert(first_byte(b, 10, 0) == m);
    assert(trimmed_end(b, m) == m);
    lemma_word_back(b, n + 1, m);
    assert(b[n + 1] == 35);
    assert(trimmed_end(b, n + 1) == n) by {
        assert(prev_boundary(b, n + 1) == n);
        assert(white_before(b, n + 1));
        assert(!white_before(b, n));
        reveal_with_fuel(trimmed_end, 2);
    }
    let s1 = lemma_word_within(b, n);
    assert(b[s1] == t[s1]);
    assert(t[s1] != 35);
    assert(trailing_tags(b, n + 1) =~= Seq::empty());
    let tags = trailing_tags(b, m);
    assert(tags == trailing_tags(b, n + 1).push(Span { start: n + 1, end: m }));
    assert(tags[0] == (Span { start: n + 1, end: m }));
    assert(first_solid(b, 0, n) == 0);
    assert(b.subrange(0, n) =~= t);
}

proof fn lemma_tagged_title(t: Seq<u8>, word: Seq<u8>)
    requires
        bare(t),
        is_word(word),
    ensures
        ({
            let b = t + seq![32u8, 35u8] + word;
            let n = t.len() as int;
            let m = b.len() as int;
            &&& valid_utf8(b)
            &&& boundary(b, n)
            &&& boundary(b, n + 1)
            &&& prev_boundary(b, n + 1) == n
            &&& white_before(b, n + 1)
            &&& !white_before(b, n)
            &&& !white_before(b, m)
            &&& !white(char_at(b, 0))
            &&& forall|q: int|
                n + 1 <= q < m && #[trigger] boundary(b, q) ==> !white(char_at(b, q))
        }),
{
    let b = t + seq![32u8, 35u8] + word;
    let n = t.len() as int;
    let m = b.len() as int;
    assert(valid_utf8(seq![32u8, 35u8])) by {
        reveal_strlit(" #");
        is_ascii_chars_encode_utf8(" #"@);
        encode_utf8_valid_utf8(" #"@);
        assert(encode_utf8(" #"@) =~= seq![32u8, 35u8]);
    }
    valid_utf8_concat(t, seq![32u8, 35u8]);
    valid_utf8_concat(t + seq![32u8, 35u8], word);
    lemma_boundary_ends(b);
    lemma_boundary_ends(t);
    lemma_boundary_ends(word);
    lemma_ascii_char(b, n);
    lemma_ascii_char(b, n + 1);
    assert(b.subrange(0, 0 + t.len() as int) =~= t);
    lemma_part(b, 0, t, 0);
    lemma_prev_in_part(b, 0, t, n);
    lemma_prev_boundary(t, n);
    lemma_part(b, 0, t, prev_boundary(t, n));
    assert(b.subrange(n + 2, n + 2 + word.len() as int) =~= word);
    assert(b[n + 2] == word[0]);
    assert forall|q: int| n + 1 <= q < m && #[trigger] boundary(b, q) implies !white(
        char_at(b, q),
    ) by {
        if q >= n + 2 {
            let i = q - n - 2;
            assert(b[q] == word[i]);
            lemma_part(b, n + 2, word, i);
            lemma_solid_throughout(word, 0, i);
        }
    }
    lemma_prev_boundary(b, m);
    lemma_no_boundary_before(b, m);
    let p = prev_boundary(b, m);
    if p < n + 1 {
        assert(!boundary(b, n + 1));
    }
    assert(!white(char_at(b, p)));
}

pub proof fn lemma_solid_throughout(w: Seq<u8>, p: int, q: int)
    requires
        boundary(w, p),
        boundary(w, q),
        p <= q < w.len(),
        solid_end(w, p) == w.len(),
    ensures
        !white(char_at(w, q)),
    decreases w.len() - p,
{
    lemma_next_boundary(w, p);
    lemma_no_boundary_between(w, p);
    if p < q {
        if q < next_boundary(w, p) {
            assert(!boundary(w, q));
        }
        lemma_solid_throughout(w, next_boundary(w, p), q);
    }
}

} // verus!
