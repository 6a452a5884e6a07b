//! What is read out of pages of HTML: paragraphs, lines, links and lists.
use vstd::prelude::*;
use vstd::utf8::*;

use crate::cell::common::Link;
use crate::cell::rows::{free_of, lemma_one_part, lemma_part_added, lemma_part_in_front, parted};
use crate::cell::wrap::{first_solid, lemma_prev_boundary, prev_boundary, trimmed_end, white_before};
use crate::clipboard::{ClipBullet, PayloadModel};
use crate::clipboard::html::{
    deeper, gathered, gathered_all, href, html_payload, html_read, is_list, is_named, item_bullet,
    link_rebased, links_cut, occurrence, plain_found, simple_spaced, trees_payload, walked,
    walked_all, walked_lists, Found, Gathered, HtmlModel, HtmlTree,
};
use crate::persist::people::lemma_solid_throughout;
use crate::text::{
    boundary, char_at, folded, lemma_boundary_ends, lower_byte, occurs_at, utf8, white,
};
use crate::tree::{flat, flat_all, TreeModel};
use crate::words::{
    all_words, is_word, joined, lemma_ascii_char, lemma_part, lemma_words_of, words_of,
};

verus! {

// ---------------------------------------------------------------------------
// Nodes
// ---------------------------------------------------------------------------

/// A piece of text.
pub open spec fn text_node(s: Seq<u8>) -> HtmlTree {
    TreeModel {
        item: HtmlModel { name: None, attrs: Seq::empty(), text: s },
        inner: Seq::empty(),
    }
}

/// An element.
pub open spec fn element(name: Seq<char>, inner: Seq<HtmlTree>) -> HtmlTree {
    TreeModel {
        item: HtmlModel { name: Some(utf8(name)), attrs: Seq::empty(), text: Seq::empty() },
        inner,
    }
}

/// An anchor that leads to `url`.
pub open spec fn anchor_to(url: Seq<u8>, s: Seq<u8>) -> HtmlTree {
    TreeModel {
        item: HtmlModel {
            name: Some(utf8("a"@)),
            attrs: seq![(utf8("href"@), url)],
            text: Seq::empty(),
        },
        inner: seq![text_node(s)],
    }
}

/// A page: a document with an empty head, and `ts` in its body.
pub open spec fn page(ts: Seq<HtmlTree>) -> HtmlTree {
    TreeModel {
        item: HtmlModel { name: None, attrs: Seq::empty(), text: Seq::empty() },
        inner: seq![element("html"@, seq![element("head"@, Seq::empty()), element("body"@, ts)])],
    }
}

/// A text with no white space at its start and none at its end.
pub open spec fn bare(s: Seq<u8>) -> bool {
    &&& valid_utf8(s)
    &&& s.len() > 0
    &&& !white(char_at(s, 0))
    &&& !white(char_at(s, prev_boundary(s, s.len() as int)))
}

proof fn lemma_names()
    ensures
        utf8("ul"@) == seq![117u8, 108u8],
        utf8("ol"@) == seq![111u8, 108u8],
        utf8("li"@) == seq![108u8, 105u8],
        utf8("br"@) == seq![98u8, 114u8],
        utf8("p"@) == seq![112u8],
        utf8("a"@) == seq![97u8],
        utf8("html"@).len() == 4,
        utf8("head"@).len() == 4,
        utf8("body"@).len() == 4,
{
    reveal_strlit("ul");
    reveal_strlit("ol");
    reveal_strlit("li");
    reveal_strlit("br");
    reveal_strlit("p");
    reveal_strlit("a");
    reveal_strlit("html");
    reveal_strlit("head");
    reveal_strlit("body");
    is_ascii_chars_encode_utf8("ul"@);
    is_ascii_chars_encode_utf8("ol"@);
    is_ascii_chars_encode_utf8("li"@);
    is_ascii_chars_encode_utf8("br"@);
    is_ascii_chars_encode_utf8("p"@);
    is_ascii_chars_encode_utf8("a"@);
    is_ascii_chars_encode_utf8("html"@);
    is_ascii_chars_encode_utf8("head"@);
    is_ascii_chars_encode_utf8("body"@);
    assert(utf8("ul"@) =~= seq![117u8, 108u8]);
    assert(utf8("ol"@) =~= seq![111u8, 108u8]);
    assert(utf8("li"@) =~= seq![108u8, 105u8]);
    assert(utf8("br"@) =~= seq![98u8, 114u8]);
    assert(utf8("p"@) =~= seq![112u8]);
    assert(utf8("a"@) =~= seq![97u8]);
}

proof fn lemma_folded_apart(a: Seq<u8>, b: Seq<u8>)
    requires
        a.len() != b.len() || exists|i: int|
            0 <= i < a.len() && lower_byte(#[trigger] a[i]) != lower_byte(b[i]),
    ensures
        folded(a) != folded(b),
{
    if a.len() == b.len() {
        let i = choose|i: int|
            0 <= i < a.len() && lower_byte(#[trigger] a[i]) != lower_byte(b[i]);
        assert(folded(a)[i] == lower_byte(a[i]));
        assert(folded(b)[i] == lower_byte(b[i]));
    } else {
        assert(folded(a).len() == a.len());
        assert(folded(b).len() == b.len());
    }
}

proof fn lemma_kinds()
    ensures
        forall|n: HtmlModel|
            n.name == Some(utf8("ul"@)) ==> #[trigger] is_list(n),
        forall|n: HtmlModel|
            n.name == Some(utf8("li"@)) ==> !(#[trigger] is_list(n)) && is_named(n, "li"@)
                && !is_named(n, "a"@) && !is_named(n, "br"@),
        forall|n: HtmlModel|
            n.name == Some(utf8("br"@)) ==> !(#[trigger] is_list(n)) && !is_named(n, "li"@)
                && is_named(n, "br"@) && !is_named(n, "a"@),
        forall|n: HtmlModel|
            n.name == Some(utf8("p"@)) ==> !(#[trigger] is_list(n)) && !is_named(n, "li"@)
                && !is_named(n, "br"@) && is_named(n, "p"@),
        forall|n: HtmlModel|
            n.name == Some(utf8("a"@)) ==> !(#[trigger] is_list(n)) && !is_named(n, "li"@)
                && !is_named(n, "br"@) && !is_named(n, "p"@) && is_named(n, "a"@),
        forall|n: HtmlModel|
            (n.name is None || n.name->0.len() == 4) ==> !(#[trigger] is_list(n)) && !is_named(
                n,
                "li"@,
            ) && !is_named(n, "br"@) && !is_named(n, "p"@) && !is_named(n, "a"@),
{
    lemma_names();
    let (ul, ol, li, br) = (utf8("ul"@), utf8("ol"@), utf8("li"@), utf8("br"@));
    let (p, a) = (utf8("p"@), utf8("a"@));
    assert(lower_byte(li[0]) != lower_byte(ul[0]));
    assert(lower_byte(li[0]) != lower_byte(ol[0]));
    assert(lower_byte(li[0]) != lower_byte(br[0]));
    assert(lower_byte(br[0]) != lower_byte(ul[0]));
    assert(lower_byte(br[0]) != lower_byte(ol[0]));
    assert(lower_byte(br[0]) != lower_byte(li[0]));
    assert(lower_byte(a[0]) != lower_byte(p[0]));
    lemma_folded_apart(li, ul);
    lemma_folded_apart(li, ol);
    lemma_folded_apart(li, br);
    lemma_folded_apart(li, a);
    lemma_folded_apart(br, ul);
    lemma_folded_apart(br, ol);
    lemma_folded_apart(br, li);
    lemma_folded_apart(br, a);
    lemma_folded_apart(p, ul);
    lemma_folded_apart(p, ol);
    lemma_folded_apart(p, li);
    lemma_folded_apart(p, br);
    lemma_folded_apart(a, ul);
    lemma_folded_apart(a, ol);
    lemma_folded_apart(a, li);
    lemma_folded_apart(a, br);
    lemma_folded_apart(a, p);
    assert forall|n: HtmlModel| (n.name is None || n.name->0.len() == 4) implies !(
    #[trigger] is_list(n)) && !is_named(n, "li"@) && !is_named(n, "br"@) && !is_named(n, "p"@)
        && !is_named(n, "a"@) by {
        if n.name is Some {
            lemma_folded_apart(n.name->0, ul);
            lemma_folded_apart(n.name->0, ol);
            lemma_folded_apart(n.name->0, li);
            lemma_folded_apart(n.name->0, br);
            lemma_folded_apart(n.name->0, p);
            lemma_folded_apart(n.name->0, a);
        }
    }
}

proof fn lemma_page(ts: Seq<HtmlTree>, f: Found)
    ensures
        walked_all(seq![page(ts)], (-1) as i32, f) == walked_all(ts, (-1) as i32, f),
{
    lemma_names();
    lemma_kinds();
    let d = (-1) as i32;
    let doc = page(ts);
    let html = doc.inner[0];
    let head = html.inner[0];
    let body = html.inner[1];
    lemma_one_walked(doc, d, f);
    assert(f.plain.saying(Seq::empty()) =~= f.plain);
    assert(!is_list(doc.item) && !is_list(html.item) && !is_list(head.item) && !is_list(
        body.item,
    ));
    assert(walked(doc, d, f) == walked_all(doc.inner, d, f));
    assert(doc.inner =~= seq![html]);
    lemma_one_walked(html, d, f);
    assert(walked(html, d, f) == walked_all(html.inner, d, f));
    assert(html.inner.subrange(1, 2) =~= seq![body]);
    assert(walked(head, d, f) == walked_all(head.inner, d, f));
    assert(walked_all(head.inner, d, f) == f);
    lemma_one_walked(body, d, f);
}

proof fn lemma_one_walked(t: HtmlTree, d: i32, f: Found)
    requires
        !is_list(t.item),
    ensures
        walked_all(seq![t], d, f) == walked(t, d, f),
{
    let ts = seq![t];
    assert(ts.subrange(1, 1) =~= Seq::empty());
    assert(walked_all(ts.subrange(1, 1), d, walked(t, d, f)) == walked(t, d, f));
}

proof fn lemma_text_gathered(s: Seq<u8>, g: Gathered, but_lists: bool)
    ensures
        gathered(text_node(s), g, but_lists) == g.saying(s),
        gathered_all(seq![text_node(s)], g, but_lists) == g.saying(s),
{
    lemma_kinds();
    let t = text_node(s);
    assert(!is_list(t.item));
    assert(gathered_all(t.inner, g.saying(s), but_lists) == g.saying(s));
    let ts = seq![t];
    assert(ts.subrange(1, 1) =~= Seq::empty());
    assert(gathered_all(ts, g, but_lists) == g.saying(s)) by {
        reveal_with_fuel(gathered_all, 2);
    }
}

// ---------------------------------------------------------------------------
// Texts
// ---------------------------------------------------------------------------

pub proof fn lemma_prev_in_part(b: Seq<u8>, p: int, w: Seq<u8>, i: int)
    requires
        0 <= p,
        0 < i <= w.len(),
        p + w.len() <= b.len(),
        b.subrange(p, (p + w.len()) as int) == w,
        boundary(b, p),
    ensures
        prev_boundary(b, p + i) == p + prev_boundary(w, i),
    decreases i,
{
    assert forall|k: int| 0 <= k < w.len() implies w[k] == #[trigger] b[p + k] by {
        assert(b.subrange(p, (p + w.len()) as int)[k] == b[p + k]);
    }
    if i > 1 {
        assert(w[i - 1] == b[p + (i - 1)]);
        if !boundary(w, i - 1) {
            lemma_prev_in_part(b, p, w, i - 1);
        }
    }
}

/// A text that starts with a bare one and ends with a bare one is taken as it is.
proof fn lemma_taken_whole(g: Gathered, first: Seq<u8>, last: Seq<u8>)
    requires
        valid_utf8(g.text),
        bare(first),
        bare(last),
        first.len() <= g.text.len(),
        last.len() <= g.text.len(),
        g.text.subrange(0, first.len() as int) == first,
        g.text.subrange(g.text.len() - last.len(), g.text.len() as int) == last,
        first.len() < g.text.len() ==> boundary(g.text, first.len() as int),
    ensures
        plain_found(g) == Some(
            PayloadModel::Text(
                g.text,
                links_cut(g.links, 0, g.text.len() as int, g.links.len() as int),
            ),
        ),
{
    let b = g.text;
    let n = b.len() as int;
    lemma_boundary_ends(b);
    lemma_boundary_ends(first);
    lemma_boundary_ends(last);
    lemma_part(b, 0, first, 0);
    assert(first_solid(b, 0, n) == 0);
    let p = (n - last.len()) as int;
    assert(last[0] == b[p]);
    assert(boundary(b, p));
    lemma_prev_in_part(b, p, last, last.len() as int);
    lemma_prev_boundary(last, last.len() as int);
    lemma_part(b, p, last, prev_boundary(last, last.len() as int));
    assert(!white_before(b, n));
    assert(trimmed_end(b, n) == n);
    assert(b.subrange(0, n) =~= b);
}

// ---------------------------------------------------------------------------
// Paragraphs
// ---------------------------------------------------------------------------

/// A paragraph for each of the texts.
pub open spec fn paragraphs(texts: Seq<Seq<u8>>) -> Seq<HtmlTree> {
    Seq::new(texts.len(), |i: int| element("p"@, seq![text_node(texts[i])]))
}

proof fn lemma_paragraph(s: Seq<u8>, d: i32, f: Found)
    ensures
        walked(element("p"@, seq![text_node(s)]), d, f) == (Found {
            plain: if f.plain.text.len() > 0 && f.plain.text.last() != 10 {
                f.plain.saying(seq![10u8] + s)
            } else {
                f.plain.saying(s)
            },
            ..f
        }),
{
    lemma_kinds();
    let t = element("p"@, seq![text_node(s)]);
    assert(!is_list(t.item));
    lemma_text_gathered(s, f.plain, false);
    lemma_text_gathered(s, f.plain.saying(seq![10u8]), false);
    assert(f.plain.saying(seq![10u8]).saying(s) =~= f.plain.saying(seq![10u8] + s));
}

proof fn lemma_paragraphs(texts: Seq<Seq<u8>>, d: i32, f: Found)
    requires
        forall|i: int|
            0 <= i < texts.len() ==> bare(#[trigger] texts[i]) && free_of(texts[i], 10),
        texts.len() > 0,
        valid_utf8(f.plain.text),
        f.plain.text.len() > 0 ==> f.plain.text.last() != 10,
    ensures
        ({
            let r = walked_all(paragraphs(texts), d, f);
            let (before, after) = (f.plain.text, r.plain.text);
            let last = texts.last();
            &&& r.bullets == f.bullets
            &&& r.plain.links == f.plain.links
            &&& valid_utf8(after)
            &&& before.len() + texts[0].len() <= after.len()
            &&& before.len() > 0 ==> {
                &&& parted(after, 10) == parted(before, 10) + texts
                &&& before.len() < after.len()
                &&& after.subrange(0, before.len() as int) == before
                &&& after[before.len() as int] == 10
            }
            &&& before.len() == 0 ==> {
                &&& parted(after, 10) == texts
                &&& after.subrange(0, texts[0].len() as int) == texts[0]
                &&& texts[0].len() < after.len() ==> after[texts[0].len() as int] == 10
            }
            &&& last.len() <= after.len()
            &&& after.subrange(after.len() - last.len(), after.len() as int) == last
        }),
    decreases texts.len(),
{
    lemma_kinds();
    let ts = paragraphs(texts);
    let s = texts[0];
    let t = element("p"@, seq![text_node(s)]);
    let g = walked(t, d, f);
    let before = f.plain.text;
    assert(ts[0] == t);
    assert(!is_list(t.item));
    lemma_paragraph(s, d, f);
    assert(bare(s));
    valid_utf8_concat(before, s);
    assert(valid_utf8(seq![10u8])) by {
        lemma_feed_valid();
    }
    valid_utf8_concat(seq![10u8], s);
    valid_utf8_concat(before, seq![10u8] + s);
    let rest = texts.subrange(1, texts.len() as int);
    assert(ts.subrange(1, ts.len() as int) =~= paragraphs(rest));
    assert(s.last() != 10) by {
        assert(s[s.len() - 1] != 10);
    }
    if before.len() > 0 {
        assert(before + (seq![10u8] + s) =~= before + seq![10u8] + s);
        lemma_part_added(before, 10, s);
    } else {
        assert(before + s =~= s);
        lemma_one_part(s, 10);
    }
    let now = g.plain.text;
    assert(now.last() == s.last());
    let r = walked_all(ts, d, f);
    assert(r == walked_all(paragraphs(rest), d, g));
    if rest.len() == 0 {
        assert(paragraphs(rest) =~= Seq::empty());
        assert(r == g);
        assert(texts =~= seq![s]);
        assert(now.subrange(now.len() - s.len(), now.len() as int) =~= s);
        assert(before.len() > 0 ==> now.subrange(0, before.len() as int) =~= before);
        assert(before.len() > 0 ==> parted(now, 10) =~= parted(before, 10) + texts);
        assert(before.len() == 0 ==> now.subrange(0, s.len() as int) =~= s);
    } else {
        assert forall|i: int| 0 <= i < rest.len() implies bare(#[trigger] rest[i]) && free_of(
            rest[i],
            10,
        ) by {
            assert(rest[i] == texts[i + 1]);
        }
        lemma_paragraphs(rest, d, g);
        let after = r.plain.text;
        assert(rest.last() == texts.last());
        assert(texts =~= seq![s] + rest);
        assert(after.subrange(0, now.len() as int) == now);
        if before.len() > 0 {
            assert(parted(after, 10) =~= parted(before, 10) + texts);
            assert(after.subrange(0, before.len() as int) =~= now.subrange(0, before.len() as int));
            assert(now.subrange(0, before.len() as int) =~= before);
            assert(after[before.len() as int] == after.subrange(
                0,
                now.len() as int,
            )[before.len() as int]);
        } else {
            assert(parted(after, 10) =~= texts);
            assert(now =~= s);
        }
    }
}

pub proof fn lemma_feed_valid()
    ensures
        valid_utf8(seq![10u8]),
{
    reveal_strlit("\n");
    is_ascii_chars_encode_utf8("\n"@);
    encode_utf8_valid_utf8("\n"@);
    assert(encode_utf8("\n"@) =~= seq![10u8]);
}

/// Paragraphs are read onto lines of their own: of a page of paragraphs, each of one text
/// without line feeds and without white space around it, the lines are those texts, in their
/// order, with exactly one line feed between each two.
pub proof fn paragraphs_are_read_onto_lines_of_their_own(html: Seq<u8>, texts: Seq<Seq<u8>>)
    requires
        html_read(html) == Some(page(paragraphs(texts))),
        texts.len() > 0,
        forall|i: int|
            0 <= i < texts.len() ==> bare(#[trigger] texts[i]) && free_of(texts[i], 10),
    ensures
        html_payload(html) matches Some(PayloadModel::Text(text, links)) && links.len() == 0
            && parted(text, 10) == texts,
        trees_payload(paragraphs(texts)) == html_payload(html),
{
    let none = Found {
        bullets: Seq::empty(),
        plain: Gathered { text: Seq::empty(), links: Seq::empty() },
    };
    let d = (-1) as i32;
    lemma_page(paragraphs(texts), none);
    assert(valid_utf8(Seq::<u8>::empty())) by {
        encode_utf8_valid_utf8(Seq::empty());
    }
    lemma_paragraphs(texts, d, none);
    let r = walked_all(paragraphs(texts), d, none);
    assert(bare(texts[0]) && bare(texts.last()));
    lemma_taken_whole(r.plain, texts[0], texts.last());
}

// ---------------------------------------------------------------------------
// Lists
// ---------------------------------------------------------------------------

/// A list item that says the text of a node, and holds a list of the nodes below it where
/// there are any.
pub open spec fn list_item(t: TreeModel<Seq<u8>>) -> HtmlTree
    decreases t,
{
    if t.inner.len() == 0 {
        element("li"@, seq![text_node(t.item)])
    } else {
        element("li"@, seq![text_node(t.item), element("ul"@, list_items(t.inner))])
    }
}

/// List items for nodes.
pub open spec fn list_items(ts: Seq<TreeModel<Seq<u8>>>) -> Seq<HtmlTree>
    decreases ts,
{
    if ts.len() == 0 {
        Seq::empty()
    } else {
        seq![list_item(ts[0])] + list_items(ts.subrange(1, ts.len() as int))
    }
}

/// Bullets without links, at those depths and with those texts.
pub open spec fn bullets_at(v: Seq<(int, Seq<u8>)>) -> Seq<ClipBullet> {
    Seq::new(
        v.len(),
        |i: int| ClipBullet { depth: v[i].0 as u32, text: v[i].1, links: Seq::empty() },
    )
}

/// What a list can say: some words, one space between each two; and not deeper than levels go.
pub open spec fn listable(v: Seq<(int, Seq<u8>)>) -> bool {
    forall|i: int|
        0 <= i < v.len() ==> (#[trigger] v[i]).1.len() > 0 && simple_spaced(v[i].1) == v[i].1
            && 0 <= v[i].0 < i32::MAX
}

proof fn lemma_listable(a: Seq<(int, Seq<u8>)>, b: Seq<(int, Seq<u8>)>)
    requires
        listable(a + b),
    ensures
        listable(a),
        listable(b),
        bullets_at(a + b) == bullets_at(a) + bullets_at(b),
{
    assert forall|i: int| 0 <= i < a.len() implies (#[trigger] a[i]).1.len() > 0
        && simple_spaced(a[i].1) == a[i].1 && 0 <= a[i].0 < i32::MAX by {
        assert((a + b)[i] == a[i]);
    }
    assert forall|i: int| 0 <= i < b.len() implies (#[trigger] b[i]).1.len() > 0
        && simple_spaced(b[i].1) == b[i].1 && 0 <= b[i].0 < i32::MAX by {
        assert((a + b)[a.len() + i] == b[i]);
    }
    assert(bullets_at(a + b) =~= bullets_at(a) + bullets_at(b));
}

proof fn lemma_item_read(t: TreeModel<Seq<u8>>, d: i32)
    requires
        t.item.len() > 0,
        simple_spaced(t.item) == t.item,
        d >= 0,
    ensures
        item_bullet(list_item(t), d) == Some(
            ClipBullet { depth: d as u32, text: t.item, links: Seq::empty() },
        ),
{
    lemma_kinds();
    let li = list_item(t);
    let none = Gathered { text: Seq::empty(), links: Seq::empty() };
    let said = none.saying(t.item);
    assert(!is_list(li.item));
    assert(none.saying(Seq::empty()) =~= none);
    assert(said.text =~= t.item);
    lemma_text_gathered(t.item, none, true);
    if t.inner.len() > 0 {
        let ul = element("ul"@, list_items(t.inner));
        assert(is_list(ul.item));
        assert(li.inner.subrange(1, 2) =~= seq![ul]);
        assert(seq![ul].subrange(1, 1) =~= Seq::empty());
        assert(gathered_all(seq![ul], said, true) == said) by {
            reveal_with_fuel(gathered_all, 2);
        }
        assert(gathered_all(li.inner, none, true) == said);
    }
    assert(gathered(li, none, true) == gathered_all(li.inner, none, true));
}

proof fn lemma_items_walked(ts: Seq<TreeModel<Seq<u8>>>, d: i32, f: Found)
    requires
        d >= 0,
        listable(flat_all(ts, d as int)),
    ensures
        walked_all(list_items(ts), d, f) == (Found {
            bullets: f.bullets + bullets_at(flat_all(ts, d as int)),
            ..f
        }),
    decreases ts,
{
    lemma_kinds();
    if ts.len() == 0 {
        assert(f.bullets + bullets_at(flat_all(ts, d as int)) =~= f.bullets);
        assert(list_items(ts) =~= Seq::empty());
    } else {
        let t = ts[0];
        let rest = ts.subrange(1, ts.len() as int);
        let li = list_item(t);
        let items = list_items(ts);
        let b = ClipBullet { depth: d as u32, text: t.item, links: Seq::empty() };
        let own = Found { bullets: f.bullets.push(b), ..f };
        let head = seq![(d as int, t.item)];
        let under = flat_all(t.inner, d + 1);
        lemma_listable(flat(t, d as int), flat_all(rest, d as int));
        lemma_listable(head, under);
        assert(head[0] == (d as int, t.item));
        lemma_item_read(t, d);
        assert(!is_list(li.item));
        assert(items[0] == li);
        assert(items.subrange(1, items.len() as int) =~= list_items(rest));
        assert(walked(li, d, f) == walked_lists(li.inner, d, own));
        let text = text_node(t.item);
        assert(!is_list(text.item));
        let g = Found { bullets: f.bullets + bullets_at(flat(t, d as int)), ..f };
        assert(f.bullets + bullets_at(flat(t, d as int)) =~= own.bullets + bullets_at(under));
        if t.inner.len() == 0 {
            assert(li.inner.subrange(1, 1) =~= Seq::empty());
            assert(walked_lists(li.inner, d, own) == own) by {
                reveal_with_fuel(walked_lists, 2);
            }
            assert(own.bullets + bullets_at(under) =~= own.bullets);
            assert(walked(li, d, f) == g);
        } else {
            let ul = element("ul"@, list_items(t.inner));
            assert(is_list(ul.item));
            assert(li.inner.subrange(1, 2) =~= seq![ul]);
            assert(seq![ul].subrange(1, 1) =~= Seq::empty());
            assert(walked_lists(li.inner, d, own) == walked(ul, deeper(d), own)) by {
                reveal_with_fuel(walked_lists, 3);
            }
            assert(d < i32::MAX);
            lemma_items_walked(t.inner, deeper(d), own);
            assert(walked(li, d, f) == g);
        }
        lemma_items_walked(rest, d, g);
        assert(g.bullets + bullets_at(flat_all(rest, d as int)) =~= f.bullets + bullets_at(
            flat_all(ts, d as int),
        ));
    }
}

/// Lists are read as outlines: of a page that is one list, the bullets are its items and those
/// of the lists in them, from top to bottom, each with its text and one level deeper than the
/// item whose list it is in; those of the list itself stand at the top.
pub proof fn lists_are_read_as_outlines(html: Seq<u8>, ts: Seq<TreeModel<Seq<u8>>>)
    requires
        html_read(html) == Some(page(seq![element("ul"@, list_items(ts))])),
        ts.len() > 0,
        listable(flat_all(ts, 0)),
    ensures
        html_payload(html) == Some(PayloadModel::Outline(bullets_at(flat_all(ts, 0)))),
{
    lemma_kinds();
    let none = Found {
        bullets: Seq::empty(),
        plain: Gathered { text: Seq::empty(), links: Seq::empty() },
    };
    let d = (-1) as i32;
    let ul = element("ul"@, list_items(ts));
    lemma_page(seq![ul], none);
    assert(is_list(ul.item));
    assert(seq![ul].subrange(1, 1) =~= Seq::empty());
    let r = walked(ul, 0, none);
    assert(walked_all(seq![ul].subrange(1, 1), d, r) == r);
    assert(walked_all(seq![ul], d, none) == r);
    lemma_items_walked(ts, 0, none);
    assert(none.bullets + bullets_at(flat_all(ts, 0)) =~= bullets_at(flat_all(ts, 0)));
    assert(flat(ts[0], 0).len() > 0);
    assert(flat_all(ts, 0) == flat(ts[0], 0) + flat_all(ts.subrange(1, ts.len() as int), 0));
}

// ---------------------------------------------------------------------------
// Lines and links
// ---------------------------------------------------------------------------

/// A break is read as a line feed: two texts with a break between them are two lines.
pub proof fn breaks_are_read_as_line_feeds(html: Seq<u8>, a: Seq<u8>, b: Seq<u8>)
    requires
        html_read(html) == Some(
            page(seq![element("p"@, seq![text_node(a), element("br"@, Seq::empty()), text_node(b)])]),
        ) || html_read(html) == Some(
            page(seq![text_node(a), element("br"@, Seq::empty()), text_node(b)]),
        ),
        bare(a),
        bare(b),
    ensures
        html_payload(html) == Some(PayloadModel::Text(a + seq![10u8] + b, Seq::empty())),
{
    lemma_kinds();
    let none = Found {
        bullets: Seq::empty(),
        plain: Gathered { text: Seq::empty(), links: Seq::empty() },
    };
    let d = (-1) as i32;
    let br = element("br"@, Seq::empty());
    let ts = seq![text_node(a), br, text_node(b)];
    let p = element("p"@, ts);
    lemma_page(ts, none);
    lemma_page(seq![p], none);
    let g1 = none.plain.saying(a);
    let g2 = g1.saying(seq![10u8]);
    let g3 = g2.saying(b);
    assert(g1.text =~= a);
    assert(g3.text =~= a + seq![10u8] + b);
    assert(!is_list(text_node(a).item) && !is_list(text_node(b).item) && !is_list(br.item)
        && !is_list(p.item));
    lemma_text_gathered(a, none.plain, false);
    lemma_text_gathered(b, g2, false);
    assert(ts.subrange(1, 3) =~= seq![br, text_node(b)]);
    assert(seq![br, text_node(b)].subrange(1, 2) =~= seq![text_node(b)]);
    assert(gathered_all(ts, none.plain, false) == g3) by {
        assert(gathered(br, g1, false) == g2);
        assert(gathered_all(seq![br, text_node(b)], g1, false) == gathered_all(
            seq![text_node(b)],
            g2,
            false,
        ));
    }
    lemma_one_walked(p, d, none);
    assert(walked(p, d, none) == (Found { plain: g3, ..none }));
    let f1 = Found { plain: g1, ..none };
    let f2 = Found { plain: g2, ..none };
    let f3 = Found { plain: g3, ..none };
    lemma_text_walked(a, d, none);
    lemma_text_walked(b, d, f2);
    lemma_one_walked(text_node(b), d, f2);
    assert(walked(br, d, f1) == f2);
    assert(walked_all(seq![br, text_node(b)], d, f1) == walked_all(seq![text_node(b)], d, f2));
    assert(walked_all(ts, d, none) == f3);
    lemma_feed_valid();
    valid_utf8_concat(a, seq![10u8]);
    valid_utf8_concat(a + seq![10u8], b);
    assert(g3.text.subrange(0, a.len() as int) =~= a);
    assert(g3.text.subrange(g3.text.len() - b.len(), g3.text.len() as int) =~= b);
    lemma_taken_whole(g3, a, b);
    assert(links_cut(g3.links, 0, g3.text.len() as int, 0) =~= Seq::empty());
}

proof fn lemma_text_walked(s: Seq<u8>, d: i32, f: Found)
    ensures
        walked(text_node(s), d, f) == (Found { plain: f.plain.saying(s), ..f }),
{
    lemma_kinds();
    let t = text_node(s);
    assert(!is_list(t.item));
    let g = Found { plain: f.plain.saying(s), ..f };
    assert(walked_all(t.inner, d, g) == g);
}

/// An anchor is read as a link on its text: on all of it and on nothing else, to where the
/// anchor leads.
pub proof fn anchors_are_read_as_links(
    html: Seq<u8>,
    a: Seq<u8>,
    word: Seq<u8>,
    b: Seq<u8>,
    url: Seq<u8>,
)
    requires
        html_read(html) == Some(
            page(seq![element("p"@, seq![text_node(a), anchor_to(url, word), text_node(b)])]),
        ),
        bare(a),
        bare(b),
        valid_utf8(word),
        word.len() > 0,
        url.len() > 0,
    ensures
        html_payload(html) == Some(
            PayloadModel::Text(
                a + word + b,
                seq![
                    Link { start: a.len() as int, end: (a.len() + word.len()) as int, url },
                ],
            ),
        ),
{
    lemma_kinds();
    let none = Found {
        bullets: Seq::empty(),
        plain: Gathered { text: Seq::empty(), links: Seq::empty() },
    };
    let d = (-1) as i32;
    let link = anchor_to(url, word);
    let ts = seq![text_node(a), link, text_node(b)];
    let p = element("p"@, ts);
    lemma_page(seq![p], none);
    let l = Link { start: a.len() as int, end: (a.len() + word.len()) as int, url };
    let g1 = none.plain.saying(a);
    let g2 = Gathered { text: a + word, links: seq![l] };
    let g3 = g2.saying(b);
    assert(g1.text =~= a);
    assert(!is_list(text_node(a).item) && !is_list(text_node(b).item) && !is_list(link.item)
        && !is_list(p.item));
    lemma_text_gathered(a, none.plain, false);
    lemma_text_gathered(word, g1, false);
    lemma_text_gathered(b, g2, false);
    assert(href(link.item) == url);
    assert(gathered(link, g1, false) == g2) by {
        assert(g1.saying(word).text =~= a + word);
        assert(g1.links.push(l) =~= seq![l]);
    }
    assert(ts.subrange(1, 3) =~= seq![link, text_node(b)]);
    assert(seq![link, text_node(b)].subrange(1, 2) =~= seq![text_node(b)]);
    assert(gathered_all(seq![link, text_node(b)], g1, false) == gathered_all(
        seq![text_node(b)],
        g2,
        false,
    ));
    assert(gathered_all(ts, none.plain, false) == g3);
    lemma_one_walked(p, d, none);
    assert(walked(p, d, none) == (Found { plain: g3, ..none }));
    valid_utf8_concat(a, word);
    valid_utf8_concat(a + word, b);
    lemma_boundary_ends(word);
    assert(g3.text.subrange(0, a.len() as int) =~= a);
    assert(g3.text[a.len() as int] == word[0]);
    assert(g3.text.subrange(g3.text.len() - b.len(), g3.text.len() as int) =~= b);
    lemma_taken_whole(g3, a, b);
    let n = g3.text.len() as int;
    assert(links_cut(g3.links, 0, n, 0) =~= Seq::empty());
    assert(links_cut(g3.links, 0, n, 1) =~= seq![l]);
}

// ---------------------------------------------------------------------------
// White space
// ---------------------------------------------------------------------------

proof fn lemma_words_parted(ws: Seq<Seq<u8>>)
    requires
        all_words(ws),
        ws.len() > 0,
    ensures
        parted(joined(ws), 32) == ws,
    decreases ws.len(),
{
    let w = ws[0];
    assert(is_word(w));
    lemma_boundary_ends(w);
    assert forall|i: int| 0 <= i < w.len() implies #[trigger] w[i] != 32 by {
        if w[i] == 32 {
            lemma_ascii_char(w, i);
            lemma_solid_throughout(w, 0, i);
        }
    }
    if ws.len() == 1 {
        lemma_one_part(w, 32);
        assert(ws =~= seq![w]);
    } else {
        let rest = ws.subrange(1, ws.len() as int);
        assert forall|i: int| 0 <= i < rest.len() implies is_word(#[trigger] rest[i]) by {
            assert(rest[i] == ws[i + 1]);
        }
        lemma_words_parted(rest);
        lemma_part_in_front(w, 32, joined(rest));
        assert(ws =~= seq![w] + rest);
    }
}

/// A text with simple white space is its words with one space between each two: its parts between
/// spaces are the words of the text, none of them is empty, and none holds white space.
pub proof fn words_have_one_space_between_them(b: Seq<u8>, i: int)
    requires
        valid_utf8(b),
        0 <= i < words_of(b).len(),
    ensures
        parted(simple_spaced(b), 32) == words_of(b),
        words_of(b)[i].len() > 0,
        forall|q: int|
            0 <= q < words_of(b)[i].len() && #[trigger] boundary(words_of(b)[i], q) ==> !white(
                char_at(words_of(b)[i], q),
            ),
{
    lemma_words_of(b);
    lemma_words_parted(words_of(b));
    let w = words_of(b)[i];
    assert(is_word(w));
    lemma_boundary_ends(w);
    assert forall|q: int| 0 <= q < w.len() && #[trigger] boundary(w, q) implies !white(
        char_at(w, q),
    ) by {
        lemma_solid_throughout(w, 0, q);
    }
}

/// A link of a list item is found again on its words: where they first stand in the text with simple
/// white space, leading to the same place. It is lost only where it is on no words, or they do not stand
/// there.
pub proof fn links_are_found_again_on_their_words(simple: Seq<u8>, raw: Seq<u8>, l: Link)
    requires
        0 <= l.start < l.end <= raw.len(),
        boundary(raw, l.start),
        boundary(raw, l.end),
    ensures
        ({
            let words = simple_spaced(raw.subrange(l.start, l.end));
            &&& link_rebased(simple, raw, l) matches Some(x) ==> {
                &&& 0 <= x.start < x.end <= simple.len()
                &&& simple.subrange(x.start, x.end) == words
                &&& x.url == l.url
                &&& forall|j: int| 0 <= j < x.start ==> !(#[trigger] occurs_at(simple, words, j))
            }
            &&& link_rebased(simple, raw, l) is None ==> words.len() == 0 || forall|j: int|
                0 <= j ==> !(#[trigger] occurs_at(simple, words, j))
        }),
{
    let words = simple_spaced(raw.subrange(l.start, l.end));
    lemma_first_occurrence(simple, words, 0);
}

proof fn lemma_first_occurrence(b: Seq<u8>, p: Seq<u8>, k: int)
    requires
        0 <= k,
    ensures
        match occurrence(b, p, k) {
            Some(i) => k <= i && occurs_at(b, p, i) && forall|j: int|
                k <= j < i ==> !(#[trigger] occurs_at(b, p, j)),
            None => forall|j: int| k <= j ==> !(#[trigger] occurs_at(b, p, j)),
        },
    decreases b.len() + 1 - k,
{
    if k <= b.len() && !occurs_at(b, p, k) {
        lemma_first_occurrence(b, p, k + 1);
    }
}

} // verus!
