//! What the HTML of a text with links shows.
use vstd::prelude::*;
use vstd::seq_lib::*;
use vstd::utf8::*;

use crate::cell::common::Link;
use crate::clipboard::markup::{
    anchor, entity, escaped, escaped_text_is_no_markup, escaped_upto, link_inserted, linked_html,
    linked_piece, linked_upto, links_sorted,
};
use crate::text::{first_byte, lemma_first_byte_is, starts_with_bytes, utf8};

verus! {

/// The text that HTML shows: tags are dropped, and the entities that escaping writes are
/// the characters they stand for.
pub open spec fn text_shown(h: Seq<u8>) -> Seq<u8>
    decreases h.len(),
{
    let n = h.len() as int;
    if n == 0 {
        Seq::empty()
    } else if h[0] == 60 {
        let e = first_byte(h, 62, 0);
        if 0 <= e < n {
            text_shown(h.subrange(e + 1, n))
        } else {
            Seq::empty()
        }
    } else if starts_with_bytes(h, entity(38, false)) {
        seq![38u8] + text_shown(h.subrange(5, n))
    } else if starts_with_bytes(h, entity(60, false)) {
        seq![60u8] + text_shown(h.subrange(4, n))
    } else if starts_with_bytes(h, entity(62, false)) {
        seq![62u8] + text_shown(h.subrange(4, n))
    } else if starts_with_bytes(h, entity(34, true)) {
        seq![34u8] + text_shown(h.subrange(6, n))
    } else {
        seq![h[0]] + text_shown(h.subrange(1, n))
    }
}

proof fn lemma_shown_byte(x: u8, rest: Seq<u8>)
    ensures
        text_shown(entity(x, false) + rest) == seq![x] + text_shown(rest),
{
    let e = entity(x, false);
    let h = e + rest;
    let n = h.len() as int;
    assert(h.subrange(0, e.len() as int) =~= e);
    assert(h.subrange(e.len() as int, n) =~= rest);
    assert(h[0] == e[0]);
    if x == 38 || x == 60 || x == 62 {
        assert(h[1] == e[1]);
        if x != 38 {
            assert(!starts_with_bytes(h, entity(38, false))) by {
                if starts_with_bytes(h, entity(38, false)) {
                    assert(h.subrange(0, 5)[1] == 97);
                }
            }
        }
        if x == 62 {
            assert(!starts_with_bytes(h, entity(60, false))) by {
                if starts_with_bytes(h, entity(60, false)) {
                    assert(h.subrange(0, 4)[1] == 108);
                }
            }
        }
    } else {
        assert(!starts_with_bytes(h, entity(38, false))) by {
            if starts_with_bytes(h, entity(38, false)) {
                assert(h.subrange(0, 5)[0] == 38);
            }
        }
        assert(!starts_with_bytes(h, entity(60, false))) by {
            if starts_with_bytes(h, entity(60, false)) {
                assert(h.subrange(0, 4)[0] == 38);
            }
        }
        assert(!starts_with_bytes(h, entity(62, false))) by {
            if starts_with_bytes(h, entity(62, false)) {
                assert(h.subrange(0, 4)[0] == 38);
            }
        }
        assert(!starts_with_bytes(h, entity(34, true))) by {
            if starts_with_bytes(h, entity(34, true)) {
                assert(h.subrange(0, 6)[0] == 38);
            }
        }
    }
}

proof fn lemma_shown_escaped(b: Seq<u8>, n: int, rest: Seq<u8>)
    requires
        0 <= n <= b.len(),
    ensures
        text_shown(escaped_upto(b, false, n) + rest) == b.subrange(0, n) + text_shown(rest),
    decreases n,
{
    if n == 0 {
        assert(escaped_upto(b, false, n) + rest =~= rest);
        assert(b.subrange(0, n) + text_shown(rest) =~= text_shown(rest));
    } else {
        let e = entity(b[n - 1], false);
        lemma_shown_escaped(b, n - 1, e + rest);
        lemma_shown_byte(b[n - 1], rest);
        assert(escaped_upto(b, false, n) + rest =~= escaped_upto(b, false, n - 1) + (e + rest));
        assert(b.subrange(0, n) + text_shown(rest) =~= b.subrange(0, n - 1) + (seq![b[n - 1]]
            + text_shown(rest)));
    }
}

proof fn lemma_shown_text(b: Seq<u8>, rest: Seq<u8>)
    ensures
        text_shown(escaped(b, false) + rest) == b + text_shown(rest),
{
    lemma_shown_escaped(b, b.len() as int, rest);
    assert(b.subrange(0, b.len() as int) =~= b);
}

proof fn lemma_shown_tag(tag: Seq<u8>, rest: Seq<u8>)
    requires
        tag.len() > 0,
        tag[0] == 60,
        tag.last() == 62,
        forall|i: int| 0 <= i < tag.len() - 1 ==> #[trigger] tag[i] != 62,
    ensures
        text_shown(tag + rest) == text_shown(rest),
{
    let h = tag + rest;
    let k = tag.len() - 1;
    assert forall|j: int| 0 <= j < k implies h[j] != 62 by {
        assert(h[j] == tag[j]);
    }
    assert(h[k] == tag.last());
    lemma_first_byte_is(h, 62, 0, k);
    assert(h.subrange(k + 1, h.len() as int) =~= rest);
    assert(h[0] == tag[0]);
}

proof fn lemma_shown_anchor(url: Seq<u8>, own: Seq<u8>, rest: Seq<u8>)
    ensures
        text_shown(anchor(url, own) + rest) == own + text_shown(rest),
{
    let (open, close, end) = (utf8("<a href=\""@), utf8("\">"@), utf8("</a>"@));
    reveal_strlit("<a href=\"");
    reveal_strlit("\">");
    reveal_strlit("</a>");
    is_ascii_chars_encode_utf8("<a href=\""@);
    is_ascii_chars_encode_utf8("\">"@);
    is_ascii_chars_encode_utf8("</a>"@);
    assert(open =~= seq![60u8, 97, 32, 104, 114, 101, 102, 61, 34]);
    assert(close =~= seq![34u8, 62]);
    assert(end =~= seq![60u8, 47, 97, 62]);
    let address = escaped(url, true);
    escaped_text_is_no_markup(url, true);
    let tag = open + address + close;
    assert forall|i: int| 0 <= i < tag.len() - 1 implies #[trigger] tag[i] != 62 by {
        if i < open.len() {
            assert(tag[i] == open[i]);
        } else if i < open.len() + address.len() {
            assert(tag[i] == address[i - open.len()]);
        } else {
            assert(tag[i] == close[0]);
        }
    }
    assert(tag.last() == close[1]);
    assert(tag[0] == open[0]);
    lemma_shown_tag(tag, escaped(own, false) + (end + rest));
    lemma_shown_text(own, end + rest);
    lemma_shown_tag(end, rest);
    assert(anchor(url, own) + rest =~= tag + (escaped(own, false) + (end + rest)));
}

/// Links that lie in a text of `n` bytes, no two of them over the same byte.
pub open spec fn links_apart(links: Seq<Link>, n: int) -> bool {
    &&& forall|i: int|
        0 <= i < links.len() ==> 0 <= (#[trigger] links[i]).start < links[i].end <= n
    &&& forall|i: int, j: int|
        0 <= i < links.len() && 0 <= j < links.len() && i != j ==> (#[trigger] links[i]).end
            <= (#[trigger] links[j]).start || links[j].end <= links[i].start
}

/// Links one behind the other in a text of `n` bytes.
pub open spec fn links_in_a_row(links: Seq<Link>, n: int) -> bool {
    &&& forall|i: int|
        0 <= i < links.len() ==> 0 <= (#[trigger] links[i]).start < links[i].end <= n
    &&& forall|i: int, j: int|
        0 <= i < j < links.len() ==> (#[trigger] links[i]).end <= (#[trigger] links[j]).start
}

proof fn lemma_inserted_items(ls: Seq<Link>, l: Link)
    ensures
        link_inserted(ls, l).to_multiset() == ls.to_multiset().insert(l),
        link_inserted(ls, l).len() == ls.len() + 1,
    decreases ls.len(),
{
    broadcast use group_to_multiset_ensures;

    if !(ls.len() == 0 || ls.last().start <= l.start) {
        let d = ls.drop_last();
        lemma_inserted_items(d, l);
        assert(ls =~= d.push(ls.last()));
        assert(d.to_multiset().insert(l).insert(ls.last()) =~= d.to_multiset().insert(
            ls.last(),
        ).insert(l));
    }
}

proof fn lemma_sorted_items(ls: Seq<Link>)
    ensures
        links_sorted(ls).to_multiset() == ls.to_multiset(),
        links_sorted(ls).len() == ls.len(),
    decreases ls.len(),
{
    broadcast use group_to_multiset_ensures;

    if ls.len() > 0 {
        let d = ls.drop_last();
        lemma_sorted_items(d);
        lemma_inserted_items(links_sorted(d), ls.last());
        assert(ls =~= d.push(ls.last()));
    } else {
        assert(links_sorted(ls) =~= ls);
    }
}

proof fn lemma_inserted_order(ls: Seq<Link>, l: Link, n: int)
    requires
        links_in_a_row(ls, n),
        0 <= l.start < l.end <= n,
        forall|i: int|
            0 <= i < ls.len() ==> (#[trigger] ls[i]).end <= l.start || l.end <= ls[i].start,
    ensures
        links_in_a_row(link_inserted(ls, l), n),
        forall|x: Link|
            link_inserted(ls, l).contains(x) ==> x == l || #[trigger] ls.contains(x),
    decreases ls.len(),
{
    if ls.len() == 0 || ls.last().start <= l.start {
        let r = ls.push(l);
        if ls.len() > 0 {
            let k = ls.len() - 1;
            assert(ls[k].end <= l.start || l.end <= ls[k].start);
        }
        assert forall|i: int, j: int| 0 <= i < j < r.len() implies (#[trigger] r[i]).end <= (
        #[trigger] r[j]).start by {
            if j == ls.len() && i < ls.len() - 1 {
                assert(ls[i].end <= ls[ls.len() - 1].start);
            }
        }
    } else {
        let d = ls.drop_last();
        let last = ls[ls.len() - 1];
        lemma_inserted_order(d, l, n);
        let r = link_inserted(d, l);
        assert forall|i: int| 0 <= i < r.len() implies (#[trigger] r[i]).end <= last.start by {
            assert(r.contains(r[i]));
            if r[i] != l {
                assert(d.contains(r[i]));
                let k = choose|k: int| 0 <= k < d.len() && d[k] == r[i];
                assert(ls[k].end <= last.start);
            } else {
                assert(last.end <= l.start || l.end <= last.start);
            }
        }
        let all = r.push(last);
        assert forall|i: int, j: int| 0 <= i < j < all.len() implies (#[trigger] all[i]).end <= (
        #[trigger] all[j]).start by {}
        assert forall|x: Link| all.contains(x) implies x == l || #[trigger] ls.contains(x) by {
            let k = choose|k: int| 0 <= k < all.len() && all[k] == x;
            if k < r.len() {
                assert(r.contains(x));
                if x != l {
                    assert(d.contains(x));
                    let i = choose|i: int| 0 <= i < d.len() && d[i] == x;
                    assert(ls[i] == x);
                }
            } else {
                assert(ls[ls.len() - 1] == x);
            }
        }
    }
}

proof fn lemma_sorted_order(ls: Seq<Link>, n: int)
    requires
        links_apart(ls, n),
    ensures
        links_in_a_row(links_sorted(ls), n),
        forall|x: Link| links_sorted(ls).contains(x) ==> #[trigger] ls.contains(x),
    decreases ls.len(),
{
    if ls.len() > 0 {
        let d = ls.drop_last();
        let l = ls[ls.len() - 1];
        let s = links_sorted(d);
        lemma_sorted_order(d, n);
        assert forall|i: int| 0 <= i < s.len() implies (#[trigger] s[i]).end <= l.start || l.end
            <= s[i].start by {
            assert(s.contains(s[i]));
            assert(d.contains(s[i]));
            let k = choose|k: int| 0 <= k < d.len() && d[k] == s[i];
            assert(ls[k] == s[i]);
        }
        lemma_inserted_order(s, l, n);
        assert forall|x: Link| links_sorted(ls).contains(x) implies #[trigger] ls.contains(x) by {
            if x != l {
                assert(s.contains(x));
                assert(d.contains(x));
                let k = choose|k: int| 0 <= k < d.len() && d[k] == x;
                assert(ls[k] == x);
            } else {
                assert(ls[ls.len() - 1] == x);
            }
        }
    }
}

/// The text from `cursor` on with an anchor for each link, one behind the other: the text
/// between them escaped, the address escaped as an attribute, the text of the link
/// escaped inside.
pub open spec fn anchored(b: Seq<u8>, ls: Seq<Link>, cursor: int) -> Seq<u8>
    decreases ls.len(),
{
    if ls.len() == 0 {
        escaped(b.subrange(cursor, b.len() as int), false)
    } else {
        let l = ls[0];
        escaped(b.subrange(cursor, l.start), false) + anchor(l.url, b.subrange(l.start, l.end))
            + anchored(b, ls.drop_first(), l.end)
    }
}

proof fn lemma_anchored(b: Seq<u8>, ls: Seq<Link>, k: int)
    requires
        links_in_a_row(ls, b.len() as int),
        0 <= k <= ls.len(),
    ensures
        ({
            let (html, cursor) = linked_upto(b, ls, k);
            let (whole, end) = linked_upto(b, ls, ls.len() as int);
            &&& cursor == if k == 0 {
                0
            } else {
                ls[k - 1].end
            }
            &&& whole + escaped(b.subrange(end, b.len() as int), false) == html + anchored(
                b,
                ls.subrange(k, ls.len() as int),
                cursor,
            )
        }),
    decreases ls.len() - k,
{
    let (html, cursor) = linked_upto(b, ls, k);
    let rest = ls.subrange(k, ls.len() as int);
    if k < ls.len() {
        let l = ls[k];
        assert(rest[0] == l);
        lemma_anchored(b, ls, k + 1);
        let front = escaped(b.subrange(cursor, l.start), false);
        let own = anchor(l.url, b.subrange(l.start, l.end));
        if k > 0 {
            assert(ls[k - 1].end <= l.start);
            assert(0 <= ls[k - 1].start);
        }
        if cursor == l.start {
            assert(front =~= Seq::empty());
        }
        assert(linked_piece(b, l, cursor) =~= front + own);
        assert(rest.drop_first() =~= ls.subrange(k + 1, ls.len() as int));
        let tail = anchored(b, rest.drop_first(), l.end);
        assert(html + (front + own) + tail =~= html + (front + own + tail));
    } else {
        assert(rest =~= Seq::empty());
    }
}

proof fn lemma_shown_anchored(b: Seq<u8>, ls: Seq<Link>, cursor: int)
    requires
        links_in_a_row(ls, b.len() as int),
        0 <= cursor <= b.len(),
        ls.len() > 0 ==> cursor <= ls[0].start,
    ensures
        text_shown(anchored(b, ls, cursor)) == b.subrange(cursor, b.len() as int),
    decreases ls.len(),
{
    let n = b.len() as int;
    let none = Seq::<u8>::empty();
    if ls.len() == 0 {
        let t = b.subrange(cursor, n);
        lemma_shown_text(t, none);
        assert(escaped(t, false) + none =~= escaped(t, false));
        assert(t + text_shown(none) =~= t);
    } else {
        let l = ls[0];
        let rest = ls.drop_first();
        let tail = anchored(b, rest, l.end);
        let front = b.subrange(cursor, l.start);
        let own = b.subrange(l.start, l.end);
        assert forall|i: int, j: int| 0 <= i < j < rest.len() implies (#[trigger] rest[i]).end
            <= (#[trigger] rest[j]).start by {
            assert(ls[i + 1].end <= ls[j + 1].start);
        }
        assert forall|i: int| 0 <= i < rest.len() implies 0 <= (#[trigger] rest[i]).start
            < rest[i].end <= n by {
            assert(rest[i] == ls[i + 1]);
        }
        if rest.len() > 0 {
            assert(ls[0].end <= ls[1].start);
        }
        lemma_shown_anchored(b, rest, l.end);
        lemma_shown_anchor(l.url, own, tail);
        lemma_shown_text(front, anchor(l.url, own) + tail);
        assert(anchored(b, ls, cursor) =~= escaped(front, false) + (anchor(l.url, own) + tail));
        assert(front + (own + b.subrange(l.end, n)) =~= b.subrange(cursor, n));
    }
}

/// The HTML of a text whose links lie apart holds one anchor for each link, in the order
/// in which they start, with the text between them; and what it shows is the text.
pub proof fn html_shows_the_text_and_an_anchor_for_each_link(b: Seq<u8>, links: Seq<Link>)
    requires
        links_apart(links, b.len() as int),
    ensures
        links_in_a_row(links_sorted(links), b.len() as int),
        links_sorted(links).to_multiset() == links.to_multiset(),
        linked_html(b, links) == anchored(b, links_sorted(links), 0),
        text_shown(linked_html(b, links)) == b,
{
    let ls = links_sorted(links);
    let n = b.len() as int;
    lemma_sorted_items(links);
    lemma_sorted_order(links, n);
    lemma_anchored(b, ls, 0);
    lemma_anchored(b, ls, ls.len() as int);
    lemma_shown_anchored(b, ls, 0);
    let (whole, end) = linked_upto(b, ls, ls.len() as int);
    assert(ls.subrange(0, ls.len() as int) =~= ls);
    assert(Seq::<u8>::empty() + anchored(b, ls, 0) =~= anchored(b, ls, 0));
    if ls.len() > 0 {
        assert(ls[ls.len() - 1].end <= n);
    }
    if end >= n {
        assert(escaped(b.subrange(end, n), false) =~= Seq::empty());
        assert(whole + Seq::<u8>::empty() =~= whole);
    }
    assert(b.subrange(0, n) =~= b);
}

proof fn lemma_same_row(x: Seq<Link>, y: Seq<Link>, n: int, k: int)
    requires
        links_in_a_row(x, n),
        links_in_a_row(y, n),
        x.len() == y.len(),
        forall|l: Link| #[trigger] x.contains(l) <==> y.contains(l),
        0 <= k <= x.len(),
    ensures
        forall|i: int| 0 <= i < k ==> x[i] == y[i],
    decreases k,
{
    if k > 0 {
        let i = k - 1;
        lemma_same_row(x, y, n, i);
        assert(x.contains(x[i]));
        assert(x.contains(y[i])) by {
            assert(y.contains(y[i]));
        }
        let p = choose|p: int| 0 <= p < y.len() && y[p] == x[i];
        let q = choose|q: int| 0 <= q < x.len() && x[q] == y[i];
        if p < i {
            assert(x[p] == y[p]);
            assert(x[p].end <= x[i].start);
        }
        if q < i {
            assert(x[q] == y[q]);
            assert(y[q].end <= y[i].start);
        }
        if p > i && q > i {
            assert(y[i].end <= y[p].start);
            assert(x[i].end <= x[q].start);
        }
    }
}

proof fn lemma_same_apart(links: Seq<Link>, other: Seq<Link>, n: int)
    requires
        links_apart(links, n),
        links.to_multiset() == other.to_multiset(),
    ensures
        links_apart(other, n),
{
    broadcast use group_to_multiset_ensures;

    assert forall|l: Link| #[trigger] other.contains(l) implies links.contains(l) by {
        assert(other.to_multiset().count(l) > 0);
    }
    assert(links.no_duplicates());
    links.lemma_multiset_has_no_duplicates();
    other.lemma_multiset_has_no_duplicates_conv();
    assert forall|i: int| 0 <= i < other.len() implies 0 <= (#[trigger] other[i]).start
        < other[i].end <= n by {
        assert(other.contains(other[i]));
        let p = choose|p: int| 0 <= p < links.len() && links[p] == other[i];
        assert(0 <= links[p].start < links[p].end <= n);
    }
    assert forall|i: int, j: int|
        0 <= i < other.len() && 0 <= j < other.len() && i != j implies (#[trigger] other[i]).end
        <= (#[trigger] other[j]).start || other[j].end <= other[i].start by {
        assert(other.contains(other[i]));
        assert(other.contains(other[j]));
        let p = choose|p: int| 0 <= p < links.len() && links[p] == other[i];
        let q = choose|q: int| 0 <= q < links.len() && links[q] == other[j];
        assert(p != q);
        assert(links[p].end <= links[q].start || links[q].end <= links[p].start);
    }
}

/// The order in which links that lie apart are given makes no difference.
pub proof fn the_order_of_links_makes_no_difference(
    b: Seq<u8>,
    links: Seq<Link>,
    other: Seq<Link>,
)
    requires
        links_apart(links, b.len() as int),
        links.to_multiset() == other.to_multiset(),
    ensures
        linked_html(b, links) == linked_html(b, other),
{
    broadcast use group_to_multiset_ensures;

    let n = b.len() as int;
    let (x, y) = (links_sorted(links), links_sorted(other));
    assert(links.len() == links.to_multiset().len());
    assert(other.len() == other.to_multiset().len());
    lemma_same_apart(links, other, n);
    lemma_sorted_items(links);
    lemma_sorted_items(other);
    lemma_sorted_order(links, n);
    lemma_sorted_order(other, n);
    assert forall|l: Link| #[trigger] x.contains(l) <==> y.contains(l) by {
        assert(x.contains(l) <==> x.to_multiset().count(l) > 0);
        assert(y.contains(l) <==> y.to_multiset().count(l) > 0);
    }
    lemma_same_row(x, y, n, x.len() as int);
    assert(x =~= y);
}

} // verus!
