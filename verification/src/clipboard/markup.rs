//! HTML for what is copied: text with links, and nested lists.
use vstd::prelude::*;
use vstd::utf8::*;

use crate::text;
use crate::cell::common::Link;
use crate::clipboard::{BulletPayload, ClipBullet, SerLink};
use crate::text::{
    boundary, lemma_after_ascii, lemma_ascii_is_boundary, lemma_boundary_ends, lemma_utf8_valid,
    utf8, views,
};

verus! {

// ---------------------------------------------------------------------------
// Escaping
// ---------------------------------------------------------------------------

/// What a byte is written as in HTML: in a text, or (`quoted`) in an attribute.
pub open spec fn entity(x: u8, quoted: bool) -> Seq<u8> {
    if x == 38 {
        seq![38u8, 97, 109, 112, 59]
    } else if x == 60 {
        seq![38u8, 108, 116, 59]
    } else if x == 62 {
        seq![38u8, 103, 116, 59]
    } else if x == 34 && quoted {
        seq![38u8, 113, 117, 111, 116, 59]
    } else {
        seq![x]
    }
}

/// The first `n` bytes of a text, written in HTML.
pub open spec fn escaped_upto(b: Seq<u8>, quoted: bool, n: int) -> Seq<u8>
    decreases n,
{
    if n <= 0 {
        Seq::empty()
    } else {
        escaped_upto(b, quoted, n - 1) + entity(b[n - 1], quoted)
    }
}

/// A text written in HTML.
pub open spec fn escaped(b: Seq<u8>, quoted: bool) -> Seq<u8> {
    escaped_upto(b, quoted, b.len() as int)
}

/// A text that is written in HTML holds no markup: no angle bracket, and in an
/// attribute no quotation mark either.
pub proof fn escaped_text_is_no_markup(b: Seq<u8>, quoted: bool)
    ensures
        forall|i: int|
            0 <= i < escaped(b, quoted).len() ==> {
                let x = #[trigger] escaped(b, quoted)[i];
                x != 60 && x != 62 && (quoted ==> x != 34)
            },
{
    lemma_no_markup(b, quoted, b.len() as int);
}

proof fn lemma_no_markup(b: Seq<u8>, quoted: bool, n: int)
    ensures
        forall|i: int|
            0 <= i < escaped_upto(b, quoted, n).len() ==> {
                let x = #[trigger] escaped_upto(b, quoted, n)[i];
                x != 60 && x != 62 && (quoted ==> x != 34)
            },
    decreases n,
{
    if n > 0 {
        lemma_no_markup(b, quoted, n - 1);
        let before = escaped_upto(b, quoted, n - 1);
        let e = entity(b[n - 1], quoted);
        assert forall|i: int| 0 <= i < escaped_upto(b, quoted, n).len() implies {
            let x = #[trigger] escaped_upto(b, quoted, n)[i];
            x != 60 && x != 62 && (quoted ==> x != 34)
        } by {
            if i < before.len() {
                assert(escaped_upto(b, quoted, n)[i] == before[i]);
            } else {
                assert(escaped_upto(b, quoted, n)[i] == e[i - before.len()]);
            }
        }
    }
}

proof fn lemma_escaped_plain(b: Seq<u8>, quoted: bool, lo: int, hi: int)
    requires
        0 <= lo <= hi <= b.len(),
        forall|i: int| lo <= i < hi ==> entity(#[trigger] b[i], quoted) == seq![b[i]],
    ensures
        escaped_upto(b, quoted, hi) == escaped_upto(b, quoted, lo) + b.subrange(lo, hi),
    decreases hi - lo,
{
    if lo < hi {
        lemma_escaped_plain(b, quoted, lo, hi - 1);
        assert(entity(b[hi - 1], quoted) == seq![b[hi - 1]]);
        assert(b.subrange(lo, hi) =~= b.subrange(lo, hi - 1) + seq![b[hi - 1]]);
        assert(escaped_upto(b, quoted, hi) =~= escaped_upto(b, quoted, lo) + b.subrange(lo, hi));
    } else {
        assert(escaped_upto(b, quoted, hi) =~= escaped_upto(b, quoted, lo) + b.subrange(lo, hi));
    }
}

proof fn lemma_entities()
    ensures
        utf8("&amp;"@) == seq![38u8, 97, 109, 112, 59],
        utf8("&lt;"@) == seq![38u8, 108, 116, 59],
        utf8("&gt;"@) == seq![38u8, 103, 116, 59],
        utf8("&quot;"@) == seq![38u8, 113, 117, 111, 116, 59],
{
    reveal_strlit("&amp;");
    reveal_strlit("&lt;");
    reveal_strlit("&gt;");
    reveal_strlit("&quot;");
    is_ascii_chars_encode_utf8("&amp;"@);
    is_ascii_chars_encode_utf8("&lt;"@);
    is_ascii_chars_encode_utf8("&gt;"@);
    is_ascii_chars_encode_utf8("&quot;"@);
    assert(utf8("&amp;"@) =~= seq![38u8, 97, 109, 112, 59]);
    assert(utf8("&lt;"@) =~= seq![38u8, 108, 116, 59]);
    assert(utf8("&gt;"@) =~= seq![38u8, 103, 116, 59]);
    assert(utf8("&quot;"@) =~= seq![38u8, 113, 117, 111, 116, 59]);
}

fn entity_of(x: u8, quoted: bool) -> (e: Option<&'static str>)
    ensures
        match e {
            Some(e) => utf8(e@) == entity(x, quoted) && x < 128,
            None => entity(x, quoted) == seq![x],
        },
{
    proof {
        lemma_entities();
    }
    if x == 38 {
        Some("&amp;")
    } else if x == 60 {
        Some("&lt;")
    } else if x == 62 {
        Some("&gt;")
    } else if x == 34 && quoted {
        Some("&quot;")
    } else {
        None
    }
}

fn escape(s: &str, quoted: bool) -> (r: String)
    ensures
        utf8(r@) == escaped(utf8(s@), quoted),
{
    let ghost b = utf8(s@);
    let n: usize = text::len(s);
    let mut out = String::new();
    assert(utf8(out@) =~= Seq::<u8>::empty());
    let mut run: usize = 0;
    let mut i: usize = 0;
    proof {
        lemma_utf8_valid(s@);
        lemma_boundary_ends(b);
        assert(escaped_upto(b, quoted, 0) =~= Seq::empty());
    }
    while i < n
        invariant
            b == utf8(s@),
            valid_utf8(b),
            n == b.len(),
            run <= i <= n,
            boundary(b, run as int),
            boundary(b, n as int),
            utf8(out@) == escaped_upto(b, quoted, run as int),
            forall|k: int| run <= k < i ==> entity(#[trigger] b[k], quoted) == seq![b[k]],
        decreases n - i,
    {
        let x: u8 = text::byte_at(s, i);
        if let Some(e) = entity_of(x, quoted) {
            proof {
                lemma_ascii_is_boundary(b, i as int);
                lemma_after_ascii(b, i as int);
                lemma_escaped_plain(b, quoted, run as int, i as int);
            }
            text::push_str(&mut out, text::slice(s, run, i));
            text::push_str(&mut out, e);
            assert(utf8(out@) =~= escaped_upto(b, quoted, i + 1));
            run = i + 1;
        }
        i += 1;
    }
    proof {
        lemma_escaped_plain(b, quoted, run as int, n as int);
    }
    text::push_str(&mut out, text::slice(s, run, n));
    out
}

/// A text as it is written in HTML.
pub fn escape_text(s: &str) -> (r: String)
    ensures
        utf8(r@) == escaped(utf8(s@), false),
{
    escape(s, false)
}

/// A text as it is written in an attribute.
pub fn escape_attr(s: &str) -> (r: String)
    ensures
        utf8(r@) == escaped(utf8(s@), true),
{
    escape(s, true)
}

// ---------------------------------------------------------------------------
// Text with links
// ---------------------------------------------------------------------------

/// `l` put into links that go by their starts, behind those that start where it
/// does.
pub open spec fn link_inserted(ls: Seq<Link>, l: Link) -> Seq<Link>
    decreases ls.len(),
{
    if ls.len() == 0 || ls.last().start <= l.start {
        ls.push(l)
    } else {
        link_inserted(ls.drop_last(), l).push(ls.last())
    }
}

/// The links in the order of their starts.
pub open spec fn links_sorted(ls: Seq<Link>) -> Seq<Link>
    decreases ls.len(),
{
    if ls.len() == 0 {
        Seq::empty()
    } else {
        link_inserted(links_sorted(ls.drop_last()), ls.last())
    }
}

/// The smaller of two.
pub open spec fn at_most(i: int, n: int) -> int {
    if i < n {
        i
    } else {
        n
    }
}

/// An anchor.
pub open spec fn anchor(url: Seq<u8>, text: Seq<u8>) -> Seq<u8> {
    utf8("<a href=\""@) + escaped(url, true) + utf8("\">"@) + escaped(text, false) + utf8("</a>"@)
}

/// A link with the text in front of it, from `cursor` on.
pub open spec fn linked_piece(b: Seq<u8>, l: Link, cursor: int) -> Seq<u8> {
    let n = b.len() as int;
    let (lo, hi) = (at_most(l.start, n), at_most(l.end, n));
    let front = if cursor < l.start <= n {
        escaped(b.subrange(cursor, l.start), false)
    } else {
        Seq::empty()
    };
    let own = if lo < hi {
        anchor(l.url, b.subrange(lo, hi))
    } else {
        Seq::empty()
    };
    front + own
}

/// The text up to the first `k` links, and where it goes on.
pub open spec fn linked_upto(b: Seq<u8>, ls: Seq<Link>, k: int) -> (Seq<u8>, int)
    decreases k,
{
    if k <= 0 {
        (Seq::empty(), 0)
    } else {
        let (html, cursor) = linked_upto(b, ls, k - 1);
        (html + linked_piece(b, ls[k - 1], cursor), at_most(ls[k - 1].end, b.len() as int))
    }
}

/// A text with its links, as HTML.
pub open spec fn linked_html(b: Seq<u8>, links: Seq<Link>) -> Seq<u8> {
    let ls = links_sorted(links);
    let (html, cursor) = linked_upto(b, ls, ls.len() as int);
    if cursor < b.len() {
        html + escaped(b.subrange(cursor, b.len() as int), false)
    } else {
        html
    }
}

/// What is cut out of the text for a link, behind `cursor`, is cut between characters.
pub open spec fn piece_placed(b: Seq<u8>, l: Link, cursor: int) -> bool {
    let n = b.len() as int;
    let (lo, hi) = (at_most(l.start, n), at_most(l.end, n));
    &&& cursor < l.start <= n ==> boundary(b, cursor) && boundary(b, l.start)
    &&& lo < hi ==> boundary(b, lo) && boundary(b, hi)
}

/// Wherever the text is cut to put its links in, it is cut between characters.
#[verifier::opaque]
pub open spec fn links_placed(b: Seq<u8>, links: Seq<Link>) -> bool {
    let ls = links_sorted(links);
    let end = linked_upto(b, ls, ls.len() as int).1;
    &&& forall|k: int|
        0 <= k < ls.len() ==> piece_placed(b, #[trigger] ls[k], linked_upto(b, ls, k).1)
    &&& end < b.len() ==> boundary(b, end)
}

/// Where the link starts and ends, there is a place between characters, or the text is at
/// its end.
pub open spec fn link_between(b: Seq<u8>, l: Link) -> bool {
    &&& 0 <= l.start
    &&& 0 <= l.end
    &&& l.start <= b.len() ==> boundary(b, l.start)
    &&& l.end <= b.len() ==> boundary(b, l.end)
}

spec fn links_between(b: Seq<u8>, ls: Seq<Link>) -> bool {
    forall|i: int| 0 <= i < ls.len() ==> link_between(b, #[trigger] ls[i])
}

proof fn lemma_inserted_between(b: Seq<u8>, ls: Seq<Link>, l: Link)
    requires
        links_between(b, ls),
        link_between(b, l),
    ensures
        links_between(b, link_inserted(ls, l)),
    decreases ls.len(),
{
    if !(ls.len() == 0 || ls.last().start <= l.start) {
        lemma_inserted_between(b, ls.drop_last(), l);
        assert(link_between(b, ls[ls.len() - 1]));
    }
}

proof fn lemma_sorted_between(b: Seq<u8>, ls: Seq<Link>)
    requires
        links_between(b, ls),
    ensures
        links_between(b, links_sorted(ls)),
    decreases ls.len(),
{
    if ls.len() > 0 {
        lemma_sorted_between(b, ls.drop_last());
        assert(link_between(b, ls[ls.len() - 1]));
        lemma_inserted_between(b, links_sorted(ls.drop_last()), ls.last());
    }
}

/// Links that start and end between characters can be put into their text.
pub proof fn links_between_characters_can_be_put_in(b: Seq<u8>, links: Seq<Link>)
    requires
        valid_utf8(b),
        forall|i: int| 0 <= i < links.len() ==> link_between(b, #[trigger] links[i]),
    ensures
        links_placed(b, links),
{
    reveal(links_placed);
    let ls = links_sorted(links);
    lemma_boundary_ends(b);
    lemma_sorted_between(b, links);
    assert forall|k: int| 0 <= k <= ls.len() implies boundary(b, #[trigger] linked_upto(b, ls, k).1) by {
        if k > 0 {
            assert(link_between(b, ls[k - 1]));
        }
    }
    assert forall|k: int| 0 <= k < ls.len() implies piece_placed(
        b,
        #[trigger] ls[k],
        linked_upto(b, ls, k).1,
    ) by {
        assert(link_between(b, ls[k]));
        assert(boundary(b, linked_upto(b, ls, k).1));
    }
    assert(boundary(b, linked_upto(b, ls, ls.len() as int).1));
}

proof fn lemma_inserted_at(ls: Seq<Link>, l: Link, k: int)
    requires
        0 <= k <= ls.len(),
        forall|i: int| k <= i < ls.len() ==> (#[trigger] ls[i]).start > l.start,
        k > 0 ==> ls[k - 1].start <= l.start,
    ensures
        link_inserted(ls, l) == ls.insert(k, l),
    decreases ls.len(),
{
    if k == ls.len() {
        assert(ls.insert(k, l) =~= ls.push(l));
    } else {
        lemma_inserted_at(ls.drop_last(), l, k);
        assert(ls.insert(k, l) =~= ls.drop_last().insert(k, l).push(ls.last()));
    }
}

fn sort_links(links: &Vec<SerLink>) -> (order: Vec<usize>)
    ensures
        order@.len() == links@.len(),
        forall|i: int| 0 <= i < order@.len() ==> #[trigger] order@[i] < links@.len(),
        Seq::new(order@.len(), |i: int| links@[order@[i] as int]@) == links_sorted(views(links@)),
{
    let ghost ls = views(links@);
    let mut order: Vec<usize> = Vec::new();
    let mut i: usize = 0;
    assert(Seq::new(order@.len(), |k: int| ls[order@[k] as int]) =~= links_sorted(
        ls.subrange(0, 0),
    ));
    while i < links.len()
        invariant
            i <= links.len(),
            ls == views(links@),
            order@.len() == i,
            forall|k: int| 0 <= k < order@.len() ==> #[trigger] order@[k] < i,
            Seq::new(order@.len(), |k: int| ls[order@[k] as int]) == links_sorted(
                ls.subrange(0, i as int),
            ),
        decreases links.len() - i,
    {
        let ghost sorted = Seq::new(order@.len(), |k: int| ls[order@[k] as int]);
        let mut at: usize = order.len();
        while at > 0 && links[order[at - 1]].start > links[i].start
            invariant
                i < links.len(),
                ls == views(links@),
                at <= order@.len(),
                order@.len() == i,
                sorted == Seq::new(order@.len(), |k: int| ls[order@[k] as int]),
                forall|k: int| 0 <= k < order@.len() ==> #[trigger] order@[k] < i,
                forall|k: int| at <= k < sorted.len() ==> (#[trigger] sorted[k]).start > ls[i as int].start,
            decreases at,
        {
            at -= 1;
        }
        let ghost prev = order@;
        order.insert(at, i);
        proof {
            lemma_inserted_at(sorted, ls[i as int], at as int);
            assert(ls.subrange(0, i + 1).drop_last() =~= ls.subrange(0, i as int));
            assert(Seq::new(order@.len(), |k: int| ls[order@[k] as int]) =~= sorted.insert(
                at as int,
                ls[i as int],
            ));
        }
        i += 1;
    }
    assert(ls.subrange(0, i as int) =~= ls);
    assert(Seq::new(order@.len(), |i: int| links@[order@[i] as int]@) =~= Seq::new(
        order@.len(),
        |k: int| ls[order@[k] as int],
    ));
    order
}

fn push_anchor(out: &mut String, url: &str, s: &str)
    ensures
        utf8(final(out)@) == utf8(old(out)@) + anchor(utf8(url@), utf8(s@)),
{
    let url = escape_attr(url);
    let own = escape_text(s);
    text::push_str(out, "<a href=\"");
    text::push_str(out, url.as_str());
    text::push_str(out, "\">");
    text::push_str(out, own.as_str());
    text::push_str(out, "</a>");
}

/// A text with its links, as HTML.
pub fn render_text_with_links(s: &str, links: &Vec<SerLink>) -> (html: String)
    requires
        links_placed(utf8(s@), views(links@)),
    ensures
        utf8(html@) == linked_html(utf8(s@), views(links@)),
{
    let ghost b = utf8(s@);
    let ghost ls = links_sorted(views(links@));
    let n: usize = text::len(s);
    let order = sort_links(links);
    let mut out = String::new();
    assert(utf8(out@) =~= Seq::<u8>::empty());
    let mut cursor: usize = 0;
    let mut k: usize = 0;
    proof {
        lemma_utf8_valid(s@);
        lemma_boundary_ends(b);
        reveal(links_placed);
    }
    while k < order.len()
        invariant
            b == utf8(s@),
            n == b.len(),
            boundary(b, n as int),
            ls == links_sorted(views(links@)),
            forall|i: int|
                0 <= i < ls.len() ==> piece_placed(b, #[trigger] ls[i], linked_upto(b, ls, i).1),
            order@.len() == ls.len(),
            forall|i: int| 0 <= i < order@.len() ==> #[trigger] order@[i] < links@.len(),
            ls == Seq::new(order@.len(), |i: int| links@[order@[i] as int]@),
            k <= order.len(),
            cursor <= n,
            (utf8(out@), cursor as int) == linked_upto(b, ls, k as int),
        decreases order.len() - k,
    {
        let l = &links[order[k]];
        let ghost m = ls[k as int];
        assert(m == l@);
        assert(piece_placed(b, m, cursor as int));
        let ghost before = utf8(out@);
        if l.start > cursor && l.start <= n {
            let front = escape_text(text::slice(s, cursor, l.start));
            text::push_str(&mut out, front.as_str());
        }
        let lo: usize = if l.start < n {
            l.start
        } else {
            n
        };
        let hi: usize = if l.end < n {
            l.end
        } else {
            n
        };
        if lo < hi {
            push_anchor(&mut out, l.url.as_str(), text::slice(s, lo, hi));
        }
        assert(utf8(out@) =~= before + linked_piece(b, m, cursor as int));
        cursor = hi;
        k += 1;
    }
    if cursor < n {
        let tail = escape_text(text::slice(s, cursor, n));
        text::push_str(&mut out, tail.as_str());
    }
    out
}

// ---------------------------------------------------------------------------
// Nested lists
// ---------------------------------------------------------------------------

/// A piece of the HTML of nested lists.
#[verifier::ext_equal]
pub enum Markup {
    OpenList,
    CloseList,
    OpenItem,
    CloseItem,
    Body(Seq<u8>),
}

/// The HTML of a piece.
pub open spec fn piece_html(m: Markup) -> Seq<u8> {
    match m {
        Markup::OpenList => utf8("<ul>"@),
        Markup::CloseList => utf8("</ul>"@),
        Markup::OpenItem => utf8("<li>"@),
        Markup::CloseItem => utf8("</li>"@),
        Markup::Body(html) => html,
    }
}

/// The HTML of the pieces.
pub open spec fn markup_html(ms: Seq<Markup>) -> Seq<u8>
    decreases ms.len(),
{
    if ms.len() == 0 {
        Seq::empty()
    } else {
        markup_html(ms.drop_last()) + piece_html(ms.last())
    }
}

/// `n` lists opened.
pub open spec fn opens(n: int) -> Seq<Markup>
    decreases n,
{
    if n <= 0 {
        Seq::empty()
    } else {
        opens(n - 1).push(Markup::OpenList)
    }
}

/// `n` lists closed, each with the item that is open in it.
pub open spec fn closes(n: int) -> Seq<Markup>
    decreases n,
{
    if n <= 0 {
        Seq::empty()
    } else {
        closes(n - 1).push(Markup::CloseItem).push(Markup::CloseList)
    }
}

/// What stands between a bullet and the one in front of it: deeper, new lists in
/// the open item; else the lists in between closed, and the item of that level.
pub open spec fn turn(prev: Option<u32>, depth: u32) -> Seq<Markup> {
    match prev {
        None => opens(depth + 1),
        Some(a) => if depth > a {
            opens(depth - a)
        } else {
            closes(a - depth).push(Markup::CloseItem)
        },
    }
}

/// The first `n` bullets as nested lists; the last item is still open.
pub open spec fn lists_upto(bs: Seq<ClipBullet>, n: int) -> Seq<Markup>
    decreases n,
{
    if n <= 0 {
        Seq::empty()
    } else {
        let prev = if n == 1 {
            None
        } else {
            Some(bs[n - 2].depth)
        };
        let b = bs[n - 1];
        lists_upto(bs, n - 1) + turn(prev, b.depth) + seq![
            Markup::OpenItem,
            Markup::Body(linked_html(b.text, b.links)),
        ]
    }
}

/// Bullets as nested lists.
pub open spec fn lists_of(bs: Seq<ClipBullet>) -> Seq<Markup> {
    if bs.len() == 0 {
        Seq::empty()
    } else {
        lists_upto(bs, bs.len() as int) + closes(bs.last().depth + 1)
    }
}

proof fn lemma_markup_push(ms: Seq<Markup>, m: Markup)
    ensures
        markup_html(ms.push(m)) == markup_html(ms) + piece_html(m),
{
    assert(ms.push(m).drop_last() =~= ms);
}

/// Bullets as nested lists.
pub fn render_outline(bullets: &Vec<BulletPayload>) -> (html: String)
    requires
        bullets_placed(views(bullets@)),
    ensures
        utf8(html@) == markup_html(lists_of(views(bullets@))),
{
    let ghost bs = views(bullets@);
    let mut out = String::new();
    assert(utf8(out@) =~= Seq::<u8>::empty());
    let ghost mut ms: Seq<Markup> = Seq::empty();
    let mut open: u32 = 0;
    let mut i: usize = 0;
    while i < bullets.len()
        invariant
            i <= bullets.len(),
            bs == views(bullets@),
            bullets_placed(bs),
            ms == lists_upto(bs, i as int),
            utf8(out@) == markup_html(ms),
            i == 0 ==> open == 0,
            i > 0 ==> open == bs[i - 1].depth + 1,
        decreases bullets.len() - i,
    {
        let b = &bullets[i];
        let ghost m = bs[i as int];
        assert(m == b@);
        let target: u32 = b.depth + 1;
        let ghost start = ms;
        let ghost was = open as int;
        let closing: bool = open >= target;
        while open > target
            invariant
                open <= was,
                closing ==> target <= open,
                !closing ==> open == was && open < target,
                ms == start + closes(was - open),
                utf8(out@) == markup_html(ms),
            decreases open,
        {
            text::push_str(&mut out, "</li>");
            text::push_str(&mut out, "</ul>");
            proof {
                lemma_markup_push(ms, Markup::CloseItem);
                lemma_markup_push(ms.push(Markup::CloseItem), Markup::CloseList);
                ms = ms.push(Markup::CloseItem).push(Markup::CloseList);
                assert(ms =~= start + closes(was - open + 1));
                assert(utf8(out@) =~= markup_html(ms));
            }
            open -= 1;
        }
        let ghost deeper = ms;
        let ghost level = open as int;
        while open < target
            invariant
                level <= open <= target,
                ms == deeper + opens(open - level),
                utf8(out@) == markup_html(ms),
            decreases target - open,
        {
            text::push_str(&mut out, "<ul>");
            proof {
                lemma_markup_push(ms, Markup::OpenList);
                ms = ms.push(Markup::OpenList);
                assert(ms =~= deeper + opens(open - level + 1));
            }
            open += 1;
        }
        if closing {
            text::push_str(&mut out, "</li>");
            proof {
                lemma_markup_push(ms, Markup::CloseItem);
                ms = ms.push(Markup::CloseItem);
            }
        }
        proof {
            let prev = if i == 0 {
                None
            } else {
                Some(bs[i - 1].depth)
            };
            assert(ms =~= start + turn(prev, m.depth));
        }
        text::push_str(&mut out, "<li>");
        assert(links_placed(m.text, m.links));
        let own = render_text_with_links(b.text.as_str(), &b.links);
        text::push_str(&mut out, own.as_str());
        proof {
            let body = Markup::Body(linked_html(m.text, m.links));
            lemma_markup_push(ms, Markup::OpenItem);
            lemma_markup_push(ms.push(Markup::OpenItem), body);
            ms = ms.push(Markup::OpenItem).push(body);
            assert(ms =~= lists_upto(bs, i + 1));
            assert(utf8(out@) =~= markup_html(ms));
        }
        i += 1;
    }
    let ghost start = ms;
    let ghost was = open as int;
    while open > 0
        invariant
            open <= was,
            ms == start + closes(was - open),
            utf8(out@) == markup_html(ms),
        decreases open,
    {
        text::push_str(&mut out, "</li>");
        text::push_str(&mut out, "</ul>");
        proof {
            lemma_markup_push(ms, Markup::CloseItem);
            lemma_markup_push(ms.push(Markup::CloseItem), Markup::CloseList);
            ms = ms.push(Markup::CloseItem).push(Markup::CloseList);
            assert(ms =~= start + closes(was - open + 1));
            assert(utf8(out@) =~= markup_html(ms));
        }
        open -= 1;
    }
    assert(ms =~= lists_of(bs));
    out
}

/// Every link stands between characters, and no bullet is as deep as can be.
pub open spec fn bullets_placed(bs: Seq<ClipBullet>) -> bool {
    forall|i: int|
        0 <= i < bs.len() ==> links_placed((#[trigger] bs[i]).text, bs[i].links) && bs[i].depth
            < u32::MAX
}

// ---------------------------------------------------------------------------
// Nesting
// ---------------------------------------------------------------------------

/// What is open after a piece: lists (`true`) and items; nothing where the piece
/// cannot stand there.
pub open spec fn nested_step(open: Seq<bool>, m: Markup) -> Option<Seq<bool>> {
    match m {
        Markup::OpenList => if open.len() == 0 || !open.last() {
            Some(open.push(true))
        } else {
            None
        },
        Markup::OpenItem => if open.len() > 0 && open.last() {
            Some(open.push(false))
        } else {
            None
        },
        Markup::CloseList => if open.len() > 0 && open.last() {
            Some(open.drop_last())
        } else {
            None
        },
        Markup::CloseItem => if open.len() > 0 && !open.last() {
            Some(open.drop_last())
        } else {
            None
        },
        Markup::Body(_) => if open.len() > 0 && !open.last() {
            Some(open)
        } else {
            None
        },
    }
}

/// What is open after the pieces.
pub open spec fn nested(open: Seq<bool>, ms: Seq<Markup>) -> Option<Seq<bool>>
    decreases ms.len(),
{
    if ms.len() == 0 {
        Some(open)
    } else {
        match nested(open, ms.drop_last()) {
            Some(o) => nested_step(o, ms.last()),
            None => None,
        }
    }
}

/// The outline starts at the top, and no bullet is more than one level below the
/// one in front of it.
pub open spec fn stepwise(bs: Seq<ClipBullet>) -> bool {
    &&& bs.len() > 0 ==> bs[0].depth == 0
    &&& forall|i: int| 0 < i < bs.len() ==> (#[trigger] bs[i]).depth <= bs[i - 1].depth + 1
}

spec fn open_at(depth: int) -> Seq<bool> {
    Seq::new((2 * (depth + 1)) as nat, |i: int| i % 2 == 0)
}

proof fn lemma_nested_add(open: Seq<bool>, a: Seq<Markup>, b: Seq<Markup>)
    ensures
        nested(open, a + b) == (match nested(open, a) {
            Some(o) => nested(o, b),
            None => None,
        }),
    decreases b.len(),
{
    if b.len() == 0 {
        assert(a + b =~= a);
    } else {
        lemma_nested_add(open, a, b.drop_last());
        assert((a + b).drop_last() =~= a + b.drop_last());
    }
}

proof fn lemma_nested_push(open: Seq<bool>, ms: Seq<Markup>, m: Markup)
    ensures
        nested(open, ms.push(m)) == (match nested(open, ms) {
            Some(o) => nested_step(o, m),
            None => None,
        }),
{
    assert(ms.push(m).drop_last() =~= ms);
}

proof fn lemma_closes(depth: int, n: int)
    requires
        0 <= n <= depth + 1,
    ensures
        nested(open_at(depth), closes(n)) == Some(open_at(depth - n)),
    decreases n,
{
    if n > 0 {
        lemma_closes(depth, n - 1);
        let o = open_at(depth - n + 1);
        lemma_nested_push(open_at(depth), closes(n - 1), Markup::CloseItem);
        lemma_nested_push(
            open_at(depth),
            closes(n - 1).push(Markup::CloseItem),
            Markup::CloseList,
        );
        assert(o.drop_last().drop_last() =~= open_at(depth - n));
    }
}

proof fn lemma_lists_nested(bs: Seq<ClipBullet>, n: int)
    requires
        stepwise(bs),
        0 < n <= bs.len(),
    ensures
        nested(Seq::empty(), lists_upto(bs, n)) == Some(open_at(bs[n - 1].depth as int)),
    decreases n,
{
    let b = bs[n - 1];
    let d = b.depth as int;
    let body = Markup::Body(linked_html(b.text, b.links));
    let tail = seq![Markup::OpenItem, body];
    assert(tail =~= Seq::<Markup>::empty().push(Markup::OpenItem).push(body));
    let none = Seq::<bool>::empty();
    if n == 1 {
        reveal_with_fuel(opens, 2);
        assert(lists_upto(bs, 1) =~= Seq::<Markup>::empty().push(Markup::OpenList).push(
            Markup::OpenItem,
        ).push(body)) by {
            reveal_with_fuel(lists_upto, 2);
        }
        lemma_nested_push(none, Seq::empty(), Markup::OpenList);
        lemma_nested_push(none, Seq::<Markup>::empty().push(Markup::OpenList), Markup::OpenItem);
        lemma_nested_push(
            none,
            Seq::<Markup>::empty().push(Markup::OpenList).push(Markup::OpenItem),
            body,
        );
        assert(none.push(true).push(false) =~= open_at(0));
    } else {
        lemma_lists_nested(bs, n - 1);
        let a = bs[n - 2].depth as int;
        let t = turn(Some(bs[n - 2].depth), b.depth);
        let before = lists_upto(bs, n - 1);
        assert(bs[n - 1].depth <= bs[n - 2].depth + 1);
        lemma_nested_add(none, before, t);
        let o = open_at(a);
        if d > a {
            assert(d - a == 1);
            reveal_with_fuel(opens, 2);
            lemma_nested_push(o, Seq::empty(), Markup::OpenList);
            assert(t =~= Seq::<Markup>::empty().push(Markup::OpenList));
            assert(nested(o, t) == Some(o.push(true)));
            assert(o.push(true).push(false) =~= open_at(d));
            lemma_nested_push(none, before + t, Markup::OpenItem);
            lemma_nested_push(none, (before + t).push(Markup::OpenItem), body);
        } else {
            lemma_closes(a, a - d);
            lemma_nested_push(o, closes(a - d), Markup::CloseItem);
            assert(nested(o, t) == Some(open_at(d).drop_last()));
            assert(open_at(d).drop_last().push(false) =~= open_at(d));
            lemma_nested_push(none, before + t, Markup::OpenItem);
            lemma_nested_push(none, (before + t).push(Markup::OpenItem), body);
        }
        assert(lists_upto(bs, n) =~= (before + t).push(Markup::OpenItem).push(body));
    }
}

/// The lists that an outline is written as are nested properly: every list and
/// every item is closed again, in the order in which they were opened.
pub proof fn outlines_are_written_as_nested_lists(bs: Seq<ClipBullet>)
    requires
        stepwise(bs),
    ensures
        nested(Seq::empty(), lists_of(bs)) == Some(Seq::<bool>::empty()),
{
    if bs.len() > 0 {
        let d = bs.last().depth as int;
        lemma_lists_nested(bs, bs.len() as int);
        lemma_nested_add(Seq::empty(), lists_upto(bs, bs.len() as int), closes(d + 1));
        lemma_closes(d, d + 1);
        assert(open_at(-1) =~= Seq::empty());
    }
}

} // verus!
