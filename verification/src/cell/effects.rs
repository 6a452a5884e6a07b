//! What editing does to a text with one caret or one selection.
use vstd::prelude::*;
use vstd::utf8::*;

use crate::cell::common::{
    first_holding, insert_by_start, is_tag_address, line_edge_mod, merged, sort_by_start,
    tag_addresses_name_their_tag, word_mod, EditModel, KeyEvent, Link, Modifiers, Selection,
    SelectionSet,
};
use crate::cell::levels::lemma_mapped;
use crate::cell::model::{
    after_key, all_selected, edge_stepping, edited_link, edited_links, edited_selection,
    erasing_back, erasing_forward, gather, key_edits, lemma_edited_at_wf, lemma_stepping,
    line_stepping, link_under, links_natural, placed, replacing, right_to_left, stepping,
    tag_named, TEXTBOX_COALESCE_NANOS, TEXTBOX_UNDO_CAP, with_link, with_tag, Doc, TextModel,
};
use crate::cell::wrap::{
    caret_place, chained, lemma_next_boundary, lemma_no_boundary_before, lemma_no_boundary_between,
    lemma_prev_boundary, line_reaching, link_covering, next_boundary, prev_boundary, wraps_at,
    Span,
};
use crate::text::{boundary, utf8};

verus! {

/// The text has one selection, or one caret: `anchor` and `head`.
pub open spec fn only_selection(m: TextModel, anchor: int, head: int) -> bool {
    &&& m.doc.sels.items.len() == 1
    &&& m.doc.sels.primary == 0
    &&& m.doc.sels.items[0].anchor == anchor
    &&& m.doc.sels.items[0].head == head
}

pub proof fn lemma_one_stays(s: SelectionSet)
    requires
        s.items.len() == 1,
        s.primary == 0,
    ensures
        s.normalized() == s,
{
    let v = s.items;
    assert(v.drop_last() =~= Seq::empty());
    assert(sort_by_start(v.drop_last()) =~= Seq::empty());
    assert(sort_by_start(v) =~= v) by {
        reveal_with_fuel(insert_by_start, 2);
        assert(Seq::<Selection>::empty().push(v.last()) =~= v);
    }
    assert(merged(v.drop_last()) =~= Seq::empty());
    assert(merged(v) =~= v);
    assert(first_holding(v, v[0].head as int, 0) == 0);
}

/// What is typed or pasted over the one selection takes its place; everything around it
/// stays, and the caret stands behind what was put in.
pub proof fn what_is_put_in_takes_the_place_of_the_selection(
    m: TextModel,
    lo: int,
    hi: int,
    with: Seq<u8>,
    now: u64,
)
    requires
        m.wf(),
        only_selection(m, lo, hi) || only_selection(m, hi, lo),
        lo <= hi,
        lo + with.len() <= usize::MAX,
    ensures
        ({
            let t = m.doc.text;
            let n = m.applying(m.edits(replacing(with)), now);
            &&& n.doc.text == t.subrange(0, lo) + with + t.subrange(hi, t.len() as int)
            &&& only_selection(n, (lo + with.len()) as int, (lo + with.len()) as int)
        }),
{
    let v = m.doc.sels.items;
    let s = v[0];
    let e = EditModel { start: lo, end: hi, with };
    let f = replacing(with);
    assert(placed(m.doc.text, s));
    assert(v.drop_last() =~= Seq::empty());
    assert(v.last() == s);
    assert(s.lo() == lo && s.hi() == hi);
    assert(gather(v.drop_last(), f) =~= Seq::empty());
    assert(gather(v, f) =~= seq![e]);
    lemma_one_edit(m.doc, e);
    let mapped = SelectionSet {
        items: Seq::new(v.len(), |i: int| edited_selection(v[i], e)),
        primary: m.doc.sels.primary,
    };
    lemma_one_stays(mapped);
}

pub proof fn lemma_one_edit(d: Doc, e: EditModel)
    ensures
        right_to_left(seq![e]) == seq![e],
        d.edited_by(seq![e]) == d.edited(e),
{
    let v = seq![e];
    assert(v.drop_last() =~= Seq::empty());
    assert(right_to_left(v.drop_last()) =~= Seq::empty());
    assert(Seq::<EditModel>::empty().push(e) =~= v);
    assert(v.drop_first() =~= Seq::empty());
    assert(d.edited(e).edited_by(v.drop_first()) == d.edited(e));
}

/// There is one character between `p` and `q`.
pub open spec fn one_character(b: Seq<u8>, p: int, q: int) -> bool {
    &&& 0 <= p < q <= b.len()
    &&& boundary(b, p)
    &&& boundary(b, q)
    &&& forall|k: int| p < k < q ==> !(#[trigger] boundary(b, k))
}

proof fn lemma_character_behind(b: Seq<u8>, p: int)
    requires
        boundary(b, p),
        p < b.len(),
    ensures
        one_character(b, p, next_boundary(b, p)),
{
    lemma_next_boundary(b, p);
    lemma_no_boundary_between(b, p);
}

proof fn lemma_character_in_front(b: Seq<u8>, q: int)
    requires
        valid_utf8(b),
        boundary(b, q),
        q > 0,
    ensures
        one_character(b, prev_boundary(b, q), q),
{
    lemma_prev_boundary(b, q);
    lemma_no_boundary_before(b, q);
}

/// What the key makes of a text with one selection is that a part of the text, from `lo` to
/// `hi`, is replaced by `with`, and the caret is put behind that.
pub open spec fn becomes(
    m: TextModel,
    ev: KeyEvent,
    mods: Modifiers,
    now: u64,
    lo: int,
    hi: int,
    with: Seq<u8>,
) -> bool {
    let t = m.doc.text;
    let n = after_key(m, ev, mods, now).0;
    &&& after_key(m, ev, mods, now).1
    &&& n.doc.text == t.subrange(0, lo) + with + t.subrange(hi, t.len() as int)
    &&& only_selection(n, (lo + with.len()) as int, (lo + with.len()) as int)
}

/// A key that types something puts it in the place of the selection; Enter puts in a line feed.
pub proof fn keys_type_over_the_selection(
    m: TextModel,
    lo: int,
    hi: int,
    ev: KeyEvent,
    mods: Modifiers,
    now: u64,
)
    requires
        m.wf(),
        only_selection(m, lo, hi) || only_selection(m, hi, lo),
        lo <= hi,
        ev.pressed,
        lo + 1 <= usize::MAX,
        ev.text matches Some(s) ==> lo + utf8(s@).len() <= usize::MAX,
    ensures
        ev.key is Enter ==> becomes(m, ev, mods, now, lo, hi, seq![10u8]),
        ev.key is Other && (ev.text matches Some(s) && s@.len() > 0 && forall|i: int|
            0 <= i < s@.len() ==> '\u{1f}' < #[trigger] s@[i] < '\u{7f}' || '\u{9f}' < s@[i])
            ==> becomes(m, ev, mods, now, lo, hi, utf8(ev.text->0@)),
{
    if ev.key is Enter {
        what_is_put_in_takes_the_place_of_the_selection(m, lo, hi, seq![10u8], now);
    } else if ev.text is Some {
        what_is_put_in_takes_the_place_of_the_selection(m, lo, hi, utf8(ev.text->0@), now);
    }
}

pub proof fn lemma_one_deletion(
    m: TextModel,
    f: spec_fn(Selection) -> Option<EditModel>,
    lo: int,
    hi: int,
    now: u64,
)
    requires
        m.wf(),
        m.doc.sels.items.len() == 1,
        m.doc.sels.primary == 0,
        0 <= lo < hi <= m.doc.text.len(),
        lo <= m.doc.sels.items[0].lo() <= m.doc.sels.items[0].hi() <= hi,
        hi <= usize::MAX,
        f(m.doc.sels.items[0]) == Some(
            EditModel { start: lo, end: hi, with: Seq::<u8>::empty() },
        ),
    ensures
        ({
            let t = m.doc.text;
            let n = m.applying(m.edits(f), now);
            &&& n.doc.text == t.subrange(0, lo) + t.subrange(hi, t.len() as int)
            &&& only_selection(n, lo, lo)
        }),
{
    let v = m.doc.sels.items;
    let e = EditModel { start: lo, end: hi, with: Seq::<u8>::empty() };
    assert(v.drop_last() =~= Seq::empty());
    assert(v.last() == v[0]);
    assert(gather(v.drop_last(), f) =~= Seq::empty());
    assert(gather(v, f) =~= seq![e]);
    lemma_one_edit(m.doc, e);
    let mapped = SelectionSet {
        items: Seq::new(v.len(), |i: int| edited_selection(v[i], e)),
        primary: m.doc.sels.primary,
    };
    lemma_one_stays(mapped);
    let t = m.doc.text;
    assert(t.subrange(0, lo) + Seq::<u8>::empty() + t.subrange(hi, t.len() as int) =~= t.subrange(
        0,
        lo,
    ) + t.subrange(hi, t.len() as int));
}

/// Backspace and Delete delete what is selected. Where nothing is, Backspace deletes the one
/// character in front of the caret and Delete the one behind it; where there is none the text
/// stays as it is.
pub proof fn keys_delete_the_selection_or_one_character(
    m: TextModel,
    lo: int,
    hi: int,
    ev: KeyEvent,
    mods: Modifiers,
    now: u64,
)
    requires
        m.wf(),
        only_selection(m, lo, hi) || only_selection(m, hi, lo),
        lo <= hi,
        ev.pressed,
        ev.key is Backspace || ev.key is Delete,
        !word_mod(mods),
        m.doc.text.len() <= usize::MAX,
    ensures
        ({
            let t = m.doc.text;
            let n = after_key(m, ev, mods, now).0;
            &&& lo < hi ==> n.doc.text == t.subrange(0, lo) + t.subrange(hi, t.len() as int)
                && only_selection(n, lo, lo)
            &&& lo == hi && ev.key is Backspace && lo > 0 ==> exists|p: int|
                {
                    &&& #[trigger] one_character(t, p, lo)
                    &&& n.doc.text == t.subrange(0, p) + t.subrange(lo, t.len() as int)
                    &&& only_selection(n, p, p)
                }
            &&& lo == hi && ev.key is Delete && lo < t.len() ==> exists|q: int|
                {
                    &&& #[trigger] one_character(t, lo, q)
                    &&& n.doc.text == t.subrange(0, lo) + t.subrange(q, t.len() as int)
                    &&& only_selection(n, lo, lo)
                }
            &&& lo == hi && (ev.key is Backspace && lo == 0 || ev.key is Delete && lo == t.len())
                ==> n.doc == m.doc
        }),
{
    let t = m.doc.text;
    let s = m.doc.sels.items[0];
    assert(placed(t, s));
    let f = if ev.key is Backspace {
        erasing_back(t)
    } else {
        erasing_forward(t)
    };
    assert(key_edits(m, ev, mods) == m.edits(f));
    if lo < hi {
        lemma_one_deletion(m, f, lo, hi, now);
    } else if ev.key is Backspace && lo > 0 {
        lemma_character_in_front(t, lo);
        lemma_one_deletion(m, f, prev_boundary(t, lo), lo, now);
    } else if ev.key is Delete && lo < t.len() {
        lemma_character_behind(t, lo);
        lemma_one_deletion(m, f, lo, next_boundary(t, lo), now);
    } else {
        let v = m.doc.sels.items;
        assert(v.drop_last() =~= Seq::empty());
        assert(v.last() == s);
        assert(gather(v.drop_last(), f) =~= Seq::empty());
        assert(f(s) is None);
        assert(gather(v, f) =~= Seq::empty());
    }
}

/// The arrows move the caret by one character, to the left and to the right, where it is not at
/// a place where a line wraps; with Shift the other end of the selection stays where it is. The
/// text does not change.
pub proof fn arrows_move_the_caret_by_one_character(
    m: TextModel,
    anchor: int,
    c: int,
    ev: KeyEvent,
    mods: Modifiers,
    now: u64,
)
    requires
        m.wf(),
        only_selection(m, anchor, c),
        mods.shift || anchor == c,
        ev.pressed,
        ev.key is ArrowLeft || ev.key is ArrowRight,
        !word_mod(mods),
        !line_edge_mod(mods),
        m.doc.text.len() <= usize::MAX,
        forall|k: int| 0 <= k < m.lines.len() ==> (#[trigger] m.lines[k]).end != c,
    ensures
        ({
            let t = m.doc.text;
            let n = after_key(m, ev, mods, now).0;
            let stays = |to: int|
                only_selection(
                    n,
                    if mods.shift {
                        anchor
                    } else {
                        to
                    },
                    to,
                );
            &&& n.doc.text == t
            &&& n.doc.links == m.doc.links
            &&& ev.key is ArrowLeft && c > 0 ==> exists|p: int| #[trigger]
                one_character(t, p, c) && stays(p)
            &&& ev.key is ArrowRight && c < t.len() ==> exists|q: int| #[trigger]
                one_character(t, c, q) && stays(q)
            &&& ev.key is ArrowLeft && c == 0 ==> stays(0)
            &&& ev.key is ArrowRight && c == t.len() ==> stays(c)
        }),
{
    let t = m.doc.text;
    let s = m.doc.sels.items[0];
    let forward = ev.key is ArrowRight;
    assert(placed(t, s));
    assert(!wraps_at(m.lines, c));
    let f = stepping(t, m.lines, forward, mods.shift);
    let v = m.doc.sels.items;
    let mapped = SelectionSet {
        items: Seq::new(v.len(), |i: int| f(v[i])),
        primary: m.doc.sels.primary,
    };
    lemma_one_stays(mapped);
    lemma_stepping(t, m.lines, forward, mods.shift, s);
    if forward && c < t.len() {
        lemma_character_behind(t, c);
    } else if !forward && c > 0 {
        lemma_character_in_front(t, c);
    }
}

/// An arrow over a selection puts the caret at that end of it to which the arrow points.
pub proof fn arrows_go_to_the_end_of_the_selection(
    m: TextModel,
    lo: int,
    hi: int,
    ev: KeyEvent,
    mods: Modifiers,
    now: u64,
)
    requires
        m.wf(),
        only_selection(m, lo, hi) || only_selection(m, hi, lo),
        lo < hi,
        ev.pressed,
        ev.key is ArrowLeft || ev.key is ArrowRight,
        !mods.shift,
        !word_mod(mods),
        !line_edge_mod(mods),
    ensures
        ev.key is ArrowLeft ==> only_selection(after_key(m, ev, mods, now).0, lo, lo),
        ev.key is ArrowRight ==> only_selection(after_key(m, ev, mods, now).0, hi, hi),
        after_key(m, ev, mods, now).0.doc.text == m.doc.text,
{
    let t = m.doc.text;
    assert(placed(t, m.doc.sels.items[0]));
    let forward = ev.key is ArrowRight;
    let f = stepping(t, m.lines, forward, false);
    let v = m.doc.sels.items;
    let mapped = SelectionSet {
        items: Seq::new(v.len(), |i: int| f(v[i])),
        primary: m.doc.sels.primary,
    };
    lemma_one_stays(mapped);
}

/// Home and End put the caret at the ends of its visual line, here line `j`; Up and Down put it
/// into the line above and below, as far behind the start of the line as it was, where that is a
/// place in that line. In the first line Up does nothing, and in the last Down.
pub proof fn keys_move_the_caret_between_lines(
    m: TextModel,
    j: int,
    c: int,
    ev: KeyEvent,
    mods: Modifiers,
    now: u64,
)
    requires
        m.wf(),
        only_selection(m, c, c),
        0 <= j < m.lines.len(),
        m.lines[j].start < c < m.lines[j].end,
        ev.pressed,
        !mods.shift,
        m.doc.text.len() <= usize::MAX,
    ensures
        ({
            let n = after_key(m, ev, mods, now).0;
            let off = c - m.lines[j].start;
            &&& ev.key is Home ==> only_selection(n, m.lines[j].start, m.lines[j].start)
            &&& ev.key is End ==> only_selection(n, m.lines[j].end, m.lines[j].end)
            &&& ev.key is ArrowUp && j == 0 ==> only_selection(n, c, c)
            &&& ev.key is ArrowDown && j == m.lines.len() - 1 ==> only_selection(n, c, c)
            &&& ev.key is ArrowUp && j > 0 && m.lines[j - 1].start + off <= m.lines[j - 1].end
                && boundary(m.doc.text, m.lines[j - 1].start + off) ==> only_selection(
                n,
                m.lines[j - 1].start + off,
                m.lines[j - 1].start + off,
            )
            &&& ev.key is ArrowDown && j + 1 < m.lines.len() && m.lines[j + 1].start + off
                <= m.lines[j + 1].end && boundary(m.doc.text, m.lines[j + 1].start + off)
                ==> only_selection(
                n,
                m.lines[j + 1].start + off,
                m.lines[j + 1].start + off,
            )
            &&& ev.key is Home || ev.key is End || ev.key is ArrowUp || ev.key is ArrowDown
                ==> n.doc.text == m.doc.text && n.doc.links == m.doc.links
        }),
{
    let t = m.doc.text;
    let s = m.doc.sels.items[0];
    let v = m.doc.sels.items;
    assert(placed(t, s));
    lemma_lines_in_order(t, m.lines, 0, t.len() as int);
    lemma_line_holding(m.lines, j, c, 0);
    assert(caret_place(m.lines, c, s.affinity) == (j, c - m.lines[j].start));
    let f1 = edge_stepping(m.lines, ev.key is End, false);
    let f2 = line_stepping(t, m.lines, ev.key is ArrowDown, false);
    let by1 = SelectionSet {
        items: Seq::new(v.len(), |i: int| f1(v[i])),
        primary: m.doc.sels.primary,
    };
    let by2 = SelectionSet {
        items: Seq::new(v.len(), |i: int| f2(v[i])),
        primary: m.doc.sels.primary,
    };
    lemma_one_stays(by1);
    lemma_one_stays(by2);
}

pub proof fn lemma_lines_in_order(b: Seq<u8>, lines: Seq<Span>, start: int, end: int)
    requires
        chained(b, lines, start, end),
        0 <= start,
    ensures
        start <= end,
        forall|k: int|
            0 <= k < lines.len() ==> start <= (#[trigger] lines[k]).start <= lines[k].end <= end,
        forall|k: int, j: int|
            0 <= k < j < lines.len() ==> (#[trigger] lines[k]).end <= (#[trigger] lines[j]).start,
    decreases lines.len(),
{
    if lines.len() > 0 {
        let front = lines.drop_last();
        lemma_lines_in_order(b, front, start, lines.last().start);
        assert forall|k: int| 0 <= k < lines.len() implies start <= (#[trigger] lines[k]).start
            <= lines[k].end <= end by {
            if k < front.len() {
                assert(front[k] == lines[k]);
            }
        }
        assert forall|k: int, j: int| 0 <= k < j < lines.len() implies (#[trigger] lines[k]).end
            <= (#[trigger] lines[j]).start by {
            assert(front[k] == lines[k]);
            if j < front.len() {
                assert(front[j] == lines[j]);
            }
        }
    }
}

pub proof fn lemma_line_holding(lines: Seq<Span>, j: int, c: int, from: int)
    requires
        forall|k: int| 0 <= k < j ==> (#[trigger] lines[k]).end <= lines[j].start,
        0 <= from <= j < lines.len(),
        lines[j].start < c < lines[j].end,
    ensures
        line_reaching(lines, c, from) == j,
    decreases j - from,
{
    if from < j {
        assert(lines[from].end < c);
        lemma_line_holding(lines, j, c, from + 1);
    }
}

// ---------------------------------------------------------------------------
// Cutting, pasting, replacing
// ---------------------------------------------------------------------------

/// What is copied is what is selected; cutting takes just that out of the text and leaves the
/// caret there; pasting what was cut gives the text back.
pub proof fn pasting_puts_back_what_was_cut(
    m: TextModel,
    lo: int,
    hi: int,
    links: Seq<Link>,
    now: u64,
)
    requires
        m.wf(),
        only_selection(m, lo, hi) || only_selection(m, hi, lo),
        lo < hi,
        links_natural(m.doc.links),
        m.doc.text.len() <= usize::MAX,
    ensures
        m.primary_text() == m.doc.text.subrange(lo, hi),
        m.cut(now).doc.text == m.doc.text.subrange(0, lo) + m.doc.text.subrange(
            hi,
            m.doc.text.len() as int,
        ),
        only_selection(m.cut(now), lo, lo),
        m.cut(now).pasted(m.primary_text(), links, now).doc.text == m.doc.text,
        only_selection(m.cut(now).pasted(m.primary_text(), links, now), hi, hi),
{
    let t = m.doc.text;
    let s = m.doc.sels.items[0];
    let v = m.doc.sels.items;
    assert(placed(t, s));
    let e = EditModel { start: lo, end: hi, with: Seq::<u8>::empty() };
    let mapped = SelectionSet {
        items: Seq::new(v.len(), |i: int| edited_selection(v[i], e)),
        primary: m.doc.sels.primary,
    };
    lemma_one_stays(mapped);
    let c = m.cut(now);
    let held = t.subrange(lo, hi);
    assert(c.doc.text =~= t.subrange(0, lo) + t.subrange(hi, t.len() as int));
    lemma_edited_at_wf(m, e, now);
    what_is_put_in_takes_the_place_of_the_selection(c, lo, lo, held, now);
    assert(c.doc.text.subrange(0, lo) + held + c.doc.text.subrange(lo, c.doc.text.len() as int)
        =~= t);
}

/// Replacing a part of a text replaces that part and puts the caret behind what was put in;
/// where that is to link somewhere, the last link is on just what was put in.
pub proof fn a_replaced_part_is_replaced(m: TextModel, e: EditModel, url: Seq<u8>, now: u64)
    requires
        0 <= e.start <= e.end <= m.doc.text.len(),
        e.start + e.with.len() <= usize::MAX,
    ensures
        ({
            let t = m.doc.text;
            let at = (e.start + e.with.len()) as int;
            let r = m.replaced_range(e, now);
            let l = m.replaced_by_link(e, url, now);
            &&& r.doc.text == t.subrange(0, e.start) + e.with + t.subrange(e.end, t.len() as int)
            &&& only_selection(r, at, at)
            &&& l.doc.text == r.doc.text
            &&& only_selection(l, at, at)
            &&& e.with.len() > 0 ==> {
                let on = l.doc.links.last();
                &&& l.doc.links.len() == r.doc.links.len() + 1
                &&& on.url == url
                &&& 0 <= on.start < on.end <= l.doc.text.len()
                &&& l.doc.text.subrange(on.start, on.end) == e.with
            }
        }),
{
    let l = m.replaced_by_link(e, url, now);
    if e.with.len() > 0 {
        let on = l.doc.links.last();
        assert(l.doc.text.subrange(on.start, on.end) =~= e.with);
    }
}

/// The whole text selected is the whole text: copying gives all of it.
pub proof fn everything_is_selected(m: TextModel)
    requires
        m.doc.text.len() <= usize::MAX,
    ensures
        only_selection(all_selected(m), 0, m.doc.text.len() as int),
        all_selected(m).primary_text() == m.doc.text,
        all_selected(m).doc.text == m.doc.text,
{
    assert(m.doc.text.subrange(0, m.doc.text.len() as int) =~= m.doc.text);
}

// ---------------------------------------------------------------------------
// Links
// ---------------------------------------------------------------------------

/// Links go with their text: after an edit, a link that is no tag and lies in front of the part
/// that was replaced is where it was, and one that lies behind it is as far from the end of the
/// text as it was. Both are on the same text as before and lead to the same place.
pub proof fn links_go_with_their_text(d: Doc, e: EditModel, i: int)
    requires
        0 <= i < d.links.len(),
        !is_tag_address(d.links[i].url),
        0 <= d.links[i].start < d.links[i].end <= d.text.len(),
        0 <= e.start <= e.end <= d.text.len(),
        d.links[i].end <= e.start || e.end <= d.links[i].start,
        d.links[i].end == e.start ==> e.start == e.end || e.with.len() == 0,
    ensures
        exists|k: int|
            {
                let was = d.links[i];
                let (old_text, new_text) = (d.text, d.edited(e).text);
                &&& 0 <= k < d.edited(e).links.len()
                &&& (#[trigger] d.edited(e).links[k]).url == was.url
                &&& d.edited(e).links[k].end - d.edited(e).links[k].start == was.end - was.start
                &&& was.end <= e.start ==> d.edited(e).links[k].start == was.start
                &&& e.end <= was.start ==> new_text.len() - d.edited(e).links[k].start
                    == old_text.len() - was.start
                &&& new_text.subrange(d.edited(e).links[k].start, d.edited(e).links[k].end)
                    == old_text.subrange(was.start, was.end)
            },
{
    let was = d.links[i];
    let text = d.edited(e).text;
    let l = edited_link(was, e, text)->0;
    assert(edited_link(was, e, text) is Some);
    lemma_edited_link_is_there(d.links, e, text, i);
    let links = d.edited(e).links;
    let k = choose|k: int| 0 <= k < links.len() && #[trigger] links[k] == l;
    assert(text.subrange(l.start, l.end) =~= d.text.subrange(was.start, was.end));
    assert(d.edited(e).links[k] == l);
}

proof fn lemma_edited_link_is_there(links: Seq<Link>, e: EditModel, text: Seq<u8>, i: int)
    requires
        0 <= i < links.len(),
        edited_link(links[i], e, text) is Some,
    ensures
        exists|k: int|
            0 <= k < edited_links(links, e, text).len() && #[trigger] edited_links(
                links,
                e,
                text,
            )[k] == edited_link(links[i], e, text)->0,
    decreases links.len(),
{
    let all = edited_links(links, e, text);
    let l = edited_link(links[i], e, text)->0;
    let rest = edited_links(links.drop_last(), e, text);
    if i == links.len() - 1 {
        assert(all[all.len() - 1] == l);
    } else {
        lemma_edited_link_is_there(links.drop_last(), e, text, i);
        let k = choose|k: int| 0 <= k < rest.len() && #[trigger] rest[k] == l;
        assert(all[k] == rest[k]);
    }
}

/// The link under a place is one that covers it; there is none only where no link does.
pub proof fn the_link_under_a_place_covers_it(links: Seq<Link>, idx: int)
    ensures
        link_under(links, idx) matches Some(l) ==> links.contains(l) && l.start <= idx < l.end,
        link_under(links, idx) is None ==> forall|i: int|
            0 <= i < links.len() ==> !((#[trigger] links[i]).start <= idx < links[i].end),
{
    lemma_link_covering_place(links, idx, 0);
}

proof fn lemma_link_covering_place(links: Seq<Link>, idx: int, from: int)
    requires
        0 <= from <= links.len(),
    ensures
        ({
            let k = link_covering(links, idx, from);
            &&& from <= k <= links.len()
            &&& k < links.len() ==> links[k].start <= idx < links[k].end
            &&& forall|i: int|
                from <= i < k ==> !((#[trigger] links[i]).start <= idx < links[i].end)
        }),
    decreases links.len() - from,
{
    if from < links.len() && !(links[from].start <= idx < links[from].end) {
        lemma_link_covering_place(links, idx, from + 1);
    }
}

// ---------------------------------------------------------------------------
// Undo
// ---------------------------------------------------------------------------

/// Edits that follow each other closely are undone together, and others one by one: of two edits,
/// undo takes back just the second where the interval for that has passed between them, or where
/// something came between that ends a burst; else it takes back both, where the first began a
/// burst. The first edit is never lost to undo without the second.
pub proof fn edits_in_a_burst_are_undone_together(
    m: TextModel,
    first: Seq<EditModel>,
    second: Seq<EditModel>,
    t1: u64,
    t2: u64,
)
    requires
        first.len() > 0,
        second.len() > 0,
        t1 <= t2,
        m.undo.len() < TEXTBOX_UNDO_CAP,
    ensures
        ({
            let a = m.applying(first, t1);
            let both = a.applying(second, t2);
            let broken = a.breaking().applying(second, t2);
            &&& t2 - t1 >= TEXTBOX_COALESCE_NANOS && TEXTBOX_UNDO_CAP > 1 ==> both.undone().doc
                == a.doc
            &&& TEXTBOX_UNDO_CAP > 1 ==> broken.undone().doc == a.doc
            &&& t2 - t1 < TEXTBOX_COALESCE_NANOS && (m.break_next || m.last_edit is None
                || m.undo.len() == 0) ==> both.undone().doc == m.doc
        }),
{
    let a = m.applying(first, t1);
    let c = a.applying(second, t2);
    assert(a.undo == m.undo_recorded(t1));
    assert(c.undo == a.undo_recorded(t2));
    let d = a.breaking().applying(second, t2);
    assert(d.undo == a.breaking().undo_recorded(t2));
    if a.undo.push(a.doc).len() > TEXTBOX_UNDO_CAP {
        assert(a.undo.push(a.doc).drop_first().last() == a.doc);
    }
}

/// What is copied keeps its links: each link of what is copied is the part of a link of the text that
/// is selected, on the same bytes and leading to the same place; and every link that runs into the
/// selection has its part there.
pub proof fn copied_links_stay_on_their_text(m: TextModel, lo: int, hi: int, l: Link)
    requires
        m.wf(),
        only_selection(m, lo, hi) || only_selection(m, hi, lo),
        lo <= hi,
    ensures
        m.primary_links().contains(l) ==> {
            &&& 0 <= l.start < l.end <= m.primary_text().len()
            &&& exists|i: int|
                0 <= i < m.doc.links.len() && (#[trigger] m.doc.links[i]).url == l.url
                    && m.doc.links[i].start <= lo + l.start && lo + l.end <= m.doc.links[i].end
            &&& m.primary_text().subrange(l.start, l.end) == m.doc.text.subrange(
                lo + l.start,
                lo + l.end,
            )
        },
        forall|i: int|
            0 <= i < m.doc.links.len() && (#[trigger] m.doc.links[i]).start < hi
                && m.doc.links[i].end > lo && m.doc.links[i].start < m.doc.links[i].end && lo < hi
                ==> m.primary_links().contains(
                Link {
                    start: if m.doc.links[i].start < lo {
                        0
                    } else {
                        m.doc.links[i].start - lo
                    },
                    end: if m.doc.links[i].end > hi {
                        hi - lo
                    } else {
                        m.doc.links[i].end - lo
                    },
                    url: m.doc.links[i].url,
                },
            ),
{
    let t = m.doc.text;
    let links = m.doc.links;
    let s = m.doc.sels.items[0];
    assert(placed(t, s));
    let f = |l: Link| crate::cell::model::clipped(l, s.lo(), s.hi());
    assert(m.primary_links() == links.filter_map(f));
    lemma_mapped(links, f, l);
    if m.primary_links().contains(l) {
        let i = choose|i: int| 0 <= i < links.len() && f(#[trigger] links[i]) == Some(l);
        assert(links[i].url == l.url);
        assert(m.primary_text().subrange(l.start, l.end) =~= t.subrange(lo + l.start, lo + l.end));
    }
    assert forall|i: int|
        0 <= i < links.len() && (#[trigger] links[i]).start < hi && links[i].end > lo
            && links[i].start < links[i].end && lo < hi implies m.primary_links().contains(
        Link {
            start: if links[i].start < lo {
                0
            } else {
                links[i].start - lo
            },
            end: if links[i].end > hi {
                hi - lo
            } else {
                links[i].end - lo
            },
            url: links[i].url,
        },
    ) by {
        let x = f(links[i])->0;
        assert(f(links[i]) == Some(x));
        lemma_mapped(links, f, x);
    }
}

/// A tag put on a part of the text that starts with `#` marks just that part and names what follows
/// the `#`; a link put on a part of it covers just that part. Other links stay as they are.
pub proof fn tags_and_links_are_put_on_their_part(
    text: Seq<u8>,
    links: Seq<Link>,
    start: int,
    end: int,
    url: Seq<u8>,
)
    requires
        0 <= start < end <= text.len(),
    ensures
        with_link(text, links, start, end, url) == links.push(Link { start, end, url }),
        text[start] == 35 && end > start + 1 ==> {
            let n = with_tag(text, links, start, end);
            &&& n.len() == links.len() + 1
            &&& n.last().start == start
            &&& n.last().end == end
            &&& tag_named(n.last()) == Some(text.subrange(start + 1, end))
            &&& forall|i: int| 0 <= i < links.len() ==> #[trigger] n[i] == links[i]
        },
        text[start] != 35 ==> with_tag(text, links, start, end) == links,
{
    let name = text.subrange(start + 1, end);
    tag_addresses_name_their_tag(name);
}

} // verus!
