//! Words, tags and what the pointer selects.
use vstd::prelude::*;
use vstd::utf8::*;

use crate::cell::common::{
    line_edge_mod, primary_mod, word_mod, Affinity, KeyEvent, Link, Modifiers, SelectionSet,
};
use crate::cell::effects::{
    lemma_one_deletion, lemma_one_stays, only_selection, the_link_under_a_place_covers_it,
};
use crate::cell::found::lemma_trimmed_back;
use crate::cell::model::{
    after_drag, after_key, after_mouse_down, after_mouse_up, erasing_word_back,
    erasing_word_forward, link_under, MULTI_CLICK_NANOS, placed, tag_named, tag_under,
    word_stepping, Click, DragKindModel, DragModel, TextModel,
};
use crate::cell::wrap::{
    class_at, class_of, inline_tags, lemma_caret_place, lemma_chained_lines, lemma_next_boundary,
    lemma_no_boundary_before, lemma_no_boundary_between, lemma_prev_boundary, lemma_run_end,
    lemma_run_start, line_of, next_boundary, prev_boundary, run_end, run_start, runs_are_maximal,
    tag_end, tag_start, trailing_tags, trimmed_end, white_before, white_here, word_at, word_left,
    word_right, word_start, CharClass, Span,
};
use crate::text::{boundary, char_at, lemma_after_ascii, lemma_boundary_ends, white};

verus! {

// ---------------------------------------------------------------------------
// Words
// ---------------------------------------------------------------------------

/// From `lo` to `hi` there are characters of one class, and there is at least one.
pub open spec fn one_class(b: Seq<u8>, lo: int, hi: int) -> bool {
    &&& 0 <= lo < hi <= b.len()
    &&& boundary(b, lo)
    &&& boundary(b, hi)
    &&& forall|i: int|
        lo <= i < hi && #[trigger] boundary(b, i) ==> class_of(char_at(b, i)) == class_of(
            char_at(b, lo),
        )
}

/// The character in front of `lo` is of another class than the one there.
pub open spec fn starts_run(b: Seq<u8>, lo: int) -> bool {
    lo == 0 || class_of(char_at(b, prev_boundary(b, lo))) != class_of(char_at(b, lo))
}

/// The character at `hi` is of another class than those from `lo` to there.
pub open spec fn ends_run(b: Seq<u8>, lo: int, hi: int) -> bool {
    hi == b.len() || class_of(char_at(b, hi)) != class_of(char_at(b, lo))
}

/// A word to the left of a place goes back from there as far as its characters are of one class;
/// one to the right goes on as far as they are. There is none only at the end of the text.
pub proof fn words_beside_a_place_are_runs(b: Seq<u8>, idx: int)
    requires
        valid_utf8(b),
        boundary(b, idx),
    ensures
        ({
            let (l, r) = (word_left(b, idx), word_right(b, idx));
            &&& idx > 0 ==> l.end == idx && one_class(b, l.start, idx) && starts_run(b, l.start)
            &&& idx < b.len() ==> r.start == idx && one_class(b, idx, r.end) && ends_run(
                b,
                idx,
                r.end,
            )
        }),
{
    lemma_boundary_ends(b);
    if idx > 0 {
        let p = prev_boundary(b, idx);
        let class = class_at(b, p);
        lemma_prev_boundary(b, idx);
        lemma_no_boundary_before(b, idx);
        lemma_run_start(b, p, class);
        runs_are_maximal(b, p, class);
        let lo = run_start(b, p, class);
        assert(class_at(b, lo) == class);
        assert forall|i: int| lo <= i < idx && #[trigger] boundary(b, i) implies class_of(
            char_at(b, i),
        ) == class_of(char_at(b, lo)) by {
            if i < p {
                assert(class_at(b, i) == class);
            } else if i > p {
                assert(!boundary(b, i));
            }
        }
        if lo > 0 {
            lemma_prev_boundary(b, lo);
            assert(class_at(b, prev_boundary(b, lo)) != class);
        }
    }
    if idx < b.len() {
        let n = next_boundary(b, idx);
        let class = class_at(b, idx);
        lemma_next_boundary(b, idx);
        lemma_no_boundary_between(b, idx);
        lemma_run_end(b, n, class);
        runs_are_maximal(b, n, class);
        let hi = run_end(b, n, class);
        assert forall|i: int| idx <= i < hi && #[trigger] boundary(b, i) implies class_of(
            char_at(b, i),
        ) == class_of(char_at(b, idx)) by {
            if i >= n {
                assert(class_at(b, i) == class);
            } else if i > idx {
                assert(!boundary(b, i));
            }
        }
        if hi < b.len() {
            assert(class_at(b, hi) != class);
        }
    }
}

/// The word at a place is a whole run of one class, and the place is in it or at one of its ends.
pub proof fn the_word_at_a_place_is_a_whole_run(b: Seq<u8>, idx: int)
    requires
        valid_utf8(b),
        boundary(b, idx),
        b.len() > 0,
    ensures
        ({
            let w = word_at(b, idx);
            &&& w.start <= idx <= w.end
            &&& one_class(b, w.start, w.end)
            &&& starts_run(b, w.start)
            &&& ends_run(b, w.start, w.end)
        }),
{
    lemma_boundary_ends(b);
    let w = word_at(b, idx);
    let here = class_at(b, idx);
    let before = prev_boundary(b, idx);
    lemma_prev_boundary(b, idx);
    if idx > 0 {
        lemma_no_boundary_before(b, idx);
    }
    let left = if idx <= 0 {
        None
    } else {
        class_at(b, before)
    };
    assert(!(here is None && left is None));
    let back = here is None || (left is Some && left != here && left == Some(CharClass::Word));
    let probe = if back {
        before
    } else {
        idx
    };
    let class = class_at(b, probe);
    let n = next_boundary(b, probe);
    lemma_next_boundary(b, probe);
    lemma_no_boundary_between(b, probe);
    if back && n < idx {
        assert(!boundary(b, n));
    }
    if back && n > idx {
        assert(!boundary(b, idx));
    }
    lemma_run_start(b, probe, class);
    lemma_run_end(b, n, class);
    runs_are_maximal(b, probe, class);
    runs_are_maximal(b, n, class);
    assert(class_at(b, w.start) == class);
    assert forall|i: int| w.start <= i < w.end && #[trigger] boundary(b, i) implies class_of(
        char_at(b, i),
    ) == class_of(char_at(b, w.start)) by {
        if i < probe {
            assert(class_at(b, i) == class);
        } else if i >= n {
            assert(class_at(b, i) == class);
        } else if i > probe {
            assert(!boundary(b, i));
        }
    }
    if w.start > 0 {
        lemma_prev_boundary(b, w.start);
        assert(class_at(b, prev_boundary(b, w.start)) != class);
    }
    if w.end < b.len() {
        assert(class_at(b, w.end) != class);
    }
}

/// With the modifier for words, Backspace deletes the word to the left of the caret and Delete the
/// one to the right: characters of one class, as far as they go.
pub proof fn keys_delete_whole_words(
    m: TextModel,
    c: int,
    ev: KeyEvent,
    mods: Modifiers,
    now: u64,
)
    requires
        m.wf(),
        only_selection(m, c, c),
        ev.pressed,
        word_mod(mods),
        m.doc.text.len() <= usize::MAX,
    ensures
        ({
            let t = m.doc.text;
            let n = after_key(m, ev, mods, now).0;
            &&& ev.key is Backspace && c > 0 ==> exists|p: int|
                {
                    &&& #[trigger] one_class(t, p, c)
                    &&& starts_run(t, p)
                    &&& n.doc.text == t.subrange(0, p) + t.subrange(c, t.len() as int)
                    &&& only_selection(n, p, p)
                }
            &&& ev.key is Delete && c < t.len() ==> exists|q: int|
                {
                    &&& #[trigger] one_class(t, c, q)
                    &&& ends_run(t, c, q)
                    &&& n.doc.text == t.subrange(0, c) + t.subrange(q, t.len() as int)
                    &&& only_selection(n, c, c)
                }
        }),
{
    let t = m.doc.text;
    assert(placed(t, m.doc.sels.items[0]));
    words_beside_a_place_are_runs(t, c);
    if ev.key is Backspace && c > 0 {
        let w = word_left(t, c);
        lemma_one_deletion(m, erasing_word_back(t), w.start, c, now);
        assert(one_class(t, w.start, c));
    } else if ev.key is Delete && c < t.len() {
        let w = word_right(t, c);
        lemma_one_deletion(m, erasing_word_forward(t), c, w.end, now);
        assert(one_class(t, c, w.end));
    }
}

/// With the modifier for words, the arrows go over a whole word.
pub proof fn arrows_go_over_whole_words(
    m: TextModel,
    c: int,
    ev: KeyEvent,
    mods: Modifiers,
    now: u64,
)
    requires
        m.wf(),
        only_selection(m, c, c),
        ev.pressed,
        word_mod(mods),
        !line_edge_mod(mods),
        !mods.shift,
        m.doc.text.len() <= usize::MAX,
    ensures
        ({
            let t = m.doc.text;
            let n = after_key(m, ev, mods, now).0;
            &&& ev.key is ArrowLeft && c > 0 ==> exists|p: int| #[trigger]
                one_class(t, p, c) && starts_run(t, p) && only_selection(n, p, p)
            &&& ev.key is ArrowRight && c < t.len() ==> exists|q: int| #[trigger]
                one_class(t, c, q) && ends_run(t, c, q) && only_selection(n, q, q)
            &&& ev.key is ArrowLeft || ev.key is ArrowRight ==> n.doc.text == t
        }),
{
    let t = m.doc.text;
    let v = m.doc.sels.items;
    assert(placed(t, v[0]));
    words_beside_a_place_are_runs(t, c);
    let f = word_stepping(t, ev.key is ArrowRight, false);
    let mapped = SelectionSet {
        items: Seq::new(v.len(), |i: int| f(v[i])),
        primary: m.doc.sels.primary,
    };
    lemma_one_stays(mapped);
    if ev.key is ArrowLeft && c > 0 {
        assert(one_class(t, word_left(t, c).start, c));
    } else if ev.key is ArrowRight && c < t.len() {
        assert(one_class(t, c, word_right(t, c).end));
    }
}

// ---------------------------------------------------------------------------
// Clicks
// ---------------------------------------------------------------------------

/// A click puts the caret where it hits. A second one close to it, in time and place, selects the
/// word there, a third one the visual line; after a while counting starts again. With Shift the
/// selection goes on to where the click hits. None of them changes the text.
pub proof fn clicks_select_a_place_a_word_a_line(
    m: TextModel,
    click: Click,
    mods: Modifiers,
)
    requires
        m.wf(),
        !primary_mod(mods),
        !mods.alt,
        m.doc.text.len() <= usize::MAX,
        boundary(m.doc.text, click.idx as int),
        m.doc.sels.items.len() == 1,
        m.doc.sels.primary == 0,
        0 <= m.clicks <= 3,
    ensures
        ({
            let n = after_mouse_down(m, click, mods, true);
            let again = click.near && m.last_click is Some && (click.now < m.last_click->0
                || click.now - m.last_click->0 <= MULTI_CLICK_NANOS);
            let s = m.doc.sels.items[0];
            let w = word_at(m.doc.text, click.idx as int);
            &&& n.doc.text == m.doc.text
            &&& n.doc.links == m.doc.links
            &&& mods.shift ==> only_selection(n, s.anchor as int, click.idx as int)
            &&& !mods.shift && !again ==> only_selection(n, click.idx as int, click.idx as int)
                && n.clicks == 1
            &&& !mods.shift && again && m.clicks == 1 ==> only_selection(n, w.start, w.end)
                && n.clicks == 2
            &&& !mods.shift && again && m.clicks >= 2 && m.lines.len() > 0 ==> {
                let l = line_of(m.lines, click.idx as int, click.affinity);
                only_selection(n, l.start, l.end) && n.clicks == 3
            }
        }),
{
    let b = m.doc.text;
    if b.len() > 0 {
        the_word_at_a_place_is_a_whole_run(b, click.idx as int);
    }
    if m.lines.len() > 0 {
        lemma_boundary_ends(b);
        lemma_chained_lines(b, m.lines, 0, b.len() as int);
        lemma_caret_place(m.lines, click.idx as int, click.affinity);
    }
}

/// Dragging by characters moves the end of the selection to where the pointer is, and leaves its
/// start. Releasing the button ends the drag.
pub proof fn drags_take_the_selection_along(m: TextModel, idx: usize, affinity: Affinity)
    requires
        m.doc.sels.items.len() == 1,
        m.doc.sels.primary == 0,
        m.drag == Some(DragModel { sel: 0, kind: DragKindModel::Char }),
    ensures
        only_selection(
            after_drag(m, idx, affinity),
            m.doc.sels.items[0].anchor as int,
            idx as int,
        ),
        after_drag(m, idx, affinity).doc.text == m.doc.text,
        after_mouse_up(after_drag(m, idx, affinity)).drag is None,
        only_selection(
            after_mouse_up(after_drag(m, idx, affinity)),
            m.doc.sels.items[0].anchor as int,
            idx as int,
        ),
{
    lemma_one_stays(after_drag(m, idx, affinity).doc.sels);
}

// ---------------------------------------------------------------------------
// Tags
// ---------------------------------------------------------------------------

/// A tag in a text: `#`, in front of which there is nothing or white space, and what follows up to
/// white space, another `#` or the end of the text.
pub open spec fn is_inline_tag(b: Seq<u8>, s: Span) -> bool {
    &&& 0 <= s.start < s.end <= b.len()
    &&& b[s.start] == 35
    &&& s.start == 0 || white(char_at(b, prev_boundary(b, s.start)))
    &&& boundary(b, s.end)
    &&& forall|i: int|
        s.start < i < s.end && #[trigger] boundary(b, i) ==> !white(char_at(b, i)) && b[i] != 35
    &&& s.end < b.len() ==> white(char_at(b, s.end)) || b[s.end] == 35
}

proof fn lemma_tag_run(b: Seq<u8>, i: int)
    requires
        boundary(b, i),
    ensures
        i <= tag_end(b, i) <= b.len(),
        boundary(b, tag_end(b, i)),
        forall|k: int|
            i <= k < tag_end(b, i) && #[trigger] boundary(b, k) ==> !white(char_at(b, k)) && b[k]
                != 35,
        tag_end(b, i) < b.len() ==> white(char_at(b, tag_end(b, i))) || b[tag_end(b, i)] == 35,
    decreases b.len() - i,
{
    lemma_next_boundary(b, i);
    lemma_no_boundary_between(b, i);
    if i < b.len() && !white_here(b, i) && b[i] != 35 {
        lemma_tag_run(b, next_boundary(b, i));
    }
}

/// The tags found in a text are tags, they are found in order, and every tag is found.
pub proof fn every_inline_tag_is_found(b: Seq<u8>, n: int)
    requires
        valid_utf8(b),
        0 <= n <= b.len(),
    ensures
        forall|k: int|
            0 <= k < inline_tags(b, n).len() ==> is_inline_tag(b, #[trigger] inline_tags(b, n)[k])
                && inline_tags(b, n)[k].start < n,
        forall|k: int, j: int|
            0 <= k < j < inline_tags(b, n).len() ==> (#[trigger] inline_tags(b, n)[k]).start < (
            #[trigger] inline_tags(b, n)[j]).start,
        forall|s: Span|
            #[trigger] is_inline_tag(b, s) && s.start < n ==> inline_tags(b, n).contains(s),
    decreases n,
{
    let all = inline_tags(b, n);
    if n > 0 {
        every_inline_tag_is_found(b, n - 1);
        let before = inline_tags(b, n - 1);
        if tag_start(b, n - 1) {
            lemma_after_ascii(b, n - 1);
            lemma_tag_run(b, n);
            let one = Span { start: n - 1, end: tag_end(b, n) };
            assert(all == before.push(one));
            assert(all[all.len() - 1] == one);
            assert(is_inline_tag(b, one));
            assert forall|s: Span| #[trigger] is_inline_tag(b, s) && s.start < n implies all.contains(
                s,
            ) by {
                if s.start == n - 1 {
                    if s.end < one.end {
                        assert(boundary(b, s.end));
                    } else if s.end > one.end {
                        assert(boundary(b, one.end));
                    }
                    assert(s == one);
                } else {
                    let k = choose|k: int| 0 <= k < before.len() && before[k] == s;
                    assert(all[k] == s);
                }
            }
        } else {
            assert forall|s: Span| #[trigger] is_inline_tag(b, s) && s.start < n implies all.contains(
                s,
            ) by {
                if s.start == n - 1 {
                    assert(tag_start(b, n - 1));
                }
            }
        }
    }
}

// ---------------------------------------------------------------------------
// Links
// ---------------------------------------------------------------------------

/// A click that follows links, on a link that is no tag, marks where that link leads to, and changes
/// nothing else of what is written or selected: one with the primary modifier while the text is being
/// edited, a plain one while it is not. A click beside every link marks nothing.
pub proof fn clicked_links_are_followed(
    m: TextModel,
    click: Click,
    mods: Modifiers,
    editing: bool,
)
    requires
        !mods.shift,
        !mods.alt,
        editing ==> primary_mod(mods),
        tag_under(m.doc.links, click.idx as int) is None,
    ensures
        ({
            let n = after_mouse_down(m, click, mods, editing);
            let idx = click.idx as int;
            &&& (exists|i: int|
                0 <= i < m.doc.links.len() && (#[trigger] m.doc.links[i]).start <= idx
                    < m.doc.links[i].end) ==> {
                &&& n.doc == m.doc
                &&& n.drag == m.drag
                &&& exists|i: int|
                    0 <= i < m.doc.links.len() && (#[trigger] m.doc.links[i]).start <= idx
                        < m.doc.links[i].end && n.pending_url == Some(m.doc.links[i].url)
            }
            &&& (forall|i: int|
                0 <= i < m.doc.links.len() ==> !((#[trigger] m.doc.links[i]).start <= idx
                    < m.doc.links[i].end)) ==> n.pending_url == m.pending_url
        }),
{
    let idx = click.idx as int;
    the_link_under_a_place_covers_it(m.doc.links, idx);
    if exists|i: int|
        0 <= i < m.doc.links.len() && (#[trigger] m.doc.links[i]).start <= idx
            < m.doc.links[i].end {
        let l = link_under(m.doc.links, idx)->0;
        let i = choose|i: int| 0 <= i < m.doc.links.len() && m.doc.links[i] == l;
        assert(m.doc.links[i].url == l.url);
    }
}

proof fn lemma_tag_under(links: Seq<Link>, idx: int)
    ensures
        tag_under(links, idx) matches Some(name) ==> exists|i: int|
            0 <= i < links.len() && (#[trigger] links[i]).start <= idx < links[i].end && tag_named(
                links[i],
            ) == Some(name),
        tag_under(links, idx) is None ==> forall|i: int|
            0 <= i < links.len() && (#[trigger] links[i]).start <= idx < links[i].end ==> tag_named(
                links[i],
            ) is None,
    decreases links.len(),
{
    if links.len() > 0 {
        let rest = links.drop_first();
        lemma_tag_under(rest, idx);
        if links[0].start <= idx < links[0].end && tag_named(links[0]) is Some {
        } else {
            if let Some(name) = tag_under(links, idx) {
                let i = choose|i: int|
                    0 <= i < rest.len() && (#[trigger] rest[i]).start <= idx < rest[i].end
                        && tag_named(rest[i]) == Some(name);
                assert(links[i + 1] == rest[i]);
            } else {
                assert forall|i: int|
                    0 <= i < links.len() && (#[trigger] links[i]).start <= idx
                        < links[i].end implies tag_named(links[i]) is None by {
                    if i > 0 {
                        assert(rest[i - 1] == links[i]);
                    }
                }
            }
        }
    }
}

/// A click that follows links, on a tag, marks the tag: one that a link under the click names. Where no
/// link under it names a tag, none is marked.
pub proof fn clicked_tags_are_followed(
    m: TextModel,
    click: Click,
    mods: Modifiers,
    editing: bool,
)
    requires
        !mods.shift,
        !mods.alt,
        editing ==> primary_mod(mods),
    ensures
        ({
            let n = after_mouse_down(m, click, mods, editing);
            let idx = click.idx as int;
            let links = m.doc.links;
            &&& (exists|i: int|
                0 <= i < links.len() && (#[trigger] links[i]).start <= idx < links[i].end
                    && tag_named(links[i]) is Some) ==> n.doc == m.doc && exists|i: int|
                0 <= i < links.len() && (#[trigger] links[i]).start <= idx < links[i].end
                    && n.pending_tag == tag_named(links[i]) && n.pending_tag is Some
            &&& (forall|i: int|
                0 <= i < links.len() && (#[trigger] links[i]).start <= idx < links[i].end
                    ==> tag_named(links[i]) is None) ==> n.pending_tag == m.pending_tag
        }),
{
    lemma_tag_under(m.doc.links, click.idx as int);
}

proof fn lemma_word_run(b: Seq<u8>, e: int)
    requires
        valid_utf8(b),
        boundary(b, e),
    ensures
        ({
            let s = word_start(b, e);
            &&& 0 <= s <= e
            &&& boundary(b, s)
            &&& s == 0 || white_before(b, s)
            &&& forall|q: int| s <= q < e && #[trigger] boundary(b, q) ==> !white(char_at(b, q))
        }),
    decreases e,
{
    lemma_prev_boundary(b, e);
    if e > 0 && !white_before(b, e) {
        lemma_no_boundary_before(b, e);
        lemma_word_run(b, prev_boundary(b, e));
    }
}

/// A word that starts with `#`: in front of it there is nothing or white space, and there is none in it.
pub open spec fn is_closing_tag(b: Seq<u8>, s: Span) -> bool {
    &&& 0 <= s.start < s.end <= b.len()
    &&& b[s.start] == 35
    &&& s.start == 0 || white_before(b, s.start)
    &&& forall|q: int|
        s.start <= q < s.end && #[trigger] boundary(b, q) ==> !white(char_at(b, q))
}

/// The tags that close a text are words that start with `#`, in order; from the first of them on there is
/// nothing else but white space up to the end; and the word in front of them, where there is one, does not
/// start with `#`.
pub proof fn closing_tags_are_the_last_words(b: Seq<u8>, end: int)
    requires
        valid_utf8(b),
        boundary(b, end),
    ensures
        ({
            let tags = trailing_tags(b, end);
            let from = if tags.len() > 0 {
                tags[0].start
            } else {
                end
            };
            let e = trimmed_end(b, from);
            &&& 0 <= from <= end
            &&& forall|k: int|
                0 <= k < tags.len() ==> is_closing_tag(b, #[trigger] tags[k]) && from
                    <= tags[k].start && tags[k].end <= end
            &&& forall|k: int, j: int|
                0 <= k < j < tags.len() ==> (#[trigger] tags[k]).end <= (
                #[trigger] tags[j]).start
            &&& forall|q: int|
                from <= q < end && #[trigger] boundary(b, q) ==> white(char_at(b, q)) || exists|
                    k: int,
                |
                    0 <= k < tags.len() && (#[trigger] tags[k]).start <= q < tags[k].end
            &&& e > 0 ==> b[word_start(b, e)] != 35
        }),
    decreases end,
{
    let e = trimmed_end(b, end);
    let s = word_start(b, e);
    lemma_trimmed_back(b, end);
    lemma_word_run(b, e);
    lemma_prev_boundary(b, e);
    let tags = trailing_tags(b, end);
    if 0 <= s < e && b[s] == 35 {
        closing_tags_are_the_last_words(b, s);
        let before = trailing_tags(b, s);
        let one = Span { start: s, end: e };
        assert(tags == before.push(one));
        assert(tags[tags.len() - 1] == one);
        assert(is_closing_tag(b, one));
        let from = tags[0].start;
        if before.len() > 0 {
            assert(tags[0] == before[0]);
        }
        assert forall|k: int| 0 <= k < tags.len() implies is_closing_tag(b, #[trigger] tags[k])
            && from <= tags[k].start && tags[k].end <= end by {
            if k < before.len() {
                assert(tags[k] == before[k]);
            }
        }
        assert forall|k: int, j: int| 0 <= k < j < tags.len() implies (#[trigger] tags[k]).end <= (
        #[trigger] tags[j]).start by {
            assert(tags[k] == before[k]);
            if j < before.len() {
                assert(tags[j] == before[j]);
            }
        }
        assert forall|q: int| from <= q < end && #[trigger] boundary(b, q) implies white(
            char_at(b, q),
        ) || exists|k: int| 0 <= k < tags.len() && (#[trigger] tags[k]).start <= q < tags[k].end by {
            if q < s {
                if !white(char_at(b, q)) {
                    let k = choose|k: int|
                        0 <= k < before.len() && (#[trigger] before[k]).start <= q < before[k].end;
                    assert(tags[k] == before[k]);
                }
            } else if q < e {
                assert(tags[tags.len() - 1].start <= q);
            }
        }
    } else if e > 0 {
        assert(s < e);
    }
}

} // verus!
