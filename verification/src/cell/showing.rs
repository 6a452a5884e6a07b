//! What is drawn, what the pointer hits, and where keys of a cell go.
use vstd::prelude::*;
use vstd::utf8::*;

use crate::cell::CellModel;
use crate::cell::bullets::{
    ancestor, bullet_hit, bullet_pos, lemma_bullet_pos, shown_before, shown_from, OutlineModel,
};
use crate::cell::common::{Affinity, KeyEvent, Modifiers};
use crate::cell::effects::{lemma_line_holding, lemma_lines_in_order};
use crate::cell::handing::{ids_apart, lemma_pos_apart};
use crate::cell::model::{
    after_key, all_highlights, drawn, highlight, highlights, hit, hit_from, paragraph_starts,
    starts_paragraph, Click, Segment, TextModel,
};
use crate::cell::table::{table_of_records, RecordModel};
use crate::cell::wrap::{lemma_next_boundary, lemma_no_boundary_between, next_boundary, visible_end};
use crate::ids::Uuid;
use crate::text::boundary;

verus! {

// ---------------------------------------------------------------------------
// Highlights and carets
// ---------------------------------------------------------------------------

/// The segments highlight the byte `q` of line `k`.
pub open spec fn highlit(m: TextModel, segments: Seq<Segment>, k: int, q: int) -> bool {
    exists|x: int|
        0 <= x < segments.len() && (#[trigger] segments[x]).line == k && segments[x].start <= q
            - m.lines[k].start < segments[x].end
}

proof fn lemma_highlights(m: TextModel, lo: int, hi: int, n: int, k: int, q: int)
    requires
        0 <= n <= m.lines.len(),
        0 <= k < m.lines.len(),
        m.lines[k].start <= q < visible_end(m.doc.text, m.lines[k]),
    ensures
        highlit(m, highlights(m, lo, hi, n), k, q) <==> k < n && lo <= q < hi,
    decreases n,
{
    if n > 0 {
        lemma_highlights(m, lo, hi, n - 1, k, q);
        let before = highlights(m, lo, hi, n - 1);
        let all = highlights(m, lo, hi, n);
        match highlight(m, lo, hi, n - 1) {
            Some(s) => {
                assert(all == before.push(s));
                assert(all[all.len() - 1] == s);
                if highlit(m, before, k, q) {
                    let x = choose|x: int|
                        0 <= x < before.len() && (#[trigger] before[x]).line == k
                            && before[x].start <= q - m.lines[k].start < before[x].end;
                    assert(all[x] == before[x]);
                }
                if highlit(m, all, k, q) {
                    let x = choose|x: int|
                        0 <= x < all.len() && (#[trigger] all[x]).line == k && all[x].start <= q
                            - m.lines[k].start < all[x].end;
                    if x < before.len() {
                        assert(before[x] == all[x]);
                    }
                }
            },
            None => {},
        }
    }
}

proof fn lemma_all_highlights(m: TextModel, n: int, k: int, q: int)
    requires
        0 <= n <= m.doc.sels.items.len(),
        0 <= k < m.lines.len(),
        m.lines[k].start <= q < visible_end(m.doc.text, m.lines[k]),
    ensures
        highlit(m, all_highlights(m, n), k, q) <==> exists|i: int|
            0 <= i < n && (#[trigger] m.doc.sels.items[i]).lo() <= q < m.doc.sels.items[i].hi(),
    decreases n,
{
    if n > 0 {
        lemma_all_highlights(m, n - 1, k, q);
        let s = m.doc.sels.items[n - 1];
        let before = all_highlights(m, n - 1);
        let own = highlights(m, s.lo(), s.hi(), m.lines.len() as int);
        let all = all_highlights(m, n);
        lemma_highlights(m, s.lo(), s.hi(), m.lines.len() as int, k, q);
        if s.anchor != s.head {
            assert(all == before + own);
            if highlit(m, before, k, q) {
                let x = choose|x: int|
                    0 <= x < before.len() && (#[trigger] before[x]).line == k && before[x].start
                        <= q - m.lines[k].start < before[x].end;
                assert(all[x] == before[x]);
            }
            if highlit(m, own, k, q) {
                let x = choose|x: int|
                    0 <= x < own.len() && (#[trigger] own[x]).line == k && own[x].start <= q
                        - m.lines[k].start < own[x].end;
                assert(all[before.len() + x] == own[x]);
            }
            if highlit(m, all, k, q) {
                let x = choose|x: int|
                    0 <= x < all.len() && (#[trigger] all[x]).line == k && all[x].start <= q
                        - m.lines[k].start < all[x].end;
                if x < before.len() {
                    assert(before[x] == all[x]);
                } else {
                    assert(own[x - before.len()] == all[x]);
                }
            }
        }
    }
}

/// What is selected is what is highlighted: of what is seen of a line, just the bytes that some
/// selection holds, where the text box has the focus, and nothing where it has not.
pub proof fn what_is_selected_is_highlighted(
    m: TextModel,
    focused: bool,
    caret: bool,
    k: int,
    q: int,
)
    requires
        0 <= k < m.lines.len(),
        m.lines[k].start <= q < visible_end(m.doc.text, m.lines[k]),
    ensures
        highlit(m, drawn(m, focused, caret).highlights, k, q) <==> focused && exists|i: int|
            0 <= i < m.doc.sels.items.len() && (#[trigger] m.doc.sels.items[i]).lo() <= q
                < m.doc.sels.items[i].hi(),
{
    lemma_all_highlights(m, m.doc.sels.items.len() as int, k, q);
}

/// Every line is drawn, up to the line feed that ends it; and a caret in a line is drawn there, as
/// far from the start of the line as it is.
pub proof fn carets_are_drawn_where_they_are(m: TextModel, j: int, i: int)
    requires
        m.wf(),
        0 <= j < m.lines.len(),
        0 <= i < m.doc.sels.items.len(),
        m.lines[j].start < m.doc.sels.items[i].head < m.lines[j].end,
        m.doc.sels.items[i].head <= visible_end(m.doc.text, m.lines[j]),
    ensures
        ({
            let d = drawn(m, true, true);
            &&& d.lines.len() == m.lines.len()
            &&& d.lines[j].seen.start == m.lines[j].start
            &&& d.lines[j].seen.end == (if m.doc.text[m.lines[j].end - 1] == 10 {
                m.lines[j].end - 1
            } else {
                m.lines[j].end
            })
            &&& d.carets.len() == m.doc.sels.items.len()
            &&& d.carets[i] == (j, m.doc.sels.items[i].head - m.lines[j].start)
        }),
{
    let c = m.doc.sels.items[i].head as int;
    lemma_lines_in_order(m.doc.text, m.lines, 0, m.doc.text.len() as int);
    lemma_line_holding(m.lines, j, c, 0);
}

proof fn lemma_paragraphs_start(m: TextModel, n: int, k: int)
    requires
        0 <= n <= m.lines.len(),
        0 <= k < m.lines.len(),
    ensures
        (exists|x: int|
            0 <= x < paragraph_starts(m, n).len() && (#[trigger] paragraph_starts(m, n)[x]).0 == k)
            <==> k < n && starts_paragraph(m, k),
    decreases n,
{
    if n > 0 {
        lemma_paragraphs_start(m, n - 1, k);
        let before = paragraph_starts(m, n - 1);
        let all = paragraph_starts(m, n);
        if starts_paragraph(m, n - 1) {
            assert(all[all.len() - 1].0 == n - 1);
            if exists|x: int| 0 <= x < before.len() && (#[trigger] before[x]).0 == k {
                let x = choose|x: int| 0 <= x < before.len() && (#[trigger] before[x]).0 == k;
                assert(all[x] == before[x]);
            }
            if exists|x: int| 0 <= x < all.len() && (#[trigger] all[x]).0 == k {
                let x = choose|x: int| 0 <= x < all.len() && (#[trigger] all[x]).0 == k;
                if x < before.len() {
                    assert(before[x] == all[x]);
                }
            }
        }
    }
}

/// The lines that start a paragraph are the one at the start of the text and those right behind a
/// line feed.
pub proof fn paragraphs_start_behind_line_feeds(m: TextModel, k: int)
    requires
        m.wf(),
        0 <= k < m.lines.len(),
    ensures
        (exists|x: int|
            0 <= x < paragraph_starts(m, m.lines.len() as int).len() && (
            #[trigger] paragraph_starts(m, m.lines.len() as int)[x]).0 == k)
            <==> m.lines[k].start == 0 || m.doc.text[m.lines[k].start - 1] == 10,
{
    lemma_lines_in_order(m.doc.text, m.lines, 0, m.doc.text.len() as int);
    lemma_paragraphs_start(m, m.lines.len() as int, k);
}

// ---------------------------------------------------------------------------
// The pointer
// ---------------------------------------------------------------------------

/// How far `a` is from `b`.
pub open spec fn distance(a: int, b: int) -> int {
    if a < b {
        b - a
    } else {
        a - b
    }
}

proof fn lemma_hit_is_nearest(
    b: Seq<u8>,
    start: int,
    seen: int,
    prev: int,
    at: spec_fn(int) -> int,
    x: int,
    q: int,
)
    requires
        boundary(b, prev),
        boundary(b, seen),
        boundary(b, q),
        0 <= start <= prev <= seen,
        prev <= q <= seen,
        forall|i: int, j: int| start <= i < j <= seen ==> #[trigger] at(i) < #[trigger] at(j),
    ensures
        ({
            let reaches = |s: int, o: int| at(o) >= x;
            let nearer = |p: int, o: int| x - at(p) < at(o) - x;
            let hit = hit_from(b, start, seen, prev, reaches, nearer);
            &&& prev <= hit <= seen
            &&& distance(at(hit), x) <= distance(at(q), x)
        }),
    decreases seen - prev,
{
    let reaches = |s: int, o: int| at(o) >= x;
    let nearer = |p: int, o: int| x - at(p) < at(o) - x;
    let off = next_boundary(b, prev);
    lemma_next_boundary(b, prev);
    lemma_no_boundary_between(b, prev);
    if prev < q && q < off {
        assert(!boundary(b, q));
    }
    if prev < seen {
        assert(at(prev) < at(seen));
    }
    if off >= seen {
        if off > seen && prev < seen {
            assert(!boundary(b, seen));
        }
    } else {
        assert(at(prev) < at(off));
        if reaches(start, off) {
            if q > off {
                assert(at(off) < at(q));
            }
        } else {
            let near = if q >= off {
                q
            } else {
                off
            };
            lemma_hit_is_nearest(b, start, seen, off, at, x, near);
            if q < off {
                assert(q == prev);
            }
        }
    }
}

/// A pointer hits the nearest place between characters of the line: where `at` tells how far to the
/// right each place is, and the pointer is at `x`, no place of the line is nearer than the one that
/// is hit.
pub proof fn the_pointer_hits_the_nearest_place(
    m: TextModel,
    k: int,
    at: spec_fn(int) -> int,
    x: int,
    q: int,
)
    requires
        0 <= k < m.lines.len(),
        0 <= m.lines[k].start <= q <= visible_end(m.doc.text, m.lines[k]),
        boundary(m.doc.text, m.lines[k].start),
        boundary(m.doc.text, visible_end(m.doc.text, m.lines[k])),
        boundary(m.doc.text, q),
        forall|i: int, j: int|
            m.lines[k].start <= i < j <= visible_end(m.doc.text, m.lines[k]) ==> #[trigger] at(i)
                < #[trigger] at(j),
    ensures
        ({
            let reaches = |s: int, o: int| at(o) >= x;
            let nearer = |p: int, o: int| x - at(p) < at(o) - x;
            let place = hit(m, k, reaches, nearer).0;
            distance(at(place), x) <= distance(at(q), x)
        }),
{
    let line = m.lines[k];
    lemma_hit_is_nearest(
        m.doc.text,
        line.start,
        visible_end(m.doc.text, line),
        line.start,
        at,
        x,
        q,
    );
}

proof fn lemma_shown_from(m: OutlineModel, inside: spec_fn(int) -> bool, k: int)
    requires
        0 <= k <= m.bullets.len(),
    ensures
        ({
            let at = shown_from(m, inside, k);
            &&& k <= at <= m.bullets.len()
            &&& at < m.bullets.len() ==> m.shown(at) && inside(at)
            &&& forall|j: int| k <= j < at ==> !(#[trigger] m.shown(j) && inside(j))
        }),
    decreases m.bullets.len() - k,
{
    if k < m.bullets.len() && !(m.shown(k) && inside(k)) {
        lemma_shown_from(m, inside, k + 1);
    }
}

proof fn lemma_shown_before(m: OutlineModel, k: int)
    requires
        0 <= k <= m.bullets.len(),
    ensures
        ({
            let at = shown_before(m, k);
            &&& -1 <= at < k
            &&& at >= 0 ==> m.shown(at)
            &&& forall|j: int| at < j < k ==> !(#[trigger] m.shown(j))
        }),
    decreases k,
{
    if k > 0 && !m.shown(k - 1) {
        lemma_shown_before(m, k - 1);
    }
}

/// The bullet that a pointer belongs to is one that is shown, where there is one: one that it is in;
/// else, above the outline, none shown is in front of it, and below, none shown is behind it.
pub proof fn the_pointer_belongs_to_a_bullet_that_is_shown(
    m: OutlineModel,
    inside: spec_fn(int) -> bool,
    above: bool,
    j: int,
)
    requires
        0 <= j < m.bullets.len(),
        m.shown(j),
    ensures
        ({
            let i = bullet_hit(m, inside, above);
            &&& 0 <= i < m.bullets.len()
            &&& m.shown(i)
            &&& inside(j) ==> inside(i) && i <= j
            &&& !inside(i) && above ==> i <= j
            &&& !inside(i) && !above ==> j <= i
        }),
{
    lemma_shown_from(m, inside, 0);
    lemma_shown_from(m, |i: int| true, 0);
    lemma_shown_before(m, m.bullets.len() as int);
    assert(m.shown(j));
    let any = |i: int| true;
    assert(any(j));
}

/// A press in one bullet, a drag into another and the release there select the bullets from the one
/// to the other; what the bullets say does not change.
pub proof fn drags_across_bullets_select_them(
    m: OutlineModel,
    i: int,
    j: int,
    click: Click,
    mods: Modifiers,
    editing: bool,
    idx: usize,
    affinity: Affinity,
)
    requires
        ids_apart(m.bullets),
        0 <= i < m.bullets.len(),
        0 <= j < m.bullets.len(),
        i != j,
    ensures
        ({
            let n = m.pressed_in_bullet(i, click, mods, editing).dragged(
                j,
                idx,
                affinity,
            ).released();
            &&& n.focused == m.bullets[j].id
            &&& n.drag is None
            &&& n.selected() == Some(
                if i < j {
                    (i, j)
                } else {
                    (j, i)
                },
            )
            &&& n.bullets.len() == m.bullets.len()
            &&& forall|k: int|
                0 <= k < m.bullets.len() ==> (#[trigger] n.bullets[k]).text.doc.text
                    == m.bullets[k].text.doc.text && n.bullets[k].depth == m.bullets[k].depth
                    && n.bullets[k].id == m.bullets[k].id
        }),
{
    let p = m.pressed_in_bullet(i, click, mods, editing);
    assert forall|k: int| 0 <= k < m.bullets.len() implies (#[trigger] p.bullets[k]).id
        == m.bullets[k].id && p.bullets[k].text.doc.text == m.bullets[k].text.doc.text
        && p.bullets[k].depth == m.bullets[k].depth by {}
    assert(p.bullets[j].id == m.bullets[j].id && p.bullets[i].id == m.bullets[i].id);
    assert(m.bullets[j].id != m.bullets[i].id);
    let d = p.dragged(j, idx, affinity);
    let o = bullet_pos(p.bullets, m.bullets[i].id, 0);
    lemma_bullet_pos(p.bullets, m.bullets[i].id, 0);
    assert forall|k: int| 0 <= k < m.bullets.len() implies (#[trigger] d.bullets[k]).id
        == m.bullets[k].id && d.bullets[k].text.doc.text == m.bullets[k].text.doc.text
        && d.bullets[k].depth == m.bullets[k].depth by {
        assert(p.bullets[k].id == m.bullets[k].id);
    }
    let n = d.released();
    assert(n.bullets == d.bullets);
    assert forall|x: int, y: int|
        0 <= x < n.bullets.len() && 0 <= y < n.bullets.len() && (#[trigger] n.bullets[x]).id == (
        #[trigger] n.bullets[y]).id implies x == y by {
        assert(d.bullets[x].id == m.bullets[x].id && d.bullets[y].id == m.bullets[y].id);
    }
    assert(d.bullets[i].id == m.bullets[i].id && d.bullets[j].id == m.bullets[j].id);
    lemma_pos_apart(n.bullets, i);
    lemma_pos_apart(n.bullets, j);
}

// ---------------------------------------------------------------------------
// Rows of an outline
// ---------------------------------------------------------------------------

/// Where all bullets are shown, a bullet is drawn as deep as it is; it is dimmed if it or one of its
/// ancestors is closed, and then only drawn where closed ones are to be seen.
pub proof fn bullets_are_drawn_at_their_level(
    m: OutlineModel,
    i: int,
    focused: bool,
    caret: bool,
)
    requires
        0 <= i < m.bullets.len(),
        m.filter is None,
    ensures
        ({
            let row = m.row(i, focused, caret);
            let closed = m.bullets[i].closed_at is Some || exists|j: int| #[trigger]
                ancestor(m.bullets, j, i) && m.bullets[j].closed_at is Some;
            &&& row.indent == m.bullets[i].depth
            &&& row.dimmed == closed
            &&& row.visible == (!closed || m.show_inactive)
            &&& m.selection is None && m.drag is None ==> row.focused == (focused
                && m.bullets[i].id == m.focused)
            &&& m.selection is None && m.drag is None ==> !row.highlighted
        }),
{
}

// ---------------------------------------------------------------------------
// Cells
// ---------------------------------------------------------------------------

/// Keys go to where the focus is: what is typed into the title leaves the body as it is, and what is
/// typed into the body leaves the title. From the first line of the body an arrow goes up to the
/// title, and Enter goes from the title down to the body.
pub proof fn keys_go_to_where_the_focus_is(
    m: CellModel,
    ev: KeyEvent,
    mods: Modifiers,
    ids: (Uuid, Uuid),
    now: u64,
)
    requires
        ev.pressed,
        !mods.shift,
    ensures
        ({
            let n = m.after_key(ev, mods, ids, now).m;
            let typing = ev.key is Other || ev.key is Backspace || ev.key is Delete;
            &&& typing && m.title_focused && m.title is Some ==> {
                &&& n.kind == m.kind
                &&& n.title == Some(after_key(m.title->0, ev, mods, now).0)
                &&& n.title_focused
            }
            &&& typing && !m.title_focused ==> n.title == m.title && n.kind == m.kind.after_key(
                ev,
                mods,
                ids,
                now,
            ).m
            &&& ev.key is ArrowUp && !m.title_focused && m.title is Some && m.kind.at_top() ==> {
                &&& n.title_focused
                &&& n.kind == m.kind
                &&& n.title is Some
                &&& n.title->0.doc.text == m.title->0.doc.text
            }
            &&& ev.key is Enter && m.title_focused && m.title is Some ==> !n.title_focused
                && n.kind == m.kind.caret_at_start()
        }),
{
}

/// A table made of stored entries says what they say, each in its place; rows shorter than the first
/// are filled up with empty entries that can be edited.
pub proof fn stored_entries_are_in_their_places(
    rows: Seq<Seq<RecordModel>>,
    r: int,
    c: int,
)
    requires
        0 <= r < rows.len(),
        0 <= c,
    ensures
        ({
            let t = table_of_records(rows);
            &&& t.cells.len() == rows.len()
            &&& t.focused == (0usize, 0usize)
            &&& c < rows[r].len() ==> {
                &&& c < t.cells[r].len()
                &&& t.cells[r][c].text.doc.text == rows[r][c].text
                &&& t.cells[r][c].readonly == rows[r][c].readonly
            }
            &&& rows[r].len() <= c < rows[0].len() ==> {
                &&& c < t.cells[r].len()
                &&& t.cells[r][c].text.doc.text.len() == 0
                &&& !t.cells[r][c].readonly
            }
            &&& t.cells[r].len() >= rows[r].len()
            &&& t.cells[r].len() >= 1
        }),
{
}

} // verus!
