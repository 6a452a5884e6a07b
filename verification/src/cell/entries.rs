//! The entries of a table: how the focus goes from one to another, and what keys do to them.
use vstd::prelude::*;
use vstd::utf8::*;

use crate::cell::common::{KeyEvent, Modifiers};
use crate::cell::effects::only_selection;
use crate::cell::model::after_key;
use crate::cell::rows::{free_of, lemma_one_part, lemma_part_added, parted};
use crate::cell::table::{grid_joined, lemma_focusing_shape, row_joined, EntryModel, TableModel};

verus! {

/// The entries say the same in both tables, and can be edited in one where they can in the other.
pub open spec fn says_the_same(m: TableModel, n: TableModel) -> bool {
    &&& n.cells.len() == m.cells.len()
    &&& forall|r: int|
        0 <= r < m.cells.len() ==> (#[trigger] n.cells[r]).len() == m.cells[r].len()
    &&& forall|r: int, c: int|
        #![trigger n.cells[r][c]]
        0 <= r < m.cells.len() && 0 <= c < m.cells[r].len() ==> {
            &&& n.cells[r][c].text.doc.text == m.cells[r][c].text.doc.text
            &&& n.cells[r][c].text.doc.links == m.cells[r][c].text.doc.links
            &&& n.cells[r][c].readonly == m.cells[r][c].readonly
        }
}

proof fn lemma_focusing_says_the_same(m: TableModel, r: usize, c: usize)
    ensures
        says_the_same(m, m.focusing(r, c)),
{
}

/// Tab goes to the next entry, row by row, and with Shift to the one before it: in a table of `w`
/// columns the focus goes from entry number `r * w + c` to the next number, or to the one before.
/// In the last entry Tab does nothing, and in the first with Shift. Nothing that the entries say
/// changes.
pub proof fn tab_goes_through_the_entries_in_order(
    m: TableModel,
    ev: KeyEvent,
    mods: Modifiers,
    now: u64,
)
    requires
        m.focused.0 < m.cells.len() <= usize::MAX,
        m.focused.1 < m.width() <= usize::MAX,
        ev.pressed,
        ev.key is Tab,
    ensures
        ({
            let w = m.width();
            let n = m.after_key(ev, mods, now).m;
            let at = m.focused.0 * w + m.focused.1;
            let to = n.focused.0 * w + n.focused.1;
            let last = m.cells.len() * w - 1;
            &&& says_the_same(m, n)
            &&& n.focused.0 < m.cells.len() && n.focused.1 < w
            &&& !mods.shift ==> to == (if at < last {
                at + 1
            } else {
                at
            })
            &&& mods.shift ==> to == (if at > 0 {
                at - 1
            } else {
                at
            })
        }),
{
    let w = m.width();
    let (r, c) = (m.focused.0 as int, m.focused.1 as int);
    let rows = m.cells.len() as int;
    match m.next_entry(!mods.shift) {
        Some(to) => {
            lemma_focusing_says_the_same(m, to.0 as usize, to.1 as usize);
            lemma_focusing_shape(m, to.0 as usize, to.1 as usize);
        },
        None => {},
    }
    assert((r + 1) * w == r * w + w) by (nonlinear_arith);
    assert((r - 1) * w == r * w - w) by (nonlinear_arith);
    assert(r + 1 <= rows ==> (r + 1) * w <= rows * w) by (nonlinear_arith)
        requires
            w > 0,
    ;
    assert(r + 2 <= rows ==> (r + 1) * w + w <= rows * w) by (nonlinear_arith)
        requires
            w > 0,
    ;
    assert(r >= 1 ==> r * w >= w) by (nonlinear_arith)
        requires
            w > 0,
    ;
    assert(r == rows - 1 ==> r * w + w == rows * w) by (nonlinear_arith);
    assert(r == 0 ==> r * w == 0) by (nonlinear_arith);
}

/// Where the focused entry has one line and the caret is at that end of it, the arrows go to the
/// neighbour they point to, where there is one. Nothing that the entries say changes.
pub proof fn arrows_go_to_the_neighbour(
    m: TableModel,
    at: int,
    ev: KeyEvent,
    mods: Modifiers,
    now: u64,
)
    requires
        m.focused.0 < m.cells.len() <= usize::MAX,
        m.focused.1 < m.width() <= usize::MAX,
        m.holds(m.focused.0 as int, m.focused.1 as int),
        only_selection(m.focused_text(), at, at),
        m.focused_text().lines.len() == 0,
        ev.pressed,
        !mods.shift,
    ensures
        ({
            let n = m.after_key(ev, mods, now).m;
            let (r, c) = m.focused;
            &&& ev.key is ArrowUp && r > 0 ==> n.focused == ((r - 1) as usize, c)
                && says_the_same(m, n)
            &&& ev.key is ArrowDown && r + 1 < m.cells.len() ==> n.focused == (
                (r + 1) as usize,
                c,
            ) && says_the_same(m, n)
            &&& ev.key is ArrowLeft && c > 0 && at == 0 ==> n.focused == (r, (c - 1) as usize)
                && says_the_same(m, n)
            &&& ev.key is ArrowRight && c + 1 < m.width() && at == m.focused_text().doc.text.len()
                ==> n.focused == (r, (c + 1) as usize) && says_the_same(m, n)
            &&& ev.key is ArrowLeft && at > 0 || ev.key is ArrowRight && at
                < m.focused_text().doc.text.len() ==> n.focused == m.focused
        }),
{
    match m.crossing(ev.key) {
        Some(to) => {
            lemma_focusing_says_the_same(m, to.0 as usize, to.1 as usize);
            lemma_focusing_shape(m, to.0 as usize, to.1 as usize);
        },
        None => {},
    }
}

/// Keys change what the focused entry says, and no other entry; and nothing at all of an entry
/// that can only be read.
pub proof fn keys_change_only_the_focused_entry(
    m: TableModel,
    ev: KeyEvent,
    mods: Modifiers,
    now: u64,
    r: int,
    c: int,
)
    requires
        m.holds(r, c),
        (r, c) != (m.focused.0 as int, m.focused.1 as int) || m.cells[r][c].readonly,
    ensures
        ({
            let n = m.after_key(ev, mods, now).m;
            &&& n.holds(r, c)
            &&& n.cells[r][c].text.doc.text == m.cells[r][c].text.doc.text
            &&& n.cells[r][c].readonly == m.cells[r][c].readonly
        }),
{
    let n = m.after_key(ev, mods, now).m;
    match m.crossing(ev.key) {
        Some(to) => {
            lemma_focusing_says_the_same(m, to.0 as usize, to.1 as usize);
            assert(m.focusing(to.0 as usize, to.1 as usize).cells[r][c].readonly
                == m.cells[r][c].readonly);
        },
        None => {},
    }
    match m.next_entry(!mods.shift) {
        Some(to) => {
            lemma_focusing_says_the_same(m, to.0 as usize, to.1 as usize);
            assert(m.focusing(to.0 as usize, to.1 as usize).cells[r][c].readonly
                == m.cells[r][c].readonly);
        },
        None => {},
    }
}

/// What is typed goes to the focused entry, where it can be edited.
pub proof fn the_focused_entry_takes_what_is_typed(
    m: TableModel,
    ev: KeyEvent,
    mods: Modifiers,
    now: u64,
)
    requires
        m.editable(),
        ev.pressed,
        ev.key is Other || ev.key is Backspace || ev.key is Delete || ev.key is Enter,
    ensures
        m.after_key(ev, mods, now).m.focused_text() == after_key(
            m.focused_text(),
            ev,
            mods,
            now,
        ).0,
        m.after_key(ev, mods, now).m.focused == m.focused,
{
}

// ---------------------------------------------------------------------------
// Text
// ---------------------------------------------------------------------------

proof fn lemma_row_parted(row: Seq<EntryModel>, n: int)
    requires
        0 < n <= row.len(),
        forall|c: int|
            #![trigger row[c]]
            0 <= c < row.len() ==> free_of(row[c].text.doc.text, 9) && free_of(
                row[c].text.doc.text,
                10,
            ),
    ensures
        parted(row_joined(row, n), 9).len() == n,
        forall|c: int|
            0 <= c < n ==> #[trigger] parted(row_joined(row, n), 9)[c] == row[c].text.doc.text,
        free_of(row_joined(row, n), 10),
    decreases n,
{
    let all = row_joined(row, n);
    let own = row[n - 1].text.doc.text;
    if n == 1 {
        lemma_one_part(own, 9);
    } else {
        let before = row_joined(row, n - 1);
        lemma_row_parted(row, n - 1);
        lemma_part_added(before, 9, own);
        assert forall|c: int| 0 <= c < n implies #[trigger] parted(all, 9)[c]
            == row[c].text.doc.text by {
            if c < n - 1 {
                assert(parted(all, 9)[c] == parted(before, 9)[c]);
            }
        }
        assert forall|i: int| 0 <= i < all.len() implies #[trigger] all[i] != 10 by {
            if i < before.len() {
                assert(all[i] == before[i]);
            } else if i > before.len() {
                assert(all[i] == own[i - before.len() - 1]);
            }
        }
    }
}

proof fn lemma_grid_parted(cells: Seq<Seq<EntryModel>>, n: int)
    requires
        0 < n <= cells.len(),
        forall|r: int|
            #![trigger cells[r]]
            0 <= r < cells.len() ==> free_of(row_joined(cells[r], cells[r].len() as int), 10),
    ensures
        parted(grid_joined(cells, n), 10).len() == n,
        forall|r: int|
            0 <= r < n ==> #[trigger] parted(grid_joined(cells, n), 10)[r] == row_joined(
                cells[r],
                cells[r].len() as int,
            ),
    decreases n,
{
    let own = row_joined(cells[n - 1], cells[n - 1].len() as int);
    if n == 1 {
        lemma_one_part(own, 10);
    } else {
        let before = grid_joined(cells, n - 1);
        lemma_grid_parted(cells, n - 1);
        lemma_part_added(before, 10, own);
        let all = grid_joined(cells, n);
        assert forall|r: int| 0 <= r < n implies #[trigger] parted(all, 10)[r] == row_joined(
            cells[r],
            cells[r].len() as int,
        ) by {
            if r < n - 1 {
                assert(parted(all, 10)[r] == parted(before, 10)[r]);
            }
        }
    }
}

/// A table as text has a line for each row and, between the tabs of a line, a part for each entry:
/// part `c` of line `r` is what the entry there says, as long as no entry holds a tab or a line
/// feed.
pub proof fn tables_are_written_row_by_row(cells: Seq<Seq<EntryModel>>, r: int, c: int)
    requires
        0 <= r < cells.len(),
        0 <= c < cells[r].len(),
        forall|i: int| 0 <= i < cells.len() ==> (#[trigger] cells[i]).len() > 0,
        forall|i: int, j: int|
            #![trigger cells[i][j]]
            0 <= i < cells.len() && 0 <= j < cells[i].len() ==> free_of(
                cells[i][j].text.doc.text,
                9,
            ) && free_of(cells[i][j].text.doc.text, 10),
    ensures
        ({
            let lines = parted(grid_joined(cells, cells.len() as int), 10);
            &&& lines.len() == cells.len()
            &&& parted(lines[r], 9).len() == cells[r].len()
            &&& parted(lines[r], 9)[c] == cells[r][c].text.doc.text
        }),
{
    assert forall|i: int| #![trigger cells[i]] 0 <= i < cells.len() implies free_of(
        row_joined(cells[i], cells[i].len() as int),
        10,
    ) by {
        let row = cells[i];
        assert forall|j: int| #![trigger row[j]] 0 <= j < row.len() implies free_of(
            row[j].text.doc.text,
            9,
        ) && free_of(row[j].text.doc.text, 10) by {
            assert(cells[i][j] == row[j]);
        }
        lemma_row_parted(row, row.len() as int);
    }
    lemma_grid_parted(cells, cells.len() as int);
    let row = cells[r];
    assert forall|j: int| #![trigger row[j]] 0 <= j < row.len() implies free_of(
        row[j].text.doc.text,
        9,
    ) && free_of(row[j].text.doc.text, 10) by {
        assert(cells[r][j] == row[j]);
    }
    lemma_row_parted(row, row.len() as int);
    assert(parted(grid_joined(cells, cells.len() as int), 10)[r] == row_joined(
        row,
        row.len() as int,
    ));
}

} // verus!
