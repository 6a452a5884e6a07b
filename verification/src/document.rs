//! The document: the stream of cells and the time windows laid over it, with what
//! has yet to reach the disk.
//!
//! Cells are kept in the order of their time stamps, and of their identities where
//! those are equal. Every change goes through a method that also says what the
//! next flush has to write or to drop.
use std::collections::HashSet;
use vstd::prelude::*;

use crate::cell::Cell;
use crate::cell::common::now_epoch_ms;
use crate::ids::Uuid;

verus! {

/// A time window over the stream of cells. Which cells lie in it follows from
/// their time stamps.
pub struct Context {
    pub id: Uuid,
    pub start_time: i64,
    pub end_time: Option<i64>,
    pub title: Option<String>,
}

/// The document.
pub struct Document {
    /// All cells, in the order of the stream.
    pub cells: Vec<Cell>,
    pub contexts: Vec<Context>,
    /// Cells that the next flush has to write.
    pub dirty_cells: HashSet<Uuid>,
    /// Deleted cells that the next flush has to drop.
    pub pending_deletes: HashSet<Uuid>,
    /// Contexts that the next flush has to write.
    pub dirty_contexts: HashSet<Uuid>,
    /// Deleted contexts that the next flush has to drop.
    pub pending_context_deletes: HashSet<Uuid>,
}

/// Cell `a` may stand before cell `b` in the stream.
pub open spec fn in_order(a: Cell, b: Cell) -> bool {
    a.timestamp < b.timestamp || (a.timestamp == b.timestamp && a.id <= b.id)
}

/// The cells stand in the order of the stream.
pub open spec fn stream(cells: Seq<Cell>) -> bool {
    forall|i: int, j: int|
        0 <= i < j < cells.len() ==> in_order(#[trigger] cells[i], #[trigger] cells[j])
}

/// Where, from `k` on, the first cell with the identity `id` stands; behind the
/// last one where there is none.
pub open spec fn cell_place(cells: Seq<Cell>, id: Uuid, k: int) -> int
    decreases cells.len() - k,
{
    if k < 0 || k >= cells.len() {
        cells.len() as int
    } else if cells[k].id == id {
        k
    } else {
        cell_place(cells, id, k + 1)
    }
}

/// Where, from `k` on, the first context with the identity `id` stands; behind the
/// last one where there is none.
pub open spec fn context_place(contexts: Seq<Context>, id: Uuid, k: int) -> int
    decreases contexts.len() - k,
{
    if k < 0 || k >= contexts.len() {
        contexts.len() as int
    } else if contexts[k].id == id {
        k
    } else {
        context_place(contexts, id, k + 1)
    }
}

/// The cell, edited at `now`.
pub open spec fn edited_cell(c: Cell, now: i64) -> Cell {
    Cell { edited_at: now, ..c }
}

/// The cells after one has been put among them at `at`: where those before it come
/// before it in the stream, and those behind it behind it.
pub open spec fn put_in_order(before: Seq<Cell>, c: Cell, at: int, after: Seq<Cell>) -> bool {
    &&& 0 <= at <= before.len()
    &&& forall|i: int| 0 <= i < at ==> in_order(#[trigger] before[i], c)
    &&& forall|i: int| at <= i < before.len() ==> in_order(c, #[trigger] before[i])
    &&& after == before.insert(at, c)
}

impl Document {
    /// The cells stand in the order of the stream.
    pub open spec fn wf(&self) -> bool {
        stream(self.cells@)
    }

    /// Everything but the cells and what the next flush does to them is as in
    /// `other`.
    pub open spec fn same_contexts(&self, other: &Document) -> bool {
        &&& self.contexts == other.contexts
        &&& self.dirty_contexts == other.dirty_contexts
        &&& self.pending_context_deletes == other.pending_context_deletes
    }

    /// The cells and what the next flush does to them are as in `other`.
    pub open spec fn same_cells(&self, other: &Document) -> bool {
        &&& self.cells == other.cells
        &&& self.dirty_cells == other.dirty_cells
        &&& self.pending_deletes == other.pending_deletes
    }

    /// An empty document.
    pub fn new() -> (d: Document)
        ensures
            d.wf(),
            d.cells@.len() == 0,
            d.contexts@.len() == 0,
            d.dirty_cells@ == Set::<Uuid>::empty(),
            d.pending_deletes@ == Set::<Uuid>::empty(),
            d.dirty_contexts@ == Set::<Uuid>::empty(),
            d.pending_context_deletes@ == Set::<Uuid>::empty(),
    {
        Document {
            cells: Vec::new(),
            contexts: Vec::new(),
            dirty_cells: HashSet::new(),
            pending_deletes: HashSet::new(),
            dirty_contexts: HashSet::new(),
            pending_context_deletes: HashSet::new(),
        }
    }

    /// Where the cell `id` stands; nothing where there is no such cell.
    pub fn cell_idx(&self, id: Uuid) -> (r: Option<usize>)
        ensures
            r == (if cell_place(self.cells@, id, 0) < self.cells@.len() {
                Some(cell_place(self.cells@, id, 0) as usize)
            } else {
                None
            }),
            r matches Some(i) ==> i < self.cells@.len() && i == cell_place(self.cells@, id, 0)
                && self.cells@[i as int].id == id,
            r is None <==> forall|i: int|
                0 <= i < self.cells@.len() ==> (#[trigger] self.cells@[i]).id != id,
    {
        let mut i: usize = 0;
        while i < self.cells.len()
            invariant
                i <= self.cells@.len(),
                cell_place(self.cells@, id, 0) == cell_place(self.cells@, id, i as int),
                forall|j: int| 0 <= j < i ==> (#[trigger] self.cells@[j]).id != id,
            decreases self.cells@.len() - i,
        {
            if self.cells[i].id == id {
                return Some(i);
            }
            i += 1;
        }
        None
    }

    /// The cell `id`; nothing where there is no such cell.
    pub fn cell(&self, id: Uuid) -> (r: Option<&Cell>)
        ensures
            r == (if cell_place(self.cells@, id, 0) < self.cells@.len() {
                Some(&self.cells@[cell_place(self.cells@, id, 0)])
            } else {
                None
            }),
    {
        match self.cell_idx(id) {
            Some(i) => Some(&self.cells[i]),
            None => None,
        }
    }

    /// The cell `id`, to be changed; nothing where there is no such cell.
    pub fn cell_mut(&mut self, id: Uuid) -> (r: Option<&mut Cell>)
        ensures
            ({
                let at = cell_place(old(self).cells@, id, 0);
                match r {
                    Some(c) => {
                        &&& at < old(self).cells@.len()
                        &&& *c == old(self).cells@[at]
                        &&& final(self).cells@ == old(self).cells@.update(at, *final(c))
                        &&& final(self).dirty_cells == old(self).dirty_cells
                        &&& final(self).pending_deletes == old(self).pending_deletes
                        &&& final(self).same_contexts(old(self))
                    },
                    None => at >= old(self).cells@.len() && *final(self) == *old(self),
                }
            }),
    {
        match self.cell_idx(id) {
            Some(i) => Some(&mut self.cells[i]),
            None => None,
        }
    }

    /// Puts a cell where it belongs in the stream, to be written by the next flush.
    /// Gives back where it stands.
    pub fn insert_cell_sorted(&mut self, cell: Cell) -> (at: usize)
        requires
            old(self).wf(),
        ensures
            final(self).wf(),
            put_in_order(old(self).cells@, cell, at as int, final(self).cells@),
            final(self).dirty_cells@ == old(self).dirty_cells@.insert(cell.id),
            final(self).pending_deletes == old(self).pending_deletes,
            final(self).same_contexts(old(self)),
    {
        broadcast use vstd::std_specs::hash::group_hash_axioms;

        let ghost before = self.cells@;
        let mut lo: usize = 0;
        let mut hi: usize = self.cells.len();
        while lo < hi
            invariant
                lo <= hi <= before.len(),
                self.cells@ == before,
                stream(before),
                forall|i: int| 0 <= i < lo ==> in_order(#[trigger] before[i], cell),
                forall|i: int| hi <= i < before.len() ==> in_order(cell, #[trigger] before[i]),
            decreases hi - lo,
        {
            let mid: usize = lo + (hi - lo) / 2;
            let c = &self.cells[mid];
            if c.timestamp < cell.timestamp || (c.timestamp == cell.timestamp && c.id < cell.id) {
                lo = mid + 1;
            } else {
                hi = mid;
            }
        }
        let id = cell.id;
        self.cells.insert(lo, cell);
        self.dirty_cells.insert(id);
        lo
    }

    /// Takes the cell `id` as edited at `now`, to be written by the next flush.
    pub fn touch_cell_at(&mut self, id: Uuid, now: i64)
        ensures
            final(self).cells@ == touched(
                old(self).cells@,
                cell_place(old(self).cells@, id, 0),
                now,
            ),
            old(self).wf() ==> final(self).wf(),
            final(self).dirty_cells@ == old(self).dirty_cells@.insert(id),
            final(self).pending_deletes == old(self).pending_deletes,
            final(self).same_contexts(old(self)),
    {
        broadcast use vstd::std_specs::hash::group_hash_axioms;

        let ghost start = self.cells@;
        if let Some(i) = self.cell_idx(id) {
            self.cells[i].edited_at = now;
            assert(self.cells@ =~= start.update(i as int, edited_cell(start[i as int], now)));
        }
        self.dirty_cells.insert(id);
    }

    /// Takes the cell `id` as edited now.
    pub fn touch_cell(&mut self, id: Uuid)
        ensures
            exists|now: i64|
                #[trigger] touched(old(self).cells@, cell_place(old(self).cells@, id, 0), now)
                    == final(self).cells@,
            old(self).wf() ==> final(self).wf(),
            final(self).dirty_cells@ == old(self).dirty_cells@.insert(id),
            final(self).pending_deletes == old(self).pending_deletes,
            final(self).same_contexts(old(self)),
    {
        let now: i64 = now_epoch_ms();
        let ghost start = self.cells@;
        self.touch_cell_at(id, now);
        assert(touched(start, cell_place(start, id, 0), now) == self.cells@);
    }

    /// The next flush writes the cell `id`.
    pub fn mark_cell_dirty(&mut self, id: Uuid)
        ensures
            final(self).cells == old(self).cells,
            final(self).dirty_cells@ == old(self).dirty_cells@.insert(id),
            final(self).pending_deletes == old(self).pending_deletes,
            final(self).same_contexts(old(self)),
    {
        broadcast use vstd::std_specs::hash::group_hash_axioms;

        self.dirty_cells.insert(id);
    }

    /// The next flush writes the context `id`.
    pub fn mark_context_dirty(&mut self, id: Uuid)
        ensures
            final(self).same_cells(old(self)),
            final(self).contexts == old(self).contexts,
            final(self).dirty_contexts@ == old(self).dirty_contexts@.insert(id),
            final(self).pending_context_deletes == old(self).pending_context_deletes,
    {
        broadcast use vstd::std_specs::hash::group_hash_axioms;

        self.dirty_contexts.insert(id);
    }

    /// Takes the cell `id` out of the stream; the next flush drops it and does not
    /// write it. Gives back the cell; nothing, with nothing changed, where there is
    /// no such cell.
    pub fn queue_cell_delete(&mut self, id: Uuid) -> (r: Option<Cell>)
        ensures
            ({
                let at = cell_place(old(self).cells@, id, 0);
                match r {
                    Some(c) => {
                        &&& at < old(self).cells@.len()
                        &&& c == old(self).cells@[at]
                        &&& final(self).cells@ == old(self).cells@.remove(at)
                        &&& final(self).dirty_cells@ == old(self).dirty_cells@.remove(id)
                        &&& final(self).pending_deletes@ == old(self).pending_deletes@.insert(id)
                        &&& final(self).same_contexts(old(self))
                    },
                    None => at >= old(self).cells@.len() && *final(self) == *old(self),
                }
            }),
            old(self).wf() ==> final(self).wf(),
    {
        broadcast use vstd::std_specs::hash::group_hash_axioms;

        match self.cell_idx(id) {
            Some(i) => {
                let cell = self.cells.remove(i);
                self.dirty_cells.remove(&id);
                self.pending_deletes.insert(id);
                Some(cell)
            },
            None => None,
        }
    }

    /// Takes the context `id` out; the next flush drops it and does not write it.
    /// Says whether there was such a context; where there was none, nothing
    /// changes.
    pub fn queue_context_delete(&mut self, id: Uuid) -> (r: bool)
        ensures
            ({
                let at = context_place(old(self).contexts@, id, 0);
                if r {
                    &&& at < old(self).contexts@.len()
                    &&& final(self).contexts@ == old(self).contexts@.remove(at)
                    &&& final(self).dirty_contexts@ == old(self).dirty_contexts@.remove(id)
                    &&& final(self).pending_context_deletes@ == old(
                        self,
                    ).pending_context_deletes@.insert(id)
                    &&& final(self).same_cells(old(self))
                } else {
                    at >= old(self).contexts@.len() && *final(self) == *old(self)
                }
            }),
    {
        broadcast use vstd::std_specs::hash::group_hash_axioms;

        let mut i: usize = 0;
        while i < self.contexts.len()
            invariant
                i <= self.contexts@.len(),
                *self == *old(self),
                context_place(self.contexts@, id, 0) == context_place(self.contexts@, id, i as int),
            decreases self.contexts@.len() - i,
        {
            if self.contexts[i].id == id {
                self.contexts.remove(i);
                self.dirty_contexts.remove(&id);
                self.pending_context_deletes.insert(id);
                return true;
            }
            i += 1;
        }
        false
    }
}

/// The cells with the one at `at`, where there is one, edited at `now`.
pub open spec fn touched(cells: Seq<Cell>, at: int, now: i64) -> Seq<Cell> {
    if at < cells.len() {
        cells.update(at, edited_cell(cells[at], now))
    } else {
        cells
    }
}

impl Default for Document {
    fn default() -> (d: Self)
        ensures
            d.wf(),
            d.cells@.len() == 0,
            d.contexts@.len() == 0,
            d.dirty_cells@ == Set::<Uuid>::empty(),
            d.pending_deletes@ == Set::<Uuid>::empty(),
            d.dirty_contexts@ == Set::<Uuid>::empty(),
            d.pending_context_deletes@ == Set::<Uuid>::empty(),
    {
        Document::new()
    }
}

/// Where no two cells share both time stamp and identity, there is one place only
/// at which a cell can be put.
pub proof fn a_new_cell_has_one_place(
    before: Seq<Cell>,
    c: Cell,
    a: int,
    b: int,
    after_a: Seq<Cell>,
    after_b: Seq<Cell>,
)
    requires
        put_in_order(before, c, a, after_a),
        put_in_order(before, c, b, after_b),
        forall|i: int|
            0 <= i < before.len() ==> (#[trigger] before[i]).timestamp != c.timestamp
                || before[i].id != c.id,
    ensures
        a == b,
        after_a == after_b,
{
    if a < b {
        assert(in_order(before[a], c) && in_order(c, before[a]));
    }
    if b < a {
        assert(in_order(before[b], c) && in_order(c, before[b]));
    }
}

/// Deleting the cell that was just put in gives the stream of before.
pub proof fn deleting_a_new_cell_gives_back_the_stream(
    before: Seq<Cell>,
    c: Cell,
    at: int,
    after: Seq<Cell>,
)
    requires
        put_in_order(before, c, at, after),
        forall|i: int| 0 <= i < before.len() ==> (#[trigger] before[i]).id != c.id,
    ensures
        cell_place(after, c.id, 0) == at,
        after.remove(at) == before,
{
    lemma_cell_place(after, c.id, 0, at);
    assert(after.remove(at) =~= before);
}

/// The stream runs from the oldest cell to the newest: of two cells the one in front is not the
/// younger, and of two from one moment it is the one with the smaller identity.
pub proof fn the_stream_runs_from_old_to_new(cells: Seq<Cell>, i: int, j: int)
    requires
        stream(cells),
        0 <= i < j < cells.len(),
    ensures
        cells[i].timestamp <= cells[j].timestamp,
        cells[i].timestamp == cells[j].timestamp ==> cells[i].id <= cells[j].id,
{
    assert(in_order(cells[i], cells[j]));
}

/// A cell is found at the first place that has its identity.
pub proof fn cells_are_found_at_their_place(cells: Seq<Cell>, id: Uuid, i: int)
    requires
        0 <= i < cells.len(),
    ensures
        cell_place(cells, id, 0) == i <==> cells[i].id == id && forall|j: int|
            0 <= j < i ==> (#[trigger] cells[j]).id != id,
{
    lemma_first_place(cells, id, 0);
    let p = cell_place(cells, id, 0);
    if cells[i].id == id && p > i {
        assert(cells[i].id != id);
    }
}

proof fn lemma_first_place(cells: Seq<Cell>, id: Uuid, k: int)
    requires
        0 <= k <= cells.len(),
    ensures
        k <= cell_place(cells, id, k) <= cells.len(),
        cell_place(cells, id, k) < cells.len() ==> cells[cell_place(cells, id, k)].id == id,
        forall|j: int| k <= j < cell_place(cells, id, k) ==> (#[trigger] cells[j]).id != id,
    decreases cells.len() - k,
{
    if k < cells.len() && cells[k].id != id {
        lemma_first_place(cells, id, k + 1);
    }
}

/// Taking a cell as edited changes when it was edited and nothing else, and no other cell.
pub proof fn touching_a_cell_changes_when_it_was_edited(
    cells: Seq<Cell>,
    at: int,
    now: i64,
    k: int,
)
    requires
        0 <= at < cells.len(),
        0 <= k < cells.len(),
    ensures
        touched(cells, at, now).len() == cells.len(),
        touched(cells, at, now)[k] == (if k == at {
            Cell { edited_at: now, ..cells[k] }
        } else {
            cells[k]
        }),
{
}

/// A cell that was deleted is not there to be deleted again, where no two cells share
/// an identity.
pub proof fn deleting_twice_is_deleting_once(cells: Seq<Cell>, id: Uuid)
    requires
        forall|i: int, j: int|
            0 <= i < j < cells.len() ==> (#[trigger] cells[i]).id != (#[trigger] cells[j]).id,
        cell_place(cells, id, 0) < cells.len(),
    ensures
        ({
            let left = cells.remove(cell_place(cells, id, 0));
            cell_place(left, id, 0) == left.len()
        }),
{
    let at = cell_place(cells, id, 0);
    let left = cells.remove(at);
    lemma_cell_found(cells, id, 0);
    assert forall|i: int| 0 <= i < left.len() implies (#[trigger] left[i]).id != id by {
        if i < at {
            assert(left[i] == cells[i]);
        } else {
            assert(left[i] == cells[i + 1]);
        }
    }
    lemma_cell_missing(left, id, 0);
}

proof fn lemma_cell_found(cells: Seq<Cell>, id: Uuid, k: int)
    requires
        0 <= k <= cells.len(),
        cell_place(cells, id, k) < cells.len(),
    ensures
        k <= cell_place(cells, id, k),
        cells[cell_place(cells, id, k)].id == id,
    decreases cells.len() - k,
{
    if k < cells.len() && cells[k].id != id {
        lemma_cell_found(cells, id, k + 1);
    }
}

proof fn lemma_cell_missing(cells: Seq<Cell>, id: Uuid, k: int)
    requires
        0 <= k <= cells.len(),
        forall|i: int| k <= i < cells.len() ==> (#[trigger] cells[i]).id != id,
    ensures
        cell_place(cells, id, k) == cells.len(),
    decreases cells.len() - k,
{
    if k < cells.len() {
        lemma_cell_missing(cells, id, k + 1);
    }
}

proof fn lemma_cell_place(cells: Seq<Cell>, id: Uuid, k: int, at: int)
    requires
        0 <= k <= at < cells.len(),
        cells[at].id == id,
        forall|i: int| k <= i < at ==> (#[trigger] cells[i]).id != id,
    ensures
        cell_place(cells, id, k) == at,
    decreases at - k,
{
    if k < at {
        assert(cells[k].id != id);
        lemma_cell_place(cells, id, k + 1, at);
    }
}

} // verus!
