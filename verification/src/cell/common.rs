//! Types and helpers shared by every cell body: carets and selections, edits,
//! link spans, key events and clocks.
use std::ops::Range;
use vstd::prelude::*;
use vstd::utf8::*;

use crate::text;
use crate::text::{lemma_after_ascii, lemma_utf8_valid, starts_with_bytes, utf8, views};

verus! {

// ---------------------------------------------------------------------------
// Selections
// ---------------------------------------------------------------------------

/// Which side of a wrap boundary a caret sits on. At a soft wrap one byte
/// offset is both the end of a line and the start of the next; affinity picks
/// the side for rendering and for "current line" lookups.
#[derive(Clone, Copy, Debug, PartialEq, Eq, Structural)]
pub enum Affinity {
    Upstream,
    Downstream,
}

impl Default for Affinity {
    fn default() -> (a: Affinity)
        ensures
            a == Affinity::Downstream,
    {
        Affinity::Downstream
    }
}

/// A selected range: `anchor` is where it began, `head` is the caret.
#[derive(Clone, Copy, Debug, PartialEq, Eq, Structural)]
pub struct Selection {
    pub anchor: usize,
    pub head: usize,
    pub affinity: Affinity,
}

impl Selection {
    /// The lower end of the selection.
    pub open spec fn lo(self) -> int {
        if self.anchor <= self.head {
            self.anchor as int
        } else {
            self.head as int
        }
    }

    /// The upper end of the selection.
    pub open spec fn hi(self) -> int {
        if self.anchor <= self.head {
            self.head as int
        } else {
            self.anchor as int
        }
    }

    /// `x` lies in the selection, both ends included.
    pub open spec fn holds(self, x: int) -> bool {
        self.lo() <= x <= self.hi()
    }

    /// A collapsed selection at `at`.
    pub fn caret(at: usize) -> (s: Selection)
        ensures
            s == (Selection { anchor: at, head: at, affinity: Affinity::Downstream }),
    {
        Selection { anchor: at, head: at, affinity: Affinity::Downstream }
    }

    /// Whether nothing is selected.
    pub fn is_collapsed(&self) -> (r: bool)
        ensures
            r == (self.anchor == self.head),
    {
        self.anchor == self.head
    }

    /// The selected bytes.
    pub fn range(&self) -> (r: Range<usize>)
        ensures
            r.start == self.lo(),
            r.end == self.hi(),
    {
        if self.anchor <= self.head {
            self.anchor..self.head
        } else {
            self.head..self.anchor
        }
    }
}

/// The carets and selections of a text, and which of them is the primary one.
pub struct Selections {
    pub items: Vec<Selection>,
    pub primary: usize,
}

/// The mathematical content of `Selections`.
#[verifier::ext_equal]
pub struct SelectionSet {
    pub items: Seq<Selection>,
    pub primary: int,
}

impl View for Selections {
    type V = SelectionSet;

    open spec fn view(&self) -> SelectionSet {
        SelectionSet { items: self.items@, primary: self.primary as int }
    }
}

/// `s` put into `v` behind every item that starts no later than it.
pub open spec fn insert_by_start(v: Seq<Selection>, s: Selection) -> Seq<Selection>
    decreases v.len(),
{
    if v.len() == 0 || v.last().lo() <= s.lo() {
        v.push(s)
    } else {
        insert_by_start(v.drop_last(), s).push(v.last())
    }
}

/// `v` ordered by start; items with one start keep their order.
pub open spec fn sort_by_start(v: Seq<Selection>) -> Seq<Selection>
    decreases v.len(),
{
    if v.len() == 0 {
        v
    } else {
        insert_by_start(sort_by_start(v.drop_last()), v.last())
    }
}

/// `last` stretched over `s`; it keeps its direction and affinity.
pub open spec fn widened(last: Selection, s: Selection) -> Selection {
    let lo = if last.lo() <= s.lo() {
        last.lo()
    } else {
        s.lo()
    };
    let hi = if last.hi() >= s.hi() {
        last.hi()
    } else {
        s.hi()
    };
    if last.anchor <= last.head {
        Selection { anchor: lo as usize, head: hi as usize, affinity: last.affinity }
    } else {
        Selection { anchor: hi as usize, head: lo as usize, affinity: last.affinity }
    }
}

/// `v`, ordered by start, with overlapping and touching items joined.
pub open spec fn merged(v: Seq<Selection>) -> Seq<Selection>
    decreases v.len(),
{
    if v.len() == 0 {
        v
    } else {
        let done = merged(v.drop_last());
        let s = v.last();
        if done.len() > 0 && s.lo() <= done.last().hi() {
            done.drop_last().push(widened(done.last(), s))
        } else {
            done.push(s)
        }
    }
}

/// The first item at or after `from` that holds `x`; the number of items where
/// none does.
pub open spec fn first_holding(v: Seq<Selection>, x: int, from: int) -> int
    decreases v.len() - from,
{
    if from < 0 || from >= v.len() {
        v.len() as int
    } else if v[from].holds(x) {
        from
    } else {
        first_holding(v, x, from + 1)
    }
}

impl SelectionSet {
    /// The primary selection is one of the selections.
    pub open spec fn wf(self) -> bool {
        self.items.len() == 0 || 0 <= self.primary < self.items.len()
    }

    /// Ordered by start, overlapping and touching selections joined; primary is
    /// the selection that now holds the primary caret.
    pub open spec fn normalized(self) -> SelectionSet {
        if self.items.len() == 0 {
            SelectionSet { items: self.items, primary: 0 }
        } else {
            let items = merged(sort_by_start(self.items));
            let at = first_holding(items, self.items[self.primary].head as int, 0);
            SelectionSet {
                items,
                primary: if at < items.len() {
                    at
                } else {
                    0
                },
            }
        }
    }

    /// One caret at `at`.
    pub open spec fn at(at: usize) -> SelectionSet {
        SelectionSet {
            items: seq![Selection { anchor: at, head: at, affinity: Affinity::Downstream }],
            primary: 0,
        }
    }

    /// Neither overlapping nor touching, and in order.
    pub open spec fn disjoint(self) -> bool {
        apart(self.items)
    }

    /// `x` lies in one of the selections.
    pub open spec fn covers(self, x: int) -> bool {
        covered(self.items, x)
    }
}

/// The items of `v` are in order and neither overlap nor touch.
pub open spec fn apart(v: Seq<Selection>) -> bool {
    forall|i: int, j: int|
        0 <= i < j < v.len() ==> (#[trigger] v[i]).hi() < (#[trigger] v[j]).lo()
}

/// `x` lies in one of the items of `v`.
pub open spec fn covered(v: Seq<Selection>, x: int) -> bool {
    exists|i: int| 0 <= i < v.len() && (#[trigger] v[i]).holds(x)
}

proof fn lemma_insert_by_start(v: Seq<Selection>, s: Selection, k: int)
    requires
        0 <= k <= v.len(),
        forall|i: int| k <= i < v.len() ==> (#[trigger] v[i]).lo() > s.lo(),
        k > 0 ==> v[k - 1].lo() <= s.lo(),
    ensures
        insert_by_start(v, s) == v.insert(k, s),
    decreases v.len() - k,
{
    if k == v.len() {
        assert(v.insert(k, s) =~= v.push(s));
    } else {
        lemma_insert_by_start(v.drop_last(), s, k);
        assert(v.insert(k, s) =~= v.drop_last().insert(k, s).push(v.last()));
    }
}

/// The ends of an item of `s` satisfy `p`.
pub open spec fn ends_satisfy(s: Selection, p: spec_fn(int) -> bool) -> bool {
    p(s.anchor as int) && p(s.head as int)
}

proof fn lemma_insert_keeps(v: Seq<Selection>, s: Selection, p: spec_fn(int) -> bool)
    requires
        forall|i: int| 0 <= i < v.len() ==> ends_satisfy(#[trigger] v[i], p),
        ends_satisfy(s, p),
    ensures
        insert_by_start(v, s).len() == v.len() + 1,
        forall|i: int|
            0 <= i < insert_by_start(v, s).len() ==> ends_satisfy(
                #[trigger] insert_by_start(v, s)[i],
                p,
            ),
    decreases v.len(),
{
    if v.len() > 0 && v.last().lo() > s.lo() {
        lemma_insert_keeps(v.drop_last(), s, p);
    }
}

pub proof fn lemma_sort_keeps(v: Seq<Selection>, p: spec_fn(int) -> bool)
    requires
        forall|i: int| 0 <= i < v.len() ==> ends_satisfy(#[trigger] v[i], p),
    ensures
        sort_by_start(v).len() == v.len(),
        forall|i: int|
            0 <= i < v.len() ==> ends_satisfy(#[trigger] sort_by_start(v)[i], p),
    decreases v.len(),
{
    if v.len() > 0 {
        lemma_sort_keeps(v.drop_last(), p);
        assert(ends_satisfy(v[v.len() - 1], p));
        lemma_insert_keeps(sort_by_start(v.drop_last()), v.last(), p);
    }
}

proof fn lemma_merge_keeps(v: Seq<Selection>, p: spec_fn(int) -> bool)
    requires
        forall|i: int| 0 <= i < v.len() ==> ends_satisfy(#[trigger] v[i], p),
    ensures
        v.len() > 0 ==> merged(v).len() > 0,
        merged(v).len() <= v.len(),
        forall|i: int| 0 <= i < merged(v).len() ==> ends_satisfy(#[trigger] merged(v)[i], p),
    decreases v.len(),
{
    if v.len() > 0 {
        lemma_merge_keeps(v.drop_last(), p);
        assert(ends_satisfy(v[v.len() - 1], p));
        let done = merged(v.drop_last());
        if done.len() > 0 {
            assert(ends_satisfy(done[done.len() - 1], p));
        }
    }
}

proof fn lemma_first_holding(v: Seq<Selection>, x: int, from: int)
    requires
        0 <= from <= v.len(),
    ensures
        from <= first_holding(v, x, from) <= v.len(),
        first_holding(v, x, from) < v.len() ==> v[first_holding(v, x, from)].holds(x),
        forall|i: int| from <= i < first_holding(v, x, from) ==> !(#[trigger] v[i]).holds(x),
    decreases v.len() - from,
{
    if from < v.len() && !v[from].holds(x) {
        lemma_first_holding(v, x, from + 1);
    }
}

proof fn lemma_first_holding_is(v: Seq<Selection>, x: int, from: int, k: int)
    requires
        0 <= from <= k <= v.len(),
        k < v.len() ==> v[k].holds(x),
        forall|i: int| from <= i < k ==> !(#[trigger] v[i]).holds(x),
    ensures
        first_holding(v, x, from) == k,
    decreases k - from,
{
    if from < k {
        assert(!v[from].holds(x));
        lemma_first_holding_is(v, x, from + 1, k);
    }
}

/// Normalizing keeps a selection set well formed, and every end of a selection
/// it gives is the end of a selection it took: what held of those ends still
/// does.
pub proof fn lemma_normalized_keeps(s: SelectionSet, p: spec_fn(int) -> bool)
    requires
        s.wf(),
        forall|i: int| 0 <= i < s.items.len() ==> ends_satisfy(#[trigger] s.items[i], p),
    ensures
        s.normalized().wf(),
        s.items.len() > 0 ==> s.normalized().items.len() > 0,
        forall|i: int|
            0 <= i < s.normalized().items.len() ==> ends_satisfy(
                #[trigger] s.normalized().items[i],
                p,
            ),
{
    lemma_sort_keeps(s.items, p);
    lemma_merge_keeps(sort_by_start(s.items), p);
    if s.items.len() > 0 {
        lemma_first_holding(
            merged(sort_by_start(s.items)),
            s.items[s.primary].head as int,
            0,
        );
    }
}

/// Ordered by start.
spec fn by_start(v: Seq<Selection>) -> bool {
    forall|i: int, j: int|
        0 <= i <= j < v.len() ==> (#[trigger] v[i]).lo() <= (#[trigger] v[j]).lo()
}

proof fn lemma_insert_sorted(v: Seq<Selection>, s: Selection)
    requires
        by_start(v),
    ensures
        by_start(insert_by_start(v, s)),
        insert_by_start(v, s).len() == v.len() + 1,
        forall|i: int|
            0 <= i < insert_by_start(v, s).len() ==> (#[trigger] insert_by_start(v, s)[i] == s
                || v.contains(insert_by_start(v, s)[i])),
        forall|x: int|
            #![trigger covered(v, x)]
            covered(insert_by_start(v, s), x) <==> (
            covered(v, x) || s.holds(x)),
    decreases v.len(),
{
    let r = insert_by_start(v, s);
    if v.len() == 0 || v.last().lo() <= s.lo() {
        assert forall|i: int| 0 <= i < r.len() implies (#[trigger] r[i] == s || v.contains(
            r[i],
        )) by {
            if i < v.len() {
                assert(v[i] == r[i]);
            }
        }
        lemma_covers_push(v, s);
    } else {
        let d = v.drop_last();
        lemma_insert_sorted(d, s);
        let rd = insert_by_start(d, s);
        assert forall|i: int| 0 <= i < r.len() implies (#[trigger] r[i] == s || v.contains(
            r[i],
        )) by {
            if i < rd.len() {
                assert(r[i] == rd[i]);
                if rd[i] != s {
                    let k = choose|k: int| 0 <= k < d.len() && d[k] == rd[i];
                    assert(v[k] == r[i]);
                }
            } else {
                assert(v[v.len() - 1] == r[i]);
            }
        }
        assert(by_start(r)) by {
            assert forall|i: int, j: int| 0 <= i <= j < r.len() implies (#[trigger] r[i]).lo()
                <= (#[trigger] r[j]).lo() by {
                if j < rd.len() {
                    assert(rd[i].lo() <= rd[j].lo());
                } else if i < rd.len() {
                    assert(r[i] == rd[i]);
                    if rd[i] != s {
                        assert(v.contains(r[i]));
                        let k = choose|k: int| 0 <= k < v.len() && v[k] == r[i];
                        assert(v[k].lo() <= v[v.len() - 1].lo());
                    }
                }
            }
        }
        lemma_covers_push(rd, v.last());
        lemma_covers_push(d, v.last());
        assert(d.push(v.last()) =~= v);
        assert forall|x: int|
            #![trigger covered(v, x)]
            covered(r, x) <==> (covered(v, x) || s.holds(x)) by {
            assert(covered(d, x) || true);
            assert(covered(rd, x) || true);
        }
    }
}

proof fn lemma_covers_push(v: Seq<Selection>, s: Selection)
    ensures
        forall|x: int|
            #![trigger covered(v, x)]
            #![trigger covered(v.push(s), x)]
            covered(v.push(s), x) <==> (covered(v, x) || s.holds(x)),
{
    assert forall|x: int|
        #![trigger covered(v, x)]
        #![trigger covered(v.push(s), x)]
        covered(v.push(s), x) <==> (covered(v, x) || s.holds(x)) by {
        let w = v.push(s);
        if covered(v, x) {
            let i = choose|i: int| 0 <= i < v.len() && (#[trigger] v[i]).holds(x);
            assert(w[i].holds(x));
        }
        if s.holds(x) {
            assert(w[v.len() as int].holds(x));
        }
        if covered(w, x) {
            let i = choose|i: int| 0 <= i < w.len() && (#[trigger] w[i]).holds(x);
            if i < v.len() {
                assert(v[i].holds(x));
            }
        }
    }
}

proof fn lemma_sort_sorted(v: Seq<Selection>)
    ensures
        by_start(sort_by_start(v)),
        sort_by_start(v).len() == v.len(),
        forall|x: int|
            #![trigger covered(v, x)]
            covered(sort_by_start(v), x) <==> covered(v, x),
    decreases v.len(),
{
    if v.len() > 0 {
        let d = v.drop_last();
        lemma_sort_sorted(d);
        lemma_insert_sorted(sort_by_start(d), v.last());
        lemma_covers_push(d, v.last());
        assert(d.push(v.last()) =~= v);
        assert forall|x: int|
            #![trigger covered(v, x)]
            covered(sort_by_start(v), x) <==> covered(v, x) by {
            assert(covered(d, x) || true);
            assert(covered(sort_by_start(d), x) || true);
        }
    }
}

proof fn lemma_merge(v: Seq<Selection>)
    requires
        by_start(v),
    ensures
        apart(merged(v)),
        merged(v).len() > 0 ==> merged(v).last().lo() <= v.last().lo(),
        v.len() > 0 ==> merged(v).len() > 0,
        forall|x: int|
            #![trigger covered(v, x)]
            covered(merged(v), x) <==> covered(v, x),
    decreases v.len(),
{
    if v.len() > 0 {
        let d = v.drop_last();
        assert(by_start(d)) by {
            assert forall|i: int, j: int| 0 <= i <= j < d.len() implies (#[trigger] d[i]).lo()
                <= (#[trigger] d[j]).lo() by {
                assert(v[i].lo() <= v[j].lo());
            }
        }
        lemma_merge(d);
        let done = merged(d);
        let s = v.last();
        let r = merged(v);
        lemma_covers_push(d, s);
        assert(d.push(s) =~= v);
        if done.len() > 0 {
            assert(v[v.len() - 2].lo() <= v[v.len() - 1].lo());
            assert(d.last() == v[v.len() - 2]);
        }
        if done.len() > 0 && s.lo() <= done.last().hi() {
            let w = widened(done.last(), s);
            let e = done.drop_last();
            assert(w.lo() == done.last().lo());
            lemma_covers_push(e, w);
            lemma_covers_push(e, done.last());
            assert(e.push(done.last()) =~= done);
            assert forall|x: int|
                #![trigger covered(v, x)]
                covered(r, x) <==> covered(v, x) by {
                assert(covered(d, x) || true);
                assert(covered(e, x) || true);
                assert(w.holds(x) <==> (done.last().holds(x) || s.holds(x)));
            }
            assert forall|i: int, j: int| 0 <= i < j < r.len() implies (#[trigger] r[i]).hi() < (
            #[trigger] r[j]).lo() by {
                assert(done[i].hi() < done[j].lo());
            }
        } else {
            lemma_covers_push(done, s);
            assert forall|x: int|
                #![trigger covered(v, x)]
                covered(r, x) <==> covered(v, x) by {
                assert(covered(d, x) || true);
                assert(covered(done, x) || true);
            }
            assert forall|i: int, j: int| 0 <= i < j < r.len() implies (#[trigger] r[i]).hi() < (
            #[trigger] r[j]).lo() by {
                if j < done.len() {
                    assert(done[i].hi() < done[j].lo());
                } else if i < done.len() - 1 {
                    assert(done[i].hi() < done[done.len() - 1].lo());
                }
            }
        }
    }
}

/// Normalizing leaves selections that are in order and neither overlap nor
/// touch, covers the same positions as before, and keeps the primary caret in
/// the primary selection.
pub proof fn normalized_is_disjoint_and_covers_the_same(s: SelectionSet)
    requires
        s.wf(),
    ensures
        s.normalized().disjoint(),
        forall|x: int| #[trigger] s.normalized().covers(x) <==> s.covers(x),
        s.items.len() > 0 ==> s.normalized().items[s.normalized().primary].holds(
            s.items[s.primary].head as int,
        ),
{
    let v = s.items;
    lemma_sort_sorted(v);
    lemma_merge(sort_by_start(v));
    let r = merged(sort_by_start(v));
    assert forall|x: int| #[trigger] s.normalized().covers(x) <==> s.covers(x) by {
        assert(s.covers(x) <==> covered(v, x));
        assert(covered(sort_by_start(v), x) || true);
        assert(s.normalized().covers(x) <==> covered(r, x));
    }
    if v.len() > 0 {
        let h = v[s.primary].head as int;
        lemma_first_holding(r, h, 0);
        assert(v[s.primary].holds(h));
        assert(s.covers(h));
        assert(s.normalized().covers(h));
        let i = choose|i: int| 0 <= i < r.len() && (#[trigger] r[i]).holds(h);
        assert(r[i].holds(h));
    }
}

pub proof fn lemma_sort_fixed(v: Seq<Selection>)
    requires
        apart(v),
    ensures
        sort_by_start(v) == v,
        merged(v) == v,
    decreases v.len(),
{
    if v.len() > 0 {
        let d = v.drop_last();
        assert(apart(d)) by {
            assert forall|i: int, j: int| 0 <= i < j < d.len() implies (#[trigger] d[i]).hi() < (
            #[trigger] d[j]).lo() by {
                assert(v[i].hi() < v[j].lo());
            }
        }
        lemma_sort_fixed(d);
        if d.len() > 0 {
            assert(v[v.len() - 2].hi() < v[v.len() - 1].lo());
        }
        assert(d.push(v.last()) =~= v);
    }
}

/// Normalizing twice is normalizing once.
pub proof fn normalizing_is_idempotent(s: SelectionSet)
    requires
        s.wf(),
    ensures
        s.normalized().normalized().items == s.normalized().items,
        s.items.len() > 0 ==> s.normalized().normalized() == s.normalized(),
{
    normalized_is_disjoint_and_covers_the_same(s);
    let n = s.normalized();
    assert(apart(n.items)) by {
        assert forall|i: int, j: int| 0 <= i < j < n.items.len() implies (
        #[trigger] n.items[i]).hi() < (#[trigger] n.items[j]).lo() by {}
    }
    lemma_sort_fixed(n.items);
    if s.items.len() > 0 {
        lemma_normalized_keeps(s, |x: int| true);
        let p = n.primary;
        let h = n.items[p].head as int;
        assert(n.items[p].holds(h));
        assert forall|i: int| 0 <= i < p implies !(#[trigger] n.items[i]).holds(h) by {
            assert(n.items[i].hi() < n.items[p].lo());
        }
        lemma_first_holding_is(n.items, h, 0, p);
    }
}

/// `items` ordered by start; items with one start keep their order.
pub fn sorted_by_start(items: &Vec<Selection>) -> (sorted: Vec<Selection>)
    ensures
        sorted@ == sort_by_start(items@),
        sorted@.len() == items@.len(),
{
    let mut sorted: Vec<Selection> = Vec::new();
    let mut i: usize = 0;
    assert(items@.subrange(0, 0) =~= Seq::<Selection>::empty());
    while i < items.len()
        invariant
            i <= items.len(),
            sorted@ == sort_by_start(items@.subrange(0, i as int)),
            sorted@.len() == i,
        decreases items.len() - i,
    {
        let s: Selection = items[i];
        let lo: usize = s.range().start;
        let mut k: usize = sorted.len();
        while k > 0 && sorted[k - 1].range().start > lo
            invariant
                k <= sorted.len(),
                lo == s.lo(),
                forall|j: int| k <= j < sorted.len() ==> (#[trigger] sorted@[j]).lo() > lo,
            decreases k,
        {
            k -= 1;
        }
        proof {
            lemma_insert_by_start(sorted@, s, k as int);
            let t = items@.subrange(0, i + 1);
            assert(t.drop_last() =~= items@.subrange(0, i as int));
            assert(t.last() == s);
        }
        sorted.insert(k, s);
        i += 1;
    }
    assert(items@.subrange(0, i as int) =~= items@);
    sorted
}

impl Selections {
    /// One caret at `at`.
    pub fn single_caret(at: usize) -> (s: Selections)
        ensures
            s@ == SelectionSet::at(at),
    {
        let mut items: Vec<Selection> = Vec::new();
        items.push(Selection::caret(at));
        let s = Selections { items, primary: 0 };
        assert(s@.items =~= SelectionSet::at(at).items);
        s
    }

    /// A copy of the selections.
    pub fn duplicate(&self) -> (s: Selections)
        ensures
            s@ == self@,
    {
        let mut items: Vec<Selection> = Vec::new();
        let mut i: usize = 0;
        while i < self.items.len()
            invariant
                i <= self.items.len(),
                items@ == self.items@.subrange(0, i as int),
            decreases self.items.len() - i,
        {
            items.push(self.items[i]);
            i += 1;
            assert(items@ =~= self.items@.subrange(0, i as int));
        }
        assert(items@ =~= self.items@);
        Selections { items, primary: self.primary }
    }

    /// Puts the selections in order, joins those that overlap or touch, and
    /// makes the one that holds the primary caret the primary one.
    pub fn normalize(&mut self)
        requires
            old(self)@.wf(),
        ensures
            final(self)@ == old(self)@.normalized(),
    {
        if self.items.len() == 0 {
            self.primary = 0;
            return ;
        }
        let ghost before = self@;
        let primary_head: usize = self.items[self.primary].head;

        let sorted = sorted_by_start(&self.items);

        let mut joined: Vec<Selection> = Vec::new();
        let mut i: usize = 0;
        while i < sorted.len()
            invariant
                i <= sorted.len(),
                joined@ == merged(sorted@.subrange(0, i as int)),
            decreases sorted.len() - i,
        {
            let s: Selection = sorted[i];
            let ghost t = sorted@.subrange(0, i + 1);
            assert(t.drop_last() =~= sorted@.subrange(0, i as int));
            assert(t.last() == s);
            let n: usize = joined.len();
            if n > 0 && s.range().start <= joined[n - 1].range().end {
                let last: Selection = joined[n - 1];
                let lo: usize = if last.range().start <= s.range().start {
                    last.range().start
                } else {
                    s.range().start
                };
                let hi: usize = if last.range().end >= s.range().end {
                    last.range().end
                } else {
                    s.range().end
                };
                let wide = if last.anchor <= last.head {
                    Selection { anchor: lo, head: hi, affinity: last.affinity }
                } else {
                    Selection { anchor: hi, head: lo, affinity: last.affinity }
                };
                let ghost done = joined@;
                joined.set(n - 1, wide);
                assert(joined@ =~= done.drop_last().push(widened(done.last(), s)));
            } else {
                joined.push(s);
            }
            i += 1;
        }
        assert(sorted@.subrange(0, i as int) =~= sorted@);

        let mut at: usize = 0;
        while at < joined.len() && !(joined[at].range().start <= primary_head && primary_head
            <= joined[at].range().end)
            invariant
                at <= joined.len(),
                forall|j: int| 0 <= j < at ==> !(#[trigger] joined@[j]).holds(primary_head as int),
            decreases joined.len() - at,
        {
            at += 1;
        }
        proof {
            lemma_first_holding_is(joined@, primary_head as int, 0, at as int);
        }
        self.primary = if at < joined.len() {
            at
        } else {
            0
        };
        self.items = joined;
    }
}

// ---------------------------------------------------------------------------
// Edits and spans
// ---------------------------------------------------------------------------

/// The replacement of a range of a text.
pub struct Edit {
    pub range: Range<usize>,
    pub replacement: String,
}

/// The mathematical content of an `Edit`.
#[verifier::ext_equal]
pub struct EditModel {
    pub start: int,
    pub end: int,
    pub with: Seq<u8>,
}

impl View for Edit {
    type V = EditModel;

    open spec fn view(&self) -> EditModel {
        EditModel {
            start: self.range.start as int,
            end: self.range.end as int,
            with: utf8(self.replacement@),
        }
    }
}

/// A range of a text that links to `url`. A committed `#tag` is such a span
/// too, with a `kept-tag://` address.
#[derive(Debug)]
pub struct LinkSpan {
    pub range: Range<usize>,
    pub url: String,
}

/// The mathematical content of a `LinkSpan`.
#[verifier::ext_equal]
pub struct Link {
    pub start: int,
    pub end: int,
    pub url: Seq<u8>,
}

impl View for LinkSpan {
    type V = Link;

    open spec fn view(&self) -> Link {
        Link {
            start: self.range.start as int,
            end: self.range.end as int,
            url: utf8(self.url@),
        }
    }
}

impl LinkSpan {
    /// A copy of the span.
    pub fn duplicate(&self) -> (l: LinkSpan)
        ensures
            l@ == self@,
            l == *self,
    {
        LinkSpan { range: self.range.start..self.range.end, url: self.url.clone() }
    }
}

impl Clone for LinkSpan {
    fn clone(&self) -> (l: LinkSpan)
        ensures
            l == *self,
    {
        self.duplicate()
    }
}

/// A copy of a list of spans.
pub fn duplicate_links(links: &[LinkSpan]) -> (r: Vec<LinkSpan>)
    ensures
        r@ == links@,
        views(r@) == views(links@),
{
    let mut r: Vec<LinkSpan> = Vec::new();
    let mut i: usize = 0;
    while i < links.len()
        invariant
            i <= links.len(),
            r@ == links@.subrange(0, i as int),
        decreases links.len() - i,
    {
        r.push(links[i].duplicate());
        i += 1;
        assert(r@ =~= links@.subrange(0, i as int));
    }
    assert(r@ =~= links@);
    r
}

/// The scheme of the addresses that mark a committed `#tag`.
pub const KEPT_TAG_SCHEME: &'static str = "kept-tag://";

/// The bytes of `KEPT_TAG_SCHEME`.
pub open spec fn tag_scheme() -> Seq<u8> {
    seq![107u8, 101, 112, 116, 45, 116, 97, 103, 58, 47, 47]
}

/// `url` marks a committed tag.
pub open spec fn is_tag_address(url: Seq<u8>) -> bool {
    starts_with_bytes(url, tag_scheme())
}

/// The tag that a tag address names.
pub open spec fn tag_of_address(url: Seq<u8>) -> Seq<u8> {
    url.subrange(tag_scheme().len() as int, url.len() as int)
}

pub proof fn lemma_tag_scheme()
    ensures
        utf8(KEPT_TAG_SCHEME@) == tag_scheme(),
        is_ascii_chars(KEPT_TAG_SCHEME@),
{
    reveal_strlit("kept-tag://");
    is_ascii_chars_encode_utf8(KEPT_TAG_SCHEME@);
    assert(utf8(KEPT_TAG_SCHEME@) =~= tag_scheme());
}

/// Whether `url` marks a committed tag.
pub fn is_kept_tag_url(url: &str) -> (r: bool)
    ensures
        r == is_tag_address(utf8(url@)),
{
    proof {
        lemma_tag_scheme();
    }
    text::starts_with(url, KEPT_TAG_SCHEME)
}

/// The tag that `url` names, where it marks one.
pub fn tag_name_from_url(url: &str) -> (r: Option<&str>)
    ensures
        r is Some <==> is_tag_address(utf8(url@)),
        r matches Some(name) ==> utf8(name@) == tag_of_address(utf8(url@)),
{
    if is_kept_tag_url(url) {
        proof {
            let b = utf8(url@);
            lemma_utf8_valid(url@);
            assert(b[10] == b.subrange(0, 11)[10]);
            lemma_after_ascii(b, 10);
        }
        Some(text::suffix(url, 11))
    } else {
        None
    }
}

/// The address that marks the tag `name`.
pub fn tag_url(name: &str) -> (r: String)
    ensures
        utf8(r@) == tag_scheme() + utf8(name@),
{
    proof {
        lemma_tag_scheme();
    }
    let mut r = text::copy(KEPT_TAG_SCHEME);
    text::push_str(&mut r, name);
    r
}

/// The address of a tag marks that tag and no other.
pub proof fn tag_addresses_name_their_tag(name: Seq<u8>)
    ensures
        is_tag_address(tag_scheme() + name),
        tag_of_address(tag_scheme() + name) == name,
{
    assert((tag_scheme() + name).subrange(0, tag_scheme().len() as int) =~= tag_scheme());
    assert(tag_of_address(tag_scheme() + name) =~= name);
}

/// A `#tag` token of a text, leading `#` included. Only committed tags have
/// one: typing `#x` leaves no span and no tag.
#[derive(Debug)]
pub struct TagSpan {
    pub range: Range<usize>,
}

impl Clone for TagSpan {
    fn clone(&self) -> (t: TagSpan)
        ensures
            t == *self,
    {
        TagSpan { range: self.range.start..self.range.end }
    }
}

/// Where `i` lands after `del` bytes at `start` were replaced by `ins` bytes.
/// At the insertion point the index is pushed forward.
pub open spec fn moved_index(i: int, start: int, del: int, ins: int) -> int {
    if i < start {
        i
    } else if i == start && del == 0 {
        i + ins
    } else if i >= start + del {
        i - del + ins
    } else {
        start + ins
    }
}

/// Like `moved_index`, but an insertion exactly at `i` leaves `i` where it is.
pub open spec fn moved_end(i: int, start: int, del: int, ins: int) -> int {
    if i == start && del == 0 {
        i
    } else {
        moved_index(i, start, del, ins)
    }
}

/// The index that `i` becomes when `text[start..start + del]` is replaced by
/// `ins` bytes: carets ride with inserted text.
pub fn transform_index(i: usize, start: usize, del: usize, ins: usize) -> (r: usize)
    requires
        start + del <= usize::MAX,
        moved_index(i as int, start as int, del as int, ins as int) <= usize::MAX,
    ensures
        r == moved_index(i as int, start as int, del as int, ins as int),
{
    if i < start {
        i
    } else if i == start && del == 0 {
        i + ins
    } else if i >= start + del {
        i - del + ins
    } else {
        start + ins
    }
}

/// Like `transform_index`, for the end of a span: typing right behind a link
/// does not extend it.
pub fn transform_index_closed_end(i: usize, start: usize, del: usize, ins: usize) -> (r: usize)
    requires
        start + del <= usize::MAX,
        moved_end(i as int, start as int, del as int, ins as int) <= usize::MAX,
    ensures
        r == moved_end(i as int, start as int, del as int, ins as int),
{
    if i < start {
        i
    } else if i == start && del == 0 {
        i
    } else if i >= start + del {
        i - del + ins
    } else {
        start + ins
    }
}

/// Moving indices keeps their order and keeps them inside the text; a span's
/// end never overtakes the place a caret there would go to.
pub proof fn moving_indices_keeps_order(i: int, j: int, start: int, del: int, ins: int, len: int)
    requires
        0 <= i <= j <= len,
        0 <= start,
        0 <= del,
        start + del <= len,
        0 <= ins,
    ensures
        0 <= moved_index(i, start, del, ins) <= moved_index(j, start, del, ins) <= len - del + ins,
        moved_end(i, start, del, ins) <= moved_end(j, start, del, ins) <= len - del + ins,
        moved_end(j, start, del, ins) <= moved_index(j, start, del, ins),
{
}

// ---------------------------------------------------------------------------
// Keys
// ---------------------------------------------------------------------------

/// The keys that the editors tell apart.
#[derive(Clone, Copy, Debug, PartialEq, Eq, Structural)]
pub enum Key {
    ArrowLeft,
    ArrowRight,
    ArrowUp,
    ArrowDown,
    Home,
    End,
    Backspace,
    Delete,
    Enter,
    Tab,
    /// A modifier key pressed by itself.
    Modifier,
    Other,
}

/// A key event: the key, and the text it types where it types any.
pub struct KeyEvent {
    pub pressed: bool,
    pub key: Key,
    pub text: Option<String>,
}

/// The modifier keys held during an event, and whether the platform's
/// conventions are those of a Mac.
#[derive(Clone, Copy, Debug, PartialEq, Eq, Structural)]
pub struct Modifiers {
    pub shift: bool,
    pub control: bool,
    pub alt: bool,
    pub logo: bool,
    pub mac: bool,
}

/// Whether the platform's modifier for app shortcuts is held: Cmd on a Mac,
/// Ctrl elsewhere.
#[verifier::allow_in_spec]
pub fn primary_mod(state: Modifiers) -> bool
    returns
        (if state.mac {
            state.logo
        } else {
            state.control
        }),
{
    if state.mac {
        state.logo
    } else {
        state.control
    }
}

/// Whether the modifier for word-wise movement and deletion is held: Option on
/// a Mac, Ctrl elsewhere.
#[verifier::allow_in_spec]
pub fn word_mod(state: Modifiers) -> bool
    returns
        (if state.mac {
            state.alt
        } else {
            state.control
        }),
{
    if state.mac {
        state.alt
    } else {
        state.control
    }
}

/// Whether the modifier that turns an arrow key into a jump to the line's edge
/// is held: Cmd on a Mac; elsewhere Home and End do that.
#[verifier::allow_in_spec]
pub fn line_edge_mod(state: Modifiers) -> bool
    returns
        state.mac && state.logo,
{
    state.mac && state.logo
}

// ---------------------------------------------------------------------------
// Clocks
// ---------------------------------------------------------------------------

/// `std::time::SystemTime::now`, as milliseconds since the Unix epoch; `None`
/// where the clock stands before it. Nothing is claimed of the value.
#[verifier::external_body]
fn system_millis() -> Option<u128> {
    std::time::SystemTime::now().duration_since(std::time::UNIX_EPOCH).ok().map(|d| d.as_millis())
}

/// The time stamp for a clock reading: its milliseconds, or zero where the
/// clock stands before the epoch.
pub open spec fn stamp(since: Option<u128>) -> i64 {
    match since {
        Some(ms) => ms as i64,
        None => 0,
    }
}

/// The time stamp for a clock reading.
pub fn epoch_ms(since: Option<u128>) -> (r: i64)
    ensures
        r == stamp(since),
{
    match since {
        Some(ms) => #[verifier::truncate] (ms as i64),
        None => 0,
    }
}

/// The time stamp of this moment. Whatever the clock reads, the stamp is the
/// one that `epoch_ms` gives for that reading.
pub fn now_epoch_ms() -> (r: i64)
    ensures
        exists|since: Option<u128>| r == #[trigger] stamp(since),
{
    let since = system_millis();
    epoch_ms(since)
}

} // verus!
