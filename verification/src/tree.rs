//! Trees, and trees written down node by node: each with how deep it stands, the
//! nodes below it right behind it.
use vstd::prelude::*;

verus! {

/// A node with the nodes below it.
#[verifier::ext_equal]
pub struct TreeModel<V> {
    pub item: V,
    pub inner: Seq<TreeModel<V>>,
}

/// A node, and how deep it stands.
pub struct Item<T> {
    pub depth: usize,
    pub item: T,
}

impl<T: View> View for Item<T> {
    type V = (int, T::V);

    open spec fn view(&self) -> (int, T::V) {
        (self.depth as int, self.item@)
    }
}

/// Where the node at `from` and all below it end: at the next node that does not
/// stand deeper, at `end` at the latest.
pub open spec fn below<V>(items: Seq<(int, V)>, depth: int, from: int, end: int) -> int
    decreases end - from,
{
    if from >= end {
        end
    } else if items[from].0 <= depth {
        from
    } else {
        below(items, depth, from + 1, end)
    }
}

/// The trees written down between `from` and `end`.
pub open spec fn grown<V>(items: Seq<(int, V)>, from: int, end: int) -> Seq<TreeModel<V>>
    decreases end - from,
{
    if !(0 <= from < end <= items.len()) {
        Seq::empty()
    } else {
        let e = below(items, items[from].0, from + 1, end);
        proof {
            lemma_below(items, items[from].0, from + 1, end);
        }
        seq![TreeModel { item: items[from].1, inner: grown(items, from + 1, e) }] + grown(
            items,
            e,
            end,
        )
    }
}

/// `below` finds a place between.
pub proof fn lemma_below<V>(items: Seq<(int, V)>, depth: int, from: int, end: int)
    ensures
        from <= end ==> from <= below(items, depth, from, end) <= end,
        from > end ==> below(items, depth, from, end) == end,
    decreases end - from,
{
    if from < end && items[from].0 > depth {
        lemma_below(items, depth, from + 1, end);
    }
}

/// A tree written down.
pub open spec fn flat<V>(t: TreeModel<V>, depth: int) -> Seq<(int, V)>
    decreases t,
{
    seq![(depth, t.item)] + flat_all(t.inner, depth + 1)
}

/// Trees written down one behind the other.
pub open spec fn flat_all<V>(ts: Seq<TreeModel<V>>, depth: int) -> Seq<(int, V)>
    decreases ts,
{
    if ts.len() == 0 {
        Seq::empty()
    } else {
        flat(ts[0], depth) + flat_all(ts.subrange(1, ts.len() as int), depth)
    }
}

/// Trees written down behind others.
pub proof fn lemma_flat_all_push<V>(ts: Seq<TreeModel<V>>, t: TreeModel<V>, depth: int)
    ensures
        flat_all(ts.push(t), depth) == flat_all(ts, depth) + flat(t, depth),
    decreases ts.len(),
{
    let all = ts.push(t);
    if ts.len() == 0 {
        assert(all.subrange(1, all.len() as int) =~= Seq::empty());
        assert(flat_all(all, depth) =~= flat(t, depth)) by {
            reveal_with_fuel(flat_all, 2);
        }
        assert(flat_all(ts, depth) + flat(t, depth) =~= flat(t, depth));
    } else {
        let rest = ts.subrange(1, ts.len() as int);
        lemma_flat_all_push(rest, t, depth);
        assert(all.subrange(1, all.len() as int) =~= rest.push(t));
        assert(flat_all(all, depth) =~= flat(ts[0], depth) + (flat_all(rest, depth) + flat(
            t,
            depth,
        )));
        assert(flat_all(ts, depth) =~= flat(ts[0], depth) + flat_all(rest, depth));
    }
}

proof fn lemma_flat_depths<V>(ts: Seq<TreeModel<V>>, depth: int)
    ensures
        forall|i: int|
            0 <= i < flat_all(ts, depth).len() ==> (#[trigger] flat_all(ts, depth)[i]).0 >= depth,
        flat_all(ts, depth).len() > 0 ==> flat_all(ts, depth)[0].0 == depth,
    decreases ts,
{
    if ts.len() > 0 {
        let inside = flat_all(ts[0].inner, depth + 1);
        let rest = flat_all(ts.subrange(1, ts.len() as int), depth);
        lemma_flat_depths(ts[0].inner, depth + 1);
        lemma_flat_depths(ts.subrange(1, ts.len() as int), depth);
        assert(flat(ts[0], depth) == seq![(depth, ts[0].item)] + inside);
        assert(flat_all(ts, depth) == flat(ts[0], depth) + rest);
        assert forall|i: int| 0 <= i < flat_all(ts, depth).len() implies (
        #[trigger] flat_all(ts, depth)[i]).0 >= depth by {
            if 1 <= i < 1 + inside.len() {
                assert(flat_all(ts, depth)[i] == inside[i - 1]);
            } else if 1 + inside.len() <= i {
                assert(flat_all(ts, depth)[i] == rest[i - 1 - inside.len()]);
            }
        }
    }
}

proof fn lemma_below_is<V>(items: Seq<(int, V)>, depth: int, from: int, e: int, end: int)
    requires
        from <= e <= end,
        forall|i: int| from <= i < e ==> (#[trigger] items[i]).0 > depth,
        e < end ==> items[e].0 <= depth,
    ensures
        below(items, depth, from, end) == e,
    decreases e - from,
{
    if from < e {
        lemma_below_is(items, depth, from + 1, e, end);
    }
}

/// The trees read out of what trees were written down as are those trees.
pub proof fn trees_written_down_grow_back<V>(
    ts: Seq<TreeModel<V>>,
    depth: int,
    items: Seq<(int, V)>,
    from: int,
    end: int,
)
    requires
        0 <= from <= end <= items.len(),
        items.subrange(from, end) == flat_all(ts, depth),
    ensures
        grown(items, from, end) == ts,
    decreases ts,
{
    let all = flat_all(ts, depth);
    if ts.len() > 0 {
        let rest = ts.subrange(1, ts.len() as int);
        let first = flat(ts[0], depth);
        let inside = flat_all(ts[0].inner, depth + 1);
        assert(first == seq![(depth, ts[0].item)] + inside);
        assert(all == first + flat_all(rest, depth));
        let e = from + first.len();
        assert forall|i: int| from <= i < end implies #[trigger] items[i] == all[i - from] by {
            assert(items.subrange(from, end)[i - from] == items[i]);
        }
        lemma_flat_depths(ts[0].inner, depth + 1);
        lemma_flat_depths(rest, depth);
        assert forall|i: int| from + 1 <= i < e implies (#[trigger] items[i]).0 > depth by {
            assert(items[i] == inside[i - from - 1]);
        }
        if e < end {
            assert(items[e] == flat_all(rest, depth)[0]);
        }
        assert(items[from] == (depth, ts[0].item));
        lemma_below_is(items, depth, from + 1, e, end);
        assert(items.subrange(from + 1, e) =~= inside);
        assert(items.subrange(e, end) =~= flat_all(rest, depth));
        trees_written_down_grow_back(ts[0].inner, depth + 1, items, from + 1, e);
        trees_written_down_grow_back(rest, depth, items, e, end);
        assert(ts =~= seq![ts[0]] + rest);
        assert(ts[0] =~= (TreeModel { item: items[from].1, inner: grown(items, from + 1, e) }));
    } else {
        assert(items.subrange(from, end).len() == 0);
        assert(ts =~= Seq::empty());
    }
}

/// Where the node at `from` and all below it end.
pub fn end_of<T: View>(items: &Vec<Item<T>>, depth: usize, from: usize, end: usize) -> (e: usize)
    requires
        from <= end <= items@.len(),
    ensures
        e == below(items_view(items@), depth as int, from as int, end as int),
        from <= e <= end,
{
    let ghost vs = items_view(items@);
    let mut e: usize = from;
    while e < end && items[e].depth > depth
        invariant
            from <= e <= end,
            end <= items@.len(),
            vs == items_view(items@),
            below(vs, depth as int, from as int, end as int) == below(
                vs,
                depth as int,
                e as int,
                end as int,
            ),
        decreases end - e,
    {
        assert(vs[e as int] == items@[e as int]@);
        e += 1;
    }
    if e < end {
        assert(vs[e as int] == items@[e as int]@);
    }
    e
}

/// What is written down.
pub open spec fn items_view<T: View>(items: Seq<Item<T>>) -> Seq<(int, T::V)> {
    Seq::new(items.len(), |i: int| items[i]@)
}

} // verus!
