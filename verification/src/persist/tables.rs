//! Tables of rows: finding, replacing, dropping and ordering them.
use vstd::prelude::*;

use crate::text::views;

verus! {

/// The first row, from `k` on, that meets `p`; the number of rows where none does.
pub open spec fn place_where<A>(s: Seq<A>, p: spec_fn(A) -> bool, k: int) -> int
    decreases s.len() - k,
{
    if k < 0 || k >= s.len() {
        s.len() as int
    } else if p(s[k]) {
        k
    } else {
        place_where(s, p, k + 1)
    }
}

/// The first row that meets `p`.
pub open spec fn found_where<A>(s: Seq<A>, p: spec_fn(A) -> bool) -> Option<A> {
    let k = place_where(s, p, 0);
    if k < s.len() {
        Some(s[k])
    } else {
        None
    }
}

/// Some row meets `p`.
pub open spec fn any_where<A>(s: Seq<A>, p: spec_fn(A) -> bool) -> bool {
    exists|i: int| 0 <= i < s.len() && p(#[trigger] s[i])
}

/// The rows with `a` in place of the first that meets `p`, or behind them where none
/// does.
pub open spec fn put_where<A>(s: Seq<A>, p: spec_fn(A) -> bool, a: A) -> Seq<A> {
    let k = place_where(s, p, 0);
    if k < s.len() {
        s.update(k, a)
    } else {
        s.push(a)
    }
}

pub proof fn lemma_place_where<A>(s: Seq<A>, p: spec_fn(A) -> bool, k: int)
    requires
        0 <= k <= s.len(),
    ensures
        k <= place_where(s, p, k) <= s.len(),
        place_where(s, p, k) < s.len() ==> p(s[place_where(s, p, k)]),
        forall|i: int| k <= i < place_where(s, p, k) ==> !p(#[trigger] s[i]),
    decreases s.len() - k,
{
    if k < s.len() && !p(s[k]) {
        lemma_place_where(s, p, k + 1);
    }
}

/// A row that is put is the one found afterwards; what is found of rows that it is
/// none of stays as it was.
pub proof fn rows_put_are_found<A>(
    s: Seq<A>,
    p: spec_fn(A) -> bool,
    q: spec_fn(A) -> bool,
    a: A,
)
    requires
        p(a),
        forall|x: A| #[trigger] p(x) ==> !q(x),
    ensures
        found_where(put_where(s, p, a), p) == Some(a),
        found_where(put_where(s, p, a), q) == found_where(s, q),
{
    let t = put_where(s, p, a);
    let k = place_where(s, p, 0);
    lemma_place_where(s, p, 0);
    lemma_place_where(t, p, 0);
    lemma_place_where(s, q, 0);
    lemma_place_where(t, q, 0);
    let f = place_where(t, p, 0);
    assert(t[k] == a);
    assert(f == k) by {
        if f < k {
            assert(t[f] == s[f]);
        }
    }
    let (g, h) = (place_where(s, q, 0), place_where(t, q, 0));
    assert forall|i: int| 0 <= i < s.len() implies q(#[trigger] t[i]) == q(s[i]) by {
        if i == k {
            assert(p(s[k]) && p(t[k]));
        }
    }
    if g < s.len() {
        assert(q(t[g]));
        assert(h <= g);
        assert(q(s[h]));
        assert(h != k);
    } else if h < t.len() {
        if h < s.len() {
            assert(q(s[h]));
        } else {
            assert(p(t[h]));
        }
    }
}

/// A row is found where one meets `p`, and meets it.
pub proof fn lemma_found_where<A>(s: Seq<A>, p: spec_fn(A) -> bool)
    ensures
        found_where(s, p) is Some <==> any_where(s, p),
        found_where(s, p) matches Some(a) ==> p(a),
{
    lemma_place_where(s, p, 0);
    let k = place_where(s, p, 0);
    if k < s.len() {
        assert(p(s[k]));
    }
}

/// The first row that meets `p`.
pub(crate) fn find_where<T: View, F: Fn(&T) -> bool>(
    v: &Vec<T>,
    f: F,
    Ghost(p): Ghost<spec_fn(T::V) -> bool>,
) -> (r: Option<usize>)
    requires
        forall|t: &T| #[trigger] call_requires(f, (t,)),
        forall|t: &T, b: bool| #[trigger] call_ensures(f, (t,), b) ==> b == p((*t)@),
    ensures
        match r {
            Some(i) => i < v@.len() && i == place_where(views(v@), p, 0) && p(v@[i as int]@),
            None => place_where(views(v@), p, 0) == v@.len() && !any_where(views(v@), p),
        },
{
    let ghost s = views(v@);
    let mut i: usize = 0;
    while i < v.len()
        invariant
            i <= v.len(),
            s == views(v@),
            forall|t: &T| #[trigger] call_requires(f, (t,)),
            forall|t: &T, b: bool| #[trigger] call_ensures(f, (t,), b) ==> b == p((*t)@),
            place_where(s, p, 0) == place_where(s, p, i as int),
            forall|k: int| 0 <= k < i ==> !p(#[trigger] s[k]),
        decreases v.len() - i,
    {
        assert(s[i as int] == v@[i as int]@);
        if f(&v[i]) {
            return Some(i);
        }
        i += 1;
    }
    None
}

/// Drops the rows that do not meet `p`.
pub(crate) fn retain_where<T: View, F: Fn(&T) -> bool>(
    v: &mut Vec<T>,
    f: F,
    Ghost(p): Ghost<spec_fn(T::V) -> bool>,
)
    requires
        forall|t: &T| #[trigger] call_requires(f, (t,)),
        forall|t: &T, b: bool| #[trigger] call_ensures(f, (t,), b) ==> b == p((*t)@),
    ensures
        views(final(v)@) == views(old(v)@).filter(p),
{
    let ghost s = views(v@);
    let ghost mut k: int = 0;
    let mut i: usize = 0;
    proof {
        reveal(Seq::filter);
        assert(s.subrange(0, 0) =~= Seq::empty());
        assert(views(v@).subrange(0, 0) =~= s.subrange(0, 0).filter(p));
    }
    while i < v.len()
        invariant
            i <= v@.len(),
            i <= k,
            v@.len() - i == s.len() - k,
            forall|t: &T| #[trigger] call_requires(f, (t,)),
            forall|t: &T, b: bool| #[trigger] call_ensures(f, (t,), b) ==> b == p((*t)@),
            views(v@).subrange(0, i as int) == s.subrange(0, k).filter(p),
            forall|j: int| i <= j < v@.len() ==> (#[trigger] v@[j])@ == s[j - i + k],
        decreases v@.len() - i,
    {
        let ghost held = v@;
        assert(v@[i as int]@ == s[k]);
        proof {
            reveal(Seq::filter);
            assert(s.subrange(0, k + 1).drop_last() =~= s.subrange(0, k));
            assert(s.subrange(0, k + 1).last() == s[k]);
        }
        if f(&v[i]) {
            assert(views(v@).subrange(0, i + 1) =~= views(v@).subrange(0, i as int).push(s[k]));
            i += 1;
        } else {
            v.remove(i);
            assert(views(v@).subrange(0, i as int) =~= views(held).subrange(0, i as int));
        }
        proof {
            k = k + 1;
        }
    }
    proof {
        assert(views(v@).subrange(0, i as int) =~= views(v@));
        assert(s.subrange(0, k) =~= s);
    }
}

// ---------------------------------------------------------------------------
// Order
// ---------------------------------------------------------------------------

/// `i` put into an order, behind all of no greater key.
pub open spec fn put_in(order: Seq<int>, keys: Seq<i64>, i: int) -> Seq<int>
    decreases order.len(),
{
    if order.len() == 0 || keys[order.last()] <= keys[i] {
        order.push(i)
    } else {
        put_in(order.drop_last(), keys, i).push(order.last())
    }
}

/// The order of the first `n` rows by their keys; rows of equal keys stay as they
/// stand.
pub open spec fn order_of(keys: Seq<i64>, n: int) -> Seq<int>
    decreases n,
{
    if n <= 0 {
        Seq::empty()
    } else {
        put_in(order_of(keys, n - 1), keys, n - 1)
    }
}

/// The rows in the order of their keys.
pub open spec fn in_order_of<A>(s: Seq<A>, keys: Seq<i64>) -> Seq<A> {
    order_of(keys, s.len() as int).map_values(|i: int| s[i])
}

/// `order` is made of the numbers below `n`, each once.
pub open spec fn arranges(order: Seq<int>, n: int) -> bool {
    &&& order.len() == n
    &&& forall|k: int| 0 <= k < order.len() ==> 0 <= #[trigger] order[k] < n
    &&& forall|j: int, k: int| 0 <= j < k < order.len() ==> order[j] != order[k]
}

/// Rows put in order are all there, each once, by ascending keys, and those of equal
/// keys as they stood.
pub proof fn rows_are_put_in_order(keys: Seq<i64>, n: int)
    requires
        0 <= n <= keys.len(),
    ensures
        arranges(order_of(keys, n), n),
        forall|j: int, k: int|
            0 <= j < k < n ==> keys[#[trigger] order_of(keys, n)[j]] <= keys[#[trigger] order_of(
                keys,
                n,
            )[k]],
        forall|j: int, k: int|
            0 <= j < k < n && keys[#[trigger] order_of(keys, n)[j]] == keys[#[trigger] order_of(
                keys,
                n,
            )[k]] ==> order_of(keys, n)[j] < order_of(keys, n)[k],
    decreases n,
{
    if n > 0 {
        rows_are_put_in_order(keys, n - 1);
        let o = order_of(keys, n - 1);
        lemma_put_in(o, keys, n - 1);
        let at = choose|at: int|
            0 <= at <= o.len() && #[trigger] o.insert(at, n - 1) == put_in(o, keys, n - 1) && (
            forall|k: int| 0 <= k < at ==> keys[#[trigger] o[k]] <= keys[n - 1]) && (forall|k: int|
                at <= k < o.len() ==> keys[#[trigger] o[k]] > keys[n - 1]);
        let all = o.insert(at, n - 1);
        assert(all == order_of(keys, n));
        assert forall|k: int| 0 <= k < all.len() implies 0 <= #[trigger] all[k] < n by {
            if k < at {
                assert(all[k] == o[k]);
            } else if k > at {
                assert(all[k] == o[k - 1]);
            }
        }
        assert forall|j: int, k: int| 0 <= j < k < n implies {
            &&& all[j] != all[k]
            &&& keys[#[trigger] all[j]] <= keys[#[trigger] all[k]]
            &&& keys[all[j]] == keys[all[k]] ==> all[j] < all[k]
        } by {
            let a = if j < at {
                j
            } else {
                j - 1
            };
            let b = if k < at {
                k
            } else {
                k - 1
            };
            if j == at {
                assert(all[k] == o[b]);
            } else if k == at {
                assert(all[j] == o[a]);
            } else {
                assert(all[j] == o[a] && all[k] == o[b]);
                assert(a < b);
            }
        }
    }
}

proof fn lemma_put_in(o: Seq<int>, keys: Seq<i64>, i: int)
    requires
        forall|j: int, k: int|
            0 <= j < k < o.len() ==> keys[#[trigger] o[j]] <= keys[#[trigger] o[k]],
    ensures
        exists|at: int|
            0 <= at <= o.len() && #[trigger] o.insert(at, i) == put_in(o, keys, i) && (forall|k: int|
                0 <= k < at ==> keys[#[trigger] o[k]] <= keys[i]) && (forall|k: int|
                at <= k < o.len() ==> keys[#[trigger] o[k]] > keys[i]),
    decreases o.len(),
{
    if o.len() == 0 || keys[o.last()] <= keys[i] {
        assert(o.insert(o.len() as int, i) =~= o.push(i));
    } else {
        let before = o.drop_last();
        assert forall|j: int, k: int| 0 <= j < k < before.len() implies keys[#[trigger] before[j]]
            <= keys[#[trigger] before[k]] by {
            assert(before[j] == o[j] && before[k] == o[k]);
        }
        lemma_put_in(before, keys, i);
        let at = choose|at: int|
            0 <= at <= before.len() && #[trigger] before.insert(at, i) == put_in(before, keys, i)
                && (forall|k: int| 0 <= k < at ==> keys[#[trigger] before[k]] <= keys[i]) && (
            forall|k: int| at <= k < before.len() ==> keys[#[trigger] before[k]] > keys[i]);
        assert(o.insert(at, i) =~= before.insert(at, i).push(o.last()));
        assert forall|k: int| at <= k < o.len() implies keys[#[trigger] o[k]] > keys[i] by {
            if k < before.len() {
                assert(before[k] == o[k]);
            }
        }
        assert forall|k: int| 0 <= k < at implies keys[#[trigger] o[k]] <= keys[i] by {
            assert(before[k] == o[k]);
        }
    }
}

proof fn lemma_put_in_at(o: Seq<int>, keys: Seq<i64>, i: int, at: int)
    requires
        0 <= at <= o.len(),
        at > 0 ==> keys[o[at - 1]] <= keys[i],
        forall|k: int| at <= k < o.len() ==> keys[#[trigger] o[k]] > keys[i],
    ensures
        put_in(o, keys, i) == o.insert(at, i),
    decreases o.len(),
{
    if at == o.len() {
        assert(o.insert(at, i) =~= o.push(i));
    } else {
        let before = o.drop_last();
        assert(keys[o[o.len() - 1]] > keys[i]);
        assert forall|k: int| at <= k < before.len() implies keys[#[trigger] before[k]] > keys[i] by {
            assert(before[k] == o[k]);
        }
        lemma_put_in_at(before, keys, i, at);
        assert(o.insert(at, i) =~= before.insert(at, i).push(o.last()));
    }
}

/// Numbers as places.
pub open spec fn places(v: Seq<usize>) -> Seq<int> {
    v.map_values(|i: usize| i as int)
}

/// The order of rows by their keys; rows of equal keys stay as they stand.
pub fn ordered(keys: &Vec<i64>) -> (order: Vec<usize>)
    ensures
        places(order@) == order_of(keys@, keys@.len() as int),
        forall|k: int| 0 <= k < order@.len() ==> (#[trigger] order@[k]) < keys@.len(),
        order@.len() == keys@.len(),
{
    let mut out: Vec<usize> = Vec::new();
    let mut i: usize = 0;
    assert(places(out@) =~= Seq::empty());
    while i < keys.len()
        invariant
            i <= keys.len(),
            out@.len() == i,
            forall|k: int| 0 <= k < i ==> (#[trigger] out@[k]) < i,
            places(out@) == order_of(keys@, i as int),
        decreases keys.len() - i,
    {
        let ghost held = places(out@);
        let ghost before = out@;
        let mut at: usize = i;
        while at > 0 && keys[out[at - 1]] > keys[i]
            invariant
                at <= i,
                i < keys@.len(),
                out@ == before,
                out@.len() == i,
                held == places(out@),
                forall|k: int| 0 <= k < i ==> (#[trigger] out@[k]) < i,
                forall|k: int| at <= k < i ==> keys@[#[trigger] held[k]] > keys@[i as int],
            decreases at,
        {
            assert(held[at - 1] == out@[at - 1]);
            at = at - 1;
        }
        proof {
            if at > 0 {
                assert(held[at - 1] == out@[at - 1]);
            }
            lemma_put_in_at(held, keys@, i as int, at as int);
        }
        out.insert(at, i);
        assert(places(out@) =~= held.insert(at as int, i as int));
        assert forall|k: int| 0 <= k < i + 1 implies (#[trigger] out@[k]) < i + 1 by {
            if k < at {
                assert(out@[k] == before[k]);
            } else if k > at {
                assert(out@[k] == before[k - 1]);
            }
        }
        i += 1;
    }
    out
}

} // verus!
