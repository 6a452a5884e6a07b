//! What editing does to the bullets of an outline: their texts, their levels and their
//! order.
use vstd::prelude::*;
use vstd::utf8::*;

use crate::cell::bullets::{
    ancestor, bullet_pos, has_prev_sibling, lemma_bullet_pos, lemma_deep_run_end,
    lemma_subtree_end, readopted, subtree_end, subtree_holds_the_descendants, BulletModel,
    BulletSelection, OutlineModel,
};
use crate::cell::common::{KeyEvent, Link, Modifiers};
use crate::cell::effects::{only_selection, what_is_put_in_takes_the_place_of_the_selection};
use crate::cell::model::{
    after_key, lemma_applying_wf, lemma_place_at, links_natural, placed, primary_ends, replacing,
};
use crate::ids::Uuid;
use crate::text::{boundary, lemma_boundary_ends};

verus! {

/// Bullet `i` has the focus.
pub open spec fn focus_is_on(m: OutlineModel, i: int) -> bool {
    &&& 0 <= i < m.bullets.len()
    &&& m.bullets[i].id == m.focused
    &&& forall|j: int| 0 <= j < i ==> (#[trigger] m.bullets[j]).id != m.focused
}

pub proof fn lemma_focus_is_on(m: OutlineModel, i: int)
    requires
        focus_is_on(m, i),
    ensures
        m.has_focus(),
        m.at() == i,
{
    lemma_bullet_pos(m.bullets, m.focused, 0);
    if m.at() > i {
        assert(m.bullets[i].id != m.focused);
    }
}

/// Splitting a bullet keeps its level: what is behind the caret becomes a sibling right
/// behind it, with the focus and the caret at its start. The two texts put together are the
/// text without what was selected. No other bullet changes.
pub proof fn splitting_keeps_the_level_and_the_text(m: OutlineModel, i: int, id: Uuid, now: u64)
    requires
        m.wf(),
        focus_is_on(m, i),
        m.split(id, now).done,
        m.split(id, now).fits,
        links_natural(m.bullets[i].text.doc.links),
    ensures
        ({
            let n = m.split(id, now).m;
            let t = m.bullets[i].text.selection_deleted(now).doc.text;
            &&& n.bullets.len() == m.bullets.len() + 1
            &&& n.bullets[i].id == m.bullets[i].id
            &&& n.bullets[i].depth == m.bullets[i].depth
            &&& n.bullets[i].closed_at == m.bullets[i].closed_at
            &&& n.bullets[i].resurface_after == m.bullets[i].resurface_after
            &&& n.bullets[i + 1].id == id
            &&& n.bullets[i + 1].depth == m.bullets[i].depth
            &&& n.bullets[i + 1].closed_at is None
            &&& n.bullets[i + 1].resurface_after is None
            &&& n.bullets[i].text.doc.text + n.bullets[i + 1].text.doc.text == t
            &&& only_selection(n.bullets[i + 1].text, 0, 0)
            &&& n.focused == id
            &&& forall|j: int| 0 <= j < i ==> #[trigger] n.bullets[j] == m.bullets[j]
            &&& forall|j: int|
                i < j < m.bullets.len() ==> #[trigger] n.bullets[j + 1] == m.bullets[j]
        }),
{
    lemma_focus_is_on(m, i);
    let n = m.split(id, now).m;
    let b = m.bullets[i];
    let t = b.text.selection_deleted(now);
    let head = (primary_ends(t)->0).1;
    if b.text.has_selection() {
        lemma_applying_wf(b.text, b.text.edits(replacing(Seq::empty())), now);
    }
    assert(placed(t.doc.text, t.doc.sels.items[t.doc.sels.primary]));
    assert forall|j: int| i < j < m.bullets.len() implies #[trigger] n.bullets[j + 1]
        == m.bullets[j] by {}
    let back = n.bullets[i + 1].text;
    assert(n.bullets[i].text.doc.text == t.doc.text.subrange(0, head as int));
    assert(back.doc.text =~= t.doc.text.subrange(head as int, t.doc.text.len() as int));
}

/// Enter with one selection, or one caret, splits: the text in front of it stays, the text
/// behind it goes to the new bullet, and what was selected is gone.
pub proof fn splitting_parts_the_text_at_the_selection(
    m: OutlineModel,
    i: int,
    lo: int,
    hi: int,
    id: Uuid,
    now: u64,
)
    requires
        m.wf(),
        focus_is_on(m, i),
        only_selection(m.bullets[i].text, lo, hi) || only_selection(m.bullets[i].text, hi, lo),
        lo <= hi,
    ensures
        ({
            let n = m.split(id, now);
            let t = m.bullets[i].text.doc.text;
            &&& n.done
            &&& n.m.bullets.len() == m.bullets.len() + 1
            &&& n.m.bullets[i].text.doc.text == t.subrange(0, lo)
            &&& only_selection(n.m.bullets[i].text, lo, lo)
            &&& n.m.bullets[i + 1].text.doc.text == t.subrange(hi, t.len() as int)
            &&& only_selection(n.m.bullets[i + 1].text, 0, 0)
        }),
{
    lemma_focus_is_on(m, i);
    let b = m.bullets[i];
    let t = b.text.selection_deleted(now);
    assert(placed(b.text.doc.text, b.text.doc.sels.items[0]));
    assert(b.text.has_selection() ==> lo < hi);
    if lo < hi {
        assert(b.text.doc.sels.items[0].anchor != b.text.doc.sels.items[0].head);
        what_is_put_in_takes_the_place_of_the_selection(b.text, lo, hi, Seq::empty(), now);
    }
    assert(t.doc.text.subrange(0, lo) =~= b.text.doc.text.subrange(0, lo));
    assert(t.doc.text.subrange(lo, t.doc.text.len() as int) =~= b.text.doc.text.subrange(
        hi,
        b.text.doc.text.len() as int,
    ));
}

proof fn lemma_filtered(links: Seq<Link>, p: spec_fn(Link) -> bool, l: Link)
    ensures
        links.filter(p).contains(l) <==> links.contains(l) && p(l),
    decreases links.len(),
{
    reveal(Seq::filter);
    if links.len() > 0 {
        let front = links.drop_last();
        lemma_filtered(front, p, l);
        let (before, all) = (front.filter(p), links.filter(p));
        assert(links =~= front.push(links.last()));
        assert(links[links.len() - 1] == links.last());
        if front.contains(l) {
            let i = choose|i: int| 0 <= i < front.len() && front[i] == l;
            assert(links[i] == l);
        }
        if links.contains(l) && links.last() != l {
            let i = choose|i: int| 0 <= i < links.len() && links[i] == l;
            assert(front[i] == l);
        }
        if p(links.last()) {
            assert(all == before.push(links.last()));
            assert(all[all.len() - 1] == links.last());
            if before.contains(l) {
                let i = choose|i: int| 0 <= i < before.len() && before[i] == l;
                assert(all[i] == l);
            }
            if all.contains(l) && links.last() != l {
                let i = choose|i: int| 0 <= i < all.len() && all[i] == l;
                assert(before[i] == l);
            }
        }
    } else {
        assert(!links.filter(p).contains(l));
    }
}

pub proof fn lemma_mapped(links: Seq<Link>, f: spec_fn(Link) -> Option<Link>, l: Link)
    ensures
        links.filter_map(f).contains(l) <==> exists|i: int|
            0 <= i < links.len() && f(#[trigger] links[i]) == Some(l),
    decreases links.len(),
{
    if links.len() > 0 {
        let front = links.drop_last();
        lemma_mapped(front, f, l);
        let (before, all) = (front.filter_map(f), links.filter_map(f));
        if exists|i: int| 0 <= i < front.len() && f(#[trigger] front[i]) == Some(l) {
            let i = choose|i: int| 0 <= i < front.len() && f(#[trigger] front[i]) == Some(l);
            assert(f(links[i]) == Some(l));
        }
        if exists|i: int| 0 <= i < links.len() && f(#[trigger] links[i]) == Some(l) {
            let i = choose|i: int| 0 <= i < links.len() && f(#[trigger] links[i]) == Some(l);
            if i < front.len() {
                assert(f(front[i]) == Some(l));
            }
        }
        match f(links.last()) {
            Some(x) => {
                assert(all == before + seq![x]);
                assert(all[all.len() - 1] == x);
                if before.contains(l) {
                    let i = choose|i: int| 0 <= i < before.len() && before[i] == l;
                    assert(all[i] == l);
                }
                if all.contains(l) && x != l {
                    let i = choose|i: int| 0 <= i < all.len() && all[i] == l;
                    assert(before[i] == l);
                }
                if x == l {
                    assert(f(links[links.len() - 1]) == Some(l));
                }
            },
            None => {},
        }
    } else {
        assert(!links.filter_map(f).contains(l));
    }
}

/// Splitting a bullet at its caret shares out its links: those that end by the caret stay with the
/// text in front, those that start behind it go with the text behind, on the same part of it and
/// leading to the same place.
pub proof fn splitting_shares_out_the_links(
    m: OutlineModel,
    i: int,
    at: int,
    id: Uuid,
    now: u64,
    l: Link,
)
    requires
        m.wf(),
        focus_is_on(m, i),
        only_selection(m.bullets[i].text, at, at),
        0 <= l.start < l.end,
    ensures
        ({
            let n = m.split(id, now).m;
            let was = m.bullets[i].text.doc.links;
            let moved = Link { start: l.start + at, end: l.end + at, url: l.url };
            &&& n.bullets[i].text.doc.links.contains(l) <==> was.contains(l) && l.end <= at
            &&& n.bullets[i + 1].text.doc.links.contains(l) <==> was.contains(moved)
        }),
{
    lemma_focus_is_on(m, i);
    let t = m.bullets[i].text;
    assert(placed(t.doc.text, t.doc.sels.items[0]));
    assert(!t.has_selection());
    let n = m.split(id, now).m;
    let was = t.doc.links;
    let p = |l: Link| l.end <= at;
    let front = t.doc.text.subrange(0, at);
    let q = |l: Link| l.end <= front.len();
    lemma_filtered(was, p, l);
    lemma_filtered(was.filter(p), q, l);
    assert(n.bullets[i].text.doc.links == was.filter(p).filter(q));
    let f = |l: Link|
        if l.end > at && l.start >= at {
            Some(Link { start: l.start - at, end: l.end - at, url: l.url })
        } else {
            None
        };
    lemma_mapped(was, f, l);
    let moved = Link { start: l.start + at, end: l.end + at, url: l.url };
    let back = n.bullets[i + 1].text.doc.links;
    assert(back =~= was.filter_map(f)) by {
        let extra = was.filter_map(f);
        let g = |l: Link| Link { start: l.start + 0, end: l.end + 0, url: l.url };
        assert(extra.map_values(g) =~= extra);
        assert(t.links_after(at) == extra);
        assert(Seq::<Link>::empty() + extra =~= extra);
    }
    if was.contains(moved) {
        let k = choose|k: int| 0 <= k < was.len() && was[k] == moved;
        assert(f(was[k]) == Some(l));
    }
}

// ---------------------------------------------------------------------------
// Indenting
// ---------------------------------------------------------------------------

/// Bullet `p` is the sibling in front of bullet `i`: at the same level, with only deeper
/// bullets between them.
pub open spec fn sibling_in_front(bs: Seq<BulletModel>, p: int, i: int) -> bool {
    &&& 0 <= p < i < bs.len()
    &&& bs[p].depth == bs[i].depth
    &&& forall|k: int| p < k < i ==> (#[trigger] bs[k]).depth > bs[i].depth
}

proof fn lemma_sibling_in_front(bs: Seq<BulletModel>, i: int, j: int)
    requires
        0 <= j <= i < bs.len(),
        forall|k: int| j <= k < i ==> (#[trigger] bs[k]).depth > bs[i].depth,
    ensures
        has_prev_sibling(bs, bs[i].depth, j) <==> exists|p: int| #[trigger]
            sibling_in_front(bs, p, i),
    decreases j,
{
    if j > 0 {
        if bs[j - 1].depth == bs[i].depth {
            assert(sibling_in_front(bs, j - 1, i));
        } else if bs[j - 1].depth > bs[i].depth {
            lemma_sibling_in_front(bs, i, j - 1);
        } else if exists|p: int| #[trigger] sibling_in_front(bs, p, i) {
            let p = choose|p: int| #[trigger] sibling_in_front(bs, p, i);
            if p < j - 1 {
                assert(bs[j - 1].depth > bs[i].depth);
            }
            assert(bs[p].depth == bs[i].depth);
        }
    } else if exists|p: int| #[trigger] sibling_in_front(bs, p, i) {
        let p = choose|p: int| #[trigger] sibling_in_front(bs, p, i);
        assert(bs[p].depth > bs[i].depth);
    }
}

/// `n` is `m` with bullet `i` and its descendants moved by `by` levels, and nothing else
/// different.
pub open spec fn only_moved(m: OutlineModel, n: OutlineModel, i: int, by: int) -> bool {
    &&& n.bullets.len() == m.bullets.len()
    &&& n.focused == m.focused
    &&& n.selection == m.selection
    &&& forall|k: int|
        0 <= k < m.bullets.len() ==> {
            &&& (#[trigger] n.bullets[k]).id == m.bullets[k].id
            &&& n.bullets[k].text == m.bullets[k].text
            &&& n.bullets[k].closed_at == m.bullets[k].closed_at
            &&& n.bullets[k].resurface_after == m.bullets[k].resurface_after
            &&& n.bullets[k].depth == m.bullets[k].depth + (if k == i || ancestor(
                m.bullets,
                i,
                k,
            ) {
                by
            } else {
                0
            })
        }
}

/// Tab moves the focused bullet and all below it one level deeper, and no other bullet; it
/// does so if and only if the bullet has a sibling in front of it. Else nothing changes.
pub proof fn indenting_moves_the_subtree_one_level_deeper(m: OutlineModel, i: int)
    requires
        focus_is_on(m, i),
        m.indented().fits,
    ensures
        m.indented().done <==> exists|p: int| #[trigger] sibling_in_front(m.bullets, p, i),
        m.indented().done ==> only_moved(m, m.indented().m, i, 1),
        !m.indented().done ==> m.indented().m == m,
{
    lemma_focus_is_on(m, i);
    lemma_sibling_in_front(m.bullets, i, i);
    if m.indented().done {
        let n = m.indented().m;
        assert forall|k: int| 0 <= k < m.bullets.len() implies (#[trigger] n.bullets[k]).depth
            == m.bullets[k].depth + (if k == i || ancestor(m.bullets, i, k) {
            1int
        } else {
            0
        }) by {
            subtree_holds_the_descendants(m.bullets, i, k);
            assert(0 <= m.bullets[k].depth);
        }
    }
}

/// Shift and Tab move the focused bullet and all below it one level up, and no other bullet;
/// they do so if and only if the bullet is not at the top. Else nothing changes.
pub proof fn outdenting_moves_the_subtree_one_level_up(m: OutlineModel, i: int)
    requires
        focus_is_on(m, i),
    ensures
        m.outdented().done <==> m.bullets[i].depth > 0,
        m.outdented().done ==> only_moved(m, m.outdented().m, i, -1),
        !m.outdented().done ==> m.outdented().m == m,
{
    lemma_focus_is_on(m, i);
    if m.outdented().done {
        let n = m.outdented().m;
        assert forall|k: int| 0 <= k < m.bullets.len() implies (#[trigger] n.bullets[k]).depth
            == m.bullets[k].depth + (if k == i || ancestor(m.bullets, i, k) {
            -1int
        } else {
            0
        }) by {
            subtree_holds_the_descendants(m.bullets, i, k);
        }
    }
}

/// Outdenting takes indenting back.
pub proof fn outdenting_takes_indenting_back(m: OutlineModel, i: int)
    requires
        focus_is_on(m, i),
        m.indented().done,
        m.indented().fits,
    ensures
        m.indented().m.outdented().m == m,
        m.indented().m.outdented().done,
{
    let n = m.indented().m;
    indenting_moves_the_subtree_one_level_deeper(m, i);
    assert(n.bullets[i].id == m.bullets[i].id);
    assert forall|j: int| 0 <= j < i implies (#[trigger] n.bullets[j]).id != n.focused by {
        assert(m.bullets[j].id != m.focused);
    }
    outdenting_moves_the_subtree_one_level_up(n, i);
    let r = n.outdented().m;
    lemma_focus_is_on(m, i);
    lemma_focus_is_on(n, i);
    assert forall|k: int| 0 <= k < m.bullets.len() implies r.bullets[k] == m.bullets[k] by {
        assert(n.bullets[k].id == m.bullets[k].id);
        assert(r.bullets[k].id == n.bullets[k].id);
        let end = subtree_end(m.bullets, m.bullets[i].depth, i + 1);
        lemma_subtree_end(m.bullets, m.bullets[i].depth, i + 1);
        subtree_holds_the_descendants(m.bullets, i, k);
        if ancestor(m.bullets, i, k) {
            assert forall|j: int| i < j <= k implies (#[trigger] n.bullets[j]).depth
                > n.bullets[i].depth by {
                subtree_holds_the_descendants(m.bullets, i, j);
                assert(m.bullets[j].depth > m.bullets[i].depth);
            }
            assert(ancestor(n.bullets, i, k));
        } else if ancestor(n.bullets, i, k) {
            assert(k >= end);
            assert(n.bullets[end].depth > n.bullets[i].depth);
            subtree_holds_the_descendants(m.bullets, i, end);
            assert(n.bullets[end].depth == m.bullets[end].depth);
        }
    }
    assert(r.bullets =~= m.bullets);
}

// ---------------------------------------------------------------------------
// Joining
// ---------------------------------------------------------------------------

/// Backspace at the start of a bullet joins it to the bullet in front of it: its text goes
/// behind the other's, whose level stays, the caret stands between the two, and no other
/// bullet changes. It does so if and only if there is a bullet in front and the bullet has none
/// below it; else nothing changes.
pub proof fn joining_puts_the_texts_together(m: OutlineModel, i: int)
    requires
        m.wf(),
        focus_is_on(m, i),
        m.merged_up().fits,
        i > 0 ==> m.bullets[i].text.doc.text.len() + m.bullets[i - 1].text.doc.text.len()
            <= usize::MAX,
    ensures
        m.merged_up().done <==> i > 0 && !ancestor(m.bullets, i, i + 1),
        !m.merged_up().done ==> m.merged_up().m == m,
        m.merged_up().done ==> {
            let n = m.merged_up().m;
            let front = m.bullets[i - 1];
            let at = front.text.doc.text.len() as int;
            &&& n.bullets.len() == m.bullets.len() - 1
            &&& n.bullets[i - 1].text.doc.text == front.text.doc.text + m.bullets[i].text.doc.text
            &&& only_selection(n.bullets[i - 1].text, at, at)
            &&& n.bullets[i - 1].id == front.id
            &&& n.bullets[i - 1].depth == front.depth
            &&& n.bullets[i - 1].closed_at == front.closed_at
            &&& n.focused == front.id
            &&& forall|j: int| 0 <= j < i - 1 ==> #[trigger] n.bullets[j] == m.bullets[j]
            &&& forall|j: int|
                i < j < m.bullets.len() ==> #[trigger] n.bullets[j - 1] == m.bullets[j]
        },
{
    lemma_focus_is_on(m, i);
    if i + 1 < m.bullets.len() && m.bullets[i + 1].depth > m.bullets[i].depth {
        assert(ancestor(m.bullets, i, i + 1));
    }
    if m.merged_up().done {
        let n = m.merged_up().m;
        let front = m.bullets[i - 1].text.doc.text;
        let own = m.bullets[i].text.doc.text;
        assert(m.bullets[i].text.wf() && m.bullets[i - 1].text.wf());
        lemma_boundary_ends(own);
        assert(boundary(front + own, front.len() as int));
        lemma_place_at(front + own, front.len() as int);
        assert forall|j: int| i < j < m.bullets.len() implies #[trigger] n.bullets[j - 1]
            == m.bullets[j] by {}
    }
}

/// Joining takes splitting back: where the bullet has none below it, Backspace behind Enter
/// gives back the texts, the levels and the identities of all bullets, and the caret.
pub proof fn joining_takes_splitting_back(m: OutlineModel, i: int, at: int, id: Uuid, now: u64)
    requires
        m.wf(),
        focus_is_on(m, i),
        only_selection(m.bullets[i].text, at, at),
        !ancestor(m.bullets, i, i + 1),
        forall|j: int| 0 <= j < m.bullets.len() ==> (#[trigger] m.bullets[j]).id != id,
        m.bullets[i].text.doc.text.len() <= usize::MAX,
        m.split(id, now).m.merged_up().fits,
    ensures
        ({
            let r = m.split(id, now).m.merged_up();
            &&& r.done
            &&& r.m.bullets.len() == m.bullets.len()
            &&& r.m.focused == m.focused
            &&& only_selection(r.m.bullets[i].text, at, at)
            &&& forall|j: int|
                0 <= j < m.bullets.len() ==> {
                    &&& (#[trigger] r.m.bullets[j]).id == m.bullets[j].id
                    &&& r.m.bullets[j].depth == m.bullets[j].depth
                    &&& r.m.bullets[j].text.doc.text == m.bullets[j].text.doc.text
                }
        }),
{
    let s = m.split(id, now).m;
    let t = m.bullets[i].text.doc.text;
    lemma_focus_is_on(m, i);
    splitting_parts_the_text_at_the_selection(m, i, at, at, id, now);
    let text = m.bullets[i].text;
    assert(placed(t, text.doc.sels.items[0]));
    assert(!text.has_selection());
    assert forall|j: int| 0 <= j < i implies #[trigger] s.bullets[j] == m.bullets[j] by {}
    assert forall|j: int| i < j < m.bullets.len() implies #[trigger] s.bullets[j + 1]
        == m.bullets[j] by {}
    assert(s.bullets[i].id == m.bullets[i].id && s.bullets[i + 1].id == id);
    assert(focus_is_on(s, i + 1)) by {
        assert forall|j: int| 0 <= j < i + 1 implies (#[trigger] s.bullets[j]).id != s.focused by {
            assert(m.bullets[j].id != id);
        }
    }
    lemma_focus_is_on(s, i + 1);
    if i + 2 < s.bullets.len() {
        assert(s.bullets[i + 2] == m.bullets[i + 1]);
        if m.bullets[i + 1].depth > m.bullets[i].depth {
            assert(ancestor(m.bullets, i, i + 1));
        }
    }
    let r = s.merged_up();
    assert(r.done);
    let (front, own) = (t.subrange(0, at), t.subrange(at, t.len() as int));
    assert(front + own =~= t);
    lemma_place_at(t, at);
    assert forall|j: int| 0 <= j < m.bullets.len() implies (#[trigger] r.m.bullets[j]).id
        == m.bullets[j].id && r.m.bullets[j].depth == m.bullets[j].depth
        && r.m.bullets[j].text.doc.text == m.bullets[j].text.doc.text by {
        if j < i {
            assert(r.m.bullets[j] == s.bullets[j]);
        } else if j > i {
            assert(r.m.bullets[j] == s.bullets[j + 1]);
        }
    }
}

// ---------------------------------------------------------------------------
// Neighbours
// ---------------------------------------------------------------------------

/// Going up out of a bullet puts the caret behind the text of the bullet in front; going down
/// puts it in front of the text of the bullet behind. Nothing else changes, and nothing at all
/// where there is no such bullet.
pub proof fn the_caret_goes_to_the_neighbour(m: OutlineModel, i: int, down: bool)
    requires
        m.wf(),
        focus_is_on(m, i),
        forall|j: int|
            0 <= j < m.bullets.len() ==> (#[trigger] m.bullets[j]).text.doc.text.len()
                <= usize::MAX,
    ensures
        m.spilled(down).done <==> (if down {
            i + 1 < m.bullets.len()
        } else {
            i > 0
        }),
        !m.spilled(down).done ==> m.spilled(down).m == m,
        m.spilled(down).done ==> {
            let n = m.spilled(down).m;
            let to = if down {
                i + 1
            } else {
                i - 1
            };
            let at = if down {
                0
            } else {
                m.bullets[to].text.doc.text.len() as int
            };
            &&& n.bullets.len() == m.bullets.len()
            &&& n.focused == m.bullets[to].id
            &&& only_selection(n.bullets[to].text, at, at)
            &&& n.bullets[to].text.doc.text == m.bullets[to].text.doc.text
            &&& n.bullets[to].depth == m.bullets[to].depth
            &&& n.bullets[to].id == m.bullets[to].id
            &&& forall|j: int|
                0 <= j < m.bullets.len() && j != to ==> #[trigger] n.bullets[j] == m.bullets[j]
        },
{
    lemma_focus_is_on(m, i);
    if m.spilled(down).done {
        let to = if down {
            i + 1
        } else {
            i - 1
        };
        let t = m.bullets[to].text.doc.text;
        assert(m.bullets[to].text.wf());
        lemma_boundary_ends(t);
        lemma_place_at(t, 0);
        lemma_place_at(t, t.len() as int);
    }
}

/// Selecting bullets starts with the focused one and takes in its neighbour; going on moves
/// the end of the selection by one bullet, its start stays. The focus goes with the end.
pub proof fn selections_of_bullets_grow_by_one(m: OutlineModel, i: int, down: bool)
    requires
        focus_is_on(m, i),
        forall|j: int, k: int|
            0 <= j < m.bullets.len() && 0 <= k < m.bullets.len() && (#[trigger] m.bullets[j]).id
                == (#[trigger] m.bullets[k]).id ==> j == k,
        m.selection is None || m.selection->0.head_id == m.focused,
    ensures
        ({
            let to = if down {
                i + 1
            } else {
                i - 1
            };
            let s = if m.selection is None {
                m.selection_begun(down)
            } else {
                m.selection_extended(down)
            };
            let anchor = if m.selection is None {
                m.focused
            } else {
                m.selection->0.anchor_id
            };
            &&& s.done <==> 0 <= to < m.bullets.len()
            &&& !s.done ==> s.m == m
            &&& s.m.bullets == m.bullets
            &&& s.done ==> s.m.focused == m.bullets[to].id && s.m.selection == Some(
                BulletSelection { anchor_id: anchor, head_id: m.bullets[to].id },
            )
        }),
{
    lemma_focus_is_on(m, i);
}

/// The bullets selected are those from where the selection starts to where it ends, whichever
/// comes first.
pub proof fn bullets_between_the_ends_are_selected(m: OutlineModel, a: int, h: int)
    requires
        0 <= a < m.bullets.len(),
        0 <= h < m.bullets.len(),
        forall|j: int, k: int|
            0 <= j < m.bullets.len() && 0 <= k < m.bullets.len() && (#[trigger] m.bullets[j]).id
                == (#[trigger] m.bullets[k]).id ==> j == k,
        m.selection == Some(
            BulletSelection { anchor_id: m.bullets[a].id, head_id: m.bullets[h].id },
        ),
    ensures
        m.selected() == Some(
            if a <= h {
                (a, h)
            } else {
                (h, a)
            },
        ),
{
    lemma_bullet_pos(m.bullets, m.bullets[a].id, 0);
    lemma_bullet_pos(m.bullets, m.bullets[h].id, 0);
    let (pa, ph) = (
        bullet_pos(m.bullets, m.bullets[a].id, 0),
        bullet_pos(m.bullets, m.bullets[h].id, 0),
    );
    if pa > a {
        assert(m.bullets[a].id != m.bullets[a].id);
    }
    if ph > h {
        assert(m.bullets[h].id != m.bullets[h].id);
    }
    assert(m.bullets[pa].id == m.bullets[a].id);
    assert(m.bullets[ph].id == m.bullets[h].id);
}

// ---------------------------------------------------------------------------
// Deleting
// ---------------------------------------------------------------------------

/// Deleting bullets `lo` to `hi` leaves the others in their order, each with its identity and
/// its text. Those in front keep their levels; those behind move up, if at all, and only to have
/// a bullet to be under: a bullet behind that could stand where it does stays at its level.
pub proof fn deleting_bullets_leaves_the_others(m: OutlineModel, lo: int, hi: int, id: Uuid)
    requires
        m.wf(),
        m.selected() == Some((lo, hi)),
        0 <= lo <= hi < m.bullets.len(),
        hi - lo + 1 < m.bullets.len(),
    ensures
        ({
            let n = m.selection_deleted(id).m;
            let gone = hi - lo + 1;
            &&& m.selection_deleted(id).done
            &&& n.selection is None
            &&& n.bullets.len() == m.bullets.len() - gone
            &&& n.focused == n.bullets[if lo > 0 {
                lo - 1
            } else {
                0
            }].id
            &&& forall|j: int|
                0 <= j < lo ==> {
                    &&& (#[trigger] n.bullets[j]).id == m.bullets[j].id
                    &&& n.bullets[j].depth == m.bullets[j].depth
                    &&& n.bullets[j].text.doc.text == m.bullets[j].text.doc.text
                    &&& n.bullets[j].text.doc.links == m.bullets[j].text.doc.links
                }
            &&& forall|j: int|
                lo <= j < n.bullets.len() ==> {
                    &&& (#[trigger] n.bullets[j]).id == m.bullets[j + gone].id
                    &&& n.bullets[j].depth <= m.bullets[j + gone].depth
                    &&& n.bullets[j].text.doc.text == m.bullets[j + gone].text.doc.text
                    &&& n.bullets[j].text.doc.links == m.bullets[j + gone].text.doc.links
                }
            &&& lo < n.bullets.len() && m.bullets[hi + 1].depth <= (if lo > 0 {
                m.bullets[lo - 1].depth + 1
            } else {
                0
            }) ==> forall|j: int|
                lo <= j < n.bullets.len() ==> (#[trigger] n.bullets[j]).depth == m.bullets[j
                    + gone].depth
        }),
{
    let n = m.selection_deleted(id).m;
    let gone = hi - lo + 1;
    let rest = m.bullets.subrange(0, lo) + m.bullets.subrange(hi + 1, m.bullets.len() as int);
    assert forall|j: int| lo <= j < rest.len() implies #[trigger] rest[j] == m.bullets[j
        + gone] by {}
    if lo < rest.len() {
        lemma_deep_run_end(rest, rest[lo].depth, lo);
    }
    let adopted = readopted(rest, lo);
    assert forall|j: int| 0 <= j < rest.len() implies {
        &&& (#[trigger] adopted[j]).id == rest[j].id
        &&& adopted[j].text == rest[j].text
        &&& adopted[j].depth <= rest[j].depth
        &&& j < lo ==> adopted[j].depth == rest[j].depth
    } by {}
    assert forall|j: int| lo <= j < n.bullets.len() implies (#[trigger] n.bullets[j]).id
        == m.bullets[j + gone].id && n.bullets[j].depth <= m.bullets[j + gone].depth
        && n.bullets[j].text.doc.text == m.bullets[j + gone].text.doc.text
        && n.bullets[j].text.doc.links == m.bullets[j + gone].text.doc.links by {
        assert(adopted[j].id == rest[j].id);
        assert(rest[j] == m.bullets[j + gone]);
    }
    assert forall|j: int| 0 <= j < lo implies (#[trigger] n.bullets[j]).id == m.bullets[j].id
        && n.bullets[j].depth == m.bullets[j].depth && n.bullets[j].text.doc.text
        == m.bullets[j].text.doc.text && n.bullets[j].text.doc.links
        == m.bullets[j].text.doc.links by {
        assert(adopted[j].id == rest[j].id);
        assert(rest[j] == m.bullets[j]);
    }
    if lo < n.bullets.len() && m.bullets[hi + 1].depth <= (if lo > 0 {
        m.bullets[lo - 1].depth + 1
    } else {
        0
    }) {
        assert(rest[lo] == m.bullets[lo + gone]);
        if lo > 0 {
            assert(rest[lo - 1] == m.bullets[lo - 1]);
        }
        assert(adopted == rest);
    }
}

/// Deleting all bullets leaves one, which is empty, open, at the top, and has the focus.
pub proof fn an_outline_always_has_a_bullet(m: OutlineModel, id: Uuid)
    requires
        m.selected() == Some((0int, m.bullets.len() - 1)),
        m.bullets.len() > 0,
    ensures
        ({
            let n = m.selection_deleted(id).m;
            &&& n.bullets.len() == 1
            &&& n.bullets[0].id == id
            &&& n.bullets[0].depth == 0
            &&& n.bullets[0].closed_at is None
            &&& n.bullets[0].text.doc.text.len() == 0
            &&& n.focused == id
            &&& n.selection is None
        }),
{
}

// ---------------------------------------------------------------------------
// Keys
// ---------------------------------------------------------------------------

/// Which key does what to an outline without selected bullets: Enter splits, Tab indents and
/// with Shift outdents, Backspace at the start of a text joins; what is typed goes to the text of
/// the focused bullet, and to no other.
pub proof fn keys_do_their_work(
    m: OutlineModel,
    i: int,
    ev: KeyEvent,
    mods: Modifiers,
    ids: (Uuid, Uuid),
    now: u64,
)
    requires
        focus_is_on(m, i),
        m.selection is None,
        ev.pressed,
        !mods.control && !mods.logo && !mods.alt,
    ensures
        ev.key is Enter && !mods.shift ==> m.after_key(ev, mods, ids, now) == m.split(ids.0, now),
        ev.key is Tab && !mods.shift ==> m.after_key(ev, mods, ids, now) == m.indented(),
        ev.key is Tab && mods.shift ==> m.after_key(ev, mods, ids, now) == m.outdented(),
        ev.key is Backspace && only_selection(m.bullets[i].text, 0, 0) ==> m.after_key(
            ev,
            mods,
            ids,
            now,
        ) == m.merged_up(),
        ev.key is Other || ev.key is Delete || ev.key is ArrowLeft || ev.key is ArrowRight ==> {
            let n = m.after_key(ev, mods, ids, now).m;
            &&& n.bullets.len() == m.bullets.len()
            &&& n.bullets[i].id == m.bullets[i].id
            &&& n.bullets[i].depth == m.bullets[i].depth
            &&& n.bullets[i].text == after_key(m.bullets[i].text, ev, mods, now).0
            &&& n.focused == m.focused
            &&& forall|j: int|
                0 <= j < m.bullets.len() && j != i ==> #[trigger] n.bullets[j] == m.bullets[j]
        },
{
    lemma_focus_is_on(m, i);
}

/// Which key does what to selected bullets: Backspace and Delete delete them, Tab indents them and
/// with Shift outdents them.
pub proof fn keys_work_on_selected_bullets(
    m: OutlineModel,
    ev: KeyEvent,
    mods: Modifiers,
    ids: (Uuid, Uuid),
    now: u64,
)
    requires
        m.selection is Some,
        ev.pressed,
    ensures
        ev.key is Backspace || ev.key is Delete ==> m.after_key(ev, mods, ids, now)
            == m.selection_deleted(ids.0),
        ev.key is Tab && !mods.shift ==> m.after_key(ev, mods, ids, now) == m.selection_indented(),
        ev.key is Tab && mods.shift ==> m.after_key(ev, mods, ids, now) == m.selection_outdented(),
        ev.key is ArrowUp && mods.shift ==> m.after_key(ev, mods, ids, now)
            == m.selection_extended(false),
        ev.key is ArrowDown && mods.shift ==> m.after_key(ev, mods, ids, now)
            == m.selection_extended(true),
{
}

/// `n` is `m` with bullets `lo` to `hi`, and the descendants of the last of them, moved by `by`
/// levels.
pub open spec fn moved_together(
    m: OutlineModel,
    n: OutlineModel,
    lo: int,
    hi: int,
    by: int,
) -> bool {
    &&& n.bullets.len() == m.bullets.len()
    &&& n.focused == m.focused
    &&& n.selection == m.selection
    &&& forall|k: int|
        0 <= k < m.bullets.len() ==> {
            &&& (#[trigger] n.bullets[k]).id == m.bullets[k].id
            &&& n.bullets[k].text == m.bullets[k].text
            &&& n.bullets[k].depth == m.bullets[k].depth + (if lo <= k <= hi || ancestor(
                m.bullets,
                hi,
                k,
            ) {
                by
            } else {
                0
            })
        }
}

/// Indenting selected bullets moves them, and what is below the last of them, by one level, and no
/// others; outdenting takes that back.
pub proof fn selected_bullets_move_together(m: OutlineModel, lo: int, hi: int)
    requires
        m.selected() == Some((lo, hi)),
        0 <= lo <= hi < m.bullets.len(),
        m.selection_indented().fits,
    ensures
        m.selection_indented().done <==> exists|p: int| #[trigger]
            sibling_in_front(m.bullets, p, lo),
        m.selection_outdented().done <==> forall|k: int|
            lo <= k <= hi ==> (#[trigger] m.bullets[k]).depth > 0,
        m.selection_indented().done ==> moved_together(m, m.selection_indented().m, lo, hi, 1),
        m.selection_outdented().done ==> moved_together(m, m.selection_outdented().m, lo, hi, -1),
{
    lemma_sibling_in_front(m.bullets, lo, lo);
    lemma_subtree_end(m.bullets, m.bullets[hi].depth, hi + 1);
    assert forall|k: int| 0 <= k < m.bullets.len() implies (lo <= k < subtree_end(
        m.bullets,
        m.bullets[hi].depth,
        hi + 1,
    ) <==> lo <= k <= hi || #[trigger] ancestor(m.bullets, hi, k)) by {
        subtree_holds_the_descendants(m.bullets, hi, k);
    }
    if m.selection_outdented().done {
        assert forall|k: int| lo <= k < subtree_end(
            m.bullets,
            m.bullets[hi].depth,
            hi + 1,
        ) implies (#[trigger] m.bullets[k]).depth > 0 by {
            subtree_holds_the_descendants(m.bullets, hi, k);
        }
    }
}

} // verus!
