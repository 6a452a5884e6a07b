//! What becomes of bullets that are copied, pasted, closed and scheduled.
use vstd::prelude::*;
use vstd::utf8::*;

use crate::cell::bullets::{
    ancestor, bullet_pos, four_spaces, least_depth, lemma_bullet_pos, lemma_least_depth,
    lemma_subtree_end, lines_joined, rebased, repeated, spells_any, subtree_end,
    subtree_holds_the_descendants, BulletModel, ItemModel, OutlineModel,
};
use crate::cell::effects::only_selection;
use crate::cell::levels::{focus_is_on, lemma_focus_is_on};
use crate::cell::rows::{free_of, lemma_one_part, lemma_part_added, parted};
use crate::clipboard::copied::lemma_spaces;
use crate::ids::Uuid;

verus! {

/// No two bullets have one identity.
pub open spec fn ids_apart(bs: Seq<BulletModel>) -> bool {
    forall|j: int, k: int|
        0 <= j < bs.len() && 0 <= k < bs.len() && (#[trigger] bs[j]).id == (#[trigger] bs[k]).id
            ==> j == k
}

pub proof fn lemma_pos_apart(bs: Seq<BulletModel>, i: int)
    requires
        ids_apart(bs),
        0 <= i < bs.len(),
    ensures
        bullet_pos(bs, bs[i].id, 0) == i,
{
    lemma_bullet_pos(bs, bs[i].id, 0);
    let p = bullet_pos(bs, bs[i].id, 0);
    if p > i {
        assert(bs[i].id != bs[i].id);
    }
    assert(bs[p].id == bs[i].id);
}

// ---------------------------------------------------------------------------
// Copying
// ---------------------------------------------------------------------------

proof fn lemma_lines_joined(bs: Seq<BulletModel>, lo: int, hi: int)
    requires
        0 <= lo < hi <= bs.len(),
        forall|k: int| lo <= k < hi ==> free_of((#[trigger] bs[k]).text.doc.text, 10),
    ensures
        ({
            let parts = parted(lines_joined(bs, four_spaces(), lo, hi), 10);
            &&& parts.len() == hi - lo
            &&& forall|k: int|
                0 <= k < hi - lo ==> #[trigger] parts[k] == repeated(
                    four_spaces(),
                    bs[lo + k].depth as int,
                ) + bs[lo + k].text.doc.text
        }),
    decreases hi - lo,
{
    let last = bs[hi - 1];
    let lead = repeated(four_spaces(), last.depth as int);
    let own = lead + last.text.doc.text;
    lemma_spaces(last.depth as int);
    assert forall|i: int| 0 <= i < own.len() implies #[trigger] own[i] != 10 by {
        if i < lead.len() {
            assert(own[i] == lead[i]);
        } else {
            assert(own[i] == last.text.doc.text[i - lead.len()]);
        }
    }
    if hi - 1 == lo {
        lemma_one_part(own, 10);
    } else {
        let before = lines_joined(bs, four_spaces(), lo, hi - 1);
        lemma_lines_joined(bs, lo, hi - 1);
        lemma_part_added(before, 10, own);
        let parts = parted(lines_joined(bs, four_spaces(), lo, hi), 10);
        assert forall|k: int| 0 <= k < hi - lo implies #[trigger] parts[k] == repeated(
            four_spaces(),
            bs[lo + k].depth as int,
        ) + bs[lo + k].text.doc.text by {
            if k < hi - 1 - lo {
                assert(parts[k] == parted(before, 10)[k]);
            }
        }
    }
}

/// Copying selected bullets gives a line for each of them, in their order: four spaces for each
/// level, and what the bullet says.
pub proof fn copied_bullets_are_lines(m: OutlineModel, lo: int, hi: int, k: int)
    requires
        m.selected() == Some((lo, hi)),
        0 <= lo <= k <= hi < m.bullets.len(),
        forall|j: int| lo <= j <= hi ==> free_of((#[trigger] m.bullets[j]).text.doc.text, 10),
    ensures
        ({
            let lines = parted(m.copied(), 10);
            let line = lines[k - lo];
            let lead = 4 * m.bullets[k].depth;
            &&& lines.len() == hi - lo + 1
            &&& line.len() == lead + m.bullets[k].text.doc.text.len()
            &&& forall|i: int| 0 <= i < lead ==> #[trigger] line[i] == 32
            &&& line.subrange(lead, line.len() as int) == m.bullets[k].text.doc.text
        }),
{
    lemma_lines_joined(m.bullets, lo, hi + 1);
    lemma_spaces(m.bullets[k].depth as int);
    let lines = parted(m.copied(), 10);
    let line = lines[k - lo];
    let spaces = repeated(four_spaces(), m.bullets[lo + (k - lo)].depth as int);
    assert(line == spaces + m.bullets[k].text.doc.text);
    assert forall|i: int| 0 <= i < 4 * m.bullets[k].depth implies #[trigger] line[i] == 32 by {
        assert(line[i] == spaces[i]);
    }
    assert(line.subrange(spaces.len() as int, line.len() as int)
        =~= m.bullets[k].text.doc.text);
}

/// Without selected bullets, copying gives what is selected in the focused one.
pub proof fn copying_gives_what_the_focused_bullet_has_selected(
    m: OutlineModel,
    i: int,
    lo: int,
    hi: int,
)
    requires
        focus_is_on(m, i),
        m.selection is None,
        only_selection(m.bullets[i].text, lo, hi) || only_selection(m.bullets[i].text, hi, lo),
        lo <= hi,
    ensures
        m.copied() == m.bullets[i].text.doc.text.subrange(lo, hi),
{
    lemma_focus_is_on(m, i);
}

proof fn lemma_least_is_there(items: Seq<ItemModel>, n: int)
    requires
        0 < n <= items.len(),
    ensures
        exists|k: int| 0 <= k < n && (#[trigger] items[k]).depth == least_depth(items, n),
    decreases n,
{
    if n == 1 {
        reveal_with_fuel(least_depth, 2);
        assert(items[0].depth <= u32::MAX);
        assert(items[0].depth == least_depth(items, 1));
    } else {
        lemma_least_is_there(items, n - 1);
        let k = choose|k: int|
            0 <= k < n - 1 && (#[trigger] items[k]).depth == least_depth(items, n - 1);
        if items[n - 1].depth >= least_depth(items, n - 1) {
            assert(items[k].depth == least_depth(items, n));
        }
    }
}

/// Bullets on their way through the clipboard keep their texts, their links and how far each is
/// below the others; the shallowest of them is at depth 0.
pub proof fn copied_items_keep_their_levels(m: OutlineModel, lo: int, hi: int, j: int, k: int)
    requires
        m.selected() == Some((lo, hi)),
        0 <= lo <= j <= hi < m.bullets.len(),
        lo <= k <= hi,
    ensures
        ({
            let items = m.copied_items()->0;
            &&& m.copied_items() is Some
            &&& items.len() == hi - lo + 1
            &&& items[k - lo].text == m.bullets[k].text.doc.text
            &&& items[k - lo].links == m.bullets[k].text.doc.links
            &&& items[k - lo].depth - items[j - lo].depth == m.bullets[k].depth
                - m.bullets[j].depth
            &&& exists|i: int| 0 <= i < items.len() && (#[trigger] items[i]).depth == 0
        }),
{
    let raw = Seq::new(
        (hi + 1 - lo) as nat,
        |k: int|
            ItemModel {
                depth: m.bullets[lo + k].depth,
                text: m.bullets[lo + k].text.doc.text,
                links: m.bullets[lo + k].text.doc.links,
            },
    );
    let n = raw.len() as int;
    let items = m.copied_items()->0;
    assert(items == rebased(raw));
    lemma_least_depth(raw, n);
    lemma_least_is_there(raw, n);
    assert(raw[k - lo].depth == m.bullets[k].depth && raw[j - lo].depth == m.bullets[j].depth);
    let i = choose|i: int| 0 <= i < n && (#[trigger] raw[i]).depth == least_depth(raw, n);
    assert(items[i].depth == 0);
}

/// Pasted bullets stand right behind the focused one, in their order, with their texts; the
/// shallowest of them is at its level, and each is as far below the others as it was. The first
/// of them gets the focus. No other bullet changes.
pub proof fn pasted_bullets_keep_their_levels(
    m: OutlineModel,
    i: int,
    items: Seq<ItemModel>,
    id: Uuid,
    ids: Seq<Uuid>,
    j: int,
    k: int,
)
    requires
        focus_is_on(m, i),
        m.selection is None,
        0 <= j < items.len(),
        0 <= k < items.len(),
        m.with_items(items, id, ids).fits,
    ensures
        ({
            let n = m.with_items(items, id, ids).m;
            let at = i + 1;
            &&& m.with_items(items, id, ids).done
            &&& n.bullets.len() == m.bullets.len() + items.len()
            &&& n.focused == ids[0]
            &&& n.bullets[at + k].id == ids[k]
            &&& n.bullets[at + k].text.doc.text == items[k].text
            &&& n.bullets[at + k].closed_at is None
            &&& n.bullets[at + k].depth >= m.bullets[i].depth
            &&& n.bullets[at + k].depth - n.bullets[at + j].depth == items[k].depth
                - items[j].depth
            &&& exists|x: int|
                0 <= x < items.len() && (#[trigger] items[x]).depth + n.bullets[at + k].depth
                    == items[k].depth + m.bullets[i].depth
            &&& forall|x: int| 0 <= x <= i ==> #[trigger] n.bullets[x] == m.bullets[x]
            &&& forall|x: int|
                i < x < m.bullets.len() ==> #[trigger] n.bullets[x + items.len()] == m.bullets[x]
        }),
{
    lemma_focus_is_on(m, i);
    let total = items.len() as int;
    let n = m.with_items(items, id, ids).m;
    lemma_least_depth(items, total);
    lemma_least_is_there(items, total);
    let x = choose|x: int| 0 <= x < total && (#[trigger] items[x]).depth == least_depth(items, total);
    let base = m.bullets[i].depth;
    assert(base + items[k].depth - least_depth(items, total) <= u32::MAX);
    assert(base + items[j].depth - least_depth(items, total) <= u32::MAX);
    assert(n.bullets[i + 1 + k].depth == base + items[k].depth - least_depth(items, total));
    assert(n.bullets[i + 1 + j].depth == base + items[j].depth - least_depth(items, total));
    assert(Seq::<u8>::empty() + items[k].text =~= items[k].text);
    assert(items[x].depth + n.bullets[i + 1 + k].depth == items[k].depth + m.bullets[i].depth);
    assert forall|x: int| i < x < m.bullets.len() implies #[trigger] n.bullets[x + items.len()]
        == m.bullets[x] by {}
}

// ---------------------------------------------------------------------------
// Closing, scheduling, selecting
// ---------------------------------------------------------------------------

/// Closing a bullet, and opening it, changes when that bullet was closed and nothing else;
/// scheduling it changes when it comes back and nothing else.
pub proof fn only_the_bullet_named_is_closed_or_scheduled(
    m: OutlineModel,
    i: int,
    when: Option<i64>,
    k: int,
)
    requires
        ids_apart(m.bullets),
        0 <= i < m.bullets.len(),
        0 <= k < m.bullets.len(),
    ensures
        ({
            let c = m.closing(m.bullets[i].id, when);
            let s = m.scheduling(m.bullets[i].id, when);
            let b = m.bullets[k];
            &&& c.bullets.len() == m.bullets.len()
            &&& s.bullets.len() == m.bullets.len()
            &&& c.bullets[k] == (if k == i {
                BulletModel { closed_at: when, ..b }
            } else {
                b
            })
            &&& s.bullets[k] == (if k == i {
                BulletModel { resurface_after: when, ..b }
            } else {
                b
            })
            &&& c.focused == m.focused && s.focused == m.focused
        }),
{
    lemma_pos_apart(m.bullets, i);
}

/// Selecting a bullet with its subtree selects just the bullet and what it is an ancestor of.
pub proof fn the_subtree_is_selected(m: OutlineModel, i: int, k: int)
    requires
        ids_apart(m.bullets),
        0 <= i < m.bullets.len(),
        0 <= k < m.bullets.len(),
    ensures
        ({
            let n = m.subtree_selected(m.bullets[i].id);
            &&& n.focused == m.bullets[i].id
            &&& n.bullets == m.bullets
            &&& n.selected() matches Some((lo, hi)) && (lo <= k <= hi <==> k == i || ancestor(
                m.bullets,
                i,
                k,
            ))
        }),
{
    lemma_pos_apart(m.bullets, i);
    lemma_subtree_end(m.bullets, m.bullets[i].depth, i + 1);
    let end = subtree_end(m.bullets, m.bullets[i].depth, i + 1);
    lemma_pos_apart(m.bullets, end - 1);
    subtree_holds_the_descendants(m.bullets, i, k);
}

/// A bullet is found by a tag if and only if it spells the tag, or one of its ancestors does.
pub proof fn bullets_are_found_by_the_tags_above_them(
    bs: Seq<BulletModel>,
    tags: Seq<Seq<u8>>,
    i: int,
)
    requires
        ids_apart(bs),
        0 <= i < bs.len(),
    ensures
        crate::cell::bullets::tagged(bs, tags, bs[i].id) <==> spells_any(bs[i].text.doc.text, tags) || exists|j: int|
            #[trigger] ancestor(bs, j, i) && spells_any(bs[j].text.doc.text, tags),
{
    if crate::cell::bullets::tagged(bs, tags, bs[i].id) {
        let (j, k) = choose|j: int, k: int|
            #![trigger bs[j], bs[k]]
            0 <= j < bs.len() && j <= k < subtree_end(bs, bs[j].depth, j + 1) && bs[k].id
                == bs[i].id && spells_any(bs[j].text.doc.text, tags);
        lemma_subtree_end(bs, bs[j].depth, j + 1);
        assert(k == i);
        subtree_holds_the_descendants(bs, j, i);
    }
    if spells_any(bs[i].text.doc.text, tags) {
        lemma_subtree_end(bs, bs[i].depth, i + 1);
        assert(bs[i].id == bs[i].id);
    }
    if exists|j: int| #[trigger] ancestor(bs, j, i) && spells_any(bs[j].text.doc.text, tags) {
        let j = choose|j: int| #[trigger]
            ancestor(bs, j, i) && spells_any(bs[j].text.doc.text, tags);
        subtree_holds_the_descendants(bs, j, i);
        assert(bs[i].id == bs[i].id && bs[j].text == bs[j].text);
    }
}

/// Selecting everything selects the whole text of the focused bullet first, where it has any, and
/// every bullet after that.
pub proof fn everything_is_selected_step_by_step(m: OutlineModel, i: int)
    requires
        focus_is_on(m, i),
        ids_apart(m.bullets),
        m.selection is None,
        m.bullets[i].text.doc.text.len() > 0,
        m.bullets[i].text.doc.text.len() <= usize::MAX,
        !m.text_fully_selected(i),
    ensures
        ({
            let once = m.everything_selected();
            let twice = once.everything_selected();
            &&& once.selection is None
            &&& only_selection(once.bullets[i].text, 0, m.bullets[i].text.doc.text.len() as int)
            &&& once.bullets[i].text.doc.text == m.bullets[i].text.doc.text
            &&& twice.selected() == Some((0int, m.bullets.len() - 1))
        }),
{
    lemma_focus_is_on(m, i);
    let once = m.everything_selected();
    let n = m.bullets.len() as int;
    assert(once.bullets =~= m.bullets.update(i, once.bullets[i]));
    assert forall|j: int| 0 <= j < n implies (#[trigger] once.bullets[j]).id == m.bullets[j].id by {}
    assert(focus_is_on(once, i)) by {
        assert forall|j: int| 0 <= j < i implies (#[trigger] once.bullets[j]).id != once.focused by {
            assert(m.bullets[j].id != m.focused);
        }
    }
    lemma_focus_is_on(once, i);
    assert(once.text_fully_selected(i));
    let twice = once.everything_selected();
    assert forall|j: int, k: int|
        0 <= j < n && 0 <= k < n && (#[trigger] twice.bullets[j]).id == (
        #[trigger] twice.bullets[k]).id implies j == k by {
        assert(twice.bullets[j].id == m.bullets[j].id && twice.bullets[k].id == m.bullets[k].id);
    }
    assert(twice.bullets.len() == n);
    lemma_pos_apart(twice.bullets, 0);
    lemma_pos_apart(twice.bullets, n - 1);
    assert(twice.bullets[0].id == m.bullets[0].id);
    assert(twice.bullets[n - 1].id == m.bullets[n - 1].id);
    assert(once.bullets[0].id == m.bullets[0].id);
    assert(once.bullets[n - 1].id == m.bullets[n - 1].id);
}

} // verus!
