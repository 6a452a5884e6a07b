//! What is left standing when tables are brought up to date and when threads change.
use vstd::prelude::*;
use vstd::utf8::*;

use crate::cell::reference::ReferenceTarget;
use crate::ids::Uuid;
use crate::persist::{
    distinct, entity_is, lemma_filter_from, lemma_filter_keeps, same_cell, CellTagModel, DbModel,
    EntityModel,
};
use crate::persist::keeping::lemma_filter_contains;
use crate::persist::naming::persisted_names;
use crate::persist::rows::CellRowModel;
use crate::persist::storing::persisted_read;
use crate::persist::tables::{any_where, found_where, put_where, rows_put_are_found};
use crate::persist::threads::{attached, attached_to_all, is_member, not_at};
use crate::persist::upgrades::person_of;
use crate::text::utf8;
use crate::thread::{ThreadId, ThreadMembership};

verus! {

// ---------------------------------------------------------------------------
// Upgrades
// ---------------------------------------------------------------------------

proof fn lemma_tags_backfilled(m: DbModel, n: int)
    requires
        0 <= n <= m.cells.len(),
    ensures
        m.tags_backfilled(n).cells == m.cells,
        m.tags_backfilled(n).contexts == m.contexts,
        m.tags_backfilled(n).entities == m.entities,
        m.tags_backfilled(n).aliases == m.aliases,
        m.tags_backfilled(n).threads == m.threads,
        m.tags_backfilled(n).memberships == m.memberships,
    decreases n,
{
    if n > 0 {
        lemma_tags_backfilled(m, n - 1);
    }
}

proof fn lemma_people_backfilled(m: DbModel, n: int, now: i64)
    requires
        0 <= n <= m.cells.len(),
    ensures
        m.people_backfilled(n, now).cells == m.cells,
        m.people_backfilled(n, now).contexts == m.contexts,
        m.people_backfilled(n, now).threads == m.threads,
        m.people_backfilled(n, now).memberships == m.memberships,
    decreases n,
{
    if n > 0 {
        lemma_people_backfilled(m, n - 1, now);
    }
}

/// Bringing tables up to date loses no cell but those of the very first form: every row stays in its
/// place, with all but its body as it was; contexts, threads and what belongs to them stay too.
pub proof fn upgrades_lose_no_cell(m: DbModel, version: u32, ids: Seq<Uuid>, now: i64, i: int)
    requires
        version >= 2,
        0 <= i < m.cells.len(),
    ensures
        ({
            let n = m.upgraded(version, ids, now);
            &&& n.cells.len() == m.cells.len()
            &&& n.cells[i] == (CellRowModel { body: n.cells[i].body, ..m.cells[i] })
            &&& n.contexts == m.contexts
            &&& n.threads == m.threads
            &&& n.memberships == m.memberships
        }),
{
    let m3 = if version < 3 {
        m.tags_backfilled(m.cells.len() as int)
    } else {
        m
    };
    lemma_tags_backfilled(m, m.cells.len() as int);
    let t = m3.titles_extracted(ids);
    lemma_tags_backfilled(t, t.cells.len() as int);
    let m4 = if version < 4 {
        t.tags_backfilled(t.cells.len() as int)
    } else {
        m3
    };
    lemma_people_backfilled(m4, m4.cells.len() as int, now);
}

/// Writing down the tags of cells gives each cell that can be read just the tags that it names.
pub proof fn backfilled_cells_carry_their_tags(m: DbModel, n: int, i: int, tag: Seq<u8>)
    requires
        distinct(m.cells, same_cell()),
        0 <= i < n <= m.cells.len(),
        persisted_read(m.cells[i].body) is Some,
    ensures
        m.tags_backfilled(n).cell_tags.contains(
            CellTagModel { cell_id: m.cells[i].id, name: tag },
        ) <==> persisted_names(persisted_read(m.cells[i].body)->0, true).contains(tag),
    decreases n,
{
    let before = m.tags_backfilled(n - 1);
    let id = m.cells[n - 1].id;
    let carried = CellTagModel { cell_id: m.cells[i].id, name: tag };
    if i < n - 1 {
        backfilled_cells_carry_their_tags(m, n - 1, i, tag);
        assert(!same_cell()(m.cells[i], m.cells[n - 1]));
    }
    if let Some(p) = persisted_read(m.cells[n - 1].body) {
        let names = persisted_names(p, true);
        let keep = |t: CellTagModel| t.cell_id != id;
        let f = |n: Seq<u8>| CellTagModel { cell_id: id, name: n };
        let (old, new) = (before.cell_tags.filter(keep), names.map_values(f));
        let all = m.tags_backfilled(n).cell_tags;
        assert(all == old + new);
        lemma_filter_contains(before.cell_tags, keep, carried);
        if all.contains(carried) {
            let k = choose|k: int| 0 <= k < all.len() && all[k] == carried;
            if k < old.len() {
                assert(old[k] == carried);
            } else {
                assert(new[k - old.len()] == carried);
                assert(names[k - old.len()] == tag);
            }
        }
        if old.contains(carried) {
            let k = choose|k: int| 0 <= k < old.len() && old[k] == carried;
            assert(all[k] == carried);
        }
        if i == n - 1 && names.contains(tag) {
            let k = choose|k: int| 0 <= k < names.len() && names[k] == tag;
            assert(new[k] == carried);
            assert(all[old.len() + k] == carried);
        }
    }
}

/// Writing down the people that cells stand for makes each of them an entity under its name.
pub proof fn backfilled_people_are_there(m: DbModel, n: int, now: i64, i: int)
    requires
        distinct(m.cells, same_cell()),
        0 <= i < n <= m.cells.len(),
        persisted_read(m.cells[i].body) is Some,
        person_of(persisted_read(m.cells[i].body)->0) is Some,
    ensures
        ({
            let e = m.people_backfilled(n, now).entity(m.cells[i].id);
            &&& e is Some
            &&& e->0.display_name == person_of(persisted_read(m.cells[i].body)->0)->0
            &&& e->0.primary_cell_id == Some(m.cells[i].id)
            &&& e->0.kind == utf8("person"@)
        }),
    decreases n,
{
    let before = m.people_backfilled(n - 1, now);
    let id = m.cells[n - 1].id;
    if i < n - 1 {
        backfilled_people_are_there(m, n - 1, now, i);
        assert(!same_cell()(m.cells[i], m.cells[n - 1]));
    }
    if let Some(p) = persisted_read(m.cells[n - 1].body) {
        if let Some(name) = person_of(p) {
            let e = before.person_of_cell(id, name, now);
            if i < n - 1 {
                rows_put_are_found(before.entities, entity_is(id), entity_is(m.cells[i].id), e);
            } else {
                lemma_put_is_found(before.entities, id, e);
            }
        }
    }
}

proof fn lemma_put_is_found(es: Seq<EntityModel>, id: Uuid, e: EntityModel)
    requires
        e.id == id,
    ensures
        found_where(put_where(es, entity_is(id), e), entity_is(id)) == Some(e),
{
    let other: Uuid = if id == 0 {
        1
    } else {
        0
    };
    rows_put_are_found(es, entity_is(id), entity_is(other), e);
}

// ---------------------------------------------------------------------------
// Threads
// ---------------------------------------------------------------------------

/// `target` belongs to `thread`.
pub open spec fn belongs(
    ms: Seq<ThreadMembership>,
    thread: ThreadId,
    target: ReferenceTarget,
) -> bool {
    exists|i: int|
        0 <= i < ms.len() && (#[trigger] ms[i]).thread_id == thread && ms[i].target == target
}

/// What is attached to a thread belongs to it; nothing else comes to belong to a thread, and nothing
/// ceases to. What belonged to it already does so since when it did.
pub proof fn what_is_attached_belongs(
    ms: Seq<ThreadMembership>,
    thread: ThreadId,
    target: ReferenceTarget,
    at: i64,
    other: ThreadId,
    thing: ReferenceTarget,
)
    ensures
        ({
            let n = attached(ms, thread, target, at);
            &&& belongs(n, other, thing) <==> belongs(ms, other, thing) || (other == thread
                && thing == target)
            &&& forall|i: int| 0 <= i < ms.len() ==> #[trigger] n[i] == ms[i]
            &&& belongs(ms, thread, target) ==> n == ms
            &&& !belongs(ms, thread, target) ==> n.last() == (ThreadMembership {
                thread_id: thread,
                target,
                attached_at: at,
            })
        }),
{
    let n = attached(ms, thread, target, at);
    assert(any_where(ms, is_member(thread, target)) <==> belongs(ms, thread, target)) by {
        if any_where(ms, is_member(thread, target)) {
            let i = choose|i: int| 0 <= i < ms.len() && is_member(thread, target)(#[trigger] ms[i]);
            assert(ms[i].thread_id == thread);
        }
        if belongs(ms, thread, target) {
            let i = choose|i: int|
                0 <= i < ms.len() && (#[trigger] ms[i]).thread_id == thread && ms[i].target
                    == target;
            assert(is_member(thread, target)(ms[i]));
        }
    }
    if n != ms {
        assert(n[ms.len() as int].thread_id == thread);
    }
    if belongs(ms, other, thing) {
        let i = choose|i: int|
            0 <= i < ms.len() && (#[trigger] ms[i]).thread_id == other && ms[i].target == thing;
        assert(n[i] == ms[i]);
    }
}

proof fn lemma_attached_to_all(
    ms: Seq<ThreadMembership>,
    target: ReferenceTarget,
    list: Seq<(ThreadId, i64)>,
    n: int,
    thread: ThreadId,
    thing: ReferenceTarget,
)
    requires
        0 <= n <= list.len(),
    ensures
        belongs(attached_to_all(ms, target, list, n), thread, thing) <==> belongs(ms, thread, thing)
            || (thing == target && exists|i: int| 0 <= i < n && (#[trigger] list[i]).0 == thread),
    decreases n,
{
    if n > 0 {
        lemma_attached_to_all(ms, target, list, n - 1, thread, thing);
        what_is_attached_belongs(
            attached_to_all(ms, target, list, n - 1),
            list[n - 1].0,
            target,
            list[n - 1].1,
            thread,
            thing,
        );
    }
}

/// Setting what threads a bullet belongs to makes it belong to just those; what anything else belongs
/// to stays as it was.
pub proof fn bullets_belong_to_the_threads_set(
    m: DbModel,
    target: ReferenceTarget,
    list: Seq<(ThreadId, i64)>,
    thread: ThreadId,
    thing: ReferenceTarget,
)
    ensures
        belongs(m.bullet_set(target, list), thread, thing) <==> (if thing == target {
            exists|i: int| 0 <= i < list.len() && (#[trigger] list[i]).0 == thread
        } else {
            belongs(m.memberships, thread, thing)
        }),
{
    let kept = m.memberships.filter(not_at(target));
    lemma_attached_to_all(kept, target, list, list.len() as int, thread, thing);
    if belongs(kept, thread, thing) {
        let i = choose|i: int|
            0 <= i < kept.len() && (#[trigger] kept[i]).thread_id == thread && kept[i].target
                == thing;
        lemma_filter_from(m.memberships, not_at(target), i);
        let k = choose|k: int|
            0 <= k < m.memberships.len() && m.memberships[k] == kept[i];
        assert(m.memberships[k].thread_id == thread);
    }
    if belongs(m.memberships, thread, thing) && thing != target {
        let k = choose|k: int|
            0 <= k < m.memberships.len() && (#[trigger] m.memberships[k]).thread_id == thread
                && m.memberships[k].target == thing;
        lemma_filter_keeps(m.memberships, not_at(target), k);
        let i = choose|i: int|
            0 <= i < kept.len() && #[trigger] kept[i] == m.memberships[k];
        assert(kept[i].thread_id == thread);
    }
}

} // verus!
