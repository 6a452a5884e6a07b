//! Threads and what belongs to them.
use vstd::prelude::*;

use crate::cell::reference::ReferenceTarget;
use crate::ids::Uuid;
use crate::persist::{
    distinct, lemma_fewer_pointers, lemma_filter_all, lemma_filter_any, lemma_filter_distinct,
    lemma_filter_from, lemma_filter_keeps, same_membership, same_thread, thread_is, CellTagModel,
    Db, DbError, DbModel,
};
use crate::persist::tables::{
    any_where, find_where, found_where, in_order_of, lemma_place_where, ordered, place_where,
    places, put_where, retain_where, rows_put_are_found,
};
use crate::text::views;
use crate::thread::{Thread, ThreadId, ThreadMembership, ThreadModel};

verus! {

/// That `target` belongs to `thread`, since whenever.
pub open spec fn is_member(thread: ThreadId, target: ReferenceTarget) -> spec_fn(
    ThreadMembership,
) -> bool {
    |m: ThreadMembership| m.thread_id == thread && m.target == target
}

/// That something else belongs to a thread than `target`.
pub open spec fn not_at(target: ReferenceTarget) -> spec_fn(ThreadMembership) -> bool {
    |m: ThreadMembership| m.target != target
}

/// The memberships, with `target` belonging to `thread`; since `at`, where it did not
/// before.
pub open spec fn attached(
    ms: Seq<ThreadMembership>,
    thread: ThreadId,
    target: ReferenceTarget,
    at: i64,
) -> Seq<ThreadMembership> {
    if any_where(ms, is_member(thread, target)) {
        ms
    } else {
        ms.push(ThreadMembership { thread_id: thread, target, attached_at: at })
    }
}

/// The memberships, with `target` belonging to each of the first `n` threads.
pub open spec fn attached_to_all(
    ms: Seq<ThreadMembership>,
    target: ReferenceTarget,
    list: Seq<(ThreadId, i64)>,
    n: int,
) -> Seq<ThreadMembership>
    decreases n,
{
    if n <= 0 {
        ms
    } else {
        attached(
            attached_to_all(ms, target, list, n - 1),
            list[n - 1].0,
            target,
            list[n - 1].1,
        )
    }
}

/// The threads that `target` belongs to by the first `n` memberships, and since when.
pub open spec fn threads_at(ms: Seq<ThreadMembership>, target: ReferenceTarget, n: int) -> Seq<
    (ThreadId, i64),
>
    decreases n,
{
    if n <= 0 {
        Seq::empty()
    } else if ms[n - 1].target == target {
        threads_at(ms, target, n - 1).push((ms[n - 1].thread_id, ms[n - 1].attached_at))
    } else {
        threads_at(ms, target, n - 1)
    }
}

/// A bullet of the cell `cell_id` that is not among `valid` belongs to a thread.
pub open spec fn is_orphan(cell_id: Uuid, valid: Seq<Uuid>) -> spec_fn(ThreadMembership) -> bool {
    |m: ThreadMembership|
        match m.target {
            ReferenceTarget::Subtree { cell_id: c, bullet_id } => c == cell_id && !valid.contains(
                bullet_id,
            ),
            ReferenceTarget::WholeCell(_) => false,
        }
}

/// No orphan.
pub open spec fn not_orphan(cell_id: Uuid, valid: Seq<Uuid>) -> spec_fn(ThreadMembership) -> bool {
    |m: ThreadMembership| !is_orphan(cell_id, valid)(m)
}

impl DbModel {
    /// The thread `id`.
    pub open spec fn thread(self, id: ThreadId) -> Option<ThreadModel> {
        found_where(self.threads, thread_is(id))
    }

    /// With a thread; one that was there already keeps when it was made.
    pub open spec fn thread_put(self, t: ThreadModel) -> DbModel {
        let row = match self.thread(t.id) {
            Some(old_row) => ThreadModel { created_at: old_row.created_at, ..t },
            None => t,
        };
        DbModel { threads: put_where(self.threads, thread_is(t.id), row), ..self }
    }

    /// Without the thread `id`, and with nothing that belongs to it.
    pub open spec fn thread_dropped(self, id: ThreadId) -> DbModel {
        DbModel {
            threads: self.threads.filter(|t: ThreadModel| t.id != id),
            memberships: self.memberships.filter(|m: ThreadMembership| m.thread_id != id),
            ..self
        }
    }

    /// With other memberships.
    pub open spec fn belonging(self, memberships: Seq<ThreadMembership>) -> DbModel {
        DbModel { memberships, ..self }
    }

    /// The memberships, those of a bullet being `list`.
    pub open spec fn bullet_set(self, target: ReferenceTarget, list: Seq<(ThreadId, i64)>) -> Seq<
        ThreadMembership,
    > {
        attached_to_all(
            self.memberships.filter(not_at(target)),
            target,
            list,
            list.len() as int,
        )
    }

    /// The memberships, those of `from` made those of `into`.
    pub open spec fn bullet_moved(self, from: ReferenceTarget, into: ReferenceTarget) -> Seq<
        ThreadMembership,
    > {
        let list = threads_at(self.memberships, from, self.memberships.len() as int);
        attached_to_all(self.memberships, into, list, list.len() as int).filter(not_at(from))
    }

    /// All threads of the list are there.
    pub open spec fn knows_threads(self, list: Seq<(ThreadId, i64)>) -> bool {
        forall|i: int| 0 <= i < list.len() ==> self.has_thread((#[trigger] list[i]).0)
    }
}

// ---------------------------------------------------------------------------
// Facts
// ---------------------------------------------------------------------------

/// What holds of the other tables, where threads and memberships change.
proof fn lemma_threads_changed(m: DbModel, n: DbModel)
    requires
        m.wf(),
        n.cells == m.cells,
        n.contexts == m.contexts,
        n.tags == m.tags,
        n.cell_tags == m.cell_tags,
        n.entities == m.entities,
        n.aliases == m.aliases,
        distinct(n.threads, same_thread()),
        distinct(n.memberships, same_membership()),
        forall|i: int|
            0 <= i < n.memberships.len() ==> n.has_thread(
                (#[trigger] n.memberships[i]).thread_id,
            ) && m.has_cell(n.memberships[i].target.cell_id()),
    ensures
        n.wf(),
{
    assert forall|i: int| 0 <= i < n.cell_tags.len() implies n.has_cell(
        (#[trigger] n.cell_tags[i]).cell_id,
    ) && n.tags.contains(n.cell_tags[i].name) by {
        assert(m.has_cell(m.cell_tags[i].cell_id));
    }
    assert forall|i: int| 0 <= i < n.aliases.len() implies n.has_entity(
        (#[trigger] n.aliases[i]).entity_id,
    ) by {
        assert(m.has_entity(m.aliases[i].entity_id));
    }
}

proof fn lemma_thread_put(s: Seq<ThreadModel>, k: int, t: ThreadModel, all: Seq<ThreadModel>)
    requires
        distinct(s, same_thread()),
        (0 <= k < s.len() && s[k].id == t.id && all == s.update(k, t)) || (all == s.push(t)
            && !any_where(s, thread_is(t.id))),
    ensures
        distinct(all, same_thread()),
        forall|id: Uuid| any_where(s, thread_is(id)) ==> #[trigger] any_where(all, thread_is(id)),
{
    assert forall|i: int, j: int| 0 <= i < j < all.len() implies !same_thread()(
        #[trigger] all[i],
        #[trigger] all[j],
    ) by {
        if j < s.len() {
            assert(!same_thread()(s[i], s[j]));
        } else {
            assert(!thread_is(t.id)(s[i]));
        }
    }
    assert forall|id: Uuid| any_where(s, thread_is(id)) implies #[trigger] any_where(
        all,
        thread_is(id),
    ) by {
        let n = choose|n: int| 0 <= n < s.len() && thread_is(id)(#[trigger] s[n]);
        assert(thread_is(id)(all[n]));
    }
}

proof fn lemma_attached(m: DbModel, thread: ThreadId, target: ReferenceTarget, at: i64)
    requires
        m.wf(),
        m.has_thread(thread),
        m.has_cell(target.cell_id()),
    ensures
        m.belonging(attached(m.memberships, thread, target, at)).wf(),
{
    let ms = m.memberships;
    let all = attached(ms, thread, target, at);
    let n = m.belonging(all);
    assert forall|i: int, j: int| 0 <= i < j < all.len() implies !same_membership()(
        #[trigger] all[i],
        #[trigger] all[j],
    ) by {
        if j < ms.len() {
            assert(!same_membership()(ms[i], ms[j]));
        } else {
            assert(!is_member(thread, target)(ms[i]));
        }
    }
    assert forall|i: int| 0 <= i < all.len() implies n.has_thread((#[trigger] all[i]).thread_id)
        && m.has_cell(all[i].target.cell_id()) by {
        if i < ms.len() {
            assert(m.has_thread(ms[i].thread_id));
            assert(m.has_cell(ms[i].target.cell_id()));
        }
    }
    lemma_threads_changed(m, n);
}

proof fn lemma_memberships_kept(m: DbModel, p: spec_fn(ThreadMembership) -> bool)
    requires
        m.wf(),
    ensures
        m.belonging(m.memberships.filter(p)).wf(),
{
    let q = |t: CellTagModel| true;
    lemma_fewer_pointers(m, q, p);
    lemma_filter_all(m.cell_tags, q);
}

proof fn lemma_threads_at(
    ms: Seq<ThreadMembership>,
    target: ReferenceTarget,
    n: int,
    k: int,
)
    requires
        0 <= n <= ms.len(),
        0 <= k < threads_at(ms, target, n).len(),
    ensures
        exists|i: int|
            0 <= i < n && (#[trigger] ms[i]).target == target && ms[i].thread_id == threads_at(
                ms,
                target,
                n,
            )[k].0 && ms[i].attached_at == threads_at(ms, target, n)[k].1,
    decreases n,
{
    if n > 0 {
        let before = threads_at(ms, target, n - 1);
        if k < before.len() {
            lemma_threads_at(ms, target, n - 1, k);
        } else {
            assert(ms[n - 1].target == target);
        }
    }
}

// ---------------------------------------------------------------------------
// Threads
// ---------------------------------------------------------------------------

impl Db {
    fn thread_at(&self, id: ThreadId) -> (r: Option<usize>)
        ensures
            match r {
                Some(i) => i < self@.threads.len() && i == place_where(
                    self@.threads,
                    thread_is(id),
                    0,
                ) && self@.threads[i as int].id == id && self@.has_thread(id) && self@.thread(id)
                    == Some(self@.threads[i as int]),
                None => place_where(self@.threads, thread_is(id), 0) == self@.threads.len()
                    && !self@.has_thread(id) && self@.thread(id) is None,
            },
    {
        let test = |t: &Thread| -> (b: bool)
            ensures
                b == (t@.id == id),
        {
            t.id == id
        };
        let at = find_where(&self.threads, test, Ghost(thread_is(id)));
        proof {
            if let Some(i) = at {
                assert(thread_is(id)(self@.threads[i as int]));
            }
        }
        at
    }

    /// The threads, in the order in which they were made.
    pub fn all_threads(&self) -> (v: Vec<Thread>)
        ensures
            views(v@) == in_order_of(self@.threads, thread_times(self@)),
    {
        let mut keys: Vec<i64> = Vec::new();
        let mut i: usize = 0;
        while i < self.threads.len()
            invariant
                i <= self.threads.len(),
                keys@.len() == i,
                forall|k: int| 0 <= k < i ==> keys@[k] == (#[trigger] self.threads@[k]).created_at,
            decreases self.threads.len() - i,
        {
            keys.push(self.threads[i].created_at);
            i += 1;
        }
        assert(keys@ =~= thread_times(self@));
        let order = ordered(&keys);
        let mut out: Vec<Thread> = Vec::new();
        i = 0;
        while i < order.len()
            invariant
                i <= order.len(),
                order@.len() == self.threads@.len(),
                forall|k: int|
                    0 <= k < order@.len() ==> (#[trigger] order@[k]) < self.threads@.len(),
                out@.len() == i,
                forall|k: int|
                    0 <= k < i ==> (#[trigger] out@[k])@ == self@.threads[order@[k] as int],
            decreases order.len() - i,
        {
            out.push(self.threads[order[i]].clone());
            i += 1;
        }
        proof {
            assert forall|k: int| 0 <= k < out@.len() implies views(out@)[k] == in_order_of(
                self@.threads,
                thread_times(self@),
            )[k] by {
                assert(places(order@)[k] == order@[k]);
            }
            assert(views(out@) =~= in_order_of(self@.threads, thread_times(self@)));
        }
        out
    }

    /// The thread `id`; nothing where there is no such thread.
    pub fn thread_by_id(&self, id: ThreadId) -> (r: Option<Thread>)
        ensures
            (match r {
                Some(t) => Some(t@),
                None => None,
            }) == self@.thread(id),
    {
        match self.thread_at(id) {
            Some(i) => Some(self.threads[i].clone()),
            None => None,
        }
    }

    /// Saves a thread. One that was there already keeps when it was made.
    pub fn upsert_thread(&mut self, thread: &Thread)
        requires
            old(self)@.wf(),
        ensures
            final(self)@ == old(self)@.thread_put(thread@),
            final(self)@.wf(),
    {
        let ghost m = self@;
        let mut row = thread.clone();
        match self.thread_at(thread.id) {
            Some(i) => {
                row.created_at = self.threads[i].created_at;
                let ghost r = row@;
                self.threads.set(i, row);
                proof {
                    assert(r =~= ThreadModel { created_at: m.threads[i as int].created_at, ..thread@ });
                    assert(self@.threads =~= m.threads.update(i as int, r));
                    lemma_thread_put(m.threads, i as int, r, self@.threads);
                }
            },
            None => {
                let ghost r = row@;
                self.threads.push(row);
                proof {
                    assert(self@.threads =~= m.threads.push(r));
                    lemma_thread_put(m.threads, -1, r, self@.threads);
                }
            },
        }
        proof {
            assert(self@ =~= m.thread_put(thread@));
            assert forall|i: int| 0 <= i < self@.memberships.len() implies self@.has_thread(
                (#[trigger] self@.memberships[i]).thread_id,
            ) && m.has_cell(self@.memberships[i].target.cell_id()) by {
                assert(m.has_thread(m.memberships[i].thread_id));
            }
            lemma_threads_changed(m, self@);
        }
    }

    /// Drops the thread `id`; nothing belongs to it any more.
    pub fn delete_thread(&mut self, id: ThreadId)
        requires
            old(self)@.wf(),
        ensures
            final(self)@ == old(self)@.thread_dropped(id),
            final(self)@.wf(),
    {
        let ghost m = self@;
        let ghost keep = |t: ThreadModel| t.id != id;
        let ghost other = |x: ThreadMembership| x.thread_id != id;
        let test = |t: &Thread| -> (b: bool)
            ensures
                b == (t@.id != id),
        {
            t.id != id
        };
        retain_where(&mut self.threads, test, Ghost(keep));
        let elsewhere = |x: &ThreadMembership| -> (b: bool)
            ensures
                b == (x@.thread_id != id),
        {
            x.thread_id != id
        };
        retain_where(&mut self.memberships, elsewhere, Ghost(other));
        proof {
            assert(self@ =~= m.thread_dropped(id));
            lemma_filter_distinct(m.threads, keep, same_thread());
            lemma_filter_distinct(m.memberships, other, same_membership());
            assert forall|i: int| 0 <= i < self@.memberships.len() implies self@.has_thread(
                (#[trigger] self@.memberships[i]).thread_id,
            ) && m.has_cell(self@.memberships[i].target.cell_id()) by {
                lemma_filter_from(m.memberships, other, i);
                let k = choose|k: int|
                    0 <= k < m.memberships.len() && m.memberships[k] == self@.memberships[i];
                let t = m.memberships[k].thread_id;
                assert(m.has_thread(t));
                lemma_filter_any(m.threads, keep, thread_is(t));
            }
            lemma_threads_changed(m, self@);
        }
    }

    /// Closes the thread `id`, or opens it again, where there is one.
    pub fn set_thread_closed_at(&mut self, id: ThreadId, closed_at: Option<i64>, edited_at: i64)
        requires
            old(self)@.wf(),
        ensures
            ({
                let k = place_where(old(self)@.threads, thread_is(id), 0);
                final(self)@ == (if k < old(self)@.threads.len() {
                    DbModel {
                        threads: old(self)@.threads.update(
                            k,
                            ThreadModel { closed_at, edited_at, ..old(self)@.threads[k] },
                        ),
                        ..old(self)@
                    }
                } else {
                    old(self)@
                })
            }),
            final(self)@.wf(),
    {
        let ghost m = self@;
        if let Some(i) = self.thread_at(id) {
            self.threads[i].closed_at = closed_at;
            self.threads[i].edited_at = edited_at;
            proof {
                let r = ThreadModel { closed_at, edited_at, ..m.threads[i as int] };
                assert(self@.threads =~= m.threads.update(i as int, r));
                lemma_thread_put(m.threads, i as int, r, self@.threads);
                assert forall|i: int| 0 <= i < self@.memberships.len() implies self@.has_thread(
                    (#[trigger] self@.memberships[i]).thread_id,
                ) && m.has_cell(self@.memberships[i].target.cell_id()) by {
                    assert(m.has_thread(m.memberships[i].thread_id));
                }
                lemma_threads_changed(m, self@);
            }
        }
    }

    // -----------------------------------------------------------------------
    // Memberships
    // -----------------------------------------------------------------------

    /// The memberships, in the order in which they began.
    pub fn all_thread_memberships(&self) -> (v: Vec<ThreadMembership>)
        ensures
            v@ == in_order_of(self@.memberships, membership_times(self@)),
    {
        let mut keys: Vec<i64> = Vec::new();
        let mut i: usize = 0;
        while i < self.memberships.len()
            invariant
                i <= self.memberships.len(),
                keys@.len() == i,
                forall|k: int|
                    0 <= k < i ==> keys@[k] == (#[trigger] self.memberships@[k]).attached_at,
            decreases self.memberships.len() - i,
        {
            keys.push(self.memberships[i].attached_at);
            i += 1;
        }
        assert(keys@ =~= membership_times(self@));
        let order = ordered(&keys);
        let mut out: Vec<ThreadMembership> = Vec::new();
        i = 0;
        while i < order.len()
            invariant
                i <= order.len(),
                order@.len() == self.memberships@.len(),
                forall|k: int|
                    0 <= k < order@.len() ==> (#[trigger] order@[k]) < self.memberships@.len(),
                out@.len() == i,
                forall|k: int|
                    0 <= k < i ==> (#[trigger] out@[k]) == self@.memberships[order@[k] as int],
            decreases order.len() - i,
        {
            out.push(self.memberships[order[i]]);
            i += 1;
        }
        proof {
            assert forall|k: int| 0 <= k < out@.len() implies out@[k] == in_order_of(
                self@.memberships,
                membership_times(self@),
            )[k] by {
                assert(places(order@)[k] == order@[k]);
            }
            assert(out@ =~= in_order_of(self@.memberships, membership_times(self@)));
        }
        out
    }

    fn attach(&mut self, thread: ThreadId, target: ReferenceTarget, at: i64)
        requires
            old(self)@.wf(),
            old(self)@.has_thread(thread),
            old(self)@.has_cell(target.cell_id()),
        ensures
            final(self)@ == old(self)@.belonging(
                attached(old(self)@.memberships, thread, target, at),
            ),
            final(self)@.wf(),
    {
        let ghost m = self@;
        let test = |x: &ThreadMembership| -> (b: bool)
            ensures
                b == (x@.thread_id == thread && x@.target == target),
        {
            x.thread_id == thread && x.target == target
        };
        let found = find_where(&self.memberships, test, Ghost(is_member(thread, target)));
        match found {
            Some(i) => {
                assert(is_member(thread, target)(m.memberships[i as int]));
            },
            None => {
                self.memberships.push(
                    ThreadMembership { thread_id: thread, target, attached_at: at },
                );
            },
        }
        proof {
            assert(self@.memberships =~= attached(m.memberships, thread, target, at));
            assert(self@ =~= m.belonging(attached(m.memberships, thread, target, at)));
            lemma_attached(m, thread, target, at);
        }
    }

    /// Makes `target` belong to the thread. Nothing changes where it does already.
    /// Refused where there is no such thread or no such cell.
    pub fn attach_thread(&mut self, thread_id: ThreadId, target: ReferenceTarget, attached_at: i64)
        -> (r: Result<(), DbError>)
        requires
            old(self)@.wf(),
        ensures
            match r {
                Ok(_) => old(self)@.has_thread(thread_id) && old(self)@.has_cell(target.cell_id())
                    && final(self)@ == old(self)@.belonging(
                    attached(old(self)@.memberships, thread_id, target, attached_at),
                ),
                Err(e) => e == DbError::Missing && !(old(self)@.has_thread(thread_id) && old(
                    self,
                )@.has_cell(target.cell_id())) && final(self)@ == old(self)@,
            },
            final(self)@.wf(),
    {
        if self.thread_at(thread_id).is_none() || !self.has_cell(target.cell_id()) {
            return Err(DbError::Missing);
        }
        self.attach(thread_id, target, attached_at);
        Ok(())
    }

    /// Makes `target` no longer belong to the thread.
    pub fn detach_thread(&mut self, thread_id: ThreadId, target: ReferenceTarget)
        requires
            old(self)@.wf(),
        ensures
            final(self)@ == old(self)@.belonging(
                old(self)@.memberships.filter(not_member(thread_id, target)),
            ),
            final(self)@.wf(),
    {
        let ghost m = self@;
        let test = |x: &ThreadMembership| -> (b: bool)
            ensures
                b == !(x@.thread_id == thread_id && x@.target == target),
        {
            !(x.thread_id == thread_id && x.target == target)
        };
        retain_where(&mut self.memberships, test, Ghost(not_member(thread_id, target)));
        proof {
            lemma_memberships_kept(m, not_member(thread_id, target));
            assert(self@ =~= m.belonging(m.memberships.filter(not_member(thread_id, target))));
        }
    }

    /// Drops what is known of bullets of the cell `cell_id` that are not among
    /// `valid_bullet_ids`. Gives back how many memberships went. The cell itself
    /// belongs to the threads that it belonged to.
    pub fn reconcile_subtree_memberships(
        &mut self,
        cell_id: Uuid,
        valid_bullet_ids: &[Uuid],
    ) -> (removed: usize)
        requires
            old(self)@.wf(),
        ensures
            final(self)@ == old(self)@.belonging(
                old(self)@.memberships.filter(not_orphan(cell_id, valid_bullet_ids@)),
            ),
            removed == old(self)@.memberships.len() - final(self)@.memberships.len(),
            final(self)@.wf(),
    {
        let ghost m = self@;
        let ghost keep = not_orphan(cell_id, valid_bullet_ids@);
        let before: usize = self.memberships.len();
        let test = |x: &ThreadMembership| -> (b: bool)
            ensures
                b == not_orphan(cell_id, valid_bullet_ids@)(x@),
        {
            match x.target {
                ReferenceTarget::Subtree { cell_id: c, bullet_id } => c != cell_id || holds_id(
                    valid_bullet_ids,
                    bullet_id,
                ),
                ReferenceTarget::WholeCell(_) => true,
            }
        };
        retain_where(&mut self.memberships, test, Ghost(keep));
        proof {
            broadcast use vstd::seq_lib::group_filter_ensures;

            lemma_memberships_kept(m, keep);
            assert(self@ =~= m.belonging(m.memberships.filter(keep)));
            assert(m.memberships.filter(keep).len() <= m.memberships.len());
        }
        before - self.memberships.len()
    }

    fn attach_all(&mut self, target: ReferenceTarget, list: &[(ThreadId, i64)])
        requires
            old(self)@.wf(),
            list@.len() > 0 ==> old(self)@.has_cell(target.cell_id()),
            old(self)@.knows_threads(list@),
        ensures
            final(self)@ == old(self)@.belonging(
                attached_to_all(old(self)@.memberships, target, list@, list@.len() as int),
            ),
            final(self)@.wf(),
    {
        let ghost m = self@;
        let mut i: usize = 0;
        while i < list.len()
            invariant
                i <= list.len(),
                self@ == m.belonging(attached_to_all(m.memberships, target, list@, i as int)),
                self@.wf(),
                list@.len() > 0 ==> m.has_cell(target.cell_id()),
                m.knows_threads(list@),
            decreases list.len() - i,
        {
            assert(m.has_thread(list@[i as int].0));
            let (thread, at): (ThreadId, i64) = list[i];
            self.attach(thread, target, at);
            assert(self@ =~= m.belonging(
                attached_to_all(m.memberships, target, list@, i + 1),
            ));
            i += 1;
        }
    }

    /// Makes `memberships` the threads that a bullet belongs to, and since when.
    /// Refused where there is no such cell, or one of the threads is not there.
    pub fn set_bullet_memberships(
        &mut self,
        cell_id: Uuid,
        bullet_id: Uuid,
        memberships: &[(ThreadId, i64)],
    ) -> (r: Result<(), DbError>)
        requires
            old(self)@.wf(),
        ensures
            ({
                let fine = old(self)@.knows_threads(memberships@) && (memberships@.len() > 0
                    ==> old(self)@.has_cell(cell_id));
                match r {
                    Ok(_) => fine && final(self)@ == old(self)@.belonging(
                        old(self)@.bullet_set(
                            ReferenceTarget::Subtree { cell_id, bullet_id },
                            memberships@,
                        ),
                    ),
                    Err(e) => e == DbError::Missing && !fine && final(self)@ == old(self)@,
                }
            }),
            final(self)@.wf(),
    {
        let ghost m = self@;
        let target = ReferenceTarget::Subtree { cell_id, bullet_id };
        let mut i: usize = 0;
        while i < memberships.len()
            invariant
                i <= memberships.len(),
                self@ == m,
                m.wf(),
                forall|k: int| 0 <= k < i ==> m.has_thread((#[trigger] memberships@[k]).0),
            decreases memberships.len() - i,
        {
            if self.thread_at(memberships[i].0).is_none() {
                assert(!m.has_thread(memberships@[i as int].0));
                return Err(DbError::Missing);
            }
            i += 1;
        }
        if memberships.len() > 0 && !self.has_cell(cell_id) {
            return Err(DbError::Missing);
        }
        let test = |x: &ThreadMembership| -> (b: bool)
            ensures
                b == (x@.target != target),
        {
            !(x.target == target)
        };
        retain_where(&mut self.memberships, test, Ghost(not_at(target)));
        proof {
            lemma_memberships_kept(m, not_at(target));
            assert(self@ =~= m.belonging(m.memberships.filter(not_at(target))));
            assert forall|k: int| 0 <= k < memberships@.len() implies self@.has_thread(
                (#[trigger] memberships@[k]).0,
            ) by {
                assert(m.has_thread(memberships@[k].0));
            }
        }
        self.attach_all(target, memberships);
        assert(self@ =~= m.belonging(m.bullet_set(target, memberships@)));
        Ok(())
    }

    /// Makes the bullet `into_bullet` belong to every thread that `from_bullet` belongs
    /// to, and `from_bullet` to none. Where they are one bullet, nothing changes.
    pub fn move_bullet_memberships(&mut self, cell_id: Uuid, from_bullet: Uuid, into_bullet: Uuid)
        requires
            old(self)@.wf(),
        ensures
            final(self)@ == (if from_bullet == into_bullet {
                old(self)@
            } else {
                old(self)@.belonging(
                    old(self)@.bullet_moved(
                        ReferenceTarget::Subtree { cell_id, bullet_id: from_bullet },
                        ReferenceTarget::Subtree { cell_id, bullet_id: into_bullet },
                    ),
                )
            }),
            final(self)@.wf(),
    {
        if from_bullet == into_bullet {
            return ;
        }
        let ghost m = self@;
        let from = ReferenceTarget::Subtree { cell_id, bullet_id: from_bullet };
        let into = ReferenceTarget::Subtree { cell_id, bullet_id: into_bullet };
        let mut list: Vec<(ThreadId, i64)> = Vec::new();
        let mut i: usize = 0;
        assert(list@ =~= Seq::empty());
        while i < self.memberships.len()
            invariant
                i <= self.memberships.len(),
                self@ == m,
                list@ == threads_at(m.memberships, from, i as int),
            decreases self.memberships.len() - i,
        {
            let x = &self.memberships[i];
            assert(m.memberships[i as int] == x@);
            if x.target == from {
                list.push((x.thread_id, x.attached_at));
            }
            i += 1;
        }
        proof {
            let n = m.memberships.len() as int;
            assert forall|k: int| 0 <= k < list@.len() implies m.has_thread(
                (#[trigger] list@[k]).0,
            ) && m.has_cell(cell_id) by {
                lemma_threads_at(m.memberships, from, n, k);
                let i = choose|i: int|
                    0 <= i < n && (#[trigger] m.memberships[i]).target == from
                        && m.memberships[i].thread_id == list@[k].0 && m.memberships[i].attached_at
                        == list@[k].1;
                assert(m.has_thread(m.memberships[i].thread_id));
                assert(m.has_cell(m.memberships[i].target.cell_id()));
            }
            if list@.len() > 0 {
                assert(m.has_thread(list@[0].0) && m.has_cell(cell_id));
            }
        }
        self.attach_all(into, list.as_slice());
        let ghost mid = self@;
        let test = |x: &ThreadMembership| -> (b: bool)
            ensures
                b == (x@.target != from),
        {
            !(x.target == from)
        };
        retain_where(&mut self.memberships, test, Ghost(not_at(from)));
        proof {
            lemma_memberships_kept(mid, not_at(from));
            assert(self@ =~= mid.belonging(mid.memberships.filter(not_at(from))));
            assert(self@ =~= m.belonging(m.bullet_moved(from, into)));
        }
    }
}

/// That another target, or of another thread.
pub open spec fn not_member(thread: ThreadId, target: ReferenceTarget) -> spec_fn(
    ThreadMembership,
) -> bool {
    |m: ThreadMembership| !(m.thread_id == thread && m.target == target)
}

fn holds_id(ids: &[Uuid], id: Uuid) -> (r: bool)
    ensures
        r == ids@.contains(id),
{
    let mut i: usize = 0;
    while i < ids.len()
        invariant
            i <= ids.len(),
            forall|k: int| 0 <= k < i ==> ids@[k] != id,
        decreases ids.len() - i,
    {
        if ids[i] == id {
            return true;
        }
        i += 1;
    }
    false
}

/// When the threads were made.
pub open spec fn thread_times(m: DbModel) -> Seq<i64> {
    m.threads.map_values(|t: ThreadModel| t.created_at)
}

/// When the memberships began.
pub open spec fn membership_times(m: DbModel) -> Seq<i64> {
    m.memberships.map_values(|x: ThreadMembership| x.attached_at)
}

// ---------------------------------------------------------------------------
// Laws
// ---------------------------------------------------------------------------

/// Attaching twice is attaching once.
pub proof fn attaching_is_idempotent(
    ms: Seq<ThreadMembership>,
    thread: ThreadId,
    target: ReferenceTarget,
    at: i64,
    later: i64,
)
    ensures
        attached(attached(ms, thread, target, at), thread, target, later) == attached(
            ms,
            thread,
            target,
            at,
        ),
        any_where(attached(ms, thread, target, at), is_member(thread, target)),
{
    let once = attached(ms, thread, target, at);
    if !any_where(ms, is_member(thread, target)) {
        assert(is_member(thread, target)(once[ms.len() as int]));
    }
}

/// What is detached does not belong to the thread; whatever else belonged to one still
/// does.
pub proof fn detaching_drops_one_membership(
    ms: Seq<ThreadMembership>,
    thread: ThreadId,
    target: ReferenceTarget,
)
    ensures
        !any_where(ms.filter(not_member(thread, target)), is_member(thread, target)),
        forall|x: ThreadMembership|
            not_member(thread, target)(x) ==> (#[trigger] ms.filter(
                not_member(thread, target),
            ).contains(x) <==> ms.contains(x)),
{
    let p = not_member(thread, target);
    let f = ms.filter(p);
    if any_where(f, is_member(thread, target)) {
        let k = choose|k: int| 0 <= k < f.len() && is_member(thread, target)(#[trigger] f[k]);
        lemma_filter_from(ms, p, k);
    }
    lemma_filter_contains(ms, p);
}

/// Dropping rows keeps exactly those that meet what is asked.
proof fn lemma_filter_contains<A>(s: Seq<A>, p: spec_fn(A) -> bool)
    ensures
        forall|a: A| #[trigger] s.filter(p).contains(a) <==> s.contains(a) && p(a),
{
    let f = s.filter(p);
    assert forall|a: A| #[trigger] f.contains(a) <==> s.contains(a) && p(a) by {
        if f.contains(a) {
            let i = choose|i: int| 0 <= i < f.len() && f[i] == a;
            lemma_filter_from(s, p, i);
        }
        if s.contains(a) && p(a) {
            let k = choose|k: int| 0 <= k < s.len() && s[k] == a;
            lemma_filter_keeps(s, p, k);
        }
    }
}

/// Reconciling drops what is known of bullets that are gone, and nothing else.
pub proof fn reconciling_drops_only_orphans(
    ms: Seq<ThreadMembership>,
    cell_id: Uuid,
    valid: Seq<Uuid>,
)
    ensures
        forall|x: ThreadMembership|
            #[trigger] ms.filter(not_orphan(cell_id, valid)).contains(x) <==> ms.contains(x)
                && !is_orphan(cell_id, valid)(x),
{
    lemma_filter_contains(ms, not_orphan(cell_id, valid));
}

/// What is among memberships after attaching a target to threads: what was, and that
/// the target belongs to each thread that it did not belong to.
proof fn lemma_attached_to_all(
    ms: Seq<ThreadMembership>,
    target: ReferenceTarget,
    list: Seq<(ThreadId, i64)>,
    n: int,
)
    requires
        0 <= n <= list.len(),
    ensures
        forall|x: ThreadMembership|
            x.target != target ==> (#[trigger] attached_to_all(ms, target, list, n).contains(x)
                <==> ms.contains(x)),
        forall|x: ThreadMembership|
            ms.contains(x) ==> #[trigger] attached_to_all(ms, target, list, n).contains(x),
        forall|t: ThreadId|
            #[trigger] any_where(attached_to_all(ms, target, list, n), is_member(t, target)) <==> (
            any_where(ms, is_member(t, target)) || exists|i: int|
                0 <= i < n && (#[trigger] list[i]).0 == t),
        forall|x: ThreadMembership|
            #[trigger] attached_to_all(ms, target, list, n).contains(x) ==> ms.contains(x) || (
            x.target == target && exists|i: int|
                0 <= i < n && #[trigger] list[i] == (x.thread_id, x.attached_at)),
    decreases n,
{
    if n > 0 {
        lemma_attached_to_all(ms, target, list, n - 1);
        let before = attached_to_all(ms, target, list, n - 1);
        let all = attached_to_all(ms, target, list, n);
        let (thread, at) = list[n - 1];
        let x0 = ThreadMembership { thread_id: thread, target, attached_at: at };
        assert forall|x: ThreadMembership| #[trigger] all.contains(x) <==> before.contains(x) || (
        x == x0 && !any_where(before, is_member(thread, target))) by {
            if all.contains(x) && !before.contains(x) {
                let i = choose|i: int| 0 <= i < all.len() && all[i] == x;
                assert(i >= before.len() || before[i] == x);
            }
            if before.contains(x) {
                let i = choose|i: int| 0 <= i < before.len() && before[i] == x;
                assert(all[i] == x);
            }
            if x == x0 && !any_where(before, is_member(thread, target)) {
                assert(all[before.len() as int] == x);
            }
        }
        assert forall|t: ThreadId|
            #[trigger] any_where(all, is_member(t, target)) <==> (any_where(
                ms,
                is_member(t, target),
            ) || exists|i: int| 0 <= i < n && (#[trigger] list[i]).0 == t) by {
            if any_where(before, is_member(t, target)) {
                let i = choose|i: int|
                    0 <= i < before.len() && is_member(t, target)(#[trigger] before[i]);
                assert(is_member(t, target)(all[i]));
            }
            if t == thread {
                assert(list[n - 1].0 == t);
                attaching_is_idempotent(before, thread, target, at, at);
            }
            if any_where(all, is_member(t, target)) && !any_where(before, is_member(t, target)) {
                let i = choose|i: int|
                    0 <= i < all.len() && is_member(t, target)(#[trigger] all[i]);
                if i < before.len() {
                    assert(is_member(t, target)(before[i]));
                }
            }
            if exists|i: int| 0 <= i < n && (#[trigger] list[i]).0 == t {
                let i = choose|i: int| 0 <= i < n && (#[trigger] list[i]).0 == t;
                if i < n - 1 {
                    assert(any_where(before, is_member(t, target)));
                }
            }
        }
        assert forall|x: ThreadMembership| #[trigger] all.contains(x) implies ms.contains(x) || (
        x.target == target && exists|i: int|
            0 <= i < n && #[trigger] list[i] == (x.thread_id, x.attached_at)) by {
            if before.contains(x) {
            } else {
                assert(list[n - 1] == (x.thread_id, x.attached_at));
            }
        }
    }
}

/// Moving makes the one bullet belong to no thread, and the other to exactly the
/// threads that either belonged to; whatever else belonged to one still does.
pub proof fn moving_bullets_moves_their_threads(
    m: DbModel,
    from: ReferenceTarget,
    into: ReferenceTarget,
)
    requires
        from != into,
    ensures
        forall|t: ThreadId| !#[trigger] any_where(m.bullet_moved(from, into), is_member(t, from)),
        forall|t: ThreadId|
            #[trigger] any_where(m.bullet_moved(from, into), is_member(t, into)) <==> any_where(
                m.memberships,
                is_member(t, from),
            ) || any_where(m.memberships, is_member(t, into)),
        forall|x: ThreadMembership|
            x.target != from && x.target != into ==> (#[trigger] m.bullet_moved(
                from,
                into,
            ).contains(x) <==> m.memberships.contains(x)),
{
    let ms = m.memberships;
    let n = ms.len() as int;
    let list = threads_at(ms, from, n);
    let mid = attached_to_all(ms, into, list, list.len() as int);
    let all = m.bullet_moved(from, into);
    lemma_attached_to_all(ms, into, list, list.len() as int);
    lemma_filter_contains(mid, not_at(from));
    assert forall|t: ThreadId| !#[trigger] any_where(all, is_member(t, from)) by {
        if any_where(all, is_member(t, from)) {
            let k = choose|k: int| 0 <= k < all.len() && is_member(t, from)(#[trigger] all[k]);
            lemma_filter_from(mid, not_at(from), k);
        }
    }
    assert forall|t: ThreadId|
        #[trigger] any_where(all, is_member(t, into)) <==> any_where(ms, is_member(t, from))
            || any_where(ms, is_member(t, into)) by {
        lemma_threads_of(ms, from, n, t);
        if any_where(mid, is_member(t, into)) {
            lemma_filter_any(mid, not_at(from), is_member(t, into));
        }
        if any_where(all, is_member(t, into)) {
            let k = choose|k: int| 0 <= k < all.len() && is_member(t, into)(#[trigger] all[k]);
            lemma_filter_from(mid, not_at(from), k);
            let i = choose|i: int| 0 <= i < mid.len() && mid[i] == all[k];
            assert(is_member(t, into)(mid[i]));
        }
    }
}

proof fn lemma_threads_of(ms: Seq<ThreadMembership>, target: ReferenceTarget, n: int, t: ThreadId)
    requires
        0 <= n <= ms.len(),
    ensures
        (exists|i: int| 0 <= i < threads_at(ms, target, n).len() && (#[trigger] threads_at(
            ms,
            target,
            n,
        )[i]).0 == t) <==> (exists|k: int|
            0 <= k < n && is_member(t, target)(#[trigger] ms[k])),
    decreases n,
{
    if n > 0 {
        lemma_threads_of(ms, target, n - 1, t);
        let before = threads_at(ms, target, n - 1);
        let all = threads_at(ms, target, n);
        if exists|i: int| 0 <= i < before.len() && (#[trigger] before[i]).0 == t {
            let i = choose|i: int| 0 <= i < before.len() && (#[trigger] before[i]).0 == t;
            assert(all[i].0 == t);
        }
        if is_member(t, target)(ms[n - 1]) {
            assert(all[before.len() as int].0 == t);
        }
        if exists|i: int| 0 <= i < all.len() && (#[trigger] all[i]).0 == t {
            let i = choose|i: int| 0 <= i < all.len() && (#[trigger] all[i]).0 == t;
            if i < before.len() {
                assert(before[i].0 == t);
            } else {
                assert(is_member(t, target)(ms[n - 1]));
            }
        }
        if exists|k: int| 0 <= k < n && is_member(t, target)(#[trigger] ms[k]) {
            let k = choose|k: int| 0 <= k < n && is_member(t, target)(#[trigger] ms[k]);
            if k < n - 1 {
                assert(exists|k: int| 0 <= k < n - 1 && is_member(t, target)(#[trigger] ms[k]));
            }
        }
    }
}

/// The threads that a bullet belongs to, set to what they were, are what they were.
proof fn lemma_set_again(ms: Seq<ThreadMembership>, target: ReferenceTarget, base: Seq<ThreadMembership>)
    requires
        distinct(ms, same_membership()),
        forall|t: ThreadId| !#[trigger] any_where(base, is_member(t, target)),
    ensures
        forall|x: ThreadMembership|
            x.target == target ==> (#[trigger] attached_to_all(
                base,
                target,
                threads_at(ms, target, ms.len() as int),
                threads_at(ms, target, ms.len() as int).len() as int,
            ).contains(x) <==> ms.contains(x)),
{
    let n = ms.len() as int;
    let list = threads_at(ms, target, n);
    let all = attached_to_all(base, target, list, list.len() as int);
    lemma_attached_to_all(base, target, list, list.len() as int);
    assert forall|x: ThreadMembership| x.target == target implies (#[trigger] all.contains(x)
        <==> ms.contains(x)) by {
        if all.contains(x) {
            if base.contains(x) {
                let k = choose|k: int| 0 <= k < base.len() && base[k] == x;
                assert(is_member(x.thread_id, target)(base[k]));
                assert(any_where(base, is_member(x.thread_id, target)));
            }
            let i = choose|i: int|
                0 <= i < list.len() && #[trigger] list[i] == (x.thread_id, x.attached_at);
            lemma_threads_at(ms, target, n, i);
            let k = choose|k: int|
                0 <= k < n && (#[trigger] ms[k]).target == target && ms[k].thread_id == list[i].0
                    && ms[k].attached_at == list[i].1;
            assert(ms[k] == x);
        }
        if ms.contains(x) {
            let k = choose|k: int| 0 <= k < ms.len() && ms[k] == x;
            assert(is_member(x.thread_id, target)(ms[k]));
            lemma_threads_of(ms, target, n, x.thread_id);
            assert(any_where(all, is_member(x.thread_id, target)));
            let j = choose|j: int|
                0 <= j < all.len() && is_member(x.thread_id, target)(#[trigger] all[j]);
            assert(all.contains(all[j]));
            if base.contains(all[j]) {
                let b = choose|b: int| 0 <= b < base.len() && base[b] == all[j];
                assert(is_member(x.thread_id, target)(base[b]));
                assert(any_where(base, is_member(x.thread_id, target)));
            }
            let i = choose|i: int|
                0 <= i < list.len() && #[trigger] list[i] == (
                    all[j].thread_id,
                    all[j].attached_at,
                );
            lemma_threads_at(ms, target, n, i);
            let a = choose|a: int|
                0 <= a < n && (#[trigger] ms[a]).target == target && ms[a].thread_id == list[i].0
                    && ms[a].attached_at == list[i].1;
            assert(ms[a] == all[j]);
            if a < k {
                assert(!same_membership()(ms[a], ms[k]));
            } else if k < a {
                assert(!same_membership()(ms[k], ms[a]));
            }
        }
    }
}

/// Moving the memberships of a bullet to another, and setting those of both to what
/// they were, undoes the move: the memberships are those of before.
pub proof fn moves_are_undone(m: DbModel, from: ReferenceTarget, into: ReferenceTarget)
    requires
        m.wf(),
        from != into,
    ensures
        ({
            let n = m.memberships.len() as int;
            let moved = m.belonging(m.bullet_moved(from, into));
            let first = moved.belonging(moved.bullet_set(from, threads_at(m.memberships, from, n)));
            let both = first.bullet_set(into, threads_at(m.memberships, into, n));
            forall|x: ThreadMembership| #[trigger] both.contains(x) <==> m.memberships.contains(x)
        }),
{
    let ms = m.memberships;
    let n = ms.len() as int;
    let moved = m.belonging(m.bullet_moved(from, into));
    let at_from = threads_at(ms, from, n);
    let at_into = threads_at(ms, into, n);
    let first = moved.belonging(moved.bullet_set(from, at_from));
    let both = first.bullet_set(into, at_into);
    moving_bullets_moves_their_threads(m, from, into);
    let base1 = moved.memberships.filter(not_at(from));
    let base2 = first.memberships.filter(not_at(into));
    lemma_none_at(moved.memberships, from);
    lemma_none_at(first.memberships, into);
    lemma_filter_contains(moved.memberships, not_at(from));
    lemma_filter_contains(first.memberships, not_at(into));
    lemma_set_again(ms, from, base1);
    lemma_set_again(ms, into, base2);
    lemma_attached_to_all(base1, from, at_from, at_from.len() as int);
    lemma_attached_to_all(base2, into, at_into, at_into.len() as int);
    assert forall|x: ThreadMembership| #[trigger] both.contains(x) <==> ms.contains(x) by {
        if x.target == into {
        } else if x.target == from {
            assert(both.contains(x) <==> base2.contains(x));
            assert(base2.contains(x) <==> first.memberships.contains(x));
            assert(first.memberships.contains(x) <==> ms.contains(x));
        } else {
            assert(both.contains(x) <==> base2.contains(x));
            assert(base2.contains(x) <==> first.memberships.contains(x));
            assert(first.memberships.contains(x) <==> base1.contains(x));
            assert(base1.contains(x) <==> moved.memberships.contains(x));
            assert(moved.memberships.contains(x) <==> ms.contains(x));
        }
    }
}

proof fn lemma_none_at(ms: Seq<ThreadMembership>, target: ReferenceTarget)
    ensures
        forall|t: ThreadId|
            !#[trigger] any_where(ms.filter(not_at(target)), is_member(t, target)),
{
    let f = ms.filter(not_at(target));
    assert forall|t: ThreadId| !#[trigger] any_where(f, is_member(t, target)) by {
        if any_where(f, is_member(t, target)) {
            let k = choose|k: int| 0 <= k < f.len() && is_member(t, target)(#[trigger] f[k]);
            lemma_filter_from(ms, not_at(target), k);
        }
    }
}

/// A thread that is saved is found afterwards, with the time at which it was first
/// made; other threads stay as they were.
pub proof fn saved_threads_are_found(m: DbModel, t: ThreadModel, other: ThreadId)
    requires
        other != t.id,
    ensures
        m.thread_put(t).thread(t.id) == Some(
            ThreadModel {
                created_at: match m.thread(t.id) {
                    Some(was) => was.created_at,
                    None => t.created_at,
                },
                ..t
            },
        ),
        m.thread_put(t).thread(other) == m.thread(other),
{
    let row = match m.thread(t.id) {
        Some(was) => ThreadModel { created_at: was.created_at, ..t },
        None => t,
    };
    rows_put_are_found(m.threads, thread_is(t.id), thread_is(other), row);
}

/// A thread that is deleted is not found, and nothing belongs to it; what belongs to
/// other threads still does.
pub proof fn deleted_threads_are_gone(m: DbModel, id: ThreadId, a: ThreadMembership)
    requires
        m.memberships.contains(a),
    ensures
        m.thread_dropped(id).thread(id) is None,
        m.thread_dropped(id).memberships.contains(a) == (a.thread_id != id),
{
    let n = m.thread_dropped(id);
    let keep = |t: ThreadModel| t.id != id;
    let stays = |b: ThreadMembership| b.thread_id != id;
    lemma_place_where(n.threads, thread_is(id), 0);
    let k = place_where(n.threads, thread_is(id), 0);
    if k < n.threads.len() {
        lemma_filter_from(m.threads, keep, k);
    }
    if a.thread_id != id {
        let i = choose|i: int| 0 <= i < m.memberships.len() && m.memberships[i] == a;
        lemma_filter_keeps(m.memberships, stays, i);
    } else if n.memberships.contains(a) {
        let i = choose|i: int| 0 <= i < n.memberships.len() && n.memberships[i] == a;
        lemma_filter_from(m.memberships, stays, i);
    }
}

} // verus!
