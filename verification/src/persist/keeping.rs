//! What saving, renaming and deleting do to the tables, and what they leave alone.
use vstd::prelude::*;
use vstd::utf8::*;

use crate::cell::CellModel;
use crate::ids::Uuid;
use crate::persist::{
    bytes_in_order, cell_is, entity_is, lemma_filter_from, lemma_filter_keeps, names_other,
    other_than, put_name, sorted_names, tags_carried, AliasModel, CellTagModel, DbModel,
    EntityModel,
};
use crate::persist::cells::stored;
use crate::persist::entities::{of_other, person, person_named};
use crate::persist::naming::{alias_of, persisted_names};
use crate::persist::rows::{row_of_cell, CellRowModel};
use crate::persist::tables::{
    any_where, lemma_found_where, lemma_place_where, place_where, put_where, rows_put_are_found,
};
use crate::text::utf8;
use crate::thread::ThreadMembership;

verus! {

pub proof fn lemma_filter_contains<A>(s: Seq<A>, p: spec_fn(A) -> bool, a: A)
    ensures
        s.filter(p).contains(a) <==> s.contains(a) && p(a),
{
    if s.filter(p).contains(a) {
        let i = choose|i: int| 0 <= i < s.filter(p).len() && s.filter(p)[i] == a;
        lemma_filter_from(s, p, i);
    }
    if s.contains(a) && p(a) {
        let k = choose|k: int| 0 <= k < s.len() && s[k] == a;
        lemma_filter_keeps(s, p, k);
    }
}

// ---------------------------------------------------------------------------
// Tags
// ---------------------------------------------------------------------------

proof fn lemma_tags_known(m: DbModel, names: Seq<Seq<u8>>, tag: Seq<u8>)
    ensures
        m.tags_known(names).contains(tag) <==> m.tags.contains(tag) || names.contains(tag),
    decreases names.len(),
{
    if names.len() > 0 {
        let fewer = names.drop_last();
        let before = m.tags_known(fewer);
        lemma_tags_known(m, fewer, tag);
        assert(names[names.len() - 1] == names.last());
        if names.contains(tag) && names.last() != tag {
            let i = choose|i: int| 0 <= i < names.len() && names[i] == tag;
            assert(fewer[i] == tag);
        }
        if fewer.contains(tag) {
            let i = choose|i: int| 0 <= i < fewer.len() && fewer[i] == tag;
            assert(names[i] == tag);
        }
        let after = m.tags_known(names);
        if !before.contains(names.last()) {
            assert(after == before.push(names.last()));
            assert(after[after.len() - 1] == names.last());
            if before.contains(tag) {
                let i = choose|i: int| 0 <= i < before.len() && before[i] == tag;
                assert(after[i] == tag);
            }
        }
    }
}

/// A cell that is saved carries just the tags that it names; all of them are known, and so are
/// those that were. What other cells carry stays as it was.
pub proof fn saved_cells_carry_their_tags(
    m: DbModel,
    c: CellModel,
    now: i64,
    id: Uuid,
    tag: Seq<u8>,
)
    ensures
        ({
            let n = m.cell_saved(c, now);
            let names = persisted_names(stored(c), false);
            let carried = CellTagModel { cell_id: id, name: tag };
            &&& n.cell_tags.contains(carried) <==> (if id == c.id {
                names.contains(tag)
            } else {
                m.cell_tags.contains(carried)
            })
            &&& n.tags.contains(tag) <==> m.tags.contains(tag) || names.contains(tag)
        }),
{
    let n = m.cell_saved(c, now);
    let names = persisted_names(stored(c), false);
    let carried = CellTagModel { cell_id: id, name: tag };
    let kept = m.cell_put(row_of_cell(c));
    let p = |t: CellTagModel| t.cell_id != c.id;
    let f = |n: Seq<u8>| CellTagModel { cell_id: c.id, name: n };
    let (old, new) = (m.cell_tags.filter(p), names.map_values(f));
    assert(n.cell_tags == old + new);
    lemma_filter_contains(m.cell_tags, p, carried);
    lemma_tags_known(kept, names, tag);
    if n.cell_tags.contains(carried) {
        let i = choose|i: int| 0 <= i < n.cell_tags.len() && n.cell_tags[i] == carried;
        if i < old.len() {
            assert(old[i] == carried);
        } else {
            assert(new[i - old.len()] == carried);
            assert(names[i - old.len()] == tag);
        }
    }
    if old.contains(carried) {
        let i = choose|i: int| 0 <= i < old.len() && old[i] == carried;
        assert(n.cell_tags[i] == carried);
    }
    if id == c.id && names.contains(tag) {
        let i = choose|i: int| 0 <= i < names.len() && names[i] == tag;
        assert(new[i] == carried);
        assert(n.cell_tags[old.len() + i] == carried);
    }
}

/// A tag that is dropped is known no more and on no cell; every other tag stays known, and on the
/// cells that carry it. No cell is lost.
pub proof fn dropped_tags_are_gone(m: DbModel, name: Seq<u8>, tag: Seq<u8>, id: Uuid)
    ensures
        m.tag_dropped(name).tags.contains(tag) <==> m.tags.contains(tag) && tag != name,
        m.tag_dropped(name).cell_tags.contains(CellTagModel { cell_id: id, name: tag })
            <==> m.cell_tags.contains(CellTagModel { cell_id: id, name: tag }) && tag != name,
        m.tag_dropped(name).cells == m.cells,
{
    lemma_filter_contains(m.tags, other_than(name), tag);
    lemma_filter_contains(
        m.cell_tags,
        names_other(name),
        CellTagModel { cell_id: id, name: tag },
    );
}

/// The tags that a cell carries are those that the rows give it.
pub proof fn carried_tags_are_those_of_the_cell(
    ts: Seq<CellTagModel>,
    id: Uuid,
    n: int,
    tag: Seq<u8>,
)
    requires
        0 <= n <= ts.len(),
    ensures
        tags_carried(ts, id, n).contains(tag) <==> exists|i: int|
            0 <= i < n && #[trigger] ts[i] == (CellTagModel { cell_id: id, name: tag }),
    decreases n,
{
    let now = tags_carried(ts, id, n);
    if n > 0 {
        carried_tags_are_those_of_the_cell(ts, id, n - 1, tag);
        let before = tags_carried(ts, id, n - 1);
        if ts[n - 1].cell_id == id {
            assert(now[now.len() - 1] == ts[n - 1].name);
            if before.contains(tag) {
                let i = choose|i: int| 0 <= i < before.len() && before[i] == tag;
                assert(now[i] == tag);
            }
            if ts[n - 1].name == tag {
                assert(ts[n - 1] == (CellTagModel { cell_id: id, name: tag }));
            }
        }
    } else {
        assert(now.len() == 0);
    }
}

// ---------------------------------------------------------------------------
// Cells
// ---------------------------------------------------------------------------

/// Deleting a cell loses no other: every other cell stays, with the tags it carries and the
/// threads that it belongs to.
pub proof fn other_cells_outlive_a_deleted_one(
    m: DbModel,
    id: Uuid,
    now: i64,
    r: CellRowModel,
    t: CellTagModel,
    x: ThreadMembership,
)
    requires
        m.wf(),
        r.id != id,
        t.cell_id != id,
        x.target.cell_id() != id,
    ensures
        m.cell_deleted(id, now).cells.contains(r) <==> m.cells.contains(r),
        m.cell_deleted(id, now).cell_tags.contains(t) <==> m.cell_tags.contains(t),
        m.cell_deleted(id, now).memberships.contains(x) <==> m.memberships.contains(x),
        m.cell_deleted(id, now).tags == m.tags,
        m.cell_deleted(id, now).threads == m.threads,
{
    let keep = |r: CellRowModel| r.id != id;
    let n = m.cell_deleted(id, now);
    let cells = m.cells.filter(keep);
    let p = |t: CellTagModel| any_where(cells, cell_is(t.cell_id));
    let q = |x: ThreadMembership| any_where(cells, cell_is(x.target.cell_id()));
    assert(n.cells == cells);
    lemma_filter_contains(m.cells, keep, r);
    lemma_filter_contains(m.cell_tags, p, t);
    lemma_filter_contains(m.memberships, q, x);
    if m.cell_tags.contains(t) {
        let i = choose|i: int| 0 <= i < m.cell_tags.len() && m.cell_tags[i] == t;
        assert(m.has_cell(m.cell_tags[i].cell_id));
        lemma_row_stays(m, id, t.cell_id);
    }
    if m.memberships.contains(x) {
        let i = choose|i: int| 0 <= i < m.memberships.len() && m.memberships[i] == x;
        assert(m.has_cell(m.memberships[i].target.cell_id()));
        lemma_row_stays(m, id, x.target.cell_id());
    }
}

proof fn lemma_row_stays(m: DbModel, id: Uuid, other: Uuid)
    requires
        m.has_cell(other),
        other != id,
    ensures
        any_where(m.cells.filter(|r: CellRowModel| r.id != id), cell_is(other)),
{
    let keep = |r: CellRowModel| r.id != id;
    let k = choose|k: int| 0 <= k < m.cells.len() && cell_is(other)(#[trigger] m.cells[k]);
    lemma_filter_keeps(m.cells, keep, k);
    let cells = m.cells.filter(keep);
    let i = choose|i: int| 0 <= i < cells.len() && #[trigger] cells[i] == m.cells[k];
    assert(cell_is(other)(cells[i]));
}

// ---------------------------------------------------------------------------
// People
// ---------------------------------------------------------------------------

/// The one name that the entity is found by is the alias of `name`; what other entities are found
/// by stays as it was.
pub open spec fn found_by(m: DbModel, n: DbModel, id: Uuid, name: Seq<u8>) -> bool {
    forall|a: AliasModel| #[trigger]
        n.aliases.contains(a) <==> (if a.entity_id == id {
            a.alias == alias_of(name)
        } else {
            m.aliases.contains(a)
        })
}

proof fn lemma_aliased(m: DbModel, id: Uuid, name: Seq<u8>, n: DbModel)
    requires
        n.aliases == m.aliased(id, name),
    ensures
        found_by(m, n, id, name),
{
    let kept = m.aliases.filter(of_other(id));
    let own = AliasModel { entity_id: id, alias: alias_of(name) };
    assert forall|a: AliasModel| #[trigger] n.aliases.contains(a) <==> (if a.entity_id == id {
        a.alias == alias_of(name)
    } else {
        m.aliases.contains(a)
    }) by {
        lemma_filter_contains(m.aliases, of_other(id), a);
        assert(n.aliases[n.aliases.len() - 1] == own);
        if kept.contains(a) {
            let i = choose|i: int| 0 <= i < kept.len() && kept[i] == a;
            assert(n.aliases[i] == a);
        }
    }
}

/// A cell that carries the tag of people, and whose title gives a name, stands for a person of
/// that name once it is saved: the entity of the cell's identity, found by the alias of the name
/// and by no other. Other entities stay as they were. A cell that does not changes no entity.
pub proof fn saved_people_are_found(m: DbModel, c: CellModel, now: i64, other: Uuid)
    requires
        other != c.id,
    ensures
        ({
            let n = m.cell_saved(c, now);
            let is_person = persisted_names(stored(c), false).contains(utf8("person"@))
                && person_named(c) is Some;
            &&& is_person ==> {
                let e = n.entity(c.id);
                &&& e is Some
                &&& e->0.id == c.id
                &&& e->0.kind == utf8("person"@)
                &&& e->0.display_name == person_named(c)->0
                &&& e->0.primary_cell_id == Some(c.id)
                &&& e->0.updated_at == now
                &&& found_by(m, n, c.id, person_named(c)->0)
            }
            &&& !is_person ==> n.entities == m.entities && n.aliases == m.aliases
            &&& n.entity(other) == m.entity(other)
        }),
{
    let names = persisted_names(stored(c), false);
    let kept = m.cell_put(row_of_cell(c)).cell_tagged(c.id, names);
    if names.contains(person()) && person_named(c) is Some {
        let name = person_named(c)->0;
        let e = kept.person_of_cell(c.id, name, now);
        rows_put_are_found(kept.entities, entity_is(c.id), entity_is(other), e);
        lemma_aliased(kept, c.id, name, m.cell_saved(c, now));
    }
}

/// A renamed entity has its new name and is found by its alias and by no other; whether it is
/// active, when it was made and which cell stands for it stay. Other entities stay as they were.
pub proof fn renamed_entities_are_found(
    m: DbModel,
    id: Uuid,
    name: Seq<u8>,
    now: i64,
    other: Uuid,
)
    requires
        m.has_entity(id),
        other != id,
    ensures
        ({
            let n = m.entity_renamed(id, name, now);
            let (was, is) = (m.entity(id), n.entity(id));
            &&& is is Some
            &&& is->0.display_name == name
            &&& is->0.id == id
            &&& is->0.updated_at == now
            &&& is->0.is_active == was->0.is_active
            &&& is->0.created_at == was->0.created_at
            &&& is->0.kind == was->0.kind
            &&& is->0.primary_cell_id == was->0.primary_cell_id
            &&& found_by(m, n, id, name)
            &&& n.entity(other) == m.entity(other)
        }),
{
    let n = m.entity_renamed(id, name, now);
    lemma_found_where(m.entities, entity_is(id));
    lemma_place_where(m.entities, entity_is(id), 0);
    let k = place_where(m.entities, entity_is(id), 0);
    let e = EntityModel { display_name: name, updated_at: now, ..m.entities[k] };
    assert(n.entities == put_where(m.entities, entity_is(id), e));
    rows_put_are_found(m.entities, entity_is(id), entity_is(other), e);
    lemma_aliased(m, id, name, n);
}

/// A deleted entity is gone, with the names it was found by; other entities, and what they are
/// found by, stay as they were.
pub proof fn deleted_entities_are_gone(m: DbModel, id: Uuid, e: EntityModel, a: AliasModel)
    ensures
        !m.entity_dropped(id).has_entity(id),
        m.entity_dropped(id).entities.contains(e) <==> m.entities.contains(e) && e.id != id,
        m.entity_dropped(id).aliases.contains(a) <==> m.aliases.contains(a) && a.entity_id != id,
        m.entity_dropped(id).cells == m.cells,
{
    let p = |e: EntityModel| e.id != id;
    let n = m.entity_dropped(id);
    lemma_filter_contains(m.entities, p, e);
    lemma_filter_contains(m.aliases, of_other(id), a);
    if n.has_entity(id) {
        let k = choose|k: int|
            0 <= k < n.entities.len() && entity_is(id)(#[trigger] n.entities[k]);
        lemma_filter_from(m.entities, p, k);
    }
}

/// A person that is added without a cell is there under its name, and is found by its alias; other
/// entities stay as they were.
pub proof fn added_people_are_found(
    m: DbModel,
    id: Uuid,
    name: Seq<u8>,
    is_active: bool,
    created_at: i64,
    now: i64,
    other: Uuid,
)
    requires
        !m.has_entity(id),
        other != id,
    ensures
        ({
            let n = m.person_added(id, name, is_active, created_at, now);
            let e = n.entity(id);
            &&& e is Some
            &&& e->0.display_name == name
            &&& e->0.kind == utf8("person"@)
            &&& e->0.primary_cell_id is None
            &&& e->0.is_active == is_active
            &&& e->0.created_at == created_at
            &&& found_by(m, n, id, name)
            &&& n.entity(other) == m.entity(other)
        }),
{
    let n = m.person_added(id, name, is_active, created_at, now);
    lemma_found_where(m.entities, entity_is(id));
    let e = n.entities.last();
    assert(n.entities == put_where(m.entities, entity_is(id), e));
    rows_put_are_found(m.entities, entity_is(id), entity_is(other), e);
    lemma_aliased(m, id, name, n);
}

// ---------------------------------------------------------------------------
// Names in order
// ---------------------------------------------------------------------------

/// `a` comes before `b` as words do: it is what `b` starts with, or where they first differ it has
/// the smaller byte.
pub open spec fn comes_before(a: Seq<u8>, b: Seq<u8>) -> bool {
    exists|k: int|
        {
            &&& 0 <= k <= a.len()
            &&& k <= b.len()
            &&& #[trigger] a.subrange(0, k) == b.subrange(0, k)
            &&& k == a.len() || k < b.len() && a[k] < b[k]
        }
}

proof fn lemma_bytes_in_order(a: Seq<u8>, b: Seq<u8>, k: int)
    requires
        0 <= k <= a.len(),
        k <= b.len(),
        a.subrange(0, k) == b.subrange(0, k),
    ensures
        bytes_in_order(a, b, k) <==> comes_before(a, b),
    decreases a.len() - k,
{
    if k < a.len() && k < b.len() && a[k] == b[k] {
        assert(a.subrange(0, k + 1) =~= a.subrange(0, k).push(a[k]));
        assert(b.subrange(0, k + 1) =~= b.subrange(0, k).push(b[k]));
        lemma_bytes_in_order(a, b, k + 1);
    } else {
        if bytes_in_order(a, b, k) {
            assert(a.subrange(0, k) == b.subrange(0, k));
        }
        if comes_before(a, b) {
            let j = choose|j: int|
                {
                    &&& 0 <= j <= a.len()
                    &&& j <= b.len()
                    &&& #[trigger] a.subrange(0, j) == b.subrange(0, j)
                    &&& j == a.len() || j < b.len() && a[j] < b[j]
                };
            if j < k {
                assert(a[j] == a.subrange(0, k)[j]);
                assert(b[j] == b.subrange(0, k)[j]);
            } else if j > k {
                assert(a[k] == a.subrange(0, j)[k]);
                assert(b[k] == b.subrange(0, j)[k]);
            }
        }
    }
}

/// No two names are out of order.
pub open spec fn names_in_order(names: Seq<Seq<u8>>) -> bool {
    forall|i: int, j: int|
        0 <= i < j < names.len() ==> comes_before(#[trigger] names[i], #[trigger] names[j])
}

proof fn lemma_before_is_total(a: Seq<u8>, b: Seq<u8>, k: int)
    requires
        0 <= k <= a.len(),
        k <= b.len(),
        a.subrange(0, k) == b.subrange(0, k),
    ensures
        comes_before(a, b) || comes_before(b, a),
    decreases a.len() - k,
{
    if k < a.len() && k < b.len() && a[k] == b[k] {
        assert(a.subrange(0, k + 1) =~= a.subrange(0, k).push(a[k]));
        assert(b.subrange(0, k + 1) =~= b.subrange(0, k).push(b[k]));
        lemma_before_is_total(a, b, k + 1);
    } else {
        assert(a.subrange(0, k) == b.subrange(0, k));
        assert(b.subrange(0, k) == a.subrange(0, k));
    }
}

proof fn lemma_before_goes_on(a: Seq<u8>, b: Seq<u8>, c: Seq<u8>)
    requires
        comes_before(a, b),
        comes_before(b, c),
    ensures
        comes_before(a, c),
{
    let i = choose|k: int|
        {
            &&& 0 <= k <= a.len()
            &&& k <= b.len()
            &&& #[trigger] a.subrange(0, k) == b.subrange(0, k)
            &&& k == a.len() || k < b.len() && a[k] < b[k]
        };
    let j = choose|k: int|
        {
            &&& 0 <= k <= b.len()
            &&& k <= c.len()
            &&& #[trigger] b.subrange(0, k) == c.subrange(0, k)
            &&& k == b.len() || k < c.len() && b[k] < c[k]
        };
    let k = if i < j {
        i
    } else {
        j
    };
    assert forall|x: int| 0 <= x < k implies a[x] == c[x] by {
        assert(a[x] == a.subrange(0, i)[x]);
        assert(b[x] == b.subrange(0, i)[x]);
        assert(b[x] == b.subrange(0, j)[x]);
        assert(c[x] == c.subrange(0, j)[x]);
    }
    assert(a.subrange(0, k) =~= c.subrange(0, k));
    if i < j {
        assert(i < b.len() ==> b[i] == b.subrange(0, j)[i]);
        assert(i < c.len() ==> c[i] == c.subrange(0, j)[i]);
    } else if j < i {
        assert(j < a.len() ==> a[j] == a.subrange(0, i)[j]);
        assert(j < b.len() ==> b[j] == b.subrange(0, i)[j]);
    }
}

proof fn lemma_put_name(names: Seq<Seq<u8>>, name: Seq<u8>)
    requires
        names_in_order(names),
    ensures
        names_in_order(put_name(names, name)),
        put_name(names, name).to_multiset() == names.to_multiset().insert(name),
        put_name(names, name).len() == names.len() + 1,
        forall|x: Seq<u8>| #[trigger]
            put_name(names, name).contains(x) ==> names.contains(x) || x == name,
    decreases names.len(),
{
    broadcast use vstd::seq_lib::group_to_multiset_ensures;

    let all = put_name(names, name);
    if names.len() == 0 {
        assert(all =~= seq![name]);
        assert(all == names.push(name));
    } else {
        let last = names.last();
        let front = names.drop_last();
        assert(last.subrange(0, 0) =~= name.subrange(0, 0));
        lemma_bytes_in_order(last, name, 0);
        assert(names =~= front.push(last));
        if bytes_in_order(last, name, 0) {
            assert forall|i: int, j: int| 0 <= i < j < all.len() implies comes_before(
                #[trigger] all[i],
                #[trigger] all[j],
            ) by {
                if j == names.len() {
                    if i < names.len() - 1 {
                        assert(comes_before(names[i], names[names.len() - 1]));
                        lemma_before_goes_on(names[i], last, name);
                    }
                } else {
                    assert(comes_before(names[i], names[j]));
                }
            }
        } else {
            assert forall|i: int, j: int| 0 <= i < j < front.len() implies comes_before(
                #[trigger] front[i],
                #[trigger] front[j],
            ) by {
                assert(comes_before(names[i], names[j]));
            }
            lemma_put_name(front, name);
            let less = put_name(front, name);
            lemma_before_is_total(last, name, 0);
            assert forall|i: int, j: int| 0 <= i < j < all.len() implies comes_before(
                #[trigger] all[i],
                #[trigger] all[j],
            ) by {
                if j == less.len() {
                    assert(less.contains(less[i]));
                    if less[i] != name {
                        let x = choose|x: int| 0 <= x < front.len() && front[x] == less[i];
                        assert(comes_before(names[x], names[names.len() - 1]));
                    }
                } else {
                    assert(comes_before(less[i], less[j]));
                }
            }
            assert forall|x: Seq<u8>| #[trigger] all.contains(x) implies names.contains(x) || x
                == name by {
                let i = choose|i: int| 0 <= i < all.len() && all[i] == x;
                if i < less.len() {
                    assert(less[i] == x);
                    assert(less.contains(x));
                    if x != name {
                        let y = choose|y: int| 0 <= y < front.len() && front[y] == x;
                        assert(names[y] == x);
                    }
                } else {
                    assert(names[names.len() - 1] == x);
                }
            }
            assert(all.to_multiset() =~= names.to_multiset().insert(name));
        }
    }
}

/// Names are put in order as words are, and none is lost or added.
pub proof fn names_are_put_in_order(names: Seq<Seq<u8>>)
    ensures
        names_in_order(sorted_names(names)),
        sorted_names(names).to_multiset() == names.to_multiset(),
    decreases names.len(),
{
    broadcast use vstd::seq_lib::group_to_multiset_ensures;

    if names.len() > 0 {
        names_are_put_in_order(names.drop_last());
        lemma_put_name(sorted_names(names.drop_last()), names.last());
        assert(names =~= names.drop_last().push(names.last()));
    } else {
        assert(names =~= Seq::empty());
    }
}

} // verus!
