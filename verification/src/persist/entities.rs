//! Entities and the names they are found by; saving and deleting cells, which they
//! follow.
use vstd::prelude::*;

use crate::text;
use crate::cell::{Cell, CellModel};
use crate::cell::common::Link;
use crate::cell::model::with_name;
use crate::cell::textbox::bytes_of;
use crate::cell::wrap::Span;
use crate::ids::{new_id, Uuid};
use crate::persist::{
    cell_is, distinct, entity_is, equal, lemma_filter_any, lemma_filter_distinct,
    lemma_filter_from, lemma_put_cell, rows_of_cells_are_there, same_entity, Alias, AliasModel,
    CellTagModel, Db, DbError, DbModel, Entity, EntityModel,
};
use crate::persist::cells::{NAMED, persisted_cell_from, persisted_sits, stored};
use crate::persist::naming::{
    alias_of, blocks_names, display_name, extract_display_name, link_name, link_names,
    names_behind, normalize_alias, persisted_names, row_names, rows_names, span_name, span_names,
    tag_names_from_persisted,
};
use crate::persist::records::{BlockModel, BodyModel, EntryRecord, PersistedModel, TextRecord};
use crate::persist::rows::{row_of_cell, tags_spelled, CellRow, CellRowModel};
use crate::persist::tables::{
    any_where, find_where, found_where, in_order_of, lemma_found_where, lemma_place_where, ordered,
    place_where, places, put_where, retain_where,
};
use crate::text::{utf8, views};
use crate::thread::ThreadMembership;

verus! {

/// The kind of entities that people are.
pub open spec fn person() -> Seq<u8> {
    utf8("person"@)
}

/// A name of another entity than `id`.
pub open spec fn of_other(id: Uuid) -> spec_fn(AliasModel) -> bool {
    |a: AliasModel| a.entity_id != id
}

/// The entity, detached from the cell `id` at `now`.
pub open spec fn detached(id: Uuid, now: i64) -> spec_fn(EntityModel) -> EntityModel {
    |e: EntityModel|
        if e.primary_cell_id == Some(id) {
            EntityModel { primary_cell_id: None, updated_at: now, ..e }
        } else {
            e
        }
}

impl DbModel {
    /// The entity `id`.
    pub open spec fn entity(self, id: Uuid) -> Option<EntityModel> {
        found_where(self.entities, entity_is(id))
    }

    /// With the alias of `name` the one name that the entity `id` is found by.
    pub open spec fn aliased(self, id: Uuid, name: Seq<u8>) -> Seq<AliasModel> {
        self.aliases.filter(of_other(id)).push(AliasModel { entity_id: id, alias: alias_of(name) })
    }

    /// The row of the person that the cell `id` stands for, as it is after it has been
    /// saved at `now`: what it was made at and whether it is active stay.
    pub open spec fn person_of_cell(self, id: Uuid, name: Seq<u8>, now: i64) -> EntityModel {
        EntityModel {
            id,
            kind: person(),
            display_name: name,
            primary_cell_id: Some(id),
            is_active: match self.entity(id) {
                Some(e) => e.is_active,
                None => true,
            },
            created_at: match self.entity(id) {
                Some(e) => e.created_at,
                None => now,
            },
            updated_at: now,
        }
    }

    /// With the person that the cell `id` stands for.
    pub open spec fn person_upserted(self, id: Uuid, name: Seq<u8>, now: i64) -> DbModel {
        DbModel {
            entities: put_where(
                self.entities,
                entity_is(id),
                self.person_of_cell(id, name, now),
            ),
            aliases: self.aliased(id, name),
            ..self
        }
    }

    /// With the entity `id` under another name.
    pub open spec fn entity_renamed(self, id: Uuid, name: Seq<u8>, now: i64) -> DbModel {
        let k = place_where(self.entities, entity_is(id), 0);
        DbModel {
            entities: self.entities.update(
                k,
                EntityModel { display_name: name, updated_at: now, ..self.entities[k] },
            ),
            aliases: self.aliased(id, name),
            ..self
        }
    }

    /// With one more person, that no cell stands for.
    pub open spec fn person_added(
        self,
        id: Uuid,
        name: Seq<u8>,
        is_active: bool,
        created_at: i64,
        now: i64,
    ) -> DbModel {
        DbModel {
            entities: self.entities.push(
                EntityModel {
                    id,
                    kind: person(),
                    display_name: name,
                    primary_cell_id: None,
                    is_active,
                    created_at,
                    updated_at: now,
                },
            ),
            aliases: self.aliased(id, name),
            ..self
        }
    }

    /// Without the entity `id` and the names it is found by.
    pub open spec fn entity_dropped(self, id: Uuid) -> DbModel {
        DbModel {
            entities: self.entities.filter(|e: EntityModel| e.id != id),
            aliases: self.aliases.filter(of_other(id)),
            ..self
        }
    }

    /// With no entity that the cell `id` stands for.
    pub open spec fn entities_detached(self, id: Uuid, now: i64) -> DbModel {
        DbModel { entities: self.entities.map_values(detached(id, now)), ..self }
    }

    /// With the cell saved at `now`: its row, its tags and, where it carries the tag of
    /// people and its title gives a name, the person that it stands for.
    pub open spec fn cell_saved(self, c: CellModel, now: i64) -> DbModel {
        let names = persisted_names(stored(c), false);
        let kept = self.cell_put(row_of_cell(c)).cell_tagged(c.id, names);
        if names.contains(person()) && person_named(c) is Some {
            kept.person_upserted(c.id, person_named(c)->0, now)
        } else {
            kept
        }
    }

    /// Without the cell `id`; entities that it stands for stay, detached from it.
    pub open spec fn cell_deleted(self, id: Uuid, now: i64) -> DbModel {
        self.cells_kept(|r: CellRowModel| r.id != id).entities_detached(id, now)
    }
}

/// The name that the title of a cell gives.
pub open spec fn person_named(c: CellModel) -> Option<Seq<u8>> {
    match c.title {
        Some(t) => display_name(t.doc.text),
        None => None,
    }
}

// ---------------------------------------------------------------------------
// Facts
// ---------------------------------------------------------------------------

/// What holds of the other tables, where entities and their names change.
proof fn lemma_entities_changed(m: DbModel, n: DbModel)
    requires
        m.wf(),
        n.cells == m.cells,
        n.contexts == m.contexts,
        n.tags == m.tags,
        n.cell_tags == m.cell_tags,
        n.threads == m.threads,
        n.memberships == m.memberships,
        distinct(n.entities, same_entity()),
        distinct(n.aliases, equal()),
        forall|i: int|
            0 <= i < n.aliases.len() ==> n.has_entity((#[trigger] n.aliases[i]).entity_id),
    ensures
        n.wf(),
{
    assert forall|i: int| 0 <= i < n.cell_tags.len() implies n.has_cell(
        (#[trigger] n.cell_tags[i]).cell_id,
    ) && n.tags.contains(n.cell_tags[i].name) by {
        assert(m.has_cell(m.cell_tags[i].cell_id));
    }
    assert forall|i: int| 0 <= i < n.memberships.len() implies n.has_thread(
        (#[trigger] n.memberships[i]).thread_id,
    ) && n.has_cell(n.memberships[i].target.cell_id()) by {
        assert(m.has_thread(m.memberships[i].thread_id));
        assert(m.has_cell(m.memberships[i].target.cell_id()));
    }
}

/// The names of entities, after that of `id` has changed: no two are the same, and the
/// others' are still those of entities that are there.
proof fn lemma_aliased(m: DbModel, id: Uuid, name: Seq<u8>, entities: Seq<EntityModel>)
    requires
        m.wf(),
        any_where(entities, entity_is(id)),
        forall|other: Uuid|
            m.has_entity(other) ==> #[trigger] any_where(entities, entity_is(other)),
    ensures
        distinct(m.aliased(id, name), equal()),
        forall|i: int|
            0 <= i < m.aliased(id, name).len() ==> any_where(
                entities,
                entity_is((#[trigger] m.aliased(id, name)[i]).entity_id),
            ),
{
    let kept = m.aliases.filter(of_other(id));
    let all = m.aliased(id, name);
    lemma_filter_distinct(m.aliases, of_other(id), equal());
    assert forall|i: int, j: int| 0 <= i < j < all.len() implies !equal()(
        #[trigger] all[i],
        #[trigger] all[j],
    ) by {
        if j < kept.len() {
            assert(!equal()(kept[i], kept[j]));
        } else {
            lemma_filter_from(m.aliases, of_other(id), i);
        }
    }
    assert forall|i: int| 0 <= i < all.len() implies any_where(
        entities,
        entity_is((#[trigger] all[i]).entity_id),
    ) by {
        if i < kept.len() {
            lemma_filter_from(m.aliases, of_other(id), i);
            let k = choose|k: int| 0 <= k < m.aliases.len() && m.aliases[k] == kept[i];
            assert(m.has_entity(m.aliases[k].entity_id));
        }
    }
}

/// A row of an entity in place of another of the same identity, or behind all.
proof fn lemma_entity_put(s: Seq<EntityModel>, k: int, e: EntityModel, all: Seq<EntityModel>)
    requires
        distinct(s, same_entity()),
        (0 <= k < s.len() && s[k].id == e.id && all == s.update(k, e)) || (all == s.push(e)
            && !any_where(s, entity_is(e.id))),
    ensures
        distinct(all, same_entity()),
        any_where(all, entity_is(e.id)),
        forall|id: Uuid| any_where(s, entity_is(id)) ==> #[trigger] any_where(all, entity_is(id)),
{
    assert forall|i: int, j: int| 0 <= i < j < all.len() implies !same_entity()(
        #[trigger] all[i],
        #[trigger] all[j],
    ) by {
        if j < s.len() {
            assert(!same_entity()(s[i], s[j]));
        } else {
            assert(!entity_is(e.id)(s[i]));
        }
    }
    if all == s.push(e) && !(0 <= k < s.len() && all == s.update(k, e)) {
        assert(entity_is(e.id)(all[s.len() as int]));
    } else {
        assert(entity_is(e.id)(all[k]));
    }
    assert forall|id: Uuid| any_where(s, entity_is(id)) implies #[trigger] any_where(
        all,
        entity_is(id),
    ) by {
        let n = choose|n: int| 0 <= n < s.len() && entity_is(id)(#[trigger] s[n]);
        assert(entity_is(id)(all[n]));
    }
}

// ---------------------------------------------------------------------------
// Entities
// ---------------------------------------------------------------------------

impl Db {
    fn entity_at(&self, id: Uuid) -> (r: Option<usize>)
        ensures
            match r {
                Some(i) => i < self@.entities.len() && i == place_where(
                    self@.entities,
                    entity_is(id),
                    0,
                ) && self@.entities[i as int].id == id && self@.has_entity(id)
                    && self@.entity(id) == Some(self@.entities[i as int]),
                None => place_where(self@.entities, entity_is(id), 0) == self@.entities.len()
                    && !self@.has_entity(id) && self@.entity(id) is None,
            },
    {
        let test = |e: &Entity| -> (b: bool)
            ensures
                b == (e@.id == id),
        {
            e.id == id
        };
        let at = find_where(&self.entities, test, Ghost(entity_is(id)));
        proof {
            if let Some(i) = at {
                assert(entity_is(id)(self@.entities[i as int]));
            }
        }
        at
    }

    fn alias_entity(&mut self, id: Uuid, name: &str)
        ensures
            final(self)@ == (DbModel {
                aliases: old(self)@.aliased(id, utf8(name@)),
                ..old(self)@
            }),
    {
        let ghost m = self@;
        let test = |a: &Alias| -> (b: bool)
            ensures
                b == (a@.entity_id != id),
        {
            a.entity_id != id
        };
        retain_where(&mut self.aliases, test, Ghost(of_other(id)));
        self.aliases.push(Alias { entity_id: id, alias: normalize_alias(name) });
        assert(self@.aliases =~= m.aliased(id, utf8(name@)));
    }

    /// The entity `id`; nothing where there is no such entity.
    pub fn find_entity(&self, id: Uuid) -> (r: Option<Entity>)
        ensures
            (match r {
                Some(e) => Some(e@),
                None => None,
            }) == self@.entity(id),
    {
        match self.entity_at(id) {
            Some(i) => Some(self.entities[i].clone()),
            None => None,
        }
    }

    /// The entities, in the order in which they were made.
    pub fn all_entities(&self) -> (v: Vec<Entity>)
        ensures
            views(v@) == in_order_of(self@.entities, entity_times(self@)),
    {
        let mut keys: Vec<i64> = Vec::new();
        let mut i: usize = 0;
        while i < self.entities.len()
            invariant
                i <= self.entities.len(),
                keys@.len() == i,
                forall|k: int| 0 <= k < i ==> keys@[k] == (#[trigger] self.entities@[k]).created_at,
            decreases self.entities.len() - i,
        {
            keys.push(self.entities[i].created_at);
            i += 1;
        }
        assert(keys@ =~= entity_times(self@));
        let order = ordered(&keys);
        let mut out: Vec<Entity> = Vec::new();
        i = 0;
        while i < order.len()
            invariant
                i <= order.len(),
                order@.len() == self.entities@.len(),
                forall|k: int|
                    0 <= k < order@.len() ==> (#[trigger] order@[k]) < self.entities@.len(),
                out@.len() == i,
                forall|k: int|
                    0 <= k < i ==> (#[trigger] out@[k])@ == self@.entities[order@[k] as int],
            decreases order.len() - i,
        {
            out.push(self.entities[order[i]].clone());
            i += 1;
        }
        proof {
            assert forall|k: int| 0 <= k < out@.len() implies views(out@)[k] == in_order_of(
                self@.entities,
                entity_times(self@),
            )[k] by {
                assert(places(order@)[k] == order@[k]);
            }
            assert(views(out@) =~= in_order_of(self@.entities, entity_times(self@)));
        }
        out
    }

    /// Every name that an entity is found by, with the entity and its kind.
    pub fn entity_alias_index(&self) -> (v: Vec<(String, Uuid, String)>)
        requires
            self@.wf(),
        ensures
            alias_rows(v@) == alias_index(self@),
    {
        let ghost m = self@;
        let mut out: Vec<(String, Uuid, String)> = Vec::new();
        let mut i: usize = 0;
        while i < self.aliases.len()
            invariant
                i <= self.aliases.len(),
                m == self@,
                m.wf(),
                out@.len() == i,
                forall|k: int|
                    0 <= k < i ==> alias_view(#[trigger] out@[k]) == alias_entry(m, m.aliases[k]),
            decreases self.aliases.len() - i,
        {
            let a = &self.aliases[i];
            assert(m.aliases[i as int] == a@);
            assert(m.has_entity(m.aliases[i as int].entity_id));
            let kind = match self.entity_at(a.entity_id) {
                Some(k) => text::copy(self.entities[k].kind.as_str()),
                None => String::new(),
            };
            out.push((text::copy(a.alias.as_str()), a.entity_id, kind));
            i += 1;
        }
        assert(alias_rows(out@) =~= alias_index(m));
        out
    }

    /// Every cell that stands for an entity, with the entity.
    pub fn cell_to_entity_index(&self) -> (v: Vec<(Uuid, Uuid)>)
        ensures
            v@ == backing_cells(self@.entities, self@.entities.len() as int),
    {
        let ghost es = self@.entities;
        let mut out: Vec<(Uuid, Uuid)> = Vec::new();
        let mut i: usize = 0;
        assert(out@ =~= Seq::empty());
        while i < self.entities.len()
            invariant
                i <= self.entities.len(),
                es == views(self.entities@),
                out@ == backing_cells(es, i as int),
            decreases self.entities.len() - i,
        {
            let e = &self.entities[i];
            assert(es[i as int] == e@);
            if let Some(cell) = e.primary_cell_id {
                out.push((cell, e.id));
            }
            i += 1;
        }
        out
    }

    /// Makes the cell `cell_id` stand for the person of the name `display_name`. A
    /// person that it stood for already keeps when it was made and whether it is
    /// active.
    pub fn upsert_person_entity(&mut self, cell_id: Uuid, display_name: &str, now: i64)
        requires
            old(self)@.wf(),
        ensures
            final(self)@ == old(self)@.person_upserted(cell_id, utf8(display_name@), now),
            final(self)@.wf(),
    {
        let ghost m = self@;
        let ghost name = utf8(display_name@);
        let at = self.entity_at(cell_id);
        let (is_active, created_at): (bool, i64) = match at {
            Some(i) => (self.entities[i].is_active, self.entities[i].created_at),
            None => (true, now),
        };
        let e = Entity {
            id: cell_id,
            kind: text::copy("person"),
            display_name: text::copy(display_name),
            primary_cell_id: Some(cell_id),
            is_active,
            created_at,
            updated_at: now,
        };
        let ghost row = e@;
        assert(row =~= m.person_of_cell(cell_id, name, now));
        match at {
            Some(i) => {
                self.entities.set(i, e);
                assert(self@.entities =~= m.entities.update(i as int, row));
                proof {
                    lemma_entity_put(m.entities, i as int, row, self@.entities);
                }
            },
            None => {
                self.entities.push(e);
                assert(self@.entities =~= m.entities.push(row));
                proof {
                    lemma_entity_put(m.entities, -1, row, self@.entities);
                }
            },
        }
        let ghost es = self@.entities;
        self.alias_entity(cell_id, display_name);
        proof {
            assert(self@.aliases == m.aliased(cell_id, name));
            assert(self@ =~= m.person_upserted(cell_id, name, now));
            lemma_aliased(m, cell_id, name, es);
            lemma_entities_changed(m, self@);
        }
    }

    /// Adds a person of the identity `entity_id`, that no cell stands for. Refused
    /// where there is an entity of that identity.
    pub fn insert_person_entity_with_id(
        &mut self,
        entity_id: Uuid,
        display_name: &str,
        is_active: bool,
        created_at: i64,
        now: i64,
    ) -> (r: Result<(), DbError>)
        requires
            old(self)@.wf(),
        ensures
            match r {
                Ok(_) => !old(self)@.has_entity(entity_id) && final(self)@ == old(
                    self,
                )@.person_added(entity_id, utf8(display_name@), is_active, created_at, now),
                Err(e) => e == DbError::Taken && old(self)@.has_entity(entity_id) && final(self)@
                    == old(self)@,
            },
            final(self)@.wf(),
    {
        let ghost m = self@;
        let ghost name = utf8(display_name@);
        if self.entity_at(entity_id).is_some() {
            return Err(DbError::Taken);
        }
        let e = Entity {
            id: entity_id,
            kind: text::copy("person"),
            display_name: text::copy(display_name),
            primary_cell_id: None,
            is_active,
            created_at,
            updated_at: now,
        };
        let ghost row = e@;
        self.entities.push(e);
        assert(self@.entities =~= m.entities.push(row));
        let ghost es = self@.entities;
        self.alias_entity(entity_id, display_name);
        proof {
            assert(self@ =~= m.person_added(entity_id, name, is_active, created_at, now));
            lemma_entity_put(m.entities, -1, row, es);
            lemma_aliased(m, entity_id, name, es);
            lemma_entities_changed(m, self@);
        }
        Ok(())
    }

    /// Adds a person that no cell stands for, made at `now`, under a fresh identity. Gives
    /// back the identity. Refused only where that identity is one of an entity already.
    pub fn create_cell_less_person_entity(&mut self, display_name: &str, now: i64) -> (r: Result<
        Uuid,
        DbError,
    >)
        requires
            old(self)@.wf(),
        ensures
            exists|id: Uuid|
                match r {
                    Ok(i) => i == id && !(#[trigger] old(self)@.has_entity(id)) && final(self)@
                        == old(self)@.person_added(id, utf8(display_name@), true, now, now),
                    Err(e) => e == DbError::Taken && old(self)@.has_entity(id) && final(self)@
                        == old(self)@,
                },
            old(self)@.entities.len() == 0 ==> r is Ok,
            final(self)@.wf(),
    {
        let id: Uuid = new_id();
        match self.insert_person_entity_with_id(id, display_name, true, now, now) {
            Ok(_) => Ok(id),
            Err(e) => Err(e),
        }
    }

    /// Gives the entity `entity_id` another name. Refused where there is none.
    pub fn rename_person_entity(&mut self, entity_id: Uuid, new_display_name: &str, now: i64) -> (r:
        Result<(), DbError>)
        requires
            old(self)@.wf(),
        ensures
            match r {
                Ok(_) => old(self)@.has_entity(entity_id) && final(self)@ == old(
                    self,
                )@.entity_renamed(entity_id, utf8(new_display_name@), now),
                Err(e) => e == DbError::Missing && !old(self)@.has_entity(entity_id)
                    && final(self)@ == old(self)@,
            },
            final(self)@.wf(),
    {
        let ghost m = self@;
        let ghost name = utf8(new_display_name@);
        match self.entity_at(entity_id) {
            Some(i) => {
                self.entities[i].display_name = text::copy(new_display_name);
                self.entities[i].updated_at = now;
                let ghost row = EntityModel {
                    display_name: name,
                    updated_at: now,
                    ..m.entities[i as int]
                };
                assert(self@.entities =~= m.entities.update(i as int, row));
                let ghost es = self@.entities;
                self.alias_entity(entity_id, new_display_name);
                proof {
                    assert(self@ =~= m.entity_renamed(entity_id, name, now));
                    lemma_entity_put(m.entities, i as int, row, es);
                    lemma_aliased(m, entity_id, name, es);
                    lemma_entities_changed(m, self@);
                }
                Ok(())
            },
            None => Err(DbError::Missing),
        }
    }

    /// Sets whether the entity `entity_id` is active, where there is one.
    pub fn set_entity_active(&mut self, entity_id: Uuid, is_active: bool, now: i64)
        requires
            old(self)@.wf(),
        ensures
            ({
                let k = place_where(old(self)@.entities, entity_is(entity_id), 0);
                final(self)@ == (if k < old(self)@.entities.len() {
                    DbModel {
                        entities: old(self)@.entities.update(
                            k,
                            EntityModel { is_active, updated_at: now, ..old(self)@.entities[k] },
                        ),
                        ..old(self)@
                    }
                } else {
                    old(self)@
                })
            }),
            final(self)@.wf(),
    {
        let ghost m = self@;
        if let Some(i) = self.entity_at(entity_id) {
            self.entities[i].is_active = is_active;
            self.entities[i].updated_at = now;
            proof {
                let row = EntityModel { is_active, updated_at: now, ..m.entities[i as int] };
                assert(self@.entities =~= m.entities.update(i as int, row));
                lemma_entity_put(m.entities, i as int, row, self@.entities);
                assert forall|k: int| 0 <= k < self@.aliases.len() implies self@.has_entity(
                    (#[trigger] self@.aliases[k]).entity_id,
                ) by {
                    assert(m.has_entity(m.aliases[k].entity_id));
                }
                lemma_entities_changed(m, self@);
            }
        }
    }

    /// Drops the entity `entity_id`, with the names it is found by.
    pub fn delete_entity(&mut self, entity_id: Uuid)
        requires
            old(self)@.wf(),
        ensures
            final(self)@ == old(self)@.entity_dropped(entity_id),
            final(self)@.wf(),
    {
        let ghost m = self@;
        let ghost keep = |e: EntityModel| e.id != entity_id;
        let test = |a: &Alias| -> (b: bool)
            ensures
                b == (a@.entity_id != entity_id),
        {
            a.entity_id != entity_id
        };
        retain_where(&mut self.aliases, test, Ghost(of_other(entity_id)));
        let other = |e: &Entity| -> (b: bool)
            ensures
                b == (e@.id != entity_id),
        {
            e.id != entity_id
        };
        retain_where(&mut self.entities, other, Ghost(keep));
        proof {
            assert(self@ =~= m.entity_dropped(entity_id));
            lemma_filter_distinct(m.entities, keep, same_entity());
            lemma_filter_distinct(m.aliases, of_other(entity_id), equal());
            assert forall|i: int| 0 <= i < self@.aliases.len() implies self@.has_entity(
                (#[trigger] self@.aliases[i]).entity_id,
            ) by {
                lemma_filter_from(m.aliases, of_other(entity_id), i);
                let k = choose|k: int| 0 <= k < m.aliases.len() && m.aliases[k] == self@.aliases[i];
                let id = m.aliases[k].entity_id;
                assert(m.has_entity(id));
                lemma_filter_any(m.entities, keep, entity_is(id));
            }
            lemma_entities_changed(m, self@);
        }
    }

    /// Detaches every entity that the cell `cell_id` stands for. The entities stay.
    pub fn detach_entities_from_cell(&mut self, cell_id: Uuid, now: i64)
        requires
            old(self)@.wf(),
        ensures
            final(self)@ == old(self)@.entities_detached(cell_id, now),
            final(self)@.wf(),
    {
        let ghost m = self@;
        let ghost f = detached(cell_id, now);
        let mut i: usize = 0;
        while i < self.entities.len()
            invariant
                i <= self.entities@.len(),
                self.entities@.len() == m.entities.len(),
                f == detached(cell_id, now),
                self@ == (DbModel { entities: self@.entities, ..m }),
                forall|k: int| 0 <= k < i ==> (#[trigger] self.entities@[k])@ == f(m.entities[k]),
                forall|k: int|
                    i <= k < m.entities.len() ==> (#[trigger] self.entities@[k])@ == m.entities[k],
            decreases self.entities@.len() - i,
        {
            let ghost held = self.entities@;
            assert(held[i as int]@ == m.entities[i as int]);
            let hit: bool = match self.entities[i].primary_cell_id {
                Some(c) => c == cell_id,
                None => false,
            };
            if hit {
                self.entities[i].primary_cell_id = None;
                self.entities[i].updated_at = now;
            }
            assert(self.entities@[i as int]@ =~= f(m.entities[i as int]));
            i += 1;
        }
        proof {
            assert(self@.entities =~= m.entities.map_values(f));
            assert(self@ =~= m.entities_detached(cell_id, now));
            let es = self@.entities;
            assert forall|a: int, b: int| 0 <= a < b < es.len() implies !same_entity()(
                #[trigger] es[a],
                #[trigger] es[b],
            ) by {
                assert(!same_entity()(m.entities[a], m.entities[b]));
            }
            assert forall|k: int| 0 <= k < self@.aliases.len() implies self@.has_entity(
                (#[trigger] self@.aliases[k]).entity_id,
            ) by {
                let id = m.aliases[k].entity_id;
                assert(m.has_entity(id));
                let n = choose|n: int|
                    0 <= n < m.entities.len() && entity_is(id)(#[trigger] m.entities[n]);
                assert(entity_is(id)(es[n]));
            }
            lemma_entities_changed(m, self@);
        }
    }

    // -----------------------------------------------------------------------
    // Saving and deleting cells
    // -----------------------------------------------------------------------

    /// Saves a cell at `now`: its row and its tags. Where it carries the tag of people
    /// and its title gives a name, it stands for that person; otherwise entities stay
    /// as they are.
    pub fn save_cell(&mut self, cell: &Cell, now: i64)
        requires
            old(self)@.wf(),
        ensures
            final(self)@ == old(self)@.cell_saved(cell.model(), now),
            final(self)@.wf(),
    {
        let ghost m = self@;
        let ghost c = cell.model();
        let p = persisted_cell_from(cell);
        proof {
            lemma_stored_sits(c);
            lemma_names_distinct(stored(c));
        }
        let names = tag_names_from_persisted(&p);
        let ghost ns = persisted_names(stored(c), false);
        self.put_cell_row(CellRow::of_cell(cell));
        proof {
            lemma_put_cell(m.cells, row_of_cell(c));
        }
        let done = self.write_cell_tags(cell.id, &names);
        assert(done is Ok);
        assert(self@ == m.cell_put(row_of_cell(c)).cell_tagged(c.id, ns));
        if holds_name(&names, "person") {
            if let Some(t) = &cell.title {
                if let Some(name) = extract_display_name(t.text()) {
                    self.upsert_person_entity(cell.id, name.as_str(), now);
                }
            }
        }
    }

    /// Deletes the cell `id`, with its tags and memberships, at `now`. Entities that it
    /// stands for stay, detached from it.
    pub fn delete_cell(&mut self, id: Uuid, now: i64)
        requires
            old(self)@.wf(),
        ensures
            final(self)@ == old(self)@.cell_deleted(id, now),
            final(self)@.wf(),
    {
        self.drop_cell_row(id);
        self.detach_entities_from_cell(id, now);
    }
}

/// Whether `name` is among `names`.
pub(crate) fn holds_name(names: &Vec<String>, name: &str) -> (r: bool)
    ensures
        r == bytes_of(names@).contains(utf8(name@)),
{
    let ghost ns = bytes_of(names@);
    let mut i: usize = 0;
    while i < names.len()
        invariant
            i <= names.len(),
            ns == bytes_of(names@),
            forall|k: int| 0 <= k < i ==> #[trigger] ns[k] != utf8(name@),
        decreases names.len() - i,
    {
        assert(ns[i as int] == utf8(names@[i as int]@));
        if text::same(names[i].as_str(), name) {
            return true;
        }
        i += 1;
    }
    false
}

/// When the entities were made.
pub open spec fn entity_times(m: DbModel) -> Seq<i64> {
    m.entities.map_values(|e: EntityModel| e.created_at)
}

/// A name that an entity is found by, the entity, and its kind.
pub open spec fn alias_entry(m: DbModel, a: AliasModel) -> (Seq<u8>, Uuid, Seq<u8>) {
    (a.alias, a.entity_id, m.entity(a.entity_id)->0.kind)
}

/// Every name that an entity is found by, with the entity and its kind.
pub open spec fn alias_index(m: DbModel) -> Seq<(Seq<u8>, Uuid, Seq<u8>)> {
    m.aliases.map_values(|a: AliasModel| alias_entry(m, a))
}

/// A name, an entity and a kind.
pub open spec fn alias_view(t: (String, Uuid, String)) -> (Seq<u8>, Uuid, Seq<u8>) {
    (utf8(t.0@), t.1, utf8(t.2@))
}

/// Names, entities and kinds.
pub open spec fn alias_rows(v: Seq<(String, Uuid, String)>) -> Seq<(Seq<u8>, Uuid, Seq<u8>)> {
    v.map_values(|t: (String, Uuid, String)| alias_view(t))
}

/// The cells that stand for the first `n` entities, with the entities.
pub open spec fn backing_cells(es: Seq<EntityModel>, n: int) -> Seq<(Uuid, Uuid)>
    decreases n,
{
    if n <= 0 {
        Seq::empty()
    } else {
        match es[n - 1].primary_cell_id {
            Some(cell) => backing_cells(es, n - 1).push((cell, es[n - 1].id)),
            None => backing_cells(es, n - 1),
        }
    }
}

/// What is stored of a cell has no tags of old.
pub proof fn lemma_stored_sits(c: CellModel)
    ensures
        persisted_sits(stored(c), NAMED as int),
{
}

/// No name is there twice.
spec fn all_distinct(names: Seq<Seq<u8>>) -> bool {
    distinct(names, equal())
}

proof fn lemma_with_name(names: Seq<Seq<u8>>, name: Seq<u8>)
    requires
        all_distinct(names),
    ensures
        all_distinct(with_name(names, name)),
{
    let all = with_name(names, name);
    assert forall|i: int, j: int| 0 <= i < j < all.len() implies !equal()(
        #[trigger] all[i],
        #[trigger] all[j],
    ) by {
        if j < names.len() {
            assert(!equal()(names[i], names[j]));
        } else {
            assert(names.contains(names[i]));
        }
    }
}

proof fn lemma_link_names(names: Seq<Seq<u8>>, text: Seq<u8>, links: Seq<Link>)
    requires
        all_distinct(names),
    ensures
        all_distinct(link_names(names, text, links)),
    decreases links.len(),
{
    if links.len() > 0 {
        lemma_link_names(names, text, links.drop_last());
        if let Some(name) = link_name(text, links.last()) {
            lemma_with_name(link_names(names, text, links.drop_last()), name);
        }
    }
}

proof fn lemma_span_names(names: Seq<Seq<u8>>, text: Seq<u8>, spans: Seq<Span>)
    requires
        all_distinct(names),
    ensures
        all_distinct(span_names(names, text, spans)),
    decreases spans.len(),
{
    if spans.len() > 0 {
        lemma_span_names(names, text, spans.drop_last());
        if let Some(name) = span_name(text, spans.last()) {
            lemma_with_name(span_names(names, text, spans.drop_last()), name);
        }
    }
}

proof fn lemma_names_behind(names: Seq<Seq<u8>>, r: TextRecord, heading: bool, old_form: bool)
    requires
        all_distinct(names),
    ensures
        all_distinct(names_behind(names, r, heading, old_form)),
{
    lemma_link_names(names, r.text, r.links);
    let linked = link_names(names, r.text, r.links);
    lemma_span_names(linked, r.text, r.tags);
    lemma_span_names(linked, r.text, tags_spelled(r, heading));
}

proof fn lemma_blocks_names(
    names: Seq<Seq<u8>>,
    blocks: Seq<BlockModel>,
    n: int,
    old_form: bool,
)
    requires
        all_distinct(names),
    ensures
        all_distinct(blocks_names(names, blocks, n, old_form)),
    decreases n,
{
    if n > 0 {
        lemma_blocks_names(names, blocks, n - 1, old_form);
        lemma_names_behind(
            blocks_names(names, blocks, n - 1, old_form),
            blocks[n - 1].said,
            false,
            old_form,
        );
    }
}

proof fn lemma_row_names(names: Seq<Seq<u8>>, row: Seq<EntryRecord>, n: int, old_form: bool)
    requires
        all_distinct(names),
    ensures
        all_distinct(row_names(names, row, n, old_form)),
    decreases n,
{
    if n > 0 {
        lemma_row_names(names, row, n - 1, old_form);
        lemma_names_behind(
            row_names(names, row, n - 1, old_form),
            row[n - 1].said,
            false,
            old_form,
        );
    }
}

proof fn lemma_rows_names(names: Seq<Seq<u8>>, rows: Seq<Seq<EntryRecord>>, n: int, old_form: bool)
    requires
        all_distinct(names),
    ensures
        all_distinct(rows_names(names, rows, n, old_form)),
    decreases n,
{
    if n > 0 {
        lemma_rows_names(names, rows, n - 1, old_form);
        lemma_row_names(
            rows_names(names, rows, n - 1, old_form),
            rows[n - 1],
            rows[n - 1].len() as int,
            old_form,
        );
    }
}

/// No tag of a stored cell is named twice.
pub proof fn tags_of_stored_cells_are_distinct(p: PersistedModel, old_form: bool)
    ensures
        distinct(persisted_names(p, old_form), equal()),
{
    let none = Seq::<Seq<u8>>::empty();
    assert(all_distinct(none));
    if let Some(t) = p.title {
        lemma_names_behind(none, t, true, old_form);
    }
    let titled = match p.title {
        Some(t) => names_behind(none, t, true, old_form),
        None => none,
    };
    match p.body {
        BodyModel::Plain(r) => lemma_names_behind(titled, r, false, old_form),
        BodyModel::Outline(blocks, _) => lemma_blocks_names(
            titled,
            blocks,
            blocks.len() as int,
            old_form,
        ),
        BodyModel::Table(_, _, cells) => lemma_rows_names(
            titled,
            cells,
            cells.len() as int,
            old_form,
        ),
        _ => {},
    }
}

proof fn lemma_names_distinct(p: PersistedModel)
    ensures
        distinct(persisted_names(p, false), equal()),
{
    tags_of_stored_cells_are_distinct(p, false);
}

// ---------------------------------------------------------------------------
// Laws
// ---------------------------------------------------------------------------

/// Saving a cell never makes a person active or inactive, nor changes when it was
/// made.
pub proof fn saving_keeps_whether_people_are_active(m: DbModel, c: CellModel, now: i64, id: Uuid)
    requires
        m.wf(),
        m.has_entity(id),
    ensures
        m.cell_saved(c, now).entity(id) is Some,
        m.cell_saved(c, now).entity(id)->0.is_active == m.entity(id)->0.is_active,
        m.cell_saved(c, now).entity(id)->0.created_at == m.entity(id)->0.created_at,
{
    let names = persisted_names(stored(c), false);
    let kept = m.cell_put(row_of_cell(c)).cell_tagged(c.id, names);
    assert(kept.entities == m.entities);
    let s = m.entities;
    lemma_found_where(s, entity_is(id));
    lemma_place_where(s, entity_is(id), 0);
    if names.contains(person()) && person_named(c) is Some {
        let e = kept.person_of_cell(c.id, person_named(c)->0, now);
        let all = put_where(s, entity_is(c.id), e);
        let k = place_where(s, entity_is(c.id), 0);
        let at = place_where(s, entity_is(id), 0);
        lemma_place_where(s, entity_is(c.id), 0);
        lemma_place_where(all, entity_is(id), 0);
        let n = place_where(all, entity_is(id), 0);
        assert(entity_is(id)(all[at])) by {
            if k == at && k < s.len() {
                assert(all[at] == e);
            } else {
                assert(all[at] == s[at]);
            }
        }
        assert(n <= at);
        if n < at {
            assert(!entity_is(id)(s[n]));
            assert(all[n] == e && n == k);
            assert(s[k].id == c.id);
        }
        assert(n == at);
    }
}

/// Deleting a cell deletes no entity: each stays under its name, and none is left that
/// the cell stands for.
pub proof fn entities_outlive_their_cells(m: DbModel, id: Uuid, now: i64, i: int)
    requires
        0 <= i < m.entities.len(),
    ensures
        m.cell_deleted(id, now).entities.len() == m.entities.len(),
        m.cell_deleted(id, now).entities[i].id == m.entities[i].id,
        m.cell_deleted(id, now).entities[i].display_name == m.entities[i].display_name,
        m.cell_deleted(id, now).entities[i].primary_cell_id != Some(id),
        m.cell_deleted(id, now).aliases == m.aliases,
{
}

/// A deleted cell carries no tag and belongs to no thread.
pub proof fn deleted_cells_are_gone(m: DbModel, id: Uuid, now: i64)
    ensures
        !m.cell_deleted(id, now).has_cell(id),
        forall|i: int|
            0 <= i < m.cell_deleted(id, now).cell_tags.len() ==> (#[trigger] m.cell_deleted(
                id,
                now,
            ).cell_tags[i]).cell_id != id,
        forall|i: int|
            0 <= i < m.cell_deleted(id, now).memberships.len() ==> (#[trigger] m.cell_deleted(
                id,
                now,
            ).memberships[i]).target.cell_id() != id,
{
    let keep = |r: CellRowModel| r.id != id;
    let n = m.cell_deleted(id, now);
    let cells = m.cells.filter(keep);
    let p = |t: CellTagModel| any_where(cells, cell_is(t.cell_id));
    let q = |x: ThreadMembership| any_where(cells, cell_is(x.target.cell_id()));
    assert(!any_where(cells, cell_is(id))) by {
        if any_where(cells, cell_is(id)) {
            let k = choose|k: int| 0 <= k < cells.len() && cell_is(id)(#[trigger] cells[k]);
            lemma_filter_from(m.cells, keep, k);
        }
    }
    assert forall|i: int| 0 <= i < n.cell_tags.len() implies (#[trigger] n.cell_tags[i]).cell_id
        != id by {
        lemma_filter_from(m.cell_tags, p, i);
    }
    assert forall|i: int| 0 <= i < n.memberships.len() implies (
    #[trigger] n.memberships[i]).target.cell_id() != id by {
        lemma_filter_from(m.memberships, q, i);
    }
}

/// A cell that is saved is the one that is stored afterwards; what is stored of other
/// cells stays as it was.
pub proof fn saved_cells_are_there(m: DbModel, c: CellModel, other: Uuid, now: i64)
    requires
        other != c.id,
    ensures
        found_where(m.cell_saved(c, now).cells, cell_is(c.id)) == Some(row_of_cell(c)),
        found_where(m.cell_saved(c, now).cells, cell_is(other)) == found_where(
            m.cells,
            cell_is(other),
        ),
{
    rows_of_cells_are_there(m, row_of_cell(c), other);
}

} // verus!
