//! Tables of older versions brought up to date.
use vstd::prelude::*;

use crate::ids::{new_id, Uuid};
use crate::persist::{
    cell_is, lemma_filter_from, lemma_same_pointers, same_cell, CellTagModel, Db, DbModel,
};
use crate::persist::cells::{NAMED, persisted_sits};
use crate::persist::entities::{holds_name, person, tags_of_stored_cells_are_distinct};
use crate::persist::migrating::{
    extract_title_with, fill_tags_in_body_json, tags_migrated, title_migrated,
};
use crate::persist::naming::{
    display_name, extract_display_name, persisted_names, tag_names_from_persisted_legacy,
};
use crate::persist::records::{PersistedCell, PersistedModel};
use crate::persist::rows::{CellRowModel, LoadError};
use crate::persist::storing::persisted_read;
use crate::persist::tables::any_where;
use crate::thread::ThreadMembership;

verus! {

/// The row with another body.
pub open spec fn rebodied(r: CellRowModel, body: Option<Seq<u8>>) -> CellRowModel {
    match body {
        Some(b) => CellRowModel { body: b, ..r },
        None => r,
    }
}

impl DbModel {
    /// With the heading that each body starts with its title; `ids` are those of the
    /// empty bullets that may be needed.
    pub open spec fn titles_extracted(self, ids: Seq<Uuid>) -> DbModel {
        DbModel {
            cells: Seq::new(
                self.cells.len(),
                |i: int| rebodied(self.cells[i], title_migrated(self.cells[i].body, ids[i])),
            ),
            ..self
        }
    }

    /// With the tags that texts spell stored.
    pub open spec fn tags_filled(self) -> DbModel {
        DbModel {
            cells: Seq::new(
                self.cells.len(),
                |i: int| rebodied(self.cells[i], tags_migrated(self.cells[i].body)),
            ),
            ..self
        }
    }

    /// With the tags of the first `n` cells written down. A row that cannot be read
    /// is left out.
    pub open spec fn tags_backfilled(self, n: int) -> DbModel
        decreases n,
    {
        if n <= 0 {
            self
        } else {
            let before = self.tags_backfilled(n - 1);
            match persisted_read(self.cells[n - 1].body) {
                Some(p) => before.cell_tagged(self.cells[n - 1].id, persisted_names(p, true)),
                None => before,
            }
        }
    }

    /// With the people that the first `n` cells stand for. A row that cannot be read
    /// is left out.
    pub open spec fn people_backfilled(self, n: int, now: i64) -> DbModel
        decreases n,
    {
        if n <= 0 {
            self
        } else {
            let before = self.people_backfilled(n - 1, now);
            match persisted_read(self.cells[n - 1].body) {
                Some(p) => match person_of(p) {
                    Some(name) => before.person_upserted(self.cells[n - 1].id, name, now),
                    None => before,
                },
                None => before,
            }
        }
    }

    /// Every row that can be read has its tags on characters, but for those of one byte.
    pub open spec fn all_sit(self) -> bool {
        forall|i: int|
            0 <= i < self.cells.len() ==> row_sits(#[trigger] self.cells[i])
    }

    /// Bringing tables of `version` up to date meets a stored tag of more than one
    /// byte that starts or ends within a character.
    pub open spec fn refuses(self, version: u32, ids: Seq<Uuid>) -> bool {
        ||| (version == 2 || version == 4) && !self.all_sit()
        ||| (version == 2 || version == 3) && !self.titles_extracted(ids).all_sit()
    }

    /// What is left where bringing the tables up to date is refused: what was done before
    /// the tag was met.
    pub open spec fn left_refused(self, version: u32, ids: Seq<Uuid>) -> DbModel {
        if version == 2 && self.all_sit() {
            self.tags_backfilled(self.cells.len() as int).titles_extracted(ids)
        } else if version == 3 {
            self.titles_extracted(ids)
        } else {
            self
        }
    }

    /// Brought up to date from `version`.
    pub open spec fn upgraded(self, version: u32, ids: Seq<Uuid>, now: i64) -> DbModel {
        let m2 = if version < 2 {
            self.cells_kept(|r: CellRowModel| false)
        } else {
            self
        };
        let m3 = if version < 3 {
            m2.tags_backfilled(m2.cells.len() as int)
        } else {
            m2
        };
        let m4 = if version < 4 {
            let t = m3.titles_extracted(ids);
            t.tags_backfilled(t.cells.len() as int)
        } else {
            m3
        };
        let m5 = if version < 5 {
            m4.people_backfilled(m4.cells.len() as int, now)
        } else {
            m4
        };
        if version < 7 {
            m5.tags_filled()
        } else {
            m5
        }
    }
}

/// The row cannot be read, or has its tags on characters, but for those of one byte.
pub open spec fn row_sits(r: CellRowModel) -> bool {
    persisted_read(r.body) matches Some(p) ==> persisted_sits(p, NAMED as int)
}

/// The name of the person that a stored cell of old stands for: it carries the tag of
/// people, and its title gives a name.
pub open spec fn person_of(p: PersistedModel) -> Option<Seq<u8>> {
    if persisted_names(p, true).contains(person()) {
        match p.title {
            Some(t) => display_name(t.text),
            None => None,
        }
    } else {
        None
    }
}

/// What the newest tables are called.
pub const NEWEST_VERSION: u32 = 10;

// ---------------------------------------------------------------------------
// Facts
// ---------------------------------------------------------------------------

proof fn lemma_bodies_changed(m: DbModel, n: DbModel)
    requires
        m.wf(),
        n == (DbModel { cells: n.cells, ..m }),
        n.cells.len() == m.cells.len(),
        forall|i: int| 0 <= i < m.cells.len() ==> (#[trigger] n.cells[i]).id == m.cells[i].id,
    ensures
        n.wf(),
{
    assert forall|i: int, j: int| 0 <= i < j < n.cells.len() implies !same_cell()(
        #[trigger] n.cells[i],
        #[trigger] n.cells[j],
    ) by {
        assert(!same_cell()(m.cells[i], m.cells[j]));
    }
    assert forall|id: Uuid| m.has_cell(id) implies #[trigger] n.has_cell(id) by {
        let k = choose|k: int| 0 <= k < m.cells.len() && cell_is(id)(#[trigger] m.cells[k]);
        assert(cell_is(id)(n.cells[k]));
    }
    lemma_same_pointers(m, n);
}

proof fn lemma_tags_backfilled(m: DbModel, n: int)
    ensures
        m.tags_backfilled(n).cells == m.cells,
    decreases n,
{
    if n > 0 {
        lemma_tags_backfilled(m, n - 1);
    }
}

proof fn lemma_people_backfilled(m: DbModel, n: int, now: i64)
    ensures
        m.people_backfilled(n, now).cells == m.cells,
    decreases n,
{
    if n > 0 {
        lemma_people_backfilled(m, n - 1, now);
    }
}

// ---------------------------------------------------------------------------
// Steps
// ---------------------------------------------------------------------------

impl Db {
    /// Makes the heading that each stored body starts with its title. A row that has a
    /// title, no heading, or cannot be read is left as it is.
    pub fn migrate_extract_titles_with(&mut self, ids: &Vec<Uuid>)
        requires
            old(self)@.wf(),
            ids@.len() == old(self)@.cells.len(),
        ensures
            final(self)@ == old(self)@.titles_extracted(ids@),
            final(self)@.wf(),
    {
        let ghost m = self@;
        let mut i: usize = 0;
        while i < self.cells.len()
            invariant
                i <= self.cells@.len(),
                self.cells@.len() == m.cells.len(),
                ids@.len() == m.cells.len(),
                self@ == (DbModel { cells: self@.cells, ..m }),
                forall|k: int|
                    0 <= k < i ==> (#[trigger] self.cells@[k])@ == rebodied(
                        m.cells[k],
                        title_migrated(m.cells[k].body, ids@[k]),
                    ),
                forall|k: int|
                    i <= k < m.cells.len() ==> (#[trigger] self.cells@[k])@ == m.cells[k],
            decreases self.cells@.len() - i,
        {
            assert(self.cells@[i as int]@ == m.cells[i as int]);
            if let Some(updated) = extract_title_with(self.cells[i].body.as_str(), ids[i]) {
                self.cells[i].body = updated;
            }
            assert(self.cells@[i as int]@ =~= rebodied(
                m.cells[i as int],
                title_migrated(m.cells[i as int].body, ids@[i as int]),
            ));
            i += 1;
        }
        proof {
            assert(self@.cells =~= m.titles_extracted(ids@).cells);
            assert(self@ =~= m.titles_extracted(ids@));
            lemma_bodies_changed(m, self@);
        }
    }

    /// Stores the tags that each text of each row spells. A row that cannot be read is
    /// left as it is.
    pub fn migrate_tags_to_spans(&mut self)
        requires
            old(self)@.wf(),
        ensures
            final(self)@ == old(self)@.tags_filled(),
            final(self)@.wf(),
    {
        let ghost m = self@;
        let mut i: usize = 0;
        while i < self.cells.len()
            invariant
                i <= self.cells@.len(),
                self.cells@.len() == m.cells.len(),
                self@ == (DbModel { cells: self@.cells, ..m }),
                forall|k: int|
                    0 <= k < i ==> (#[trigger] self.cells@[k])@ == rebodied(
                        m.cells[k],
                        tags_migrated(m.cells[k].body),
                    ),
                forall|k: int|
                    i <= k < m.cells.len() ==> (#[trigger] self.cells@[k])@ == m.cells[k],
            decreases self.cells@.len() - i,
        {
            assert(self.cells@[i as int]@ == m.cells[i as int]);
            if let Some(updated) = fill_tags_in_body_json(self.cells[i].body.as_str()) {
                self.cells[i].body = updated;
            }
            assert(self.cells@[i as int]@ =~= rebodied(
                m.cells[i as int],
                tags_migrated(m.cells[i as int].body),
            ));
            i += 1;
        }
        proof {
            assert(self@.cells =~= m.tags_filled().cells);
            assert(self@ =~= m.tags_filled());
            lemma_bodies_changed(m, self@);
        }
    }

    fn rows_sit(&self) -> (r: bool)
        ensures
            r == self@.all_sit(),
    {
        let ghost m = self@;
        let mut i: usize = 0;
        while i < self.cells.len()
            invariant
                i <= self.cells.len(),
                m == self@,
                forall|k: int| 0 <= k < i ==> row_sits(#[trigger] m.cells[k]),
            decreases self.cells.len() - i,
        {
            assert(m.cells[i as int] == self.cells@[i as int]@);
            if let Some(p) = PersistedCell::parse(self.cells[i].body.as_str()) {
                if !p.sits(NAMED) {
                    assert(!row_sits(m.cells[i as int]));
                    return false;
                }
            }
            i += 1;
        }
        true
    }

    /// Writes down the tags of every row, as they were read of old. A row that cannot
    /// be read is left out. Refused, with nothing changed, where a stored tag starts or
    /// ends within a character.
    pub fn backfill_cell_tags(&mut self) -> (r: Result<(), LoadError>)
        requires
            old(self)@.wf(),
        ensures
            match r {
                Ok(_) => old(self)@.all_sit() && final(self)@ == old(self)@.tags_backfilled(
                    old(self)@.cells.len() as int,
                ),
                Err(e) => e == LoadError::Tag && !old(self)@.all_sit() && final(self)@ == old(
                    self,
                )@,
            },
            final(self)@.wf(),
    {
        let ghost m = self@;
        if !self.rows_sit() {
            return Err(LoadError::Tag);
        }
        let n: usize = self.cells.len();
        let mut i: usize = 0;
        while i < n
            invariant
                i <= n,
                n == m.cells.len(),
                m.all_sit(),
                self@ == m.tags_backfilled(i as int),
                self@.cells == m.cells,
                self@.wf(),
            decreases n - i,
        {
            proof {
                lemma_tags_backfilled(m, i + 1);
                assert(self@.cells[i as int] == self.cells@[i as int]@);
                assert(row_sits(m.cells[i as int]));
            }
            let id: Uuid = self.cells[i].id;
            if let Some(p) = PersistedCell::parse(self.cells[i].body.as_str()) {
                let names = tag_names_from_persisted_legacy(&p);
                proof {
                    tags_of_stored_cells_are_distinct(p@, true);
                    assert(cell_is(id)(self@.cells[i as int]));
                }
                let done = self.write_cell_tags(id, &names);
                assert(done is Ok);
            }
            i += 1;
        }
        Ok(())
    }

    /// Makes every cell that carries the tag of people, and whose title gives a name,
    /// stand for that person. A row that cannot be read is left out. Refused, with
    /// nothing changed, where a stored tag starts or ends within a character.
    pub fn backfill_entities_from_persons(&mut self, now: i64) -> (r: Result<(), LoadError>)
        requires
            old(self)@.wf(),
        ensures
            match r {
                Ok(_) => old(self)@.all_sit() && final(self)@ == old(self)@.people_backfilled(
                    old(self)@.cells.len() as int,
                    now,
                ),
                Err(e) => e == LoadError::Tag && !old(self)@.all_sit() && final(self)@ == old(
                    self,
                )@,
            },
            final(self)@.wf(),
    {
        let ghost m = self@;
        if !self.rows_sit() {
            return Err(LoadError::Tag);
        }
        let n: usize = self.cells.len();
        let mut i: usize = 0;
        while i < n
            invariant
                i <= n,
                n == m.cells.len(),
                m.all_sit(),
                self@ == m.people_backfilled(i as int, now),
                self@.cells == m.cells,
                self@.wf(),
            decreases n - i,
        {
            proof {
                lemma_people_backfilled(m, i + 1, now);
                assert(self@.cells[i as int] == self.cells@[i as int]@);
                assert(row_sits(m.cells[i as int]));
            }
            let id: Uuid = self.cells[i].id;
            if let Some(p) = PersistedCell::parse(self.cells[i].body.as_str()) {
                let names = tag_names_from_persisted_legacy(&p);
                if holds_name(&names, "person") {
                    if let Some(t) = &p.title {
                        if let Some(name) = extract_display_name(t.text.as_str()) {
                            self.upsert_person_entity(id, name.as_str(), now);
                        }
                    }
                }
            }
            i += 1;
        }
        Ok(())
    }

    /// Brings tables of `version` up to date at `now`. Those older than the second
    /// version held other cells, which are dropped; `ids` are the identities that the
    /// bullets get which have to be added. Refused where a stored tag starts or ends
    /// within a character.
    pub fn migrate_with(&mut self, version: u32, ids: &Vec<Uuid>, now: i64) -> (r: Result<
        (),
        LoadError,
    >)
        requires
            old(self)@.wf(),
            ids@.len() == old(self)@.cells.len(),
        ensures
            match r {
                Ok(_) => !old(self)@.refuses(version, ids@) && final(self)@ == old(self)@.upgraded(
                    version,
                    ids@,
                    now,
                ),
                Err(e) => e == LoadError::Tag && old(self)@.refuses(version, ids@) && final(self)@
                    == old(self)@.left_refused(version, ids@),
            },
            final(self)@.wf(),
    {
        let ghost m = self@;
        if version < 2 {
            self.cells = Vec::new();
            self.cell_tags = Vec::new();
            self.memberships = Vec::new();
            proof {
                lemma_nothing_kept(m, self@);
            }
            return Ok(());
        }
        if version < 3 {
            if let Err(e) = self.backfill_cell_tags() {
                return Err(e);
            }
            proof {
                lemma_tags_backfilled(m, m.cells.len() as int);
            }
        }
        if version < 4 {
            let ghost m3 = self@;
            self.migrate_extract_titles_with(ids);
            let ghost t = self@;
            assert(t.cells =~= m.titles_extracted(ids@).cells);
            if let Err(e) = self.backfill_cell_tags() {
                assert(!m.titles_extracted(ids@).all_sit()) by {
                    let i = choose|i: int| 0 <= i < t.cells.len() && !row_sits(#[trigger] t.cells[i]);
                    assert(!row_sits(m.titles_extracted(ids@).cells[i]));
                }
                return Err(e);
            }
            proof {
                lemma_tags_backfilled(t, t.cells.len() as int);
                assert(m.titles_extracted(ids@).all_sit()) by {
                    assert forall|i: int| 0 <= i < m.cells.len() implies row_sits(
                        #[trigger] m.titles_extracted(ids@).cells[i],
                    ) by {
                        assert(row_sits(t.cells[i]));
                    }
                }
            }
        }
        if version < 5 {
            let ghost m4 = self@;
            if let Err(e) = self.backfill_entities_from_persons(now) {
                proof {
                    let i = choose|i: int|
                        0 <= i < m4.cells.len() && !row_sits(#[trigger] m4.cells[i]);
                    if version < 4 {
                        assert(!row_sits(m.titles_extracted(ids@).cells[i]));
                    }
                }
                return Err(e);
            }
        }
        if version < 7 {
            self.migrate_tags_to_spans();
        }
        Ok(())
    }

    /// Brings tables of `version` up to date at `now`.
    pub fn migrate(&mut self, version: u32, now: i64) -> (r: Result<(), LoadError>)
        requires
            old(self)@.wf(),
        ensures
            exists|ids: Seq<Uuid>|
                ids.len() == old(self)@.cells.len() && match r {
                    Ok(_) => !(#[trigger] old(self)@.refuses(version, ids)) && final(self)@ == old(
                        self,
                    )@.upgraded(version, ids, now),
                    Err(e) => e == LoadError::Tag && old(self)@.refuses(version, ids)
                        && final(self)@ == old(self)@.left_refused(version, ids),
                },
            final(self)@.wf(),
    {
        let mut ids: Vec<Uuid> = Vec::new();
        while ids.len() < self.cells.len()
            invariant
                ids@.len() <= self.cells@.len(),
            decreases self.cells@.len() - ids@.len(),
        {
            ids.push(new_id());
        }
        self.migrate_with(version, &ids, now)
    }
}

proof fn lemma_nothing_kept(m: DbModel, n: DbModel)
    requires
        m.wf(),
        n == (DbModel {
            cells: n.cells,
            cell_tags: n.cell_tags,
            memberships: n.memberships,
            ..m
        }),
        n.cells.len() == 0,
        n.cell_tags.len() == 0,
        n.memberships.len() == 0,
    ensures
        forall|version: u32, ids: Seq<Uuid>, now: i64|
            version < 2 ==> n == #[trigger] m.upgraded(version, ids, now),
        n.wf(),
{
    let none = |r: CellRowModel| false;
    let m2 = m.cells_kept(none);
    assert(m2.cells.len() == 0) by {
        if m2.cells.len() > 0 {
            lemma_filter_from(m.cells, none, 0);
        }
    }
    let cells = m.cells.filter(none);
    let p = |t: CellTagModel| any_where(cells, cell_is(t.cell_id));
    let q = |x: ThreadMembership| any_where(cells, cell_is(x.target.cell_id()));
    assert(m2.cell_tags.len() == 0) by {
        if m2.cell_tags.len() > 0 {
            lemma_filter_from(m.cell_tags, p, 0);
        }
    }
    assert(m2.memberships.len() == 0) by {
        if m2.memberships.len() > 0 {
            lemma_filter_from(m.memberships, q, 0);
        }
    }
    assert(m2 =~= n);
    assert forall|version: u32, ids: Seq<Uuid>, now: i64| version < 2 implies n
        == #[trigger] m.upgraded(version, ids, now) by {
        let m3 = m2.tags_backfilled(0);
        let t = m3.titles_extracted(ids);
        assert(t.cells =~= m2.cells);
        assert(t =~= m2);
        let m4 = t.tags_backfilled(0);
        let m5 = m4.people_backfilled(0, now);
        assert(m5.tags_filled().cells =~= m2.cells);
        assert(m5.tags_filled() =~= m2);
    }
    assert forall|a: int| 0 <= a < n.aliases.len() implies n.has_entity(
        (#[trigger] n.aliases[a]).entity_id,
    ) by {
        assert(m.has_entity(m.aliases[a].entity_id));
    }
}

/// Tables of the newest version stay as they are.
pub proof fn new_tables_stay_as_they_are(m: DbModel, ids: Seq<Uuid>, now: i64)
    ensures
        m.upgraded(NEWEST_VERSION, ids, now) == m,
{
}

} // verus!
