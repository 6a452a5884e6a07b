//! What is kept on disk: the stored form of cells, and the tables around them.
//!
//! The tables are held here as lists of rows, with the rules that every change
//! follows. The rows themselves are read from and written to the database by the
//! application.
pub mod cells;
pub mod entities;
pub mod keeping;
pub mod migrating;
pub mod naming;
pub mod people;
pub mod reading;
pub mod records;
pub mod rows;
pub mod standing;
pub mod storing;
pub mod tables;
pub mod threads;
pub mod upgrades;

use vstd::prelude::*;
use vstd::seq_lib::*;

use crate::text;
use crate::cell::{Cell, CellModel};
use crate::cell::model::with_name;
use crate::cell::textbox::{bytes_of, optional_bytes};
use crate::ids::Uuid;
use crate::persist::cells::{LOADED, persisted_sits};
use crate::persist::rows::{loaded_cell, CellRow, CellRowModel, LoadError};
use crate::persist::storing::persisted_read;
use crate::persist::tables::{
    any_where, find_where, found_where, in_order_of, lemma_place_where, order_of, ordered,
    place_where, places, put_where, retain_where, rows_put_are_found,
};
use crate::text::{same, utf8, views};
use crate::thread::{Thread, ThreadMembership, ThreadModel};

verus! {

// ---------------------------------------------------------------------------
// Rows
// ---------------------------------------------------------------------------

/// A row of the table of contexts.
#[derive(Debug)]
pub struct ContextRow {
    pub id: Uuid,
    pub start_time: i64,
    pub end_time: Option<i64>,
    pub title: Option<String>,
}

/// A context to be saved.
pub struct ContextRef<'a> {
    pub id: Uuid,
    pub start_time: i64,
    pub end_time: Option<i64>,
    pub title: Option<&'a str>,
}

/// What a context is.
#[verifier::ext_equal]
pub struct ContextModel {
    pub id: Uuid,
    pub start_time: i64,
    pub end_time: Option<i64>,
    pub title: Option<Seq<u8>>,
}

impl View for ContextRow {
    type V = ContextModel;

    open spec fn view(&self) -> ContextModel {
        ContextModel {
            id: self.id,
            start_time: self.start_time,
            end_time: self.end_time,
            title: optional_bytes(self.title),
        }
    }
}

impl<'a> View for ContextRef<'a> {
    type V = ContextModel;

    open spec fn view(&self) -> ContextModel {
        ContextModel {
            id: self.id,
            start_time: self.start_time,
            end_time: self.end_time,
            title: match self.title {
                Some(t) => Some(utf8(t@)),
                None => None,
            },
        }
    }
}

impl Clone for ContextRow {
    fn clone(&self) -> (r: Self)
        ensures
            r@ == self@,
    {
        ContextRow {
            id: self.id,
            start_time: self.start_time,
            end_time: self.end_time,
            title: match &self.title {
                Some(t) => Some(text::copy(t.as_str())),
                None => None,
            },
        }
    }
}

/// A known tag.
#[derive(Debug)]
pub struct TagName {
    pub name: String,
}

impl View for TagName {
    type V = Seq<u8>;

    open spec fn view(&self) -> Seq<u8> {
        utf8(self.name@)
    }
}

/// That a cell carries a tag.
#[derive(Debug)]
pub struct CellTag {
    pub cell_id: Uuid,
    pub name: String,
}

/// That a cell carries a tag.
#[verifier::ext_equal]
pub struct CellTagModel {
    pub cell_id: Uuid,
    pub name: Seq<u8>,
}

impl View for CellTag {
    type V = CellTagModel;

    open spec fn view(&self) -> CellTagModel {
        CellTagModel { cell_id: self.cell_id, name: utf8(self.name@) }
    }
}

/// Someone or something that cells are about. Its identity is its own: it need not be
/// that of any cell.
#[derive(Debug)]
pub struct Entity {
    pub id: Uuid,
    pub kind: String,
    pub display_name: String,
    /// The cell that stands for it.
    pub primary_cell_id: Option<Uuid>,
    pub is_active: bool,
    pub created_at: i64,
    pub updated_at: i64,
}

/// What an entity is.
#[verifier::ext_equal]
pub struct EntityModel {
    pub id: Uuid,
    pub kind: Seq<u8>,
    pub display_name: Seq<u8>,
    pub primary_cell_id: Option<Uuid>,
    pub is_active: bool,
    pub created_at: i64,
    pub updated_at: i64,
}

impl View for Entity {
    type V = EntityModel;

    open spec fn view(&self) -> EntityModel {
        EntityModel {
            id: self.id,
            kind: utf8(self.kind@),
            display_name: utf8(self.display_name@),
            primary_cell_id: self.primary_cell_id,
            is_active: self.is_active,
            created_at: self.created_at,
            updated_at: self.updated_at,
        }
    }
}

impl Clone for Entity {
    fn clone(&self) -> (e: Self)
        ensures
            e@ == self@,
    {
        Entity {
            id: self.id,
            kind: text::copy(self.kind.as_str()),
            display_name: text::copy(self.display_name.as_str()),
            primary_cell_id: self.primary_cell_id,
            is_active: self.is_active,
            created_at: self.created_at,
            updated_at: self.updated_at,
        }
    }
}

/// A name that an entity is found by.
#[derive(Debug)]
pub struct Alias {
    pub entity_id: Uuid,
    pub alias: String,
}

/// A name that an entity is found by.
#[verifier::ext_equal]
pub struct AliasModel {
    pub entity_id: Uuid,
    pub alias: Seq<u8>,
}

impl View for Alias {
    type V = AliasModel;

    open spec fn view(&self) -> AliasModel {
        AliasModel { entity_id: self.entity_id, alias: utf8(self.alias@) }
    }
}

/// Why a change is refused.
#[derive(Clone, Copy, Debug, PartialEq, Eq, Structural)]
pub enum DbError {
    /// A row that the change would point at is not there.
    Missing,
    /// There is a row of that identity already.
    Taken,
}

// ---------------------------------------------------------------------------
// Tables
// ---------------------------------------------------------------------------

/// The tables.
pub struct Db {
    pub cells: Vec<CellRow>,
    pub contexts: Vec<ContextRow>,
    pub tags: Vec<TagName>,
    pub cell_tags: Vec<CellTag>,
    pub entities: Vec<Entity>,
    pub aliases: Vec<Alias>,
    pub threads: Vec<Thread>,
    pub memberships: Vec<ThreadMembership>,
}

/// What the tables hold.
#[verifier::ext_equal]
pub struct DbModel {
    pub cells: Seq<CellRowModel>,
    pub contexts: Seq<ContextModel>,
    pub tags: Seq<Seq<u8>>,
    pub cell_tags: Seq<CellTagModel>,
    pub entities: Seq<EntityModel>,
    pub aliases: Seq<AliasModel>,
    pub threads: Seq<ThreadModel>,
    pub memberships: Seq<ThreadMembership>,
}

impl View for Db {
    type V = DbModel;

    open spec fn view(&self) -> DbModel {
        DbModel {
            cells: views(self.cells@),
            contexts: views(self.contexts@),
            tags: views(self.tags@),
            cell_tags: views(self.cell_tags@),
            entities: views(self.entities@),
            aliases: views(self.aliases@),
            threads: views(self.threads@),
            memberships: views(self.memberships@),
        }
    }
}

/// The row of the cell `id`.
pub open spec fn cell_is(id: Uuid) -> spec_fn(CellRowModel) -> bool {
    |r: CellRowModel| r.id == id
}

/// The row of the context `id`.
pub open spec fn context_is(id: Uuid) -> spec_fn(ContextModel) -> bool {
    |r: ContextModel| r.id == id
}

/// The row of the entity `id`.
pub open spec fn entity_is(id: Uuid) -> spec_fn(EntityModel) -> bool {
    |r: EntityModel| r.id == id
}

/// The row of the thread `id`.
pub open spec fn thread_is(id: Uuid) -> spec_fn(ThreadModel) -> bool {
    |r: ThreadModel| r.id == id
}

/// Another tag than `name`.
pub open spec fn other_than(name: Seq<u8>) -> spec_fn(Seq<u8>) -> bool {
    |t: Seq<u8>| t != name
}

/// That some cell carries another tag than `name`.
pub open spec fn names_other(name: Seq<u8>) -> spec_fn(CellTagModel) -> bool {
    |t: CellTagModel| t.name != name
}

/// No two rows are the same by `same`.
pub open spec fn distinct<A>(s: Seq<A>, same: spec_fn(A, A) -> bool) -> bool {
    forall|i: int, j: int| 0 <= i < j < s.len() ==> !same(#[trigger] s[i], #[trigger] s[j])
}

/// The two rows are of one cell.
pub open spec fn same_cell() -> spec_fn(CellRowModel, CellRowModel) -> bool {
    |a: CellRowModel, b: CellRowModel| a.id == b.id
}

/// The two rows are of one context.
pub open spec fn same_context() -> spec_fn(ContextModel, ContextModel) -> bool {
    |a: ContextModel, b: ContextModel| a.id == b.id
}

/// The two rows are of one entity.
pub open spec fn same_entity() -> spec_fn(EntityModel, EntityModel) -> bool {
    |a: EntityModel, b: EntityModel| a.id == b.id
}

/// The two rows are of one thread.
pub open spec fn same_thread() -> spec_fn(ThreadModel, ThreadModel) -> bool {
    |a: ThreadModel, b: ThreadModel| a.id == b.id
}

/// The two are equal.
pub open spec fn equal<A>() -> spec_fn(A, A) -> bool {
    |a: A, b: A| a == b
}

/// The two say that the same target belongs to the same thread.
pub open spec fn same_membership() -> spec_fn(ThreadMembership, ThreadMembership) -> bool {
    |a: ThreadMembership, b: ThreadMembership|
        a.thread_id == b.thread_id && a.target == b.target
}

impl DbModel {
    /// There is a row of the cell `id`.
    pub open spec fn has_cell(self, id: Uuid) -> bool {
        any_where(self.cells, cell_is(id))
    }

    /// There is a row of the entity `id`.
    pub open spec fn has_entity(self, id: Uuid) -> bool {
        any_where(self.entities, entity_is(id))
    }

    /// There is a row of the thread `id`.
    pub open spec fn has_thread(self, id: Uuid) -> bool {
        any_where(self.threads, thread_is(id))
    }

    /// Nothing is there twice, and nothing points at a row that is not there: a tag is
    /// carried by a cell that is there, and is known; an alias is that of an entity
    /// that is there; what belongs to a thread is a cell that is there, or a part of
    /// one, and the thread is there.
    pub open spec fn wf(self) -> bool {
        &&& distinct(self.cells, same_cell())
        &&& distinct(self.contexts, same_context())
        &&& distinct(self.tags, equal())
        &&& distinct(self.cell_tags, equal())
        &&& distinct(self.entities, same_entity())
        &&& distinct(self.aliases, equal())
        &&& distinct(self.threads, same_thread())
        &&& distinct(self.memberships, same_membership())
        &&& forall|i: int|
            0 <= i < self.cell_tags.len() ==> self.has_cell(
                (#[trigger] self.cell_tags[i]).cell_id,
            ) && self.tags.contains(self.cell_tags[i].name)
        &&& forall|i: int|
            0 <= i < self.aliases.len() ==> self.has_entity(
                (#[trigger] self.aliases[i]).entity_id,
            )
        &&& forall|i: int|
            0 <= i < self.memberships.len() ==> self.has_thread(
                (#[trigger] self.memberships[i]).thread_id,
            ) && self.has_cell(self.memberships[i].target.cell_id())
    }

    /// Tables without rows.
    pub open spec fn empty() -> DbModel {
        DbModel {
            cells: Seq::empty(),
            contexts: Seq::empty(),
            tags: Seq::empty(),
            cell_tags: Seq::empty(),
            entities: Seq::empty(),
            aliases: Seq::empty(),
            threads: Seq::empty(),
            memberships: Seq::empty(),
        }
    }

    /// With the row of a cell in place of that of the same identity, or behind the
    /// others.
    pub open spec fn cell_put(self, r: CellRowModel) -> DbModel {
        DbModel { cells: put_where(self.cells, cell_is(r.id), r), ..self }
    }

    /// The tags known, `names` among them.
    pub open spec fn tags_known(self, names: Seq<Seq<u8>>) -> Seq<Seq<u8>>
        decreases names.len(),
    {
        if names.len() == 0 {
            self.tags
        } else {
            with_name(self.tags_known(names.drop_last()), names.last())
        }
    }

    /// With `names` the tags that the cell `id` carries.
    pub open spec fn cell_tagged(self, id: Uuid, names: Seq<Seq<u8>>) -> DbModel {
        DbModel {
            tags: self.tags_known(names),
            cell_tags: self.cell_tags.filter(|t: CellTagModel| t.cell_id != id)
                + names.map_values(|n: Seq<u8>| CellTagModel { cell_id: id, name: n }),
            ..self
        }
    }

    /// Without the cells that do not meet `keep`: what is known of their tags and
    /// threads goes with them.
    pub open spec fn cells_kept(self, keep: spec_fn(CellRowModel) -> bool) -> DbModel {
        let cells = self.cells.filter(keep);
        DbModel {
            cells,
            cell_tags: self.cell_tags.filter(
                |t: CellTagModel| any_where(cells, cell_is(t.cell_id)),
            ),
            memberships: self.memberships.filter(
                |m: ThreadMembership| any_where(cells, cell_is(m.target.cell_id())),
            ),
            ..self
        }
    }

    /// Without the tag `name`, on whatever cell.
    pub open spec fn tag_dropped(self, name: Seq<u8>) -> DbModel {
        DbModel {
            tags: self.tags.filter(other_than(name)),
            cell_tags: self.cell_tags.filter(names_other(name)),
            ..self
        }
    }

    /// With the row of a context in place of that of the same identity, or behind the
    /// others.
    pub open spec fn context_put(self, c: ContextModel) -> DbModel {
        DbModel { contexts: put_where(self.contexts, context_is(c.id), c), ..self }
    }
}

// ---------------------------------------------------------------------------
// Facts about rows
// ---------------------------------------------------------------------------

/// Dropping rows leaves no two the same.
pub proof fn lemma_filter_distinct<A>(
    s: Seq<A>,
    p: spec_fn(A) -> bool,
    same: spec_fn(A, A) -> bool,
)
    requires
        distinct(s, same),
    ensures
        distinct(s.filter(p), same),
    decreases s.len(),
{
    reveal(Seq::filter);
    if s.len() > 0 {
        let before = s.drop_last();
        assert(distinct(before, same)) by {
            assert forall|i: int, j: int| 0 <= i < j < before.len() implies !same(
                #[trigger] before[i],
                #[trigger] before[j],
            ) by {
                assert(before[i] == s[i] && before[j] == s[j]);
            }
        }
        lemma_filter_distinct(before, p, same);
        let f = before.filter(p);
        if p(s.last()) {
            let all = f.push(s.last());
            assert forall|i: int, j: int| 0 <= i < j < all.len() implies !same(
                #[trigger] all[i],
                #[trigger] all[j],
            ) by {
                if j < f.len() {
                    assert(!same(f[i], f[j]));
                } else {
                    lemma_filter_from(before, p, i);
                    let k = choose|k: int| 0 <= k < before.len() && before[k] == f[i];
                    assert(before[k] == s[k]);
                    assert(!same(s[k], s[s.len() - 1]));
                }
            }
        }
    }
}

/// What is left when rows are dropped was there, and meets what is asked.
pub proof fn lemma_filter_from<A>(s: Seq<A>, p: spec_fn(A) -> bool, i: int)
    requires
        0 <= i < s.filter(p).len(),
    ensures
        exists|k: int| 0 <= k < s.len() && s[k] == s.filter(p)[i],
        p(s.filter(p)[i]),
    decreases s.len(),
{
    reveal(Seq::filter);
    if s.len() > 0 {
        let before = s.drop_last();
        if i < before.filter(p).len() {
            lemma_filter_from(before, p, i);
            let k = choose|k: int| 0 <= k < before.len() && before[k] == before.filter(p)[i];
            assert(s[k] == s.filter(p)[i]);
        } else {
            assert(s[s.len() - 1] == s.filter(p)[i]);
        }
    }
}

/// A row that meets what is asked is not dropped.
pub proof fn lemma_filter_keeps<A>(s: Seq<A>, p: spec_fn(A) -> bool, k: int)
    requires
        0 <= k < s.len(),
        p(s[k]),
    ensures
        exists|i: int| 0 <= i < s.filter(p).len() && #[trigger] s.filter(p)[i] == s[k],
    decreases s.len(),
{
    reveal(Seq::filter);
    let before = s.drop_last();
    let f = before.filter(p);
    if k < before.len() {
        lemma_filter_keeps(before, p, k);
        let i = choose|i: int| 0 <= i < f.len() && #[trigger] f[i] == before[k];
        assert(s.filter(p)[i] == s[k]);
    } else {
        assert(s.filter(p)[f.len() as int] == s[k]);
    }
}

/// A row that is found stays found where rows are dropped that it is not among.
pub proof fn lemma_filter_any<A>(s: Seq<A>, p: spec_fn(A) -> bool, q: spec_fn(A) -> bool)
    requires
        any_where(s, q),
        forall|a: A| #[trigger] q(a) ==> p(a),
    ensures
        any_where(s.filter(p), q),
{
    let k = choose|k: int| 0 <= k < s.len() && q(#[trigger] s[k]);
    lemma_filter_keeps(s, p, k);
    let i = choose|i: int| 0 <= i < s.filter(p).len() && #[trigger] s.filter(p)[i] == s[k];
    assert(q(s.filter(p)[i]));
}

/// Putting a row in leaves no two the same, and every row that was found is found.
pub proof fn lemma_put_cell(s: Seq<CellRowModel>, r: CellRowModel)
    requires
        distinct(s, same_cell()),
    ensures
        distinct(put_where(s, cell_is(r.id), r), same_cell()),
        any_where(put_where(s, cell_is(r.id), r), cell_is(r.id)),
        forall|id: Uuid|
            any_where(s, cell_is(id)) ==> #[trigger] any_where(
                put_where(s, cell_is(r.id), r),
                cell_is(id),
            ),
{
    let p = cell_is(r.id);
    let all = put_where(s, p, r);
    let k = place_where(s, p, 0);
    lemma_place_where(s, p, 0);
    assert forall|i: int, j: int| 0 <= i < j < all.len() implies !same_cell()(
        #[trigger] all[i],
        #[trigger] all[j],
    ) by {
        if k < s.len() {
            assert(!same_cell()(s[i], s[j]));
            assert(s[k].id == r.id);
        } else if j < s.len() {
            assert(!same_cell()(s[i], s[j]));
        } else {
            assert(!p(s[i]));
        }
    }
    assert(p(all[k]));
    assert forall|id: Uuid| any_where(s, cell_is(id)) implies #[trigger] any_where(
        all,
        cell_is(id),
    ) by {
        let n = choose|n: int| 0 <= n < s.len() && cell_is(id)(#[trigger] s[n]);
        assert(cell_is(id)(all[n]));
    }
}

// ---------------------------------------------------------------------------
// Cells, their tags, and contexts
// ---------------------------------------------------------------------------

impl Db {
    /// Tables without rows.
    pub fn new() -> (db: Db)
        ensures
            db@ == DbModel::empty(),
            db@.wf(),
    {
        let db = Db {
            cells: Vec::new(),
            contexts: Vec::new(),
            tags: Vec::new(),
            cell_tags: Vec::new(),
            entities: Vec::new(),
            aliases: Vec::new(),
            threads: Vec::new(),
            memberships: Vec::new(),
        };
        assert(db@ =~= DbModel::empty());
        db
    }

    /// Whether there is a row of the cell `id`.
    pub fn has_cell(&self, id: Uuid) -> (r: bool)
        ensures
            r == self@.has_cell(id),
    {
        let test = |r: &CellRow| -> (b: bool)
            ensures
                b == (r.id == id),
        {
            r.id == id
        };
        let at = find_where(
            &self.cells,
            test,
            Ghost(cell_is(id)),
        );
        proof {
            if let Some(i) = at {
                assert(cell_is(id)(self@.cells[i as int]));
            }
        }
        at.is_some()
    }

    /// Puts the row of a cell in place of that of the same identity, or behind the
    /// others.
    pub fn put_cell_row(&mut self, row: CellRow)
        requires
            old(self)@.wf(),
        ensures
            final(self)@ == old(self)@.cell_put(row@),
            final(self)@.wf(),
    {
        let ghost m = self@;
        let ghost r = row@;
        let id: Uuid = row.id;
        let test = |r: &CellRow| -> (b: bool)
            ensures
                b == (r.id == id),
        {
            r.id == id
        };
        let at = find_where(
            &self.cells,
            test,
            Ghost(cell_is(id)),
        );
        match at {
            Some(i) => {
                self.cells.set(i, row);
                assert(self@.cells =~= m.cells.update(i as int, r));
            },
            None => {
                self.cells.push(row);
                assert(self@.cells =~= m.cells.push(r));
            },
        }
        proof {
            assert(self@ =~= m.cell_put(r));
            lemma_put_cell(m.cells, r);
            lemma_same_pointers(m, self@);
        }
    }

    /// Takes `name` as a tag that is known.
    pub fn put_tag(&mut self, name: &str)
        requires
            old(self)@.wf(),
        ensures
            final(self)@ == (DbModel { tags: with_name(old(self)@.tags, utf8(name@)), ..old(self)@ }),
            final(self)@.wf(),
    {
        let ghost m = self@;
        let ghost n = utf8(name@);
        let test = |t: &TagName| -> (b: bool)
            ensures
                b == (t@ == utf8(name@)),
        {
            text::same(t.name.as_str(), name)
        };
        let at = find_where(
            &self.tags,
            test,
            Ghost(|t: Seq<u8>| t == n),
        );
        match at {
            Some(i) => {
                assert(m.tags[i as int] == n);
                assert(m.tags.contains(n));
            },
            None => {
                assert(!m.tags.contains(n)) by {
                    if m.tags.contains(n) {
                        let k = choose|k: int| 0 <= k < m.tags.len() && m.tags[k] == n;
                        assert((|t: Seq<u8>| t == n)(m.tags[k]));
                    }
                }
                self.tags.push(TagName { name: text::copy(name) });
                assert(self@.tags =~= m.tags.push(n));
            },
        }
        proof {
            assert(self@ =~= DbModel { tags: with_name(m.tags, n), ..m });
            lemma_more_tags(m, n);
        }
    }

    /// Makes `names` the tags that the cell `id` carries.
    pub(crate) fn write_cell_tags(&mut self, id: Uuid, names: &Vec<String>) -> (r: Result<(), DbError>)
        requires
            old(self)@.wf(),
            distinct(bytes_of(names@), equal()),
        ensures
            match r {
                Ok(_) => (names@.len() > 0 ==> old(self)@.has_cell(id)) && final(self)@ == old(
                    self,
                )@.cell_tagged(id, bytes_of(names@)),
                Err(e) => e == DbError::Missing && names@.len() > 0 && !old(self)@.has_cell(id)
                    && final(self)@ == old(self)@,
            },
            final(self)@.wf(),
    {
        let ghost m = self@;
        let ghost ns = bytes_of(names@);
        if names.len() > 0 && !self.has_cell(id) {
            return Err(DbError::Missing);
        }
        let ghost keep = |t: CellTagModel| t.cell_id != id;
        let test = |t: &CellTag| -> (b: bool)
            ensures
                b == (t.cell_id != id),
        {
            t.cell_id != id
        };
        retain_where(
            &mut self.cell_tags,
            test,
            Ghost(keep),
        );
        let ghost kept = m.cell_tags.filter(keep);
        let ghost tagging = |n: Seq<u8>| CellTagModel { cell_id: id, name: n };
        proof {
            lemma_cell_untagged(m, id);
            assert(self@ =~= DbModel { cell_tags: kept, ..m });
            assert(ns.subrange(0, 0) =~= Seq::empty());
            assert(kept + ns.subrange(0, 0).map_values(tagging) =~= kept);
        }
        let mut i: usize = 0;
        while i < names.len()
            invariant
                i <= names.len(),
                ns == bytes_of(names@),
                distinct(ns, equal()),
                names@.len() > 0 ==> m.has_cell(id),
                keep == (|t: CellTagModel| t.cell_id != id),
                kept == m.cell_tags.filter(keep),
                tagging == (|n: Seq<u8>| CellTagModel { cell_id: id, name: n }),
                self@ == (DbModel {
                    tags: m.tags_known(ns.subrange(0, i as int)),
                    cell_tags: kept + ns.subrange(0, i as int).map_values(tagging),
                    ..m
                }),
                self@.wf(),
            decreases names.len() - i,
        {
            let ghost upto = ns.subrange(0, i + 1);
            let ghost n = ns[i as int];
            proof {
                assert(upto.drop_last() =~= ns.subrange(0, i as int));
                assert(upto.last() == n);
                assert(n == utf8(names@[i as int]@));
            }
            self.put_tag(names[i].as_str());
            let ghost before = self@;
            assert(before.tags.contains(n)) by {
                let known = m.tags_known(ns.subrange(0, i as int));
                if !known.contains(n) {
                    assert(before.tags == known.push(n));
                    assert(before.tags[known.len() as int] == n);
                }
            }
            self.cell_tags.push(CellTag { cell_id: id, name: text::copy(names[i].as_str()) });
            proof {
                let t = tagging(n);
                assert(self@.cell_tags =~= before.cell_tags.push(t));
                assert(self@.cell_tags =~= kept + upto.map_values(tagging));
                assert(self@ =~= DbModel {
                    tags: m.tags_known(upto),
                    cell_tags: kept + upto.map_values(tagging),
                    ..m
                });
                lemma_tag_pushed(m, before, id, n, keep, ns, i as int);
            }
            i += 1;
        }
        proof {
            assert(ns.subrange(0, i as int) =~= ns);
            assert(self@ =~= m.cell_tagged(id, ns));
        }
        Ok(())
    }

    /// The tags of the cell `id`, in the order of their bytes.
    pub fn tags_for_cell(&self, id: Uuid) -> (names: Vec<String>)
        ensures
            bytes_of(names@) == sorted_names(
                tags_carried(self@.cell_tags, id, self@.cell_tags.len() as int),
            ),
    {
        let ghost ts = self@.cell_tags;
        let mut out: Vec<String> = Vec::new();
        let mut i: usize = 0;
        assert(bytes_of(out@) =~= Seq::empty());
        while i < self.cell_tags.len()
            invariant
                i <= self.cell_tags.len(),
                ts == views(self.cell_tags@),
                bytes_of(out@) == sorted_names(tags_carried(ts, id, i as int)),
            decreases self.cell_tags.len() - i,
        {
            let t = &self.cell_tags[i];
            assert(ts[i as int] == t@);
            if t.cell_id == id {
                proof {
                    let before = tags_carried(ts, id, i as int);
                    let upto = before.push(t@.name);
                    assert(upto.drop_last() =~= before);
                }
                insert_sorted(&mut out, t.name.as_str());
            }
            i += 1;
        }
        out
    }

    /// The cells that carry the tag `name`, in the order of the stream.
    pub fn cells_with_tag(&self, name: &str) -> (ids: Vec<Uuid>)
        ensures
            ids@ == tagged_cells(self@, utf8(name@)).map_values(|r: CellRowModel| r.id),
    {
        let ghost n = utf8(name@);
        let ghost rows = self@.cells;
        let keys = self.cell_times();
        let order = ordered(&keys);
        let ghost all = in_order_of(rows, keys@);
        let ghost p = carries(self@, n);
        let ghost id_of = |r: CellRowModel| r.id;
        let mut out: Vec<Uuid> = Vec::new();
        let mut i: usize = 0;
        proof {
            reveal(Seq::filter);
            assert(all.subrange(0, 0).filter(p).map_values(id_of) =~= Seq::empty());
            assert(out@ =~= Seq::empty());
            assert(keys@ =~= cell_times(self@));
        }
        while i < order.len()
            invariant
                i <= order.len(),
                rows == views(self.cells@),
                n == utf8(name@),
                keys@.len() == rows.len(),
                order@.len() == rows.len(),
                forall|k: int| 0 <= k < order@.len() ==> (#[trigger] order@[k]) < keys@.len(),
                places(order@) == order_of(keys@, keys@.len() as int),
                all == in_order_of(rows, keys@),
                all.len() == order@.len(),
                p == carries(self@, n),
                id_of == (|r: CellRowModel| r.id),
                out@ == all.subrange(0, i as int).filter(p).map_values(id_of),
            decreases order.len() - i,
        {
            let row = &self.cells[order[i]];
            let ghost held = out@;
            proof {
                reveal(Seq::filter);
                assert(places(order@)[i as int] == order@[i as int]);
                assert(all[i as int] == row@);
                assert(all.subrange(0, i + 1).drop_last() =~= all.subrange(0, i as int));
                assert(all.subrange(0, i + 1).last() == row@);
            }
            let ghost id = row@.id;
            let cell_id: Uuid = row.id;
            let test = |t: &CellTag| -> (b: bool)
                ensures
                    b == (t@ == (CellTagModel { cell_id, name: utf8(name@) })),
            {
                t.cell_id == cell_id && text::same(t.name.as_str(), name)
            };
            let at = find_where(
                &self.cell_tags,
                test,
                Ghost(|t: CellTagModel| t == (CellTagModel { cell_id: id, name: n })),
            );
            proof {
                let t = CellTagModel { cell_id: id, name: n };
                let q = |x: CellTagModel| x == t;
                match at {
                    Some(k) => {
                        assert(self@.cell_tags[k as int] == t);
                        assert(self@.cell_tags.contains(t));
                    },
                    None => {
                        if self@.cell_tags.contains(t) {
                            let k = choose|k: int|
                                0 <= k < self@.cell_tags.len() && self@.cell_tags[k] == t;
                            assert(q(self@.cell_tags[k]));
                        }
                    },
                }
            }
            if at.is_some() {
                out.push(cell_id);
                proof {
                    let f = all.subrange(0, i as int).filter(p);
                    assert(f.push(row@).map_values(id_of) =~= f.map_values(id_of).push(id));
                }
            }
            i += 1;
        }
        assert(all.subrange(0, i as int) =~= all);
        out
    }

    fn cell_times(&self) -> (keys: Vec<i64>)
        ensures
            keys@ == cell_times(self@),
    {
        let mut keys: Vec<i64> = Vec::new();
        let mut i: usize = 0;
        while i < self.cells.len()
            invariant
                i <= self.cells.len(),
                keys@.len() == i,
                forall|k: int| 0 <= k < i ==> keys@[k] == (#[trigger] self.cells@[k]).timestamp,
            decreases self.cells.len() - i,
        {
            keys.push(self.cells[i].timestamp);
            i += 1;
        }
        assert(keys@ =~= cell_times(self@));
        keys
    }

    /// The rows of cells, in the order of their time stamps.
    pub fn cell_rows(&self) -> (rows: Vec<CellRow>)
        ensures
            views(rows@) == in_order_of(self@.cells, cell_times(self@)),
    {
        let keys = self.cell_times();
        let order = ordered(&keys);
        let mut out: Vec<CellRow> = Vec::new();
        let mut i: usize = 0;
        while i < order.len()
            invariant
                i <= order.len(),
                order@.len() == self.cells@.len(),
                forall|k: int| 0 <= k < order@.len() ==> (#[trigger] order@[k]) < self.cells@.len(),
                out@.len() == i,
                forall|k: int|
                    0 <= k < i ==> (#[trigger] out@[k])@ == self@.cells[order@[k] as int],
            decreases order.len() - i,
        {
            out.push(self.cells[order[i]].clone());
            i += 1;
        }
        proof {
            let o = order_of(keys@, keys@.len() as int);
            assert forall|k: int| 0 <= k < out@.len() implies views(out@)[k] == in_order_of(
                self@.cells,
                cell_times(self@),
            )[k] by {
                assert(places(order@)[k] == order@[k]);
            }
            assert(views(out@) =~= in_order_of(self@.cells, cell_times(self@)));
        }
        out
    }

    /// The cells, in the order of their time stamps, loaded at `now`. None of them
    /// where one cannot be loaded: then why the first of those cannot.
    pub fn load_cells(&self, now: u64) -> (r: Result<Vec<Cell>, LoadError>)
        ensures
            ({
                let rows = in_order_of(self@.cells, cell_times(self@));
                match r {
                    Ok(v) => v@.len() == rows.len() && forall|i: int|
                        0 <= i < rows.len() ==> loads(#[trigger] rows[i], now, v@[i].model())
                            && v@[i].model().wf(),
                    Err(e) => exists|i: int|
                        0 <= i < rows.len() && load_fault(#[trigger] rows[i]) == Some(e) && (
                        forall|k: int|
                            0 <= k < i ==> load_fault(#[trigger] rows[k]) is None),
                }
            }),
    {
        let rows = self.cell_rows();
        let ghost rs = views(rows@);
        let mut out: Vec<Cell> = Vec::new();
        let mut i: usize = 0;
        while i < rows.len()
            invariant
                i <= rows.len(),
                rs == views(rows@),
                rs == in_order_of(self@.cells, cell_times(self@)),
                out@.len() == i,
                forall|k: int|
                    0 <= k < i ==> loads(#[trigger] rs[k], now, out@[k].model()) && out@[k].model().wf(),
                forall|k: int| 0 <= k < i ==> load_fault(#[trigger] rs[k]) is None,
            decreases rows.len() - i,
        {
            assert(rs[i as int] == rows@[i as int]@);
            match rows[i].load(now) {
                Ok(c) => {
                    out.push(c);
                },
                Err(e) => {
                    assert(load_fault(rs[i as int]) == Some(e));
                    return Err(e);
                },
            }
            i += 1;
        }
        Ok(out)
    }

    /// Forgets the tag `name`, on whatever cell.
    pub fn delete_tag(&mut self, name: &str)
        requires
            old(self)@.wf(),
        ensures
            final(self)@ == old(self)@.tag_dropped(utf8(name@)),
            final(self)@.wf(),
    {
        let ghost m = self@;
        let ghost n = utf8(name@);
        let test = |t: &TagName| -> (b: bool)
            ensures
                b == (t@ != utf8(name@)),
        {
            !text::same(t.name.as_str(), name)
        };
        retain_where(
            &mut self.tags,
            test,
            Ghost(other_than(n)),
        );
        let test = |t: &CellTag| -> (b: bool)
            ensures
                b == (t@.name != utf8(name@)),
        {
            !text::same(t.name.as_str(), name)
        };
        retain_where(
            &mut self.cell_tags,
            test,
            Ghost(names_other(n)),
        );
        proof {
            assert(self@ =~= m.tag_dropped(n));
            lemma_tag_dropped(m, n);
        }
    }

    fn drop_pointers_at_cells(&mut self)
        ensures
            final(self)@ == (DbModel {
                cell_tags: old(self)@.cell_tags.filter(
                    |t: CellTagModel| any_where(old(self)@.cells, cell_is(t.cell_id)),
                ),
                memberships: old(self)@.memberships.filter(
                    |m: ThreadMembership| any_where(old(self)@.cells, cell_is(m.target.cell_id())),
                ),
                ..old(self)@
            }),
    {
        let ghost m = self@;
        let cells = &self.cells;
        let ghost cs = m.cells;
        let test = |t: &CellTag| -> (b: bool)
            ensures
                b == any_where(views(cells@), cell_is(t@.cell_id)),
        {
            among_cells(cells, t.cell_id)
        };
        retain_where(
            &mut self.cell_tags,
            test,
            Ghost(|t: CellTagModel| any_where(cs, cell_is(t.cell_id))),
        );
        let test = |x: &ThreadMembership| -> (b: bool)
            ensures
                b == any_where(views(cells@), cell_is(x@.target.cell_id())),
        {
            among_cells(cells, x.target.cell_id())
        };
        retain_where(
            &mut self.memberships,
            test,
            Ghost(|x: ThreadMembership| any_where(cs, cell_is(x.target.cell_id()))),
        );
        assert(self@.cell_tags =~= m.cell_tags.filter(
            |t: CellTagModel| any_where(m.cells, cell_is(t.cell_id)),
        ));
    }

    /// Drops the scratch cells that are older than `expire_before_ms`, with their tags
    /// and memberships. Gives back which they were.
    pub fn prune_expired_scratch(&mut self, expire_before_ms: i64) -> (ids: Vec<Uuid>)
        requires
            old(self)@.wf(),
        ensures
            ids@ == old(self)@.cells.filter(
                |r: CellRowModel| r.scratch && r.timestamp < expire_before_ms,
            ).map_values(|r: CellRowModel| r.id),
            final(self)@ == old(self)@.cells_kept(
                |r: CellRowModel| !(r.scratch && r.timestamp < expire_before_ms),
            ),
            final(self)@.wf(),
    {
        let ghost m = self@;
        let ghost cs = m.cells;
        let ghost p = |r: CellRowModel| r.scratch && r.timestamp < expire_before_ms;
        let ghost id_of = |r: CellRowModel| r.id;
        let mut ids: Vec<Uuid> = Vec::new();
        let mut i: usize = 0;
        proof {
            reveal(Seq::filter);
            assert(cs.subrange(0, 0).filter(p).map_values(id_of) =~= Seq::empty());
            assert(ids@ =~= Seq::empty());
        }
        while i < self.cells.len()
            invariant
                i <= self.cells.len(),
                self@ == m,
                cs == views(self.cells@),
                p == (|r: CellRowModel| r.scratch && r.timestamp < expire_before_ms),
                id_of == (|r: CellRowModel| r.id),
                ids@ == cs.subrange(0, i as int).filter(p).map_values(id_of),
            decreases self.cells.len() - i,
        {
            let r = &self.cells[i];
            proof {
                reveal(Seq::filter);
                assert(cs[i as int] == r@);
                assert(cs.subrange(0, i + 1).drop_last() =~= cs.subrange(0, i as int));
                assert(cs.subrange(0, i + 1).last() == r@);
            }
            if r.scratch && r.timestamp < expire_before_ms {
                ids.push(r.id);
                proof {
                    let f = cs.subrange(0, i as int).filter(p);
                    assert(f.push(r@).map_values(id_of) =~= f.map_values(id_of).push(r@.id));
                }
            }
            i += 1;
        }
        assert(cs.subrange(0, i as int) =~= cs);
        let ghost keep = |r: CellRowModel| !(r.scratch && r.timestamp < expire_before_ms);
        let test = |r: &CellRow| -> (b: bool)
            ensures
                b == !(r@.scratch && r@.timestamp < expire_before_ms),
        {
            !(r.scratch && r.timestamp < expire_before_ms)
        };
        retain_where(
            &mut self.cells,
            test,
            Ghost(keep),
        );
        self.drop_pointers_at_cells();
        proof {
            assert(self@ =~= m.cells_kept(keep));
            lemma_cells_kept(m, keep);
        }
        ids
    }

    /// Drops the row of the cell `id`, with its tags and memberships.
    pub fn drop_cell_row(&mut self, id: Uuid)
        requires
            old(self)@.wf(),
        ensures
            final(self)@ == old(self)@.cells_kept(|r: CellRowModel| r.id != id),
            final(self)@.wf(),
    {
        let ghost m = self@;
        let ghost keep = |r: CellRowModel| r.id != id;
        let test = |r: &CellRow| -> (b: bool)
            ensures
                b == (r@.id != id),
        {
            r.id != id
        };
        retain_where(
            &mut self.cells,
            test,
            Ghost(keep),
        );
        self.drop_pointers_at_cells();
        proof {
            assert(self@ =~= m.cells_kept(keep));
            lemma_cells_kept(m, keep);
        }
    }

    /// The contexts, in the order of their starts.
    pub fn load_contexts(&self) -> (rows: Vec<ContextRow>)
        ensures
            views(rows@) == in_order_of(self@.contexts, context_times(self@)),
    {
        let mut keys: Vec<i64> = Vec::new();
        let mut i: usize = 0;
        while i < self.contexts.len()
            invariant
                i <= self.contexts.len(),
                keys@.len() == i,
                forall|k: int| 0 <= k < i ==> keys@[k] == (#[trigger] self.contexts@[k]).start_time,
            decreases self.contexts.len() - i,
        {
            keys.push(self.contexts[i].start_time);
            i += 1;
        }
        assert(keys@ =~= context_times(self@));
        let order = ordered(&keys);
        let mut out: Vec<ContextRow> = Vec::new();
        i = 0;
        while i < order.len()
            invariant
                i <= order.len(),
                order@.len() == self.contexts@.len(),
                forall|k: int|
                    0 <= k < order@.len() ==> (#[trigger] order@[k]) < self.contexts@.len(),
                out@.len() == i,
                forall|k: int|
                    0 <= k < i ==> (#[trigger] out@[k])@ == self@.contexts[order@[k] as int],
            decreases order.len() - i,
        {
            out.push(self.contexts[order[i]].clone());
            i += 1;
        }
        proof {
            assert forall|k: int| 0 <= k < out@.len() implies views(out@)[k] == in_order_of(
                self@.contexts,
                context_times(self@),
            )[k] by {
                assert(places(order@)[k] == order@[k]);
            }
            assert(views(out@) =~= in_order_of(self@.contexts, context_times(self@)));
        }
        out
    }

    /// Puts a context in place of that of the same identity, or behind the others.
    pub fn save_context(&mut self, ctx: &ContextRef<'_>)
        requires
            old(self)@.wf(),
        ensures
            final(self)@ == old(self)@.context_put(ctx@),
            final(self)@.wf(),
    {
        let ghost m = self@;
        let ghost c = ctx@;
        let id: Uuid = ctx.id;
        let row = ContextRow {
            id,
            start_time: ctx.start_time,
            end_time: ctx.end_time,
            title: match ctx.title {
                Some(t) => Some(text::copy(t)),
                None => None,
            },
        };
        assert(row@ =~= c);
        let test = |r: &ContextRow| -> (b: bool)
            ensures
                b == (r.id == id),
        {
            r.id == id
        };
        let at = find_where(
            &self.contexts,
            test,
            Ghost(context_is(id)),
        );
        match at {
            Some(i) => {
                self.contexts.set(i, row);
                assert(self@.contexts =~= m.contexts.update(i as int, c));
            },
            None => {
                self.contexts.push(row);
                assert(self@.contexts =~= m.contexts.push(c));
            },
        }
        proof {
            assert(self@ =~= m.context_put(c));
            let s = m.contexts;
            let all = self@.contexts;
            let p = context_is(id);
            let k = place_where(s, p, 0);
            lemma_place_where(s, p, 0);
            assert forall|i: int, j: int| 0 <= i < j < all.len() implies !same_context()(
                #[trigger] all[i],
                #[trigger] all[j],
            ) by {
                if k < s.len() {
                    assert(!same_context()(s[i], s[j]));
                    assert(s[k].id == id);
                } else if j < s.len() {
                    assert(!same_context()(s[i], s[j]));
                } else {
                    assert(!p(s[i]));
                }
            }
            lemma_same_pointers(m, self@);
        }
    }

    /// Drops the context `id`.
    pub fn delete_context(&mut self, id: Uuid)
        requires
            old(self)@.wf(),
        ensures
            final(self)@ == (DbModel {
                contexts: old(self)@.contexts.filter(|c: ContextModel| c.id != id),
                ..old(self)@
            }),
            final(self)@.wf(),
    {
        let ghost m = self@;
        let ghost keep = |c: ContextModel| c.id != id;
        let test = |c: &ContextRow| -> (b: bool)
            ensures
                b == (c@.id != id),
        {
            c.id != id
        };
        retain_where(
            &mut self.contexts,
            test,
            Ghost(keep),
        );
        proof {
            lemma_filter_distinct(m.contexts, keep, same_context());
            lemma_same_pointers(m, self@);
        }
    }
}

fn among_cells(cells: &Vec<CellRow>, id: Uuid) -> (r: bool)
    ensures
        r == any_where(views(cells@), cell_is(id)),
{
    let test = |r: &CellRow| -> (b: bool)
        ensures
            b == (r.id == id),
    {
        r.id == id
    };
    let at = find_where(
        cells,
        test,
        Ghost(cell_is(id)),
    );
    proof {
        if let Some(i) = at {
            assert(cell_is(id)(views(cells@)[i as int]));
        }
    }
    at.is_some()
}

/// The time stamps of the cells.
pub open spec fn cell_times(m: DbModel) -> Seq<i64> {
    m.cells.map_values(|r: CellRowModel| r.timestamp)
}

/// The starts of the contexts.
pub open spec fn context_times(m: DbModel) -> Seq<i64> {
    m.contexts.map_values(|r: ContextModel| r.start_time)
}

/// The cell carries the tag `name`.
pub open spec fn carries(m: DbModel, name: Seq<u8>) -> spec_fn(CellRowModel) -> bool {
    |r: CellRowModel| m.cell_tags.contains(CellTagModel { cell_id: r.id, name })
}

/// The cells that carry the tag `name`, in the order of their time stamps.
pub open spec fn tagged_cells(m: DbModel, name: Seq<u8>) -> Seq<CellRowModel> {
    in_order_of(m.cells, cell_times(m)).filter(carries(m, name))
}

/// The tags that the first `n` rows give the cell `id`.
pub open spec fn tags_carried(ts: Seq<CellTagModel>, id: Uuid, n: int) -> Seq<Seq<u8>>
    decreases n,
{
    if n <= 0 {
        Seq::empty()
    } else if ts[n - 1].cell_id == id {
        tags_carried(ts, id, n - 1).push(ts[n - 1].name)
    } else {
        tags_carried(ts, id, n - 1)
    }
}

/// The row cannot be loaded, and why.
pub open spec fn load_fault(r: CellRowModel) -> Option<LoadError> {
    match persisted_read(r.body) {
        Some(p) => if persisted_sits(p, LOADED as int) {
            None
        } else {
            Some(LoadError::Tag)
        },
        None => Some(LoadError::Body),
    }
}

/// The row can be loaded, and `c` is the cell that comes of it.
pub open spec fn loads(r: CellRowModel, now: u64, c: CellModel) -> bool {
    load_fault(r) is None && exists|ids: (Uuid, Uuid)|
        c == #[trigger] loaded_cell(r, persisted_read(r.body)->0, ids, now)
}

/// Byte by byte, `a` comes before `b`, or they are equal.
pub open spec fn bytes_in_order(a: Seq<u8>, b: Seq<u8>, k: int) -> bool
    decreases a.len() - k,
{
    if k >= a.len() || k < 0 {
        true
    } else if k >= b.len() {
        false
    } else if a[k] != b[k] {
        a[k] < b[k]
    } else {
        bytes_in_order(a, b, k + 1)
    }
}

/// `name` put among names in order, behind those that come before it.
pub open spec fn put_name(names: Seq<Seq<u8>>, name: Seq<u8>) -> Seq<Seq<u8>>
    decreases names.len(),
{
    if names.len() == 0 || bytes_in_order(names.last(), name, 0) {
        names.push(name)
    } else {
        put_name(names.drop_last(), name).push(names.last())
    }
}

/// The names in the order of their bytes.
pub open spec fn sorted_names(names: Seq<Seq<u8>>) -> Seq<Seq<u8>>
    decreases names.len(),
{
    if names.len() == 0 {
        Seq::empty()
    } else {
        put_name(sorted_names(names.drop_last()), names.last())
    }
}

fn is_in_order(a: &str, b: &str) -> (r: bool)
    ensures
        r == bytes_in_order(utf8(a@), utf8(b@), 0),
{
    let ghost (x, y) = (utf8(a@), utf8(b@));
    let n: usize = text::len(a);
    let m: usize = text::len(b);
    let mut k: usize = 0;
    while k < n
        invariant
            k <= n,
            x == utf8(a@),
            y == utf8(b@),
            n == x.len(),
            m == y.len(),
            bytes_in_order(x, y, 0) == bytes_in_order(x, y, k as int),
        decreases n - k,
    {
        if k >= m {
            return false;
        }
        let (c, d): (u8, u8) = (text::byte_at(a, k), text::byte_at(b, k));
        if c != d {
            return c < d;
        }
        k += 1;
    }
    true
}

proof fn lemma_put_name_at(names: Seq<Seq<u8>>, name: Seq<u8>, at: int)
    requires
        0 <= at <= names.len(),
        at > 0 ==> bytes_in_order(names[at - 1], name, 0),
        forall|k: int| at <= k < names.len() ==> !bytes_in_order(#[trigger] names[k], name, 0),
    ensures
        put_name(names, name) == names.insert(at, name),
    decreases names.len(),
{
    if at == names.len() {
        assert(names.insert(at, name) =~= names.push(name));
    } else {
        let before = names.drop_last();
        assert(!bytes_in_order(names[names.len() - 1], name, 0));
        assert forall|k: int| at <= k < before.len() implies !bytes_in_order(
            #[trigger] before[k],
            name,
            0,
        ) by {
            assert(before[k] == names[k]);
        }
        lemma_put_name_at(before, name, at);
        assert(names.insert(at, name) =~= before.insert(at, name).push(names.last()));
    }
}

fn insert_sorted(names: &mut Vec<String>, name: &str)
    ensures
        bytes_of(final(names)@) == put_name(bytes_of(old(names)@), utf8(name@)),
{
    let ghost ns = bytes_of(names@);
    let mut at: usize = names.len();
    let mut more: bool = true;
    while more
        invariant
            at <= names@.len(),
            ns == bytes_of(names@),
            forall|k: int|
                at <= k < ns.len() ==> !bytes_in_order(#[trigger] ns[k], utf8(name@), 0),
            !more ==> (at > 0 ==> bytes_in_order(ns[at - 1], utf8(name@), 0)),
        decreases
            at,
            if more {
                1int
            } else {
                0int
            },
    {
        if at == 0 {
            more = false;
        } else {
            assert(ns[at - 1] == utf8(names@[at - 1]@));
            if is_in_order(names[at - 1].as_str(), name) {
                more = false;
            } else {
                at = at - 1;
            }
        }
    }
    proof {
        lemma_put_name_at(ns, utf8(name@), at as int);
    }
    names.insert(at, text::copy(name));
    assert(bytes_of(names@) =~= ns.insert(at as int, utf8(name@)));
}

// ---------------------------------------------------------------------------
// Nothing points at what is not there
// ---------------------------------------------------------------------------

/// Where every row that pointers point at is still found, and pointers are as they
/// were, nothing points at what is not there.
pub proof fn lemma_same_pointers(m: DbModel, n: DbModel)
    requires
        m.wf(),
        distinct(n.cells, same_cell()),
        distinct(n.contexts, same_context()),
        n.tags == m.tags,
        n.cell_tags == m.cell_tags,
        n.entities == m.entities,
        n.aliases == m.aliases,
        n.threads == m.threads,
        n.memberships == m.memberships,
        forall|id: Uuid| m.has_cell(id) ==> #[trigger] n.has_cell(id),
    ensures
        n.wf(),
{
    assert forall|i: int| 0 <= i < n.cell_tags.len() implies n.has_cell(
        (#[trigger] n.cell_tags[i]).cell_id,
    ) && n.tags.contains(n.cell_tags[i].name) by {
        assert(m.has_cell(m.cell_tags[i].cell_id));
    }
    assert forall|i: int| 0 <= i < n.aliases.len() implies n.has_entity(
        (#[trigger] n.aliases[i]).entity_id,
    ) by {
        assert(m.has_entity(m.aliases[i].entity_id));
    }
    assert forall|i: int| 0 <= i < n.memberships.len() implies n.has_thread(
        (#[trigger] n.memberships[i]).thread_id,
    ) && n.has_cell(n.memberships[i].target.cell_id()) by {
        assert(m.has_thread(m.memberships[i].thread_id));
        assert(m.has_cell(m.memberships[i].target.cell_id()));
    }
}

proof fn lemma_more_tags(m: DbModel, name: Seq<u8>)
    requires
        m.wf(),
    ensures
        (DbModel { tags: with_name(m.tags, name), ..m }).wf(),
{
    let n = DbModel { tags: with_name(m.tags, name), ..m };
    assert forall|i: int, j: int| 0 <= i < j < n.tags.len() implies !equal()(
        #[trigger] n.tags[i],
        #[trigger] n.tags[j],
    ) by {
        if j < m.tags.len() {
            assert(!equal()(m.tags[i], m.tags[j]));
        } else {
            assert(m.tags.contains(m.tags[i]));
        }
    }
    assert forall|i: int| 0 <= i < n.cell_tags.len() implies n.has_cell(
        (#[trigger] n.cell_tags[i]).cell_id,
    ) && n.tags.contains(n.cell_tags[i].name) by {
        assert(m.has_cell(m.cell_tags[i].cell_id));
        assert(m.tags.contains(m.cell_tags[i].name));
        let k = choose|k: int| 0 <= k < m.tags.len() && m.tags[k] == m.cell_tags[i].name;
        assert(n.tags[k] == m.cell_tags[i].name);
    }
    assert forall|i: int| 0 <= i < n.aliases.len() implies n.has_entity(
        (#[trigger] n.aliases[i]).entity_id,
    ) by {
        assert(m.has_entity(m.aliases[i].entity_id));
    }
    assert forall|i: int| 0 <= i < n.memberships.len() implies n.has_thread(
        (#[trigger] n.memberships[i]).thread_id,
    ) && n.has_cell(n.memberships[i].target.cell_id()) by {
        assert(m.has_thread(m.memberships[i].thread_id));
        assert(m.has_cell(m.memberships[i].target.cell_id()));
    }
}

/// Dropping rows that point leaves nothing that points at what is not there.
pub proof fn lemma_fewer_pointers(
    m: DbModel,
    p: spec_fn(CellTagModel) -> bool,
    q: spec_fn(ThreadMembership) -> bool,
)
    requires
        m.wf(),
    ensures
        (DbModel { cell_tags: m.cell_tags.filter(p), memberships: m.memberships.filter(q), ..m }).wf(),
{
    let n = DbModel {
        cell_tags: m.cell_tags.filter(p),
        memberships: m.memberships.filter(q),
        ..m
    };
    lemma_filter_distinct(m.cell_tags, p, equal());
    lemma_filter_distinct(m.memberships, q, same_membership());
    assert forall|i: int| 0 <= i < n.cell_tags.len() implies n.has_cell(
        (#[trigger] n.cell_tags[i]).cell_id,
    ) && n.tags.contains(n.cell_tags[i].name) by {
        lemma_filter_from(m.cell_tags, p, i);
        let k = choose|k: int| 0 <= k < m.cell_tags.len() && m.cell_tags[k] == n.cell_tags[i];
        assert(m.has_cell(m.cell_tags[k].cell_id));
    }
    assert forall|i: int| 0 <= i < n.memberships.len() implies n.has_thread(
        (#[trigger] n.memberships[i]).thread_id,
    ) && n.has_cell(n.memberships[i].target.cell_id()) by {
        lemma_filter_from(m.memberships, q, i);
        let k = choose|k: int|
            0 <= k < m.memberships.len() && m.memberships[k] == n.memberships[i];
        assert(m.has_thread(m.memberships[k].thread_id));
    }
}

proof fn lemma_cell_untagged(m: DbModel, id: Uuid)
    requires
        m.wf(),
    ensures
        (DbModel { cell_tags: m.cell_tags.filter(|t: CellTagModel| t.cell_id != id), ..m }).wf(),
{
    let p = |t: CellTagModel| t.cell_id != id;
    let q = |x: ThreadMembership| true;
    lemma_fewer_pointers(m, p, q);
    lemma_filter_all(m.memberships, q);
}

/// Dropping no row leaves the rows as they are.
pub proof fn lemma_filter_all<A>(s: Seq<A>, p: spec_fn(A) -> bool)
    requires
        forall|i: int| 0 <= i < s.len() ==> p(#[trigger] s[i]),
    ensures
        s.filter(p) == s,
    decreases s.len(),
{
    reveal(Seq::filter);
    if s.len() > 0 {
        let before = s.drop_last();
        assert forall|i: int| 0 <= i < before.len() implies p(#[trigger] before[i]) by {
            assert(before[i] == s[i]);
        }
        lemma_filter_all(before, p);
        assert(p(s[s.len() - 1]));
        assert(before.push(s.last()) =~= s);
    } else {
        assert(s =~= Seq::empty());
    }
}

proof fn lemma_tag_pushed(
    m: DbModel,
    before: DbModel,
    id: Uuid,
    name: Seq<u8>,
    keep: spec_fn(CellTagModel) -> bool,
    ns: Seq<Seq<u8>>,
    i: int,
)
    requires
        before.wf(),
        before.has_cell(id),
        before.tags.contains(name),
        keep == (|t: CellTagModel| t.cell_id != id),
        0 <= i < ns.len(),
        ns[i] == name,
        distinct(ns, equal()),
        before.cell_tags == m.cell_tags.filter(keep) + ns.subrange(0, i).map_values(
            |n: Seq<u8>| CellTagModel { cell_id: id, name: n },
        ),
    ensures
        (DbModel {
            cell_tags: before.cell_tags.push(CellTagModel { cell_id: id, name }),
            ..before
        }).wf(),
{
    let t = CellTagModel { cell_id: id, name };
    let kept = m.cell_tags.filter(keep);
    let all = before.cell_tags.push(t);
    let n = DbModel { cell_tags: all, ..before };
    assert forall|a: int, b: int| 0 <= a < b < all.len() implies !equal()(
        #[trigger] all[a],
        #[trigger] all[b],
    ) by {
        if b < before.cell_tags.len() {
            assert(!equal()(before.cell_tags[a], before.cell_tags[b]));
        } else if a < kept.len() {
            lemma_filter_from(m.cell_tags, keep, a);
            assert(keep(kept[a]));
        } else {
            let k = a - kept.len();
            assert(all[a].name == ns[k]);
            assert(!equal()(ns[k], ns[i]));
        }
    }
    assert forall|a: int| 0 <= a < n.cell_tags.len() implies n.has_cell(
        (#[trigger] n.cell_tags[a]).cell_id,
    ) && n.tags.contains(n.cell_tags[a].name) by {
        if a < before.cell_tags.len() {
            assert(before.has_cell(before.cell_tags[a].cell_id));
        }
    }
    assert forall|a: int| 0 <= a < n.aliases.len() implies n.has_entity(
        (#[trigger] n.aliases[a]).entity_id,
    ) by {
        assert(before.has_entity(before.aliases[a].entity_id));
    }
    assert forall|a: int| 0 <= a < n.memberships.len() implies n.has_thread(
        (#[trigger] n.memberships[a]).thread_id,
    ) && n.has_cell(n.memberships[a].target.cell_id()) by {
        assert(before.has_thread(before.memberships[a].thread_id));
        assert(before.has_cell(before.memberships[a].target.cell_id()));
    }
}

proof fn lemma_tag_dropped(m: DbModel, name: Seq<u8>)
    requires
        m.wf(),
    ensures
        m.tag_dropped(name).wf(),
{
    let keep = other_than(name);
    let p = names_other(name);
    let q = |x: ThreadMembership| true;
    lemma_fewer_pointers(m, p, q);
    lemma_filter_all(m.memberships, q);
    let mid = DbModel { cell_tags: m.cell_tags.filter(p), ..m };
    assert(mid.wf());
    lemma_filter_distinct(m.tags, keep, equal());
    let n = m.tag_dropped(name);
    assert forall|i: int| 0 <= i < n.cell_tags.len() implies n.has_cell(
        (#[trigger] n.cell_tags[i]).cell_id,
    ) && n.tags.contains(n.cell_tags[i].name) by {
        assert(mid.has_cell(mid.cell_tags[i].cell_id));
        assert(mid.tags.contains(mid.cell_tags[i].name));
        lemma_filter_from(m.cell_tags, p, i);
        let k = choose|k: int| 0 <= k < m.tags.len() && m.tags[k] == mid.cell_tags[i].name;
        lemma_filter_keeps(m.tags, keep, k);
    }
    assert forall|a: int| 0 <= a < n.aliases.len() implies n.has_entity(
        (#[trigger] n.aliases[a]).entity_id,
    ) by {
        assert(m.has_entity(m.aliases[a].entity_id));
    }
    assert forall|a: int| 0 <= a < n.memberships.len() implies n.has_thread(
        (#[trigger] n.memberships[a]).thread_id,
    ) && n.has_cell(n.memberships[a].target.cell_id()) by {
        assert(m.has_thread(m.memberships[a].thread_id));
        assert(m.has_cell(m.memberships[a].target.cell_id()));
    }
}

proof fn lemma_cells_kept(m: DbModel, keep: spec_fn(CellRowModel) -> bool)
    requires
        m.wf(),
    ensures
        m.cells_kept(keep).wf(),
{
    let n = m.cells_kept(keep);
    let cells = m.cells.filter(keep);
    let p = |t: CellTagModel| any_where(cells, cell_is(t.cell_id));
    let q = |x: ThreadMembership| any_where(cells, cell_is(x.target.cell_id()));
    lemma_filter_distinct(m.cells, keep, same_cell());
    lemma_fewer_pointers(m, p, q);
    let mid = DbModel { cell_tags: m.cell_tags.filter(p), memberships: m.memberships.filter(q), ..m };
    assert forall|i: int| 0 <= i < n.cell_tags.len() implies n.has_cell(
        (#[trigger] n.cell_tags[i]).cell_id,
    ) && n.tags.contains(n.cell_tags[i].name) by {
        assert(mid.tags.contains(mid.cell_tags[i].name));
        lemma_filter_from(m.cell_tags, p, i);
        assert(p(n.cell_tags[i]));
    }
    assert forall|i: int| 0 <= i < n.memberships.len() implies n.has_thread(
        (#[trigger] n.memberships[i]).thread_id,
    ) && n.has_cell(n.memberships[i].target.cell_id()) by {
        assert(mid.has_thread(mid.memberships[i].thread_id));
        lemma_filter_from(m.memberships, q, i);
        assert(q(n.memberships[i]));
    }
    assert forall|a: int| 0 <= a < n.aliases.len() implies n.has_entity(
        (#[trigger] n.aliases[a]).entity_id,
    ) by {
        assert(m.has_entity(m.aliases[a].entity_id));
    }
}

/// A context that is saved is the one that is there; other contexts stay as they
/// were.
pub proof fn saved_contexts_are_there(m: DbModel, c: ContextModel, other: Uuid)
    requires
        other != c.id,
    ensures
        found_where(m.context_put(c).contexts, context_is(c.id)) == Some(c),
        found_where(m.context_put(c).contexts, context_is(other)) == found_where(
            m.contexts,
            context_is(other),
        ),
{
    rows_put_are_found(m.contexts, context_is(c.id), context_is(other), c);
}

/// The row of a cell that is put is the one that is there; rows of other cells stay as
/// they were.
pub proof fn rows_of_cells_are_there(m: DbModel, r: CellRowModel, other: Uuid)
    requires
        other != r.id,
    ensures
        found_where(m.cell_put(r).cells, cell_is(r.id)) == Some(r),
        found_where(m.cell_put(r).cells, cell_is(other)) == found_where(m.cells, cell_is(other)),
{
    rows_put_are_found(m.cells, cell_is(r.id), cell_is(other), r);
}

/// Of the cells, those on the scratch pad from before a moment expire, and no others.
pub proof fn only_old_scratch_cells_expire(m: DbModel, moment: i64, r: CellRowModel)
    requires
        m.cells.contains(r),
    ensures
        m.cells_kept(|c: CellRowModel| !(c.scratch && c.timestamp < moment)).cells.contains(r) == !(
        r.scratch && r.timestamp < moment),
{
    let stays = |c: CellRowModel| !(c.scratch && c.timestamp < moment);
    let n = m.cells_kept(stays);
    if stays(r) {
        let i = choose|i: int| 0 <= i < m.cells.len() && m.cells[i] == r;
        lemma_filter_keeps(m.cells, stays, i);
    } else if n.cells.contains(r) {
        let i = choose|i: int| 0 <= i < n.cells.len() && n.cells[i] == r;
        lemma_filter_from(m.cells, stays, i);
    }
}

} // verus!
