//! What undo keeps of a cell, and copies of a body for previews.
use std::ops::Range;
use vstd::prelude::*;

use crate::text;
use crate::cell::{Cell, CellKind, CellModel, KindModel};
use crate::cell::bullets::{
    outline_doc_wf, restoring_an_outline_gives_back_its_snapshot, zoomed, BulletModel, OutlineDoc,
    OutlineModel,
};
use crate::cell::common::LinkSpan;
use crate::cell::model::{DEFAULT_SCALE, Doc, TextModel};
use crate::cell::outline::{outline_of, Bullet, OutlineCell, OutlineSnapshot};
use crate::cell::plain::PlainCell;
use crate::cell::poppop::{PopPopCell, PopPopModel};
use crate::cell::reference::{
    EmbeddedReference, EmbedModel, ReferenceCell, ReferenceModel, ReferenceTarget,
};
use crate::cell::table::{
    grid_docs, grid_docs_wf, grid_view, link_pairs, record_row_view, record_view, records_view,
    restoring_a_table_gives_back_its_snapshot, TABLE_DEFAULT_COLS, TABLE_DEFAULT_ROWS,
    table_of_records, EntryDoc, EntryModel, RecordModel, TableCell, TableEntry, TableEntrySnapshot,
    TableModel, TableSnapshot,
};
use crate::cell::textbox::{TextBox, TextBoxSnapshot};
use crate::ids::Uuid;
use crate::text::{utf8, views};

verus! {

/// What undo restores of a body.
#[verifier::ext_equal]
pub enum KindDoc {
    Plain(Doc),
    Outline(OutlineDoc),
    PopPop(Doc),
    Table(Seq<Seq<EntryDoc>>),
    Reference(ReferenceTarget),
}

/// What undo restores of a cell.
#[verifier::ext_equal]
pub struct CellDoc {
    pub timestamp: i64,
    pub edited_at: i64,
    pub context_hint_id: Option<Uuid>,
    pub title: Option<Doc>,
    pub kind: KindDoc,
    pub closed_at: Option<i64>,
    pub resurface_after: Option<i64>,
    pub scratch: bool,
    pub inbox: bool,
}

impl KindDoc {
    /// Every text is well formed, and an outline has a bullet.
    pub open spec fn wf(self) -> bool {
        match self {
            KindDoc::Plain(d) => d.wf(),
            KindDoc::Outline(d) => outline_doc_wf(d),
            KindDoc::PopPop(d) => d.wf(),
            KindDoc::Table(d) => grid_docs_wf(d),
            KindDoc::Reference(_) => true,
        }
    }

    /// The body is of the same kind.
    pub open spec fn is_of(self, m: KindModel) -> bool {
        match (self, m) {
            (KindDoc::Plain(_), KindModel::Plain(_)) => true,
            (KindDoc::Outline(_), KindModel::Outline(..)) => true,
            (KindDoc::PopPop(_), KindModel::PopPop(_)) => true,
            (KindDoc::Table(_), KindModel::Table(_)) => true,
            (KindDoc::Reference(_), KindModel::Reference(_)) => true,
            _ => false,
        }
    }

    /// The body made anew.
    pub open spec fn body(self) -> KindModel {
        match self {
            KindDoc::Plain(d) => KindModel::Plain(TextModel::fresh(Seq::empty()).restored(d)),
            KindDoc::Outline(d) => KindModel::Outline(
                OutlineModel::fresh(0).restored(d),
                embed_of(d.target),
            ),
            KindDoc::PopPop(d) => {
                let p = PopPopModel::fresh();
                KindModel::PopPop(PopPopModel { input: p.input.restored(d), ..p })
            },
            KindDoc::Table(d) => KindModel::Table(
                TableModel::fresh(TABLE_DEFAULT_ROWS as int, TABLE_DEFAULT_COLS as int).restored(d),
            ),
            KindDoc::Reference(target) => KindModel::Reference(
                ReferenceModel { head: EmbedModel::fresh(target), scale: DEFAULT_SCALE },
            ),
        }
    }

    /// The same text, letter for letter; selections and links aside. References are
    /// never taken for the same.
    pub open spec fn says_as(self, other: KindDoc) -> bool {
        match (self, other) {
            (KindDoc::Plain(a), KindDoc::Plain(b)) => a.text == b.text,
            (KindDoc::Outline(a), KindDoc::Outline(b)) => {
                &&& a.target == b.target
                &&& a.bullets.len() == b.bullets.len()
                &&& forall|i: int|
                    #![trigger a.bullets[i]]
                    #![trigger b.bullets[i]]
                    0 <= i < a.bullets.len() ==> a.bullets[i].depth == b.bullets[i].depth
                        && a.bullets[i].doc.text == b.bullets[i].doc.text
            },
            (KindDoc::PopPop(a), KindDoc::PopPop(b)) => a.text == b.text,
            (KindDoc::Table(a), KindDoc::Table(b)) => {
                &&& a.len() == b.len()
                &&& forall|r: int|
                    0 <= r < a.len() ==> row_says_as(#[trigger] a[r], b[r])
            },
            _ => false,
        }
    }
}

/// Two rows with the same texts, and the same entries that can only be read.
pub open spec fn row_says_as(a: Seq<EntryDoc>, b: Seq<EntryDoc>) -> bool {
    &&& a.len() == b.len()
    &&& forall|c: int|
        #![trigger a[c]]
        #![trigger b[c]]
        0 <= c < a.len() ==> a[c].readonly == b[c].readonly && a[c].doc.text == b[c].doc.text
}

/// An embed that has no preview yet.
pub open spec fn embed_of(target: Option<ReferenceTarget>) -> Option<EmbedModel> {
    match target {
        Some(t) => Some(EmbedModel::fresh(t)),
        None => None,
    }
}

impl CellDoc {
    /// Every text is well formed.
    pub open spec fn wf(self) -> bool {
        (self.title matches Some(d) ==> d.wf()) && self.kind.wf()
    }

    /// The cell made anew, under the id `id`.
    pub open spec fn cell(self, id: Uuid) -> CellModel {
        CellModel {
            id,
            kind: self.kind.body(),
            title: match self.title {
                Some(d) => Some(
                    (TextModel {
                        force_heading: true,
                        ..TextModel::fresh(Seq::empty())
                    }).restored(d),
                ),
                None => None,
            },
            title_focused: false,
            timestamp: self.timestamp,
            edited_at: self.edited_at,
            context_hint_id: self.context_hint_id,
            closed_at: self.closed_at,
            resurface_after: self.resurface_after,
            scratch: self.scratch,
            inbox: self.inbox,
        }
    }

    /// The same title and the same text in the body.
    pub open spec fn says_as(self, other: CellDoc) -> bool {
        (match (self.title, other.title) {
            (None, None) => true,
            (Some(a), Some(b)) => a.text == b.text,
            _ => false,
        }) && self.kind.says_as(other.kind)
    }
}

impl KindModel {
    /// What undo restores of the body.
    pub open spec fn doc(self) -> KindDoc {
        match self {
            KindModel::Plain(t) => KindDoc::Plain(t.doc),
            KindModel::Outline(o, header) => KindDoc::Outline(
                o.doc(
                    match header {
                        Some(h) => Some(h.target),
                        None => None,
                    },
                ),
            ),
            KindModel::PopPop(p) => KindDoc::PopPop(p.input.doc),
            KindModel::Table(t) => KindDoc::Table(grid_docs(t.cells)),
            KindModel::Reference(r) => KindDoc::Reference(r.head.target),
        }
    }

    /// The document put back; nothing changes where it is of another kind.
    pub open spec fn restored(self, d: KindDoc) -> KindModel {
        match (self, d) {
            (KindModel::Plain(t), KindDoc::Plain(d)) => KindModel::Plain(t.restored(d)),
            (KindModel::Outline(o, _), KindDoc::Outline(d)) => KindModel::Outline(
                o.restored(d),
                embed_of(d.target),
            ),
            (KindModel::PopPop(p), KindDoc::PopPop(d)) => KindModel::PopPop(
                PopPopModel { input: p.input.restored(d), ..p },
            ),
            (KindModel::Table(t), KindDoc::Table(d)) => KindModel::Table(t.restored(d)),
            (KindModel::Reference(r), KindDoc::Reference(target)) => KindModel::Reference(
                ReferenceModel { head: EmbedModel::fresh(target), ..r },
            ),
            _ => self,
        }
    }

    /// A fresh body that is drawn as this one is, at another zoom. There is none of
    /// a reference: a preview shows no preview.
    pub open spec fn cached(self, scale: u32) -> Option<KindModel> {
        match self {
            KindModel::Plain(t) => Some(KindModel::Plain(t.cached(scale))),
            KindModel::Outline(o, header) => {
                let bs = Seq::new(
                    o.bullets.len(),
                    |i: int|
                        BulletModel::fresh(
                            o.bullets[i].id,
                            o.bullets[i].text.cached(scale),
                            o.bullets[i].depth,
                        ),
                );
                Some(
                    KindModel::Outline(
                        OutlineModel::fresh(0).listing(bs).focusing(bs[0].id).zoomed(scale),
                        match header {
                            Some(h) => Some(EmbedModel::fresh(h.target)),
                            None => None,
                        },
                    ),
                )
            },
            KindModel::PopPop(p) => {
                let fresh = PopPopModel::fresh();
                Some(
                    KindModel::PopPop(
                        PopPopModel {
                            input: zoomed(fresh.input.restored(p.input.doc), scale),
                            output: zoomed(fresh.output, scale),
                            ..fresh
                        },
                    ),
                )
            },
            KindModel::Table(t) => Some(
                KindModel::Table(table_of_records(records_of(t.cells))).zoomed(scale),
            ),
            KindModel::Reference(_) => None,
        }
    }
}

/// Entries as they are stored.
pub open spec fn row_records(row: Seq<EntryModel>) -> Seq<RecordModel> {
    Seq::new(
        row.len(),
        |c: int|
            RecordModel {
                text: row[c].text.doc.text,
                links: row[c].text.doc.links,
                readonly: row[c].readonly,
            },
    )
}

/// A grid as it is stored.
pub open spec fn records_of(cells: Seq<Seq<EntryModel>>) -> Seq<Seq<RecordModel>> {
    Seq::new(cells.len(), |r: int| row_records(cells[r]))
}

impl CellModel {
    /// What undo restores of the cell.
    pub open spec fn doc(self) -> CellDoc {
        CellDoc {
            timestamp: self.timestamp,
            edited_at: self.edited_at,
            context_hint_id: self.context_hint_id,
            title: match self.title {
                Some(t) => Some(t.doc),
                None => None,
            },
            kind: self.kind.doc(),
            closed_at: self.closed_at,
            resurface_after: self.resurface_after,
            scratch: self.scratch,
            inbox: self.inbox,
        }
    }

    /// The document put back: all but the body in any case, the body where it is of
    /// the same kind.
    pub open spec fn restored(self, d: CellDoc) -> CellModel {
        CellModel {
            id: self.id,
            kind: self.kind.restored(d.kind),
            title: match d.title {
                Some(t) => Some(self.new_title().restored(t)),
                None => None,
            },
            title_focused: self.title_focused && d.title is Some,
            timestamp: d.timestamp,
            edited_at: d.edited_at,
            context_hint_id: d.context_hint_id,
            closed_at: d.closed_at,
            resurface_after: d.resurface_after,
            scratch: d.scratch,
            inbox: d.inbox,
        }
    }
}

/// What a change of text does to a cell is seen: where one snapshot is of another text than the other,
/// in the title, in a plain body, in a calculation, or in a bullet or an entry at the same place, they do
/// not say the same; and saying the same goes both ways.
pub proof fn changed_texts_are_noticed(a: CellDoc, b: CellDoc)
    ensures
        a.says_as(b) == b.says_as(a),
        (match (a.title, b.title) {
            (Some(x), Some(y)) => x.text != y.text,
            (None, None) => false,
            _ => true,
        }) ==> !a.says_as(b),
        (match (a.kind, b.kind) {
            (KindDoc::Plain(x), KindDoc::Plain(y)) => x.text != y.text,
            (KindDoc::PopPop(x), KindDoc::PopPop(y)) => x.text != y.text,
            (KindDoc::Outline(x), KindDoc::Outline(y)) => x.bullets.len() != y.bullets.len()
                || exists|i: int|
                0 <= i < x.bullets.len() && ((#[trigger] x.bullets[i]).doc.text
                    != y.bullets[i].doc.text || x.bullets[i].depth != y.bullets[i].depth),
            (KindDoc::Table(x), KindDoc::Table(y)) => x.len() != y.len() || exists|r: int, c: int|
                #![trigger x[r][c]]
                0 <= r < x.len() && 0 <= c < x[r].len() && x[r].len() == y[r].len()
                    && x[r][c].doc.text != y[r][c].doc.text,
            _ => true,
        }) ==> !a.says_as(b),
        !(a.kind is Reference) ==> a.says_as(a),
{
    if let (KindDoc::Table(x), KindDoc::Table(y)) = (a.kind, b.kind) {
        if a.kind.says_as(b.kind) {
            assert forall|r: int| 0 <= r < y.len() implies row_says_as(#[trigger] y[r], x[r]) by {
                assert(row_says_as(x[r], y[r]));
            }
            assert forall|r: int, c: int|
                #![trigger x[r][c]]
                0 <= r < x.len() && 0 <= c < x[r].len() && x[r].len() == y[r].len() implies x[r][c].doc.text
                == y[r][c].doc.text by {
                assert(row_says_as(x[r], y[r]));
            }
        }
        if b.kind.says_as(a.kind) {
            assert forall|r: int| 0 <= r < x.len() implies row_says_as(#[trigger] x[r], y[r]) by {
                assert(row_says_as(y[r], x[r]));
            }
        }
    }
}

/// A cell that gets a snapshot of its own kind back is as it was when the snapshot
/// was taken.
pub proof fn restoring_a_cell_gives_back_its_snapshot(m: CellModel, d: CellDoc)
    requires
        d.kind.is_of(m.kind),
    ensures
        m.restored(d).doc() == d,
{
    match (m.kind, d.kind) {
        (KindModel::Outline(o, _), KindDoc::Outline(od)) => {
            restoring_an_outline_gives_back_its_snapshot(o, od);
        },
        (KindModel::Table(t), KindDoc::Table(td)) => {
            restoring_a_table_gives_back_its_snapshot(t, td);
        },
        _ => {},
    }
    assert(m.restored(d).doc() =~= d);
}

/// A cell made anew of a snapshot is as the one that the snapshot was taken of.
pub proof fn a_cell_made_of_a_snapshot_is_as_it_was(d: CellDoc, id: Uuid)
    ensures
        d.cell(id).doc() == d,
        d.cell(id).id == id,
{
    match d.kind {
        KindDoc::Outline(od) => {
            restoring_an_outline_gives_back_its_snapshot(OutlineModel::fresh(0), od);
        },
        KindDoc::Table(td) => {
            restoring_a_table_gives_back_its_snapshot(
                TableModel::fresh(TABLE_DEFAULT_ROWS as int, TABLE_DEFAULT_COLS as int),
                td,
            );
        },
        _ => {},
    }
    assert(d.cell(id).doc() =~= d);
}

/// What undo restores of a body.
pub enum CellSnapshotKind {
    Plain(TextBoxSnapshot),
    Outline(OutlineSnapshot),
    PopPop(TextBoxSnapshot),
    Table(TableSnapshot),
    Reference(ReferenceTarget),
}

impl View for CellSnapshotKind {
    type V = KindDoc;

    open spec fn view(&self) -> KindDoc {
        match self {
            CellSnapshotKind::Plain(s) => KindDoc::Plain(s@),
            CellSnapshotKind::Outline(s) => KindDoc::Outline(s@),
            CellSnapshotKind::PopPop(s) => KindDoc::PopPop(s@),
            CellSnapshotKind::Table(s) => KindDoc::Table(s@),
            CellSnapshotKind::Reference(t) => KindDoc::Reference(*t),
        }
    }
}

/// What undo restores of a cell.
pub struct CellSnapshot {
    pub timestamp: i64,
    pub edited_at: i64,
    pub context_hint_id: Option<Uuid>,
    pub title: Option<TextBoxSnapshot>,
    pub kind: CellSnapshotKind,
    pub closed_at: Option<i64>,
    pub resurface_after: Option<i64>,
    pub scratch: bool,
    pub inbox: bool,
}

impl View for CellSnapshot {
    type V = CellDoc;

    open spec fn view(&self) -> CellDoc {
        CellDoc {
            timestamp: self.timestamp,
            edited_at: self.edited_at,
            context_hint_id: self.context_hint_id,
            title: match self.title {
                Some(t) => Some(t@),
                None => None,
            },
            kind: self.kind@,
            closed_at: self.closed_at,
            resurface_after: self.resurface_after,
            scratch: self.scratch,
            inbox: self.inbox,
        }
    }
}

impl CellSnapshot {
    /// Whether both say the same: selections, links and times aside.
    pub fn doc_eq(&self, other: &CellSnapshot) -> (r: bool)
        ensures
            r == self@.says_as(other@),
    {
        let title_eq: bool = match (&self.title, &other.title) {
            (None, None) => true,
            (Some(a), Some(b)) => text::same(a.text.as_str(), b.text.as_str()),
            _ => false,
        };
        if !title_eq {
            return false;
        }
        match (&self.kind, &other.kind) {
            (CellSnapshotKind::Plain(a), CellSnapshotKind::Plain(b)) => text::same(
                a.text.as_str(),
                b.text.as_str(),
            ),
            (CellSnapshotKind::Outline(a), CellSnapshotKind::Outline(b)) => same_outlines(a, b),
            (CellSnapshotKind::PopPop(a), CellSnapshotKind::PopPop(b)) => text::same(
                a.text.as_str(),
                b.text.as_str(),
            ),
            (CellSnapshotKind::Table(a), CellSnapshotKind::Table(b)) => same_tables(a, b),
            _ => false,
        }
    }
}

fn same_targets(a: &Option<ReferenceTarget>, b: &Option<ReferenceTarget>) -> (r: bool)
    ensures
        r == (*a == *b),
{
    match (a, b) {
        (None, None) => true,
        (Some(x), Some(y)) => *x == *y,
        _ => false,
    }
}

fn same_outlines(a: &OutlineSnapshot, b: &OutlineSnapshot) -> (r: bool)
    ensures
        r == KindDoc::Outline(a@).says_as(KindDoc::Outline(b@)),
{
    let ghost (x, y) = (a@.bullets, b@.bullets);
    if !same_targets(&a.reference_header, &b.reference_header) {
        return false;
    }
    if a.bullets.len() != b.bullets.len() {
        return false;
    }
    let mut i: usize = 0;
    while i < a.bullets.len()
        invariant
            i <= a.bullets.len(),
            a.bullets.len() == b.bullets.len(),
            x == views(a.bullets@),
            y == views(b.bullets@),
            forall|k: int|
                #![trigger x[k]]
                #![trigger y[k]]
                0 <= k < i ==> x[k].depth == y[k].depth && x[k].doc.text == y[k].doc.text,
        decreases a.bullets.len() - i,
    {
        assert(x[i as int] == a.bullets@[i as int]@);
        assert(y[i as int] == b.bullets@[i as int]@);
        if a.bullets[i].depth != b.bullets[i].depth || !text::same(
            a.bullets[i].textbox.text.as_str(),
            b.bullets[i].textbox.text.as_str(),
        ) {
            return false;
        }
        i += 1;
    }
    true
}

fn same_rows(a: &Vec<TableEntrySnapshot>, b: &Vec<TableEntrySnapshot>) -> (r: bool)
    ensures
        r == row_says_as(views(a@), views(b@)),
{
    let ghost (x, y) = (views(a@), views(b@));
    if a.len() != b.len() {
        return false;
    }
    let mut c: usize = 0;
    while c < a.len()
        invariant
            c <= a.len(),
            a.len() == b.len(),
            x == views(a@),
            y == views(b@),
            forall|k: int|
                #![trigger x[k]]
                #![trigger y[k]]
                0 <= k < c ==> x[k].readonly == y[k].readonly && x[k].doc.text == y[k].doc.text,
        decreases a.len() - c,
    {
        assert(x[c as int] == a@[c as int]@);
        assert(y[c as int] == b@[c as int]@);
        if a[c].readonly != b[c].readonly || !text::same(
            a[c].textbox.text.as_str(),
            b[c].textbox.text.as_str(),
        ) {
            return false;
        }
        c += 1;
    }
    true
}

fn same_tables(a: &TableSnapshot, b: &TableSnapshot) -> (r: bool)
    ensures
        r == KindDoc::Table(a@).says_as(KindDoc::Table(b@)),
{
    let ghost (x, y) = (a@, b@);
    if a.cells.len() != b.cells.len() {
        return false;
    }
    let mut r: usize = 0;
    while r < a.cells.len()
        invariant
            r <= a.cells.len(),
            a.cells.len() == b.cells.len(),
            x == a@,
            y == b@,
            forall|k: int| 0 <= k < r ==> row_says_as(#[trigger] x[k], y[k]),
        decreases a.cells.len() - r,
    {
        assert(x[r as int] == views(a.cells@[r as int]@));
        assert(y[r as int] == views(b.cells@[r as int]@));
        if !same_rows(&a.cells[r], &b.cells[r]) {
            return false;
        }
        r += 1;
    }
    true
}

impl Cell {
    /// What undo restores of the cell.
    pub fn snapshot(&self) -> (s: CellSnapshot)
        ensures
            s@ == self.model().doc(),
    {
        let title = match &self.title {
            Some(t) => Some(t.snapshot()),
            None => None,
        };
        let kind = match &self.kind {
            CellKind::Plain(p) => CellSnapshotKind::Plain(p.body().snapshot()),
            CellKind::Outline(o) => CellSnapshotKind::Outline(o.snapshot()),
            CellKind::PopPop(p) => CellSnapshotKind::PopPop(p.snapshot()),
            CellKind::Table(t) => CellSnapshotKind::Table(t.snapshot()),
            CellKind::Reference(r) => CellSnapshotKind::Reference(r.target()),
        };
        CellSnapshot {
            timestamp: self.timestamp,
            edited_at: self.edited_at,
            context_hint_id: self.context_hint_id,
            title,
            kind,
            closed_at: self.closed_at,
            resurface_after: self.resurface_after,
            scratch: self.scratch,
            inbox: self.inbox,
        }
    }

    /// Puts a snapshot back. The body stays as it is where the snapshot is of
    /// another kind.
    pub fn restore(&mut self, snap: CellSnapshot)
        requires
            old(self).model().wf(),
            snap@.wf(),
        ensures
            final(self).model() == old(self).model().restored(snap@),
            final(self).model().wf(),
    {
        let ghost before = self.model();
        let ghost d = snap@;
        self.timestamp = snap.timestamp;
        self.edited_at = snap.edited_at;
        self.context_hint_id = snap.context_hint_id;
        self.closed_at = snap.closed_at;
        self.resurface_after = snap.resurface_after;
        self.scratch = snap.scratch;
        self.inbox = snap.inbox;
        match snap.title {
            Some(s) => {
                let mut t = empty_title();
                t.set_font_scale(self.kind.font_scale());
                t.restore(s);
                self.title = Some(t);
            },
            None => {
                self.title = None;
                self.title_focused = false;
            },
        }
        match (&mut self.kind, snap.kind) {
            (CellKind::Plain(p), CellSnapshotKind::Plain(s)) => p.body_mut().restore(s),
            (CellKind::Outline(o), CellSnapshotKind::Outline(s)) => o.restore(s),
            (CellKind::PopPop(p), CellSnapshotKind::PopPop(s)) => p.restore(s),
            (CellKind::Table(t), CellSnapshotKind::Table(s)) => t.restore(s),
            (CellKind::Reference(r), CellSnapshotKind::Reference(target)) => r.set_target(target),
            _ => {},
        }
        assert(self.model() =~= before.restored(d));
    }

    /// A cell made anew of a snapshot.
    pub fn from_snapshot(id: Uuid, snap: CellSnapshot) -> (c: Cell)
        requires
            snap@.wf(),
        ensures
            c.model() == snap@.cell(id),
            c.model().wf(),
    {
        let ghost d = snap@;
        let kind = match snap.kind {
            CellSnapshotKind::Plain(s) => {
                let mut t = empty_text();
                t.restore(s);
                CellKind::Plain(PlainCell::from_textbox(t))
            },
            CellSnapshotKind::Outline(s) => {
                let mut o = OutlineCell::new();
                o.restore(s);
                CellKind::Outline(o)
            },
            CellSnapshotKind::PopPop(s) => {
                let mut p = PopPopCell::new();
                p.restore(s);
                CellKind::PopPop(p)
            },
            CellSnapshotKind::Table(s) => {
                let mut t = TableCell::new();
                t.restore(s);
                CellKind::Table(t)
            },
            CellSnapshotKind::Reference(target) => CellKind::Reference(ReferenceCell::new(target)),
        };
        let title = match snap.title {
            Some(s) => {
                let mut t = empty_title();
                t.restore(s);
                Some(t)
            },
            None => None,
        };
        let c = Cell::from_parts(
            id,
            kind,
            title,
            snap.timestamp,
            snap.edited_at,
            snap.context_hint_id,
            snap.closed_at,
            snap.resurface_after,
            snap.scratch,
            snap.inbox,
        );
        assert(c.model() =~= d.cell(id));
        c
    }
}

fn empty_text() -> (t: TextBox)
    ensures
        t@ == TextModel::fresh(Seq::empty()),
        t@.wf(),
{
    let none = String::new();
    assert(utf8(none@) =~= Seq::<u8>::empty());
    TextBox::new(none)
}

fn empty_title() -> (t: TextBox)
    ensures
        t@ == (TextModel { force_heading: true, ..TextModel::fresh(Seq::empty()) }),
        t@.wf(),
{
    let mut t = empty_text();
    t.set_force_heading(true);
    t
}

impl CellKind {
    /// A fresh body that is drawn as this one is, at another zoom; `None` of a
    /// reference.
    pub fn clone_for_scale(&self, scale: u32) -> (k: Option<CellKind>)
        requires
            self.model().wf(),
        ensures
            (match k {
                Some(k) => Some(k.model()),
                None => None,
            }) == self.model().cached(scale),
            k matches Some(k) ==> k.model().wf(),
    {
        match self {
            CellKind::Plain(p) => Some(CellKind::Plain(p.clone_for_cache(scale))),
            CellKind::Outline(o) => Some(CellKind::Outline(cached_outline(o, scale))),
            CellKind::PopPop(p) => {
                let mut c = PopPopCell::new();
                proof {
                    assert(p@.input.doc.wf());
                }
                c.restore(p.snapshot());
                c.set_font_scale(scale);
                Some(CellKind::PopPop(c))
            },
            CellKind::Table(t) => {
                let mut c = TableCell::from_records(stored_records(t));
                c.set_font_scale(scale);
                Some(CellKind::Table(c))
            },
            CellKind::Reference(_) => None,
        }
    }
}

fn cached_outline(o: &OutlineCell, scale: u32) -> (c: OutlineCell)
    requires
        o@.wf(),
    ensures
        Some(KindModel::Outline(c@, c.embed())) == KindModel::Outline(o@, o.embed()).cached(scale),
        c@.wf(),
        c.embed() matches Some(h) ==> h.wf(),
{
    let ghost all = Seq::new(
        o@.bullets.len(),
        |i: int|
            BulletModel::fresh(
                o@.bullets[i].id,
                o@.bullets[i].text.cached(scale),
                o@.bullets[i].depth,
            ),
    );
    let bullets = o.bullets();
    let mut out: Vec<Bullet> = Vec::new();
    let mut i: usize = 0;
    while i < bullets.len()
        invariant
            i <= bullets.len(),
            o@.bullets == views(bullets@),
            o@.wf(),
            all.len() == o@.bullets.len(),
            forall|k: int|
                0 <= k < all.len() ==> #[trigger] all[k] == BulletModel::fresh(
                    o@.bullets[k].id,
                    o@.bullets[k].text.cached(scale),
                    o@.bullets[k].depth,
                ),
            out@.len() == i,
            forall|k: int|
                0 <= k < i ==> (#[trigger] out@[k])@ == all[k] && all[k].text.wf(),
        decreases bullets.len() - i,
    {
        assert(o@.bullets[i as int] == bullets@[i as int]@);
        let t = bullets[i].textbox().clone_for_cache(scale);
        let b = Bullet::new(bullets[i].id(), t, bullets[i].depth());
        out.push(b);
        i += 1;
    }
    assert(views(out@) =~= all);
    let header = match o.reference_header() {
        Some(h) => Some(EmbeddedReference::new(h.target())),
        None => None,
    };
    let mut c = OutlineCell::from_bullets_with_header(out, header);
    let ghost ids = choose|ids: (Uuid, Uuid)| c@ == #[trigger] outline_of(all, ids);
    assert(c@ =~= OutlineModel::fresh(0).listing(all).focusing(all[0].id));
    c.set_font_scale(scale);
    c
}

fn link_records(links: &[LinkSpan]) -> (out: Vec<(Range<usize>, String)>)
    ensures
        link_pairs(out@) == views(links@),
{
    let mut out: Vec<(Range<usize>, String)> = Vec::new();
    let mut i: usize = 0;
    while i < links.len()
        invariant
            i <= links.len(),
            out@.len() == i,
            forall|k: int|
                0 <= k < i ==> (#[trigger] link_pairs(out@)[k]) == links@[k]@,
        decreases links.len() - i,
    {
        let l = &links[i];
        let ghost prev = out@;
        out.push((l.range.start..l.range.end, text::copy(l.url.as_str())));
        assert forall|k: int| 0 <= k < i + 1 implies (#[trigger] link_pairs(out@)[k])
            == links@[k]@ by {
            if k < i {
                assert(link_pairs(prev)[k] == links@[k]@);
                assert(out@[k] == prev[k]);
            }
        }
        i += 1;
    }
    assert(link_pairs(out@) =~= views(links@));
    out
}

fn row_stored(row: &Vec<TableEntry>) -> (out: Vec<(String, Vec<(Range<usize>, String)>, bool)>)
    ensures
        record_row_view(out@) == row_records(views(row@)),
{
    let ghost want = row_records(views(row@));
    let mut out: Vec<(String, Vec<(Range<usize>, String)>, bool)> = Vec::new();
    let mut c: usize = 0;
    while c < row.len()
        invariant
            c <= row.len(),
            want == row_records(views(row@)),
            out@.len() == c,
            forall|k: int| 0 <= k < c ==> record_view(#[trigger] out@[k]) == want[k],
        decreases row.len() - c,
    {
        let e = &row[c];
        let text = text::copy(e.textbox.text());
        let links = link_records(e.textbox.links());
        assert(views(row@)[c as int] == row@[c as int]@);
        out.push((text, links, e.readonly));
        assert(record_view(out@[c as int]) =~= want[c as int]);
        c += 1;
    }
    assert(record_row_view(out@) =~= want);
    out
}

fn stored_records(t: &TableCell) -> (out: Vec<Vec<(String, Vec<(Range<usize>, String)>, bool)>>)
    ensures
        records_view(out@) == records_of(t@.cells),
{
    let ghost want = records_of(t@.cells);
    let rows = t.rows_view();
    let mut out: Vec<Vec<(String, Vec<(Range<usize>, String)>, bool)>> = Vec::new();
    let mut r: usize = 0;
    while r < rows.len()
        invariant
            r <= rows.len(),
            grid_view(rows@) == t@.cells,
            want == records_of(t@.cells),
            out@.len() == r,
            forall|k: int| 0 <= k < r ==> record_row_view((#[trigger] out@[k])@) == want[k],
        decreases rows.len() - r,
    {
        assert(grid_view(rows@)[r as int] == views(rows@[r as int]@));
        out.push(row_stored(&rows[r]));
        r += 1;
    }
    assert(records_view(out@) =~= want);
    out
}

/// What a preview of an envelope keeps of it is what it points at.
pub proof fn a_copied_envelope_keeps_its_target(m: KindModel, scale: u32)
    requires
        m is Outline,
    ensures
        m.cached(scale) matches Some(KindModel::Outline(_, header)) && (match (m, header) {
            (KindModel::Outline(_, Some(h)), Some(k)) => k == EmbedModel::fresh(h.target),
            (KindModel::Outline(_, None), None) => true,
            _ => false,
        }),
{
}

} // verus!
