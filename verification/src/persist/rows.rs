//! The rows that cells are kept in, and what a cell is after it has been saved and
//! loaded.
use vstd::prelude::*;

use crate::text;
use crate::cell::{Cell, CellModel, KindModel};
use crate::cell::common::Link;
use crate::cell::model::{
    any_tag, linkable, migrated, migrating_tags_is_idempotent, with_found_tags, Doc, TextModel,
};
use crate::cell::outline::outline_of;
use crate::cell::poppop::PopPopModel;
use crate::cell::table::{rectangular, table_of_entries, with_links, EntryModel, TableModel};
use crate::cell::wrap::{inline_tags, trailing_tags, Span};
use crate::ids::{new_id, Uuid};
use crate::json::json_stored;
use crate::persist::cells::{
    body_to_kind_with, closed_when, load_text, LOADED, loaded_body, loaded_bullets, loaded_grid,
    loaded_text, persisted_cell_from, persisted_sits, stored, stored_body, stored_bullet,
    stored_bullets, stored_grid, stored_row, stored_text,
};
use crate::persist::records::{
    persisted_json, BlockModel, BodyModel, EntryRecord, PersistedCell, PersistedModel, TextRecord,
};
use crate::persist::storing::persisted_read;
use crate::text::{first_byte, utf8};

verus! {

/// A row of the table of cells.
#[derive(Debug)]
pub struct CellRow {
    pub id: Uuid,
    pub timestamp: i64,
    /// The JSON of the stored cell.
    pub body: String,
    pub edited_at: i64,
    pub context_hint_id: Option<Uuid>,
    pub scratch: bool,
    pub inbox: bool,
}

/// A row of the table of cells.
#[verifier::ext_equal]
pub struct CellRowModel {
    pub id: Uuid,
    pub timestamp: i64,
    pub body: Seq<u8>,
    pub edited_at: i64,
    pub context_hint_id: Option<Uuid>,
    pub scratch: bool,
    pub inbox: bool,
}

impl View for CellRow {
    type V = CellRowModel;

    open spec fn view(&self) -> CellRowModel {
        CellRowModel {
            id: self.id,
            timestamp: self.timestamp,
            body: utf8(self.body@),
            edited_at: self.edited_at,
            context_hint_id: self.context_hint_id,
            scratch: self.scratch,
            inbox: self.inbox,
        }
    }
}

impl Clone for CellRow {
    fn clone(&self) -> (r: Self)
        ensures
            r@ == self@,
    {
        CellRow {
            id: self.id,
            timestamp: self.timestamp,
            body: text::copy(self.body.as_str()),
            edited_at: self.edited_at,
            context_hint_id: self.context_hint_id,
            scratch: self.scratch,
            inbox: self.inbox,
        }
    }
}

/// Why a row cannot be loaded.
#[derive(Clone, Copy, Debug, PartialEq, Eq, Structural)]
pub enum LoadError {
    /// The body is not the JSON of a stored cell.
    Body,
    /// A stored tag starts or ends within a character.
    Tag,
}

/// The row of a cell.
pub open spec fn row_of_cell(c: CellModel) -> CellRowModel {
    CellRowModel {
        id: c.id,
        timestamp: c.timestamp,
        body: json_stored(persisted_json(stored(c))),
        edited_at: c.edited_at,
        context_hint_id: c.context_hint_id,
        scratch: c.scratch,
        inbox: c.inbox,
    }
}

/// The cell of a row whose body says `p`, loaded at `now`.
pub open spec fn loaded_cell(
    r: CellRowModel,
    p: PersistedModel,
    ids: (Uuid, Uuid),
    now: u64,
) -> CellModel {
    CellModel {
        id: r.id,
        kind: loaded_body(p.body, ids, now),
        title: match p.title {
            Some(t) => Some(loaded_text(t, true)),
            None => None,
        },
        title_focused: false,
        timestamp: r.timestamp,
        edited_at: r.edited_at,
        context_hint_id: r.context_hint_id,
        closed_at: closed_when(p.closed_at, p.active, r.edited_at),
        resurface_after: p.resurface_after,
        scratch: r.scratch,
        inbox: r.inbox,
    }
}

impl CellRow {
    /// The row of a cell.
    pub fn of_cell(cell: &Cell) -> (r: CellRow)
        ensures
            r@ == row_of_cell(cell.model()),
            persisted_read(r@.body) == Some(stored(cell.model())),
    {
        let p = persisted_cell_from(cell);
        let r = CellRow {
            id: cell.id,
            timestamp: cell.timestamp,
            body: p.to_text(),
            edited_at: cell.edited_at,
            context_hint_id: cell.context_hint_id,
            scratch: cell.scratch,
            inbox: cell.inbox,
        };
        assert(r@ =~= row_of_cell(cell.model()));
        r
    }

    /// The cell of the row, whose body is `p`.
    pub fn cell_with(&self, p: PersistedCell, ids: (Uuid, Uuid), now: u64) -> (c: Cell)
        requires
            persisted_sits(p@, LOADED as int),
        ensures
            c.model() == loaded_cell(self@, p@, ids, now),
            c.model().wf(),
    {
        let ghost m = p@;
        let title = match &p.title {
            Some(t) => Some(load_text(&t.text, &t.links, &t.tags, true)),
            None => None,
        };
        let closed_at = match p.closed_at {
            Some(t) => Some(t),
            None => if p.active {
                None
            } else {
                Some(self.edited_at)
            },
        };
        let resurface_after = p.resurface_after;
        let kind = body_to_kind_with(p.body, ids, now);
        let c = Cell::from_parts(
            self.id,
            kind,
            title,
            self.timestamp,
            self.edited_at,
            self.context_hint_id,
            closed_at,
            resurface_after,
            self.scratch,
            self.inbox,
        );
        assert(c.model() =~= loaded_cell(self@, m, ids, now));
        c
    }

    /// The cell of the row. It cannot be loaded where the body is not that of a
    /// stored cell, or where one of its tags starts or ends within a character.
    pub fn load(&self, now: u64) -> (r: Result<Cell, LoadError>)
        ensures
            match persisted_read(self@.body) {
                Some(p) => if persisted_sits(p, LOADED as int) {
                    r matches Ok(c) && c.model().wf() && exists|ids: (Uuid, Uuid)|
                        c.model() == #[trigger] loaded_cell(self@, p, ids, now)
                } else {
                    r matches Err(e) && e == LoadError::Tag
                },
                None => r matches Err(e) && e == LoadError::Body,
            },
    {
        match PersistedCell::parse(self.body.as_str()) {
            Some(p) => {
                if p.sits(LOADED) {
                    let ids: (Uuid, Uuid) = (new_id(), new_id());
                    let ghost m = p@;
                    let c = self.cell_with(p, ids, now);
                    assert(c.model() == loaded_cell(self@, m, ids, now));
                    Ok(c)
                } else {
                    Err(LoadError::Tag)
                }
            },
            None => Err(LoadError::Body),
        }
    }
}

// ---------------------------------------------------------------------------
// Saved and loaded
// ---------------------------------------------------------------------------

/// The tags that a stored text spells, in a title or in a body.
pub open spec fn tags_spelled(r: TextRecord, heading: bool) -> Seq<Span> {
    if heading {
        trailing_tags(r.text, first_byte(r.text, 10, 0))
    } else {
        inline_tags(r.text, r.text.len() as int)
    }
}

/// A stored text with the tags that it spells as links, where none of its links is a
/// tag.
pub open spec fn tagged_text(r: TextRecord, heading: bool) -> TextRecord {
    TextRecord {
        links: if any_tag(r.links) {
            r.links
        } else {
            with_found_tags(r.text, r.links, tags_spelled(r, heading))
        },
        ..r
    }
}

/// A stored bullet with the tags that it spells.
pub open spec fn tagged_block(b: BlockModel) -> BlockModel {
    BlockModel { said: tagged_text(b.said, false), ..b }
}

/// A stored row with the tags that it spells.
pub open spec fn tagged_row(row: Seq<EntryRecord>) -> Seq<EntryRecord> {
    Seq::new(
        row.len(),
        |c: int| EntryRecord { said: tagged_text(row[c].said, false), ..row[c] },
    )
}

/// A stored body with the tags that it spells. A calculator has none.
pub open spec fn tagged_body(b: BodyModel) -> BodyModel {
    match b {
        BodyModel::Plain(r) => BodyModel::Plain(tagged_text(r, false)),
        BodyModel::Outline(blocks, header) => BodyModel::Outline(
            Seq::new(blocks.len(), |i: int| tagged_block(blocks[i])),
            header,
        ),
        BodyModel::Table(rows, cols, cells) => BodyModel::Table(
            rows,
            cols,
            Seq::new(cells.len(), |r: int| tagged_row(cells[r])),
        ),
        _ => b,
    }
}

/// A stored cell with the tags that it spells.
pub open spec fn tagged(p: PersistedModel) -> PersistedModel {
    PersistedModel {
        title: match p.title {
            Some(t) => Some(tagged_text(t, true)),
            None => None,
        },
        body: tagged_body(p.body),
        ..p
    }
}

/// Every link of the text lies in it.
pub open spec fn linked(text: Seq<u8>, links: Seq<Link>) -> bool {
    forall|i: int|
        0 <= i < links.len() ==> linkable(text, (#[trigger] links[i]).start, links[i].end)
}

/// Every link of the texts lies in its text.
pub open spec fn row_linked(row: Seq<EntryModel>) -> bool {
    forall|c: int|
        0 <= c < row.len() ==> linked((#[trigger] row[c]).text.doc.text, row[c].text.doc.links)
}

/// Every link of the body lies in its text, and a table has rows of one width.
pub open spec fn kind_linked(k: KindModel) -> bool {
    match k {
        KindModel::Plain(t) => linked(t.doc.text, t.doc.links),
        KindModel::Outline(o, _) => forall|i: int|
            0 <= i < o.bullets.len() ==> linked(
                (#[trigger] o.bullets[i]).text.doc.text,
                o.bullets[i].text.doc.links,
            ),
        KindModel::PopPop(p) => linked(p.input.doc.text, p.input.doc.links),
        KindModel::Table(t) => {
            &&& t.cells.len() > 0
            &&& t.width() > 0
            &&& rectangular(t.cells, t.width())
            &&& forall|r: int| 0 <= r < t.cells.len() ==> row_linked(#[trigger] t.cells[r])
        },
        KindModel::Reference(_) => true,
    }
}

/// A cell that is saved and loaded is as it was in all that is kept of it: its place
/// in the stream, its state, its title and its body with all texts, links, bullets,
/// entries and targets. Only where no link of a text is a tag, the tags that the
/// text spells become links.
pub proof fn saved_cells_are_loaded_again(c: CellModel, ids: (Uuid, Uuid), now: u64)
    requires
        c.wf(),
        c.title matches Some(t) ==> linked(t.doc.text, t.doc.links),
        kind_linked(c.kind),
    ensures
        persisted_sits(stored(c), LOADED as int),
        stored(loaded_cell(row_of_cell(c), stored(c), ids, now)) == tagged(stored(c)),
        ({
            let l = loaded_cell(row_of_cell(c), stored(c), ids, now);
            &&& l.id == c.id
            &&& l.timestamp == c.timestamp
            &&& l.edited_at == c.edited_at
            &&& l.context_hint_id == c.context_hint_id
            &&& l.closed_at == c.closed_at
            &&& l.resurface_after == c.resurface_after
            &&& l.scratch == c.scratch
            &&& l.inbox == c.inbox
        }),
{
    let p = stored(c);
    let l = loaded_cell(row_of_cell(c), p, ids, now);
    if let Some(t) = c.title {
        lemma_text_again(t, true);
    }
    match c.kind {
        KindModel::Plain(t) => {
            lemma_text_again(t, false);
        },
        KindModel::Outline(o, header) => {
            let blocks = stored_bullets(o.bullets);
            let bs = loaded_bullets(blocks);
            assert forall|i: int| 0 <= i < bs.len() implies stored_bullet(bs[i]) == tagged_block(
                #[trigger] blocks[i],
            ) by {
                lemma_text_again(o.bullets[i].text, false);
            }
            assert(stored_bullets(bs) =~= Seq::new(
                blocks.len(),
                |i: int| tagged_block(blocks[i]),
            ));
            assert(outline_of(bs, ids).bullets == bs);
        },
        KindModel::PopPop(q) => {
            lemma_links_again(q.input.doc.text, q.input.doc.links);
            let none = PopPopModel::fresh().input.doc.links;
            assert(none.filter(|x: Link| x.end <= q.input.doc.text.len()) =~= Seq::empty()) by {
                reveal(Seq::filter);
            }
        },
        KindModel::Table(t) => {
            lemma_table_again(t);
        },
        KindModel::Reference(_) => {},
    }
    assert(stored(l) =~= tagged(p));
}

proof fn lemma_links_again(text: Seq<u8>, links: Seq<Link>)
    requires
        linked(text, links),
    ensures
        with_links(text, Seq::empty(), links) == links,
    decreases links.len(),
{
    if links.len() > 0 {
        let before = links.drop_last();
        assert(linked(text, before)) by {
            assert forall|i: int| 0 <= i < before.len() implies linkable(
                text,
                (#[trigger] before[i]).start,
                before[i].end,
            ) by {
                assert(before[i] == links[i]);
            }
        }
        lemma_links_again(text, before);
        let l = links[links.len() - 1];
        assert(linkable(text, l.start, l.end));
        assert(before.push(l) =~= links);
    } else {
        assert(links =~= Seq::empty());
    }
}

proof fn lemma_text_again(t: TextModel, heading: bool)
    requires
        linked(t.doc.text, t.doc.links),
    ensures
        stored_text(loaded_text(stored_text(t), heading)) == tagged_text(stored_text(t), heading),
{
    lemma_links_again(t.doc.text, t.doc.links);
}

proof fn lemma_table_again(t: TableModel)
    requires
        kind_linked(KindModel::Table(t)),
    ensures
        stored_body(loaded_body(stored_body(KindModel::Table(t)), (0, 0), 0)) == tagged_body(
            stored_body(KindModel::Table(t)),
        ),
{
    let recs = stored_grid(t.cells);
    let rows = loaded_grid(recs);
    let made = table_of_entries(rows);
    assert(rows[0].len() == t.width());
    assert forall|r: int| 0 <= r < rows.len() implies stored_row(made.cells[r]) == tagged_row(
        #[trigger] recs[r],
    ) by {
        assert(t.cells[r].len() == t.width());
        assert(made.cells[r] =~= rows[r]);
        assert(row_linked(t.cells[r]));
        assert forall|c: int| 0 <= c < recs[r].len() implies stored_row(rows[r])[c]
            == #[trigger] tagged_row(recs[r])[c] by {
            let e = t.cells[r][c];
            assert(linked(e.text.doc.text, e.text.doc.links));
            lemma_text_again(e.text, false);
        }
        assert(stored_row(rows[r]) =~= tagged_row(recs[r]));
    }
    assert(stored_grid(made.cells) =~= Seq::new(recs.len(), |r: int| tagged_row(recs[r])));
    assert(made.width() == t.width());
}

/// Where each text has a link that is a tag, or spells no tag, nothing changes.
pub proof fn committed_texts_stay_as_they_are(r: TextRecord, heading: bool)
    requires
        any_tag(r.links) || tags_spelled(r, heading).len() == 0,
    ensures
        tagged_text(r, heading) == r,
{
}

/// Saving and loading a second time changes nothing more.
pub proof fn tags_are_found_once(r: TextRecord, heading: bool)
    ensures
        tagged_text(tagged_text(r, heading), heading) == tagged_text(r, heading),
{
    let m = TextModel {
        force_heading: heading,
        doc: Doc { links: r.links, ..TextModel::fresh(r.text).doc },
        ..TextModel::fresh(r.text)
    };
    migrating_tags_is_idempotent(m);
    assert(migrated(m).doc.links == tagged_text(r, heading).links);
}

} // verus!
