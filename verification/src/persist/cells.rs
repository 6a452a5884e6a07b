//! Cells as they are stored, and stored cells as they are loaded.
use vstd::prelude::*;

use crate::text;
use crate::cell::{Cell, CellKind, CellModel, KindModel};
use crate::cell::bullets::{bullets_wf, BulletModel};
use crate::cell::common::Link;
use crate::cell::model::{DEFAULT_SCALE, linkable, migrated, with_tag, TextModel};
use crate::cell::outline::{outline_of, Bullet, OutlineCell};
use crate::cell::plain::PlainCell;
use crate::cell::poppop::{PopPopCell, PopPopModel};
use crate::cell::reference::{EmbeddedReference, EmbedModel, ReferenceCell, ReferenceModel};
use crate::cell::table::{
    grid_view, grid_wf, table_of_entries, with_links, EntryModel, TableCell, TableEntry,
};
use crate::cell::textbox::TextBox;
use crate::cell::wrap::Span;
use crate::clipboard::{live_target, stored_target, SerLink, SerTarget};
use crate::ids::{new_id, Uuid};
use crate::persist::records::{
    rows_record, text_record, BlockModel, BlockRecord, BodyModel, CellBody, EntryRecord,
    LinkRecord, PersistedCell, PersistedModel, TableEntryRecord, TagRecord, TextRecord,
    TitleRecord,
};
use crate::text::{boundary, utf8, views};

verus! {

// ---------------------------------------------------------------------------
// What is stored of a cell
// ---------------------------------------------------------------------------

/// What is stored of a text. Tags are among its links.
pub open spec fn stored_text(t: TextModel) -> TextRecord {
    TextRecord { text: t.doc.text, links: t.doc.links, tags: Seq::empty() }
}

/// What is stored of a bullet.
pub open spec fn stored_bullet(b: BulletModel) -> BlockModel {
    BlockModel {
        id: b.id,
        depth: b.depth,
        said: stored_text(b.text),
        active: b.closed_at is None,
        closed_at: b.closed_at,
        resurface_after: b.resurface_after,
    }
}

/// What is stored of bullets.
pub open spec fn stored_bullets(bs: Seq<BulletModel>) -> Seq<BlockModel> {
    Seq::new(bs.len(), |i: int| stored_bullet(bs[i]))
}

/// What is stored of a row.
pub open spec fn stored_row(row: Seq<EntryModel>) -> Seq<EntryRecord> {
    Seq::new(
        row.len(),
        |c: int| EntryRecord { said: stored_text(row[c].text), readonly: row[c].readonly },
    )
}

/// What is stored of a grid.
pub open spec fn stored_grid(cells: Seq<Seq<EntryModel>>) -> Seq<Seq<EntryRecord>> {
    Seq::new(cells.len(), |r: int| stored_row(cells[r]))
}

/// What is stored of a body.
pub open spec fn stored_body(k: KindModel) -> BodyModel {
    match k {
        KindModel::Plain(t) => BodyModel::Plain(stored_text(t)),
        KindModel::Outline(o, header) => BodyModel::Outline(
            stored_bullets(o.bullets),
            match header {
                Some(h) => Some(stored_target(h.target)),
                None => None,
            },
        ),
        KindModel::PopPop(p) => BodyModel::PopPop(p.input.doc.text, p.input.doc.links),
        KindModel::Table(t) => BodyModel::Table(
            t.cells.len() as int,
            t.width(),
            stored_grid(t.cells),
        ),
        KindModel::Reference(r) => BodyModel::Reference(stored_target(r.head.target)),
    }
}

/// What is stored of a cell, besides its place in the stream.
pub open spec fn stored(c: CellModel) -> PersistedModel {
    PersistedModel {
        title: match c.title {
            Some(t) => Some(stored_text(t)),
            None => None,
        },
        active: c.closed_at is None,
        closed_at: c.closed_at,
        resurface_after: c.resurface_after,
        inbox: c.inbox,
        body: stored_body(c.kind),
    }
}

fn text_to_record(tb: &TextBox) -> (r: TitleRecord)
    ensures
        r@ == stored_text(tb@),
{
    let r = TitleRecord {
        text: text::copy(tb.text()),
        links: SerLink::spans_to_ser(tb.links()),
        tags: Vec::new(),
    };
    assert(r@ =~= stored_text(tb@));
    r
}

fn bullets_to_records(bullets: &[Bullet]) -> (v: Vec<BlockRecord>)
    ensures
        views(v@) == stored_bullets(views(bullets@)),
{
    let mut out: Vec<BlockRecord> = Vec::new();
    let mut i: usize = 0;
    while i < bullets.len()
        invariant
            i <= bullets.len(),
            out@.len() == i,
            forall|k: int| 0 <= k < i ==> (#[trigger] out@[k])@ == stored_bullet(bullets@[k]@),
        decreases bullets.len() - i,
    {
        let b = &bullets[i];
        let said = text_to_record(b.textbox());
        let rec = BlockRecord {
            id: b.id(),
            depth: b.depth(),
            text: said.text,
            links: said.links,
            tags: said.tags,
            active: b.is_open(),
            closed_at: b.closed_at(),
            resurface_after: b.resurface_after(),
        };
        assert(rec@ =~= stored_bullet(b@));
        out.push(rec);
        i += 1;
    }
    assert(views(out@) =~= stored_bullets(views(bullets@)));
    out
}

fn row_to_records(row: &Vec<TableEntry>) -> (v: Vec<TableEntryRecord>)
    ensures
        views(v@) == stored_row(views(row@)),
{
    let mut out: Vec<TableEntryRecord> = Vec::new();
    let mut i: usize = 0;
    while i < row.len()
        invariant
            i <= row.len(),
            out@.len() == i,
            forall|k: int|
                0 <= k < i ==> (#[trigger] out@[k])@ == (EntryRecord {
                    said: stored_text(row@[k]@.text),
                    readonly: row@[k]@.readonly,
                }),
        decreases row.len() - i,
    {
        let said = text_to_record(&row[i].textbox);
        out.push(
            TableEntryRecord {
                text: said.text,
                links: said.links,
                tags: said.tags,
                readonly: row[i].readonly,
            },
        );
        i += 1;
    }
    assert(views(out@) =~= stored_row(views(row@)));
    out
}

fn rows_to_records(rows: &[Vec<TableEntry>]) -> (v: Vec<Vec<TableEntryRecord>>)
    ensures
        rows_record(v@) == stored_grid(grid_view(rows@)),
{
    let ghost g = grid_view(rows@);
    let mut out: Vec<Vec<TableEntryRecord>> = Vec::new();
    let mut i: usize = 0;
    while i < rows.len()
        invariant
            i <= rows.len(),
            g == grid_view(rows@),
            out@.len() == i,
            forall|k: int| 0 <= k < i ==> #[trigger] views(out@[k]@) == stored_row(g[k]),
        decreases rows.len() - i,
    {
        let ghost held = out@;
        assert(g[i as int] == views(rows@[i as int]@));
        out.push(row_to_records(&rows[i]));
        proof {
            assert forall|k: int| 0 <= k < i + 1 implies #[trigger] views(out@[k]@) == stored_row(
                g[k],
            ) by {
                if k < i {
                    assert(views(held[k]@) == stored_row(g[k]));
                }
            }
        }
        i += 1;
    }
    proof {
        assert forall|k: int| 0 <= k < g.len() implies rows_record(out@)[k] == stored_row(g[k]) by {
            assert(views(out@[k]@) == stored_row(g[k]));
        }
        assert(rows_record(out@) =~= stored_grid(g));
    }
    out
}

/// The stored form of a cell's body.
pub fn cell_to_body(cell: &Cell) -> (b: CellBody)
    ensures
        b@ == stored_body(cell.kind.model()),
{
    match &cell.kind {
        CellKind::Plain(p) => {
            let said = text_to_record(p.body());
            CellBody::Plain { text: said.text, links: said.links, tags: said.tags }
        },
        CellKind::Outline(o) => CellBody::Outline {
            blocks: bullets_to_records(o.bullets()),
            reference_header: match o.reference_header() {
                Some(h) => Some(SerTarget::from_target(h.target())),
                None => None,
            },
        },
        CellKind::PopPop(p) => {
            let said = text_to_record(p.textbox());
            CellBody::PopPop { text: said.text, links: said.links }
        },
        CellKind::Table(t) => CellBody::Table {
            rows: t.rows(),
            cols: t.cols(),
            cells: rows_to_records(t.rows_view()),
        },
        CellKind::Reference(r) => CellBody::Reference {
            target: SerTarget::from_target(r.target()),
        },
    }
}

/// The stored form of a cell, besides its place in the stream.
pub fn persisted_cell_from(cell: &Cell) -> (p: PersistedCell)
    ensures
        p@ == stored(cell.model()),
{
    PersistedCell {
        title: match &cell.title {
            Some(tb) => Some(text_to_record(tb)),
            None => None,
        },
        active: cell.closed_at.is_none(),
        closed_at: cell.closed_at,
        resurface_after: cell.resurface_after,
        inbox: cell.inbox,
        body: cell_to_body(cell),
    }
}

// ---------------------------------------------------------------------------
// What is loaded of a stored cell
// ---------------------------------------------------------------------------

/// `links` with a tag on each of `tags`.
pub open spec fn with_tags(text: Seq<u8>, links: Seq<Link>, tags: Seq<Span>) -> Seq<Link>
    decreases tags.len(),
{
    if tags.len() == 0 {
        links
    } else {
        let t = tags.last();
        with_tag(text, with_tags(text, links, tags.drop_last()), t.start, t.end)
    }
}

/// The text box of a stored text, of a title or of a body: its links, and its tags
/// or, where none are stored, those that the text spells.
pub open spec fn loaded_text(r: TextRecord, heading: bool) -> TextModel {
    let t = (TextModel { force_heading: heading, ..TextModel::fresh(r.text) }).linking(
        with_links(r.text, Seq::empty(), r.links),
    );
    if r.tags.len() == 0 {
        migrated(t)
    } else {
        t.linking(with_tags(r.text, t.doc.links, r.tags))
    }
}

/// The length of the shortest tags that must sit on characters where a cell is
/// loaded: every tag is cut out of its text.
pub const LOADED: usize = 1;

/// The length of the shortest tags that must sit on characters where names are read:
/// a tag of one byte has no name and is passed over.
pub const NAMED: usize = 2;

/// Every stored tag of `least` bytes or more that lies in its text starts and ends
/// where characters do.
pub open spec fn tags_sit(r: TextRecord, least: int) -> bool {
    forall|i: int|
        0 <= i < r.tags.len() && linkable(
            r.text,
            (#[trigger] r.tags[i]).start,
            r.tags[i].end,
        ) && r.tags[i].start + least <= r.tags[i].end ==> boundary(r.text, r.tags[i].start) && boundary(r.text, r.tags[i].end)
}

/// When a stored bullet or cell was closed. One of old that is only known not to be
/// active was closed at `otherwise`.
pub open spec fn closed_when(closed_at: Option<i64>, active: bool, otherwise: i64) -> Option<i64> {
    match closed_at {
        Some(t) => Some(t),
        None => if active {
            None
        } else {
            Some(otherwise)
        },
    }
}

/// The bullet of a stored one.
pub open spec fn loaded_bullet(b: BlockModel) -> BulletModel {
    BulletModel {
        id: b.id,
        text: loaded_text(b.said, false),
        depth: b.depth,
        closed_at: closed_when(b.closed_at, b.active, 0),
        resurface_after: b.resurface_after,
    }
}

/// The bullets of stored ones.
pub open spec fn loaded_bullets(bs: Seq<BlockModel>) -> Seq<BulletModel> {
    Seq::new(bs.len(), |i: int| loaded_bullet(bs[i]))
}

/// The row of a stored one.
pub open spec fn loaded_row(row: Seq<EntryRecord>) -> Seq<EntryModel> {
    Seq::new(
        row.len(),
        |c: int| EntryModel { text: loaded_text(row[c].said, false), readonly: row[c].readonly },
    )
}

/// The grid of a stored one.
pub open spec fn loaded_grid(cells: Seq<Seq<EntryRecord>>) -> Seq<Seq<EntryModel>> {
    Seq::new(cells.len(), |r: int| loaded_row(cells[r]))
}

/// The calculator of a stored one, loaded at `now`.
pub open spec fn loaded_poppop(text: Seq<u8>, links: Seq<Link>, now: u64) -> PopPopModel {
    let input = PopPopModel::fresh().input.replaced_text(text, now);
    PopPopModel {
        input: input.linking(with_links(text, input.doc.links, links)),
        ..PopPopModel::fresh()
    }
}

/// The body of a stored one, loaded at `now`. An outline without bullets gets one.
pub open spec fn loaded_body(b: BodyModel, ids: (Uuid, Uuid), now: u64) -> KindModel {
    match b {
        BodyModel::Plain(r) => KindModel::Plain(loaded_text(r, false)),
        BodyModel::Outline(blocks, header) => KindModel::Outline(
            outline_of(loaded_bullets(blocks), ids),
            match header {
                Some(t) => Some(EmbedModel::fresh(live_target(t))),
                None => None,
            },
        ),
        BodyModel::PopPop(text, links) => KindModel::PopPop(loaded_poppop(text, links, now)),
        BodyModel::Table(_, _, cells) => KindModel::Table(table_of_entries(loaded_grid(cells))),
        BodyModel::Reference(t) => KindModel::Reference(
            ReferenceModel { head: EmbedModel::fresh(live_target(t)), scale: DEFAULT_SCALE },
        ),
    }
}

/// Every stored tag of the grid of `least` bytes or more sits on characters.
pub open spec fn grid_sits(cells: Seq<Seq<EntryRecord>>, least: int) -> bool {
    forall|r: int, c: int|
        0 <= r < cells.len() && 0 <= c < cells[r].len() ==> tags_sit((#[trigger] cells[r][c]).said, least)
}

/// Every stored tag of the body of `least` bytes or more sits on characters.
pub open spec fn body_sits(b: BodyModel, least: int) -> bool {
    match b {
        BodyModel::Plain(r) => tags_sit(r, least),
        BodyModel::Outline(blocks, _) => forall|i: int|
            0 <= i < blocks.len() ==> tags_sit((#[trigger] blocks[i]).said, least),
        BodyModel::Table(_, _, cells) => grid_sits(cells, least),
        _ => true,
    }
}

/// Every stored tag of the cell of `least` bytes or more sits on characters.
pub open spec fn persisted_sits(p: PersistedModel, least: int) -> bool {
    &&& p.title matches Some(t) ==> tags_sit(t, least)
    &&& body_sits(p.body, least)
}

fn sits(text: &String, links: &Vec<LinkRecord>, tags: &Vec<TagRecord>, least: usize) -> (r: bool)
    ensures
        r == tags_sit(text_record(*text, *links, *tags), least as int),
{
    let ghost rec = text_record(*text, *links, *tags);
    let s = text.as_str();
    let n: usize = text::len(s);
    let mut i: usize = 0;
    while i < tags.len()
        invariant
            i <= tags.len(),
            rec == text_record(*text, *links, *tags),
            utf8(s@) == rec.text,
            n == rec.text.len(),
            forall|k: int|
                0 <= k < i && linkable(
                    rec.text,
                    (#[trigger] rec.tags[k]).start,
                    rec.tags[k].end,
                ) && rec.tags[k].start + least <= rec.tags[k].end ==> boundary(
                    rec.text,
                    rec.tags[k].start,
                ) && boundary(rec.text, rec.tags[k].end),
        decreases tags.len() - i,
    {
        let t = &tags[i];
        assert(rec.tags[i as int] == t@);
        if t.start < t.end && t.end <= n && t.end - t.start >= least {
            if !text::is_boundary(s, t.start) || !text::is_boundary(s, t.end) {
                return false;
            }
        }
        i += 1;
    }
    true
}

pub(crate) fn load_text(
    text: &String,
    links: &Vec<LinkRecord>,
    tags: &Vec<TagRecord>,
    heading: bool,
) -> (tb: TextBox)
    requires
        tags_sit(text_record(*text, *links, *tags), LOADED as int),
    ensures
        tb@ == loaded_text(text_record(*text, *links, *tags), heading),
        tb@.wf(),
{
    let ghost rec = text_record(*text, *links, *tags);
    let mut tb = TextBox::new(text::copy(text.as_str()));
    tb.set_force_heading(heading);
    let ghost fresh = TextModel { force_heading: heading, ..TextModel::fresh(rec.text) };
    assert(tb@ =~= fresh);
    let mut i: usize = 0;
    assert(rec.links.subrange(0, 0) =~= Seq::<Link>::empty());
    assert(fresh.linking(Seq::empty()) =~= fresh);
    while i < links.len()
        invariant
            i <= links.len(),
            rec == text_record(*text, *links, *tags),
            fresh == (TextModel { force_heading: heading, ..TextModel::fresh(rec.text) }),
            tb@ == fresh.linking(
                with_links(rec.text, Seq::empty(), rec.links.subrange(0, i as int)),
            ),
            tb@.wf(),
        decreases links.len() - i,
    {
        proof {
            let upto = rec.links.subrange(0, i + 1);
            assert(upto.drop_last() =~= rec.links.subrange(0, i as int));
            assert(upto.last() == links@[i as int]@);
        }
        let l = &links[i];
        tb.add_link(l.start..l.end, text::copy(l.url.as_str()));
        i += 1;
        assert(tb@ =~= fresh.linking(
            with_links(rec.text, Seq::empty(), rec.links.subrange(0, i as int)),
        ));
    }
    assert(rec.links.subrange(0, i as int) =~= rec.links);
    if tags.len() == 0 {
        tb.migrate_tags_from_text();
        return tb;
    }
    let ghost linked = tb@;
    i = 0;
    assert(rec.tags.subrange(0, 0) =~= Seq::<Span>::empty());
    assert(linked.linking(linked.doc.links) =~= linked);
    while i < tags.len()
        invariant
            i <= tags.len(),
            rec == text_record(*text, *links, *tags),
            tags_sit(rec, LOADED as int),
            linked.doc.text == rec.text,
            tb@ == linked.linking(
                with_tags(rec.text, linked.doc.links, rec.tags.subrange(0, i as int)),
            ),
            tb@.wf(),
        decreases tags.len() - i,
    {
        proof {
            let upto = rec.tags.subrange(0, i + 1);
            assert(upto.drop_last() =~= rec.tags.subrange(0, i as int));
            assert(upto.last() == tags@[i as int]@);
            assert(rec.tags[i as int] == tags@[i as int]@);
        }
        tb.add_tag(tags[i].start..tags[i].end);
        i += 1;
        assert(tb@ =~= linked.linking(
            with_tags(rec.text, linked.doc.links, rec.tags.subrange(0, i as int)),
        ));
    }
    assert(rec.tags.subrange(0, i as int) =~= rec.tags);
    tb
}

fn load_bullets(blocks: &Vec<BlockRecord>) -> (v: Vec<Bullet>)
    requires
        forall|i: int| 0 <= i < views(blocks@).len() ==> tags_sit((#[trigger] views(blocks@)[i]).said, LOADED as int),
    ensures
        views(v@) == loaded_bullets(views(blocks@)),
        bullets_wf(views(v@)),
{
    let ghost bs = views(blocks@);
    let mut out: Vec<Bullet> = Vec::new();
    let mut i: usize = 0;
    while i < blocks.len()
        invariant
            i <= blocks.len(),
            bs == views(blocks@),
            forall|i: int| 0 <= i < bs.len() ==> tags_sit((#[trigger] bs[i]).said, LOADED as int),
            out@.len() == i,
            forall|k: int|
                0 <= k < i ==> (#[trigger] out@[k])@ == loaded_bullet(bs[k]) && out@[k]@.text.wf(),
        decreases blocks.len() - i,
    {
        let b = &blocks[i];
        assert(bs[i as int] == b@);
        let mut bullet = Bullet::new(
            b.id,
            load_text(&b.text, &b.links, &b.tags, false),
            b.depth,
        );
        let closed_at = match b.closed_at {
            Some(t) => Some(t),
            None => if b.active {
                None
            } else {
                Some(0)
            },
        };
        bullet.set_closed_at(closed_at);
        bullet.set_resurface_after(b.resurface_after);
        assert(bullet@ =~= loaded_bullet(bs[i as int]));
        out.push(bullet);
        i += 1;
    }
    assert(views(out@) =~= loaded_bullets(bs));
    out
}

fn load_row(row: &Vec<TableEntryRecord>) -> (v: Vec<TableEntry>)
    requires
        forall|c: int| 0 <= c < views(row@).len() ==> tags_sit((#[trigger] views(row@)[c]).said, LOADED as int),
    ensures
        views(v@) == loaded_row(views(row@)),
        forall|c: int| 0 <= c < v@.len() ==> (#[trigger] v@[c])@.text.wf(),
{
    let ghost rs = views(row@);
    let mut out: Vec<TableEntry> = Vec::new();
    let mut i: usize = 0;
    while i < row.len()
        invariant
            i <= row.len(),
            rs == views(row@),
            forall|c: int| 0 <= c < rs.len() ==> tags_sit((#[trigger] rs[c]).said, LOADED as int),
            out@.len() == i,
            forall|k: int|
                0 <= k < i ==> (#[trigger] out@[k])@ == (EntryModel {
                    text: loaded_text(rs[k].said, false),
                    readonly: rs[k].readonly,
                }) && out@[k]@.text.wf(),
        decreases row.len() - i,
    {
        let e = &row[i];
        assert(rs[i as int] == e@);
        out.push(
            TableEntry {
                textbox: load_text(&e.text, &e.links, &e.tags, false),
                readonly: e.readonly,
            },
        );
        i += 1;
    }
    assert(views(out@) =~= loaded_row(rs));
    out
}

fn load_rows(rows: &Vec<Vec<TableEntryRecord>>) -> (v: Vec<Vec<TableEntry>>)
    requires
        grid_sits(rows_record(rows@), LOADED as int),
    ensures
        grid_view(v@) == loaded_grid(rows_record(rows@)),
        grid_wf(grid_view(v@)),
{
    let ghost all = rows_record(rows@);
    let mut out: Vec<Vec<TableEntry>> = Vec::new();
    let mut i: usize = 0;
    while i < rows.len()
        invariant
            i <= rows.len(),
            all == rows_record(rows@),
            grid_sits(all, LOADED as int),
            out@.len() == i,
            forall|k: int| 0 <= k < i ==> #[trigger] views(out@[k]@) == loaded_row(all[k]),
            forall|k: int, c: int|
                #![trigger out@[k]@[c]]
                0 <= k < i && 0 <= c < out@[k]@.len() ==> out@[k]@[c]@.text.wf(),
        decreases rows.len() - i,
    {
        let ghost held = out@;
        let ghost row = views(rows@[i as int]@);
        assert(all[i as int] == row);
        assert forall|c: int| 0 <= c < row.len() implies tags_sit((#[trigger] row[c]).said, LOADED as int) by {
            assert(all[i as int][c] == row[c]);
        }
        let made = load_row(&rows[i]);
        let ghost last = made@;
        out.push(made);
        proof {
            assert forall|k: int| 0 <= k < i + 1 implies #[trigger] views(out@[k]@) == loaded_row(
                all[k],
            ) by {
                if k < i {
                    assert(views(held[k]@) == loaded_row(all[k]));
                }
            }
            assert forall|k: int, c: int|
                #![trigger out@[k]@[c]]
                0 <= k < i + 1 && 0 <= c < out@[k]@.len() implies out@[k]@[c]@.text.wf() by {
                if k < i {
                    assert(held[k]@[c]@.text.wf());
                } else {
                    assert(last[c]@.text.wf());
                }
            }
        }
        i += 1;
    }
    proof {
        assert forall|k: int| 0 <= k < all.len() implies grid_view(out@)[k] == loaded_row(all[k]) by {
            assert(views(out@[k]@) == loaded_row(all[k]));
        }
        assert(grid_view(out@) =~= loaded_grid(all));
        let g = grid_view(out@);
        assert forall|k: int, c: int|
            #![trigger g[k][c]]
            0 <= k < g.len() && 0 <= c < g[k].len() implies g[k][c].text.wf() by {
            assert(g[k] == views(out@[k]@));
            assert(out@[k]@[c]@.text.wf());
        }
    }
    out
}

/// The body of a stored one. Where it is an outline without bullets, `ids` are the
/// identities of the one it gets: `ids.1` is the bullet's, `ids.0` has the focus.
pub fn body_to_kind_with(body: CellBody, ids: (Uuid, Uuid), now: u64) -> (k: CellKind)
    requires
        body_sits(body@, LOADED as int),
    ensures
        k.model() == loaded_body(body@, ids, now),
        k.model().wf(),
{
    match body {
        CellBody::Plain { text, links, tags } => {
            CellKind::Plain(PlainCell::from_textbox(load_text(&text, &links, &tags, false)))
        },
        CellBody::Outline { blocks, reference_header } => {
            let bullets = load_bullets(&blocks);
            let header = match reference_header {
                Some(t) => Some(EmbeddedReference::new(t.into_target())),
                None => None,
            };
            CellKind::Outline(OutlineCell::from_bullets_with_ids(bullets, header, ids.0, ids.1))
        },
        CellBody::PopPop { text, links } => {
            let ghost b = utf8(text@);
            let ghost ls = views(links@);
            let mut p = PopPopCell::new();
            p.textbox_mut().replace_text(text, now);
            let ghost input = p@.input;
            assert(input == PopPopModel::fresh().input.replaced_text(b, now));
            let mut i: usize = 0;
            assert(ls.subrange(0, 0) =~= Seq::<Link>::empty());
            assert(input.linking(input.doc.links) =~= input);
            while i < links.len()
                invariant
                    i <= links.len(),
                    ls == views(links@),
                    input.doc.text == b,
                    p@ == (PopPopModel {
                        input: input.linking(
                            with_links(b, input.doc.links, ls.subrange(0, i as int)),
                        ),
                        ..PopPopModel::fresh()
                    }),
                    p@.wf(),
                decreases links.len() - i,
            {
                proof {
                    let upto = ls.subrange(0, i + 1);
                    assert(upto.drop_last() =~= ls.subrange(0, i as int));
                    assert(upto.last() == links@[i as int]@);
                }
                let l = &links[i];
                p.textbox_mut().add_link(l.start..l.end, text::copy(l.url.as_str()));
                i += 1;
                assert(p@.input =~= input.linking(
                    with_links(b, input.doc.links, ls.subrange(0, i as int)),
                ));
            }
            assert(ls.subrange(0, i as int) =~= ls);
            CellKind::PopPop(p)
        },
        CellBody::Table { rows: _, cols: _, cells } => {
            CellKind::Table(TableCell::from_entries(load_rows(&cells)))
        },
        CellBody::Reference { target } => {
            CellKind::Reference(ReferenceCell::new(target.into_target()))
        },
    }
}

/// The body of a stored one.
pub fn body_to_kind(body: CellBody, now: u64) -> (k: CellKind)
    requires
        body_sits(body@, LOADED as int),
    ensures
        exists|ids: (Uuid, Uuid)| k.model() == #[trigger] loaded_body(body@, ids, now),
        k.model().wf(),
{
    let a: Uuid = new_id();
    let b: Uuid = new_id();
    let ghost m = body@;
    let k = body_to_kind_with(body, (a, b), now);
    assert(k.model() == loaded_body(m, (a, b), now));
    k
}

impl PersistedCell {
    /// Whether every stored tag of the cell of `least` bytes or more sits on characters.
    pub fn sits(&self, least: usize) -> (r: bool)
        ensures
            r == persisted_sits(self@, least as int),
    {
        if let Some(t) = &self.title {
            if !sits(&t.text, &t.links, &t.tags, least) {
                return false;
            }
        }
        match &self.body {
            CellBody::Plain { text, links, tags } => sits(text, links, tags, least),
            CellBody::Outline { blocks, .. } => {
                let ghost bs = views(blocks@);
                let mut i: usize = 0;
                while i < blocks.len()
                    invariant
                        i <= blocks.len(),
                        bs == views(blocks@),
                        self@.body == BodyModel::Outline(bs, self@.body->Outline_1),
                        self@.title matches Some(t) ==> tags_sit(t, least as int),
                        forall|k: int| 0 <= k < i ==> tags_sit((#[trigger] bs[k]).said, least as int),
                    decreases blocks.len() - i,
                {
                    let b = &blocks[i];
                    assert(bs[i as int] == b@);
                    if !sits(&b.text, &b.links, &b.tags, least) {
                        assert(!tags_sit(bs[i as int].said, least as int));
                        return false;
                    }
                    i += 1;
                }
                true
            },
            CellBody::Table { cells, .. } => {
                rows_sit(cells, least)
            },
            _ => true,
        }
    }
}

fn rows_sit(rows: &Vec<Vec<TableEntryRecord>>, least: usize) -> (r: bool)
    ensures
        r == grid_sits(rows_record(rows@), least as int),
{
    let ghost all = rows_record(rows@);
    let mut i: usize = 0;
    while i < rows.len()
        invariant
            i <= rows.len(),
            all == rows_record(rows@),
            forall|r: int, c: int|
                0 <= r < i && 0 <= c < all[r].len() ==> tags_sit((#[trigger] all[r][c]).said, least as int),
        decreases rows.len() - i,
    {
        let row = &rows[i];
        assert(all[i as int] == views(row@));
        let mut j: usize = 0;
        while j < row.len()
            invariant
                i < rows.len(),
                j <= row.len(),
                all == rows_record(rows@),
                all[i as int] == views(row@),
                forall|r: int, c: int|
                    0 <= r < i && 0 <= c < all[r].len() ==> tags_sit((#[trigger] all[r][c]).said, least as int),
                forall|c: int|
                    0 <= c < j ==> tags_sit((#[trigger] all[i as int][c]).said, least as int),
            decreases row.len() - j,
        {
            let e = &row[j];
            assert(all[i as int][j as int] == e@);
            if !sits(&e.text, &e.links, &e.tags, least) {
                assert(!tags_sit(all[i as int][j as int].said, least as int));
                return false;
            }
            j += 1;
        }
        i += 1;
    }
    true
}

} // verus!
