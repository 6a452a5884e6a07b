//! The stored form of a cell, and its JSON.
use vstd::prelude::*;
use vstd::utf8::*;

use crate::cell::common::Link;
use crate::cell::wrap::Span;
use crate::clipboard::{SerLink, SerTarget};
use crate::clipboard::payload::{
    each_of, field, id_field, kind_field, leaf, link_of, links_json, list, list_field, named,
    number, number_field, object, string, target_keys, target_kinds, text_field,
};
use crate::ids::{spelling, Uuid};
use crate::json::{JsonModel, ValueModel};
use crate::text::{utf8, views};

verus! {

// ---------------------------------------------------------------------------
// Records
// ---------------------------------------------------------------------------

/// A stored link.
pub type LinkRecord = SerLink;

/// What a stored reference points at.
pub type ReferenceTargetRecord = SerTarget;

/// A stored tag: where in its text it stands.
#[derive(Clone, Copy, Debug, PartialEq, Eq, Structural)]
pub struct TagRecord {
    pub start: usize,
    pub end: usize,
}

/// A stored title.
#[derive(Debug)]
pub struct TitleRecord {
    pub text: String,
    pub links: Vec<LinkRecord>,
    /// Tags of old; those of today are links.
    pub tags: Vec<TagRecord>,
}

/// A stored bullet.
#[derive(Debug)]
pub struct BlockRecord {
    pub id: Uuid,
    pub depth: u32,
    pub text: String,
    pub links: Vec<LinkRecord>,
    pub tags: Vec<TagRecord>,
    /// What said of old whether the bullet is open.
    pub active: bool,
    pub closed_at: Option<i64>,
    pub resurface_after: Option<i64>,
}

/// A stored entry of a table.
#[derive(Debug)]
pub struct TableEntryRecord {
    pub text: String,
    pub links: Vec<LinkRecord>,
    pub tags: Vec<TagRecord>,
    pub readonly: bool,
}

/// A stored body.
#[derive(Debug)]
pub enum CellBody {
    Plain { text: String, links: Vec<LinkRecord>, tags: Vec<TagRecord> },
    Outline { blocks: Vec<BlockRecord>, reference_header: Option<ReferenceTargetRecord> },
    PopPop { text: String, links: Vec<LinkRecord> },
    Table { rows: usize, cols: usize, cells: Vec<Vec<TableEntryRecord>> },
    Reference { target: ReferenceTargetRecord },
}

/// A stored cell: body, title and state.
#[derive(Debug)]
pub struct PersistedCell {
    pub title: Option<TitleRecord>,
    /// What said of old whether the cell is open.
    pub active: bool,
    pub closed_at: Option<i64>,
    pub resurface_after: Option<i64>,
    pub inbox: bool,
    pub body: CellBody,
}

/// A stored text.
#[verifier::ext_equal]
pub struct TextRecord {
    pub text: Seq<u8>,
    pub links: Seq<Link>,
    pub tags: Seq<Span>,
}

/// A stored bullet.
#[verifier::ext_equal]
pub struct BlockModel {
    pub id: Uuid,
    pub depth: u32,
    pub said: TextRecord,
    pub active: bool,
    pub closed_at: Option<i64>,
    pub resurface_after: Option<i64>,
}

/// A stored entry of a table.
#[verifier::ext_equal]
pub struct EntryRecord {
    pub said: TextRecord,
    pub readonly: bool,
}

/// A stored body.
#[verifier::ext_equal]
pub enum BodyModel {
    Plain(TextRecord),
    Outline(Seq<BlockModel>, Option<SerTarget>),
    PopPop(Seq<u8>, Seq<Link>),
    Table(int, int, Seq<Seq<EntryRecord>>),
    Reference(SerTarget),
}

/// A stored cell.
#[verifier::ext_equal]
pub struct PersistedModel {
    pub title: Option<TextRecord>,
    pub active: bool,
    pub closed_at: Option<i64>,
    pub resurface_after: Option<i64>,
    pub inbox: bool,
    pub body: BodyModel,
}

impl View for TagRecord {
    type V = Span;

    open spec fn view(&self) -> Span {
        Span { start: self.start as int, end: self.end as int }
    }
}

/// A stored text, out of its parts.
pub open spec fn text_record(text: String, links: Vec<LinkRecord>, tags: Vec<TagRecord>) -> TextRecord {
    TextRecord { text: utf8(text@), links: views(links@), tags: views(tags@) }
}

impl View for TitleRecord {
    type V = TextRecord;

    open spec fn view(&self) -> TextRecord {
        text_record(self.text, self.links, self.tags)
    }
}

impl View for BlockRecord {
    type V = BlockModel;

    open spec fn view(&self) -> BlockModel {
        BlockModel {
            id: self.id,
            depth: self.depth,
            said: text_record(self.text, self.links, self.tags),
            active: self.active,
            closed_at: self.closed_at,
            resurface_after: self.resurface_after,
        }
    }
}

impl View for TableEntryRecord {
    type V = EntryRecord;

    open spec fn view(&self) -> EntryRecord {
        EntryRecord {
            said: text_record(self.text, self.links, self.tags),
            readonly: self.readonly,
        }
    }
}

/// Stored rows.
pub open spec fn rows_record(rows: Seq<Vec<TableEntryRecord>>) -> Seq<Seq<EntryRecord>> {
    Seq::new(rows.len(), |r: int| views(rows[r]@))
}

impl View for CellBody {
    type V = BodyModel;

    open spec fn view(&self) -> BodyModel {
        match self {
            CellBody::Plain { text, links, tags } => BodyModel::Plain(
                text_record(*text, *links, *tags),
            ),
            CellBody::Outline { blocks, reference_header } => BodyModel::Outline(
                views(blocks@),
                *reference_header,
            ),
            CellBody::PopPop { text, links } => BodyModel::PopPop(utf8(text@), views(links@)),
            CellBody::Table { rows, cols, cells } => BodyModel::Table(
                *rows as int,
                *cols as int,
                rows_record(cells@),
            ),
            CellBody::Reference { target } => BodyModel::Reference(*target),
        }
    }
}

/// An optional title.
pub open spec fn title_view(t: Option<TitleRecord>) -> Option<TextRecord> {
    match t {
        Some(t) => Some(t@),
        None => None,
    }
}

impl View for PersistedCell {
    type V = PersistedModel;

    open spec fn view(&self) -> PersistedModel {
        PersistedModel {
            title: title_view(self.title),
            active: self.active,
            closed_at: self.closed_at,
            resurface_after: self.resurface_after,
            inbox: self.inbox,
            body: self.body@,
        }
    }
}

// ---------------------------------------------------------------------------
// Records as JSON
// ---------------------------------------------------------------------------

/// A truth value under a key.
pub open spec fn flag(key: Seq<char>, b: bool) -> JsonModel {
    leaf(Some(utf8(key)), ValueModel::Bool(b))
}

/// `t` where `there`, else nothing.
pub open spec fn maybe(there: bool, t: JsonModel) -> Seq<JsonModel> {
    if there {
        seq![t]
    } else {
        Seq::empty()
    }
}

/// A time under a key, where there is one.
pub open spec fn time_json(key: Seq<char>, t: Option<i64>) -> Seq<JsonModel> {
    match t {
        Some(n) => seq![number(key, n as int)],
        None => Seq::empty(),
    }
}

/// A tag as JSON.
pub open spec fn tag_json(s: Span) -> JsonModel {
    object(None, seq![number("start"@, s.start), number("end"@, s.end)])
}

/// Tags as JSON.
pub open spec fn tags_json(ts: Seq<Span>) -> Seq<JsonModel> {
    Seq::new(ts.len(), |i: int| tag_json(ts[i]))
}

/// The fields of a text; those of its tags where there are any, or `always`.
pub open spec fn text_json(r: TextRecord, always: bool) -> Seq<JsonModel> {
    seq![string("text"@, r.text), list(Some(utf8("links"@)), links_json(r.links))] + maybe(
        always || r.tags.len() > 0,
        list(Some(utf8("tags"@)), tags_json(r.tags)),
    )
}

/// A bullet as JSON.
pub open spec fn block_json(b: BlockModel) -> JsonModel {
    object(
        None,
        seq![string("id"@, utf8(spelling(b.id))), number("depth"@, b.depth as int)] + text_json(
            b.said,
            true,
        ) + maybe(!b.active, flag("active"@, false)) + time_json("closed_at"@, b.closed_at)
            + time_json("resurface_after"@, b.resurface_after),
    )
}

/// An entry of a table as JSON.
pub open spec fn entry_json(e: EntryRecord) -> JsonModel {
    object(None, text_json(e.said, true) + seq![flag("readonly"@, e.readonly)])
}

/// A row of a table as JSON.
pub open spec fn row_json(row: Seq<EntryRecord>) -> JsonModel {
    list(None, Seq::new(row.len(), |c: int| entry_json(row[c])))
}

/// A target as JSON, under a key.
pub open spec fn target_record_json(key: Seq<char>, t: SerTarget) -> JsonModel {
    object(
        Some(utf8(key)),
        match t {
            SerTarget::Cell { cell_id } => seq![
                string("kind"@, utf8("cell"@)),
                string("cell_id"@, utf8(spelling(cell_id))),
            ],
            SerTarget::Subtree { cell_id, bullet_id } => seq![
                string("kind"@, utf8("subtree"@)),
                string("cell_id"@, utf8(spelling(cell_id))),
                string("bullet_id"@, utf8(spelling(bullet_id))),
            ],
        },
    )
}

/// The fields of a body.
pub open spec fn body_json(b: BodyModel) -> Seq<JsonModel> {
    match b {
        BodyModel::Plain(r) => seq![string("kind"@, utf8("plain"@))] + text_json(r, false),
        BodyModel::Outline(blocks, header) => seq![
            string("kind"@, utf8("outline"@)),
            list(
                Some(utf8("blocks"@)),
                Seq::new(blocks.len(), |i: int| block_json(blocks[i])),
            ),
        ] + (match header {
            Some(t) => seq![target_record_json("reference_header"@, t)],
            None => Seq::empty(),
        }),
        BodyModel::PopPop(text, links) => seq![
            string("kind"@, utf8("poppop"@)),
            string("text"@, text),
            list(Some(utf8("links"@)), links_json(links)),
        ],
        BodyModel::Table(rows, cols, cells) => seq![
            string("kind"@, utf8("table"@)),
            number("rows"@, rows),
            number("cols"@, cols),
            list(Some(utf8("cells"@)), Seq::new(cells.len(), |r: int| row_json(cells[r]))),
        ],
        BodyModel::Reference(t) => seq![
            string("kind"@, utf8("reference"@)),
            target_record_json("target"@, t),
        ],
    }
}

/// The fields of a cell before those of its body.
pub open spec fn head_json(p: PersistedModel) -> Seq<JsonModel> {
    (match p.title {
        Some(t) => seq![object(Some(utf8("title"@)), text_json(t, false))],
        None => Seq::empty(),
    }) + maybe(!p.active, flag("active"@, false)) + time_json("closed_at"@, p.closed_at)
        + time_json("resurface_after"@, p.resurface_after) + maybe(p.inbox, flag("inbox"@, true))
}

/// A stored cell as JSON.
pub open spec fn persisted_json(p: PersistedModel) -> JsonModel {
    object(None, head_json(p) + body_json(p.body))
}

// ---------------------------------------------------------------------------
// Records out of JSON
// ---------------------------------------------------------------------------

/// What is in the list under `key`, read by `f`: nothing is in it where there is no
/// such key. `None` where it is no list, or one of its values cannot be read.
pub open spec fn list_or_none<A>(
    t: JsonModel,
    key: Seq<char>,
    f: spec_fn(JsonModel) -> Option<A>,
) -> Option<Seq<A>> {
    match field(t, key) {
        Some(v) => if v.item.value is List {
            each_of(v.inner, f)
        } else {
            None
        },
        None => Some(Seq::empty()),
    }
}

/// The truth value under `key`, `default` where there is no such key. `None` where
/// it is something else.
pub open spec fn flag_or(t: JsonModel, key: Seq<char>, default: bool) -> Option<bool> {
    match field(t, key) {
        Some(v) => match v.item.value {
            ValueModel::Bool(b) => Some(b),
            _ => None,
        },
        None => Some(default),
    }
}

/// The time under `key`: none where there is no such key, or null under it. `None`
/// where it is something else.
pub open spec fn time_of(t: JsonModel, key: Seq<char>) -> Option<Option<i64>> {
    match field(t, key) {
        Some(v) => match v.item.value {
            ValueModel::Null => Some(None),
            ValueModel::Number(n) => if i64::MIN <= n <= i64::MAX {
                Some(Some(n as i64))
            } else {
                None
            },
            _ => None,
        },
        None => Some(None),
    }
}

/// The number under `key`, where it is one of the machine's sizes.
pub open spec fn size_of_field(t: JsonModel, key: Seq<char>) -> Option<int> {
    match number_field(t, key) {
        Some(n) => if 0 <= n <= usize::MAX {
            Some(n)
        } else {
            None
        },
        None => None,
    }
}

/// The keys of a tag.
pub open spec fn tag_keys() -> Seq<Seq<char>> {
    seq!["start"@, "end"@]
}

/// The keys of a title.
pub open spec fn title_keys() -> Seq<Seq<char>> {
    seq!["text"@, "links"@, "tags"@]
}

/// The keys of an entry of a table.
pub open spec fn entry_keys() -> Seq<Seq<char>> {
    seq!["text"@, "links"@, "tags"@, "readonly"@]
}

/// The keys of a bullet.
pub open spec fn block_keys() -> Seq<Seq<char>> {
    seq![
        "id"@,
        "depth"@,
        "text"@,
        "links"@,
        "tags"@,
        "active"@,
        "closed_at"@,
        "resurface_after"@,
    ]
}

/// The tag that JSON says.
pub open spec fn tag_of(t: JsonModel) -> Option<Span> {
    let t = named(t, tag_keys());
    match (size_of_field(t, "start"@), size_of_field(t, "end"@)) {
        (Some(start), Some(end)) => Some(Span { start, end }),
        _ => None,
    }
}

/// The text that JSON says.
pub open spec fn said_by(t: JsonModel) -> Option<TextRecord> {
    match (
        text_field(t, "text"@),
        list_or_none(t, "links"@, |t: JsonModel| link_of(t)),
        list_or_none(t, "tags"@, |t: JsonModel| tag_of(t)),
    ) {
        (Some(text), Some(links), Some(tags)) => Some(TextRecord { text, links, tags }),
        _ => None,
    }
}

/// The bullet that JSON says.
pub open spec fn block_of(t: JsonModel) -> Option<BlockModel> {
    let t = named(t, block_keys());
    match (
        id_field(t, "id"@),
        number_field(t, "depth"@),
        said_by(t),
        flag_or(t, "active"@, true),
        time_of(t, "closed_at"@),
        time_of(t, "resurface_after"@),
    ) {
        (
            Some(id),
            Some(depth),
            Some(said),
            Some(active),
            Some(closed_at),
            Some(resurface_after),
        ) => if 0 <= depth <= u32::MAX {
            Some(BlockModel { id, depth: depth as u32, said, active, closed_at, resurface_after })
        } else {
            None
        },
        _ => None,
    }
}

/// The entry of a table that JSON says.
pub open spec fn entry_of(t: JsonModel) -> Option<EntryRecord> {
    let t = named(t, entry_keys());
    match (said_by(t), flag_or(t, "readonly"@, false)) {
        (Some(said), Some(readonly)) => Some(EntryRecord { said, readonly }),
        _ => None,
    }
}

/// The row of a table that JSON says.
pub open spec fn row_of(t: JsonModel) -> Option<Seq<EntryRecord>> {
    if t.item.value is List {
        each_of(t.inner, |t: JsonModel| entry_of(t))
    } else {
        None
    }
}

/// The target that JSON says.
#[verifier::opaque]
pub open spec fn target_record_of(t: JsonModel) -> Option<SerTarget> {
    let t = named(t, target_keys(t, "kind"@));
    match (kind_field(t, "kind"@, target_kinds()), id_field(t, "cell_id"@)) {
        (Some(kind), Some(cell_id)) => if kind == utf8("cell"@) {
            Some(SerTarget::Cell { cell_id })
        } else if kind == utf8("subtree"@) {
            match id_field(t, "bullet_id"@) {
                Some(bullet_id) => Some(SerTarget::Subtree { cell_id, bullet_id }),
                None => None,
            }
        } else {
            None
        },
        _ => None,
    }
}

/// The header of an outline that JSON says: none where there is no such key, or
/// null under it.
pub open spec fn header_of(t: JsonModel) -> Option<Option<SerTarget>> {
    match field(t, "reference_header"@) {
        Some(v) => if v.item.value is Null {
            Some(None)
        } else {
            match target_record_of(v) {
                Some(target) => Some(Some(target)),
                None => None,
            }
        },
        None => Some(None),
    }
}

/// The body of the kind `kind` that JSON says.
pub open spec fn body_of_kind(t: JsonModel, kind: Seq<u8>) -> Option<BodyModel> {
    if kind == utf8("plain"@) {
        match said_by(t) {
            Some(r) => Some(BodyModel::Plain(r)),
            None => None,
        }
    } else if kind == utf8("outline"@) {
        match (list_field(t, "blocks"@), header_of(t)) {
            (Some(ts), Some(header)) => match each_of(ts, |t: JsonModel| block_of(t)) {
                Some(blocks) => Some(BodyModel::Outline(blocks, header)),
                None => None,
            },
            _ => None,
        }
    } else if kind == utf8("poppop"@) || kind == utf8("pop"@) {
        match (text_field(t, "text"@), list_or_none(t, "links"@, |t: JsonModel| link_of(t))) {
            (Some(text), Some(links)) => Some(BodyModel::PopPop(text, links)),
            _ => None,
        }
    } else if kind == utf8("table"@) {
        match (size_of_field(t, "rows"@), size_of_field(t, "cols"@), list_field(t, "cells"@)) {
            (Some(rows), Some(cols), Some(ts)) => match each_of(ts, |t: JsonModel| row_of(t)) {
                Some(cells) => Some(BodyModel::Table(rows, cols, cells)),
                None => None,
            },
            _ => None,
        }
    } else if kind == utf8("reference"@) {
        match field(t, "target"@) {
            Some(v) => match target_record_of(v) {
                Some(target) => Some(BodyModel::Reference(target)),
                None => None,
            },
            None => None,
        }
    } else {
        None
    }
}

/// The kinds of bodies.
pub open spec fn body_kinds() -> Seq<Seq<char>> {
    seq!["plain"@, "outline"@, "poppop"@, "table"@, "reference"@]
}

/// The body that JSON says.
pub open spec fn body_of(t: JsonModel) -> Option<BodyModel> {
    match kind_field(t, "kind"@, body_kinds()) {
        Some(kind) => body_of_kind(t, kind),
        None => None,
    }
}

/// The title that JSON says: none where there is no such key, or null under it.
pub open spec fn title_of(t: JsonModel) -> Option<Option<TextRecord>> {
    match field(t, "title"@) {
        Some(v) => if v.item.value is Null {
            Some(None)
        } else {
            match said_by(named(v, title_keys())) {
                Some(r) => Some(Some(r)),
                None => None,
            }
        },
        None => Some(None),
    }
}

/// The stored cell that JSON says.
pub open spec fn persisted_of(t: JsonModel) -> Option<PersistedModel> {
    match (
        title_of(t),
        flag_or(t, "active"@, true),
        time_of(t, "closed_at"@),
        time_of(t, "resurface_after"@),
        flag_or(t, "inbox"@, false),
        body_of(t),
    ) {
        (
            Some(title),
            Some(active),
            Some(closed_at),
            Some(resurface_after),
            Some(inbox),
            Some(body),
        ) => Some(PersistedModel { title, active, closed_at, resurface_after, inbox, body }),
        _ => None,
    }
}

} // verus!
