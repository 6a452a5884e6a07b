//! Writing stored cells as JSON, and reading them.
use vstd::prelude::*;
use vstd::utf8::*;

use crate::text;
use crate::clipboard::SerTarget;
use crate::clipboard::payload::{
    each_of, ids_spelled, keys_of, link_of, links_read, links_to_json, list_json, named,
    number_json, object, object_json, string_json, target_key_list, target_kind_list,
};
use crate::ids::id_text;
use crate::json::{json_parsed, json_stored, models, Json, JsonModel, JsonValue};
use crate::persist::reading::{
    body_fits, id_spelled, persisted_fits, stored_cells_are_read_back, text_fits,
};
use crate::persist::records::{
    block_json, block_keys, block_of, body_json, body_kinds, body_of, entry_json, entry_keys,
    entry_of, flag, flag_or, head_json, header_of, list_or_none, maybe, persisted_json,
    persisted_of, row_json, row_of, rows_record, said_by, size_of_field, tag_json, tag_keys,
    tag_of, tags_json, target_record_json, target_record_of, text_json, text_record, time_json,
    time_of, title_keys, title_view, BlockRecord, BodyModel, CellBody, LinkRecord, PersistedCell,
    PersistedModel, ReferenceTargetRecord, TableEntryRecord, TagRecord, TitleRecord,
};
use crate::text::{utf8, views};

verus! {

// ---------------------------------------------------------------------------
// Writing
// ---------------------------------------------------------------------------

fn flag_json(key: &str, b: bool) -> (j: Json)
    ensures
        j.model() == flag(key@, b),
{
    let j = Json { key: Some(text::copy(key)), value: JsonValue::Bool(b), inner: Vec::new() };
    assert(j.model().inner =~= Seq::empty());
    j
}

fn push_time(key: &str, time: Option<i64>, out: &mut Vec<Json>)
    ensures
        models(final(out)@) == models(old(out)@) + time_json(key@, time),
{
    let ghost start = models(out@);
    match time {
        Some(n) => {
            out.push(number_json(key, n as i128));
        },
        None => {},
    }
    assert(models(out@) =~= start + time_json(key@, time));
}

fn tags_to_json(tags: &Vec<TagRecord>) -> (js: Vec<Json>)
    ensures
        models(js@) == tags_json(views(tags@)),
{
    let mut out: Vec<Json> = Vec::new();
    let mut i: usize = 0;
    while i < tags.len()
        invariant
            i <= tags.len(),
            out@.len() == i,
            forall|k: int| 0 <= k < i ==> (#[trigger] out@[k]).model() == tag_json(tags@[k]@),
        decreases tags.len() - i,
    {
        let mut inner: Vec<Json> = Vec::new();
        inner.push(number_json("start", tags[i].start as i128));
        inner.push(number_json("end", tags[i].end as i128));
        assert(models(inner@) =~= tag_json(tags@[i as int]@).inner);
        out.push(object_json(None, inner));
        i += 1;
    }
    assert(models(out@) =~= tags_json(views(tags@)));
    out
}

fn push_text(
    text: &String,
    links: &Vec<LinkRecord>,
    tags: &Vec<TagRecord>,
    always: bool,
    out: &mut Vec<Json>,
)
    ensures
        models(final(out)@) == models(old(out)@) + text_json(
            text_record(*text, *links, *tags),
            always,
        ),
        text_fits(text_record(*text, *links, *tags)),
{
    let ghost start = models(out@);
    out.push(string_json("text", text.as_str()));
    out.push(list_json(Some("links"), links_to_json(links)));
    if always || tags.len() > 0 {
        out.push(list_json(Some("tags"), tags_to_json(tags)));
    }
    assert(models(out@) =~= start + text_json(text_record(*text, *links, *tags), always));
}

fn block_to_json(b: &BlockRecord) -> (j: Json)
    ensures
        j.model() == block_json(b@),
        text_fits(b@.said),
        id_spelled(b@.id),
{
    let mut inner: Vec<Json> = Vec::new();
    inner.push(string_json("id", id_text(b.id).as_str()));
    inner.push(number_json("depth", b.depth as i128));
    push_text(&b.text, &b.links, &b.tags, true, &mut inner);
    let ghost said = models(inner@);
    if !b.active {
        inner.push(flag_json("active", false));
    }
    assert(models(inner@) =~= said + maybe(!b.active, flag("active"@, false)));
    push_time("closed_at", b.closed_at, &mut inner);
    push_time("resurface_after", b.resurface_after, &mut inner);
    assert(models(inner@) =~= block_json(b@).inner);
    object_json(None, inner)
}

fn blocks_to_json(blocks: &Vec<BlockRecord>) -> (js: Vec<Json>)
    ensures
        models(js@) == Seq::new(views(blocks@).len(), |i: int| block_json(views(blocks@)[i])),
        forall|i: int|
            0 <= i < views(blocks@).len() ==> text_fits((#[trigger] views(blocks@)[i]).said)
                && id_spelled(views(blocks@)[i].id),
{
    let mut out: Vec<Json> = Vec::new();
    let mut i: usize = 0;
    while i < blocks.len()
        invariant
            i <= blocks.len(),
            out@.len() == i,
            forall|k: int| 0 <= k < i ==> (#[trigger] out@[k]).model() == block_json(blocks@[k]@),
            forall|k: int|
                0 <= k < i ==> text_fits((#[trigger] blocks@[k])@.said) && id_spelled(blocks@[k]@.id),
        decreases blocks.len() - i,
    {
        out.push(block_to_json(&blocks[i]));
        i += 1;
    }
    assert(models(out@) =~= Seq::new(
        views(blocks@).len(),
        |i: int| block_json(views(blocks@)[i]),
    ));
    out
}

fn row_to_json(row: &Vec<TableEntryRecord>) -> (j: Json)
    ensures
        j.model() == row_json(views(row@)),
        forall|c: int| 0 <= c < views(row@).len() ==> text_fits((#[trigger] views(row@)[c]).said),
{
    let mut out: Vec<Json> = Vec::new();
    let mut i: usize = 0;
    while i < row.len()
        invariant
            i <= row.len(),
            out@.len() == i,
            forall|k: int| 0 <= k < i ==> (#[trigger] out@[k]).model() == entry_json(row@[k]@),
            forall|k: int| 0 <= k < i ==> text_fits((#[trigger] row@[k])@.said),
        decreases row.len() - i,
    {
        let e = &row[i];
        let mut inner: Vec<Json> = Vec::new();
        push_text(&e.text, &e.links, &e.tags, true, &mut inner);
        inner.push(flag_json("readonly", e.readonly));
        assert(models(inner@) =~= entry_json(e@).inner);
        out.push(object_json(None, inner));
        i += 1;
    }
    assert(models(out@) =~= row_json(views(row@)).inner);
    list_json(None, out)
}

fn rows_to_json(rows: &Vec<Vec<TableEntryRecord>>) -> (js: Vec<Json>)
    ensures
        models(js@) == Seq::new(rows_record(rows@).len(), |r: int| row_json(rows_record(rows@)[r])),
        body_fits(BodyModel::Table(0, 0, rows_record(rows@))),
{
    let ghost all = rows_record(rows@);
    let mut out: Vec<Json> = Vec::new();
    let mut i: usize = 0;
    while i < rows.len()
        invariant
            i <= rows.len(),
            all == rows_record(rows@),
            out@.len() == i,
            forall|k: int| 0 <= k < i ==> (#[trigger] out@[k]).model() == row_json(all[k]),
            forall|r: int, c: int|
                0 <= r < i && 0 <= c < all[r].len() ==> text_fits((#[trigger] all[r][c]).said),
        decreases rows.len() - i,
    {
        assert(all[i as int] == views(rows@[i as int]@));
        out.push(row_to_json(&rows[i]));
        i += 1;
    }
    assert(models(out@) =~= Seq::new(all.len(), |r: int| row_json(all[r])));
    out
}

fn target_record_to_json(key: &str, t: &ReferenceTargetRecord) -> (j: Json)
    ensures
        j.model() == target_record_json(key@, *t),
        ids_spelled(*t),
{
    let mut inner: Vec<Json> = Vec::new();
    match t {
        SerTarget::Cell { cell_id } => {
            inner.push(string_json("kind", "cell"));
            inner.push(string_json("cell_id", id_text(*cell_id).as_str()));
        },
        SerTarget::Subtree { cell_id, bullet_id } => {
            inner.push(string_json("kind", "subtree"));
            inner.push(string_json("cell_id", id_text(*cell_id).as_str()));
            inner.push(string_json("bullet_id", id_text(*bullet_id).as_str()));
        },
    }
    assert(models(inner@) =~= target_record_json(key@, *t).inner);
    object_json(Some(key), inner)
}

impl CellBody {
    fn push_json(&self, out: &mut Vec<Json>)
        ensures
            models(final(out)@) == models(old(out)@) + body_json(self@),
            body_fits(self@),
    {
        let ghost start = models(out@);
        match self {
            CellBody::Plain { text, links, tags } => {
                out.push(string_json("kind", "plain"));
                push_text(text, links, tags, false, out);
            },
            CellBody::Outline { blocks, reference_header } => {
                out.push(string_json("kind", "outline"));
                out.push(list_json(Some("blocks"), blocks_to_json(blocks)));
                if let Some(t) = reference_header {
                    out.push(target_record_to_json("reference_header", t));
                }
            },
            CellBody::PopPop { text, links } => {
                out.push(string_json("kind", "poppop"));
                out.push(string_json("text", text.as_str()));
                out.push(list_json(Some("links"), links_to_json(links)));
            },
            CellBody::Table { rows, cols, cells } => {
                out.push(string_json("kind", "table"));
                out.push(number_json("rows", *rows as i128));
                out.push(number_json("cols", *cols as i128));
                out.push(list_json(Some("cells"), rows_to_json(cells)));
            },
            CellBody::Reference { target } => {
                out.push(string_json("kind", "reference"));
                out.push(target_record_to_json("target", target));
            },
        }
        assert(models(out@) =~= start + body_json(self@));
    }
}

impl PersistedCell {
    /// The JSON form.
    pub fn to_json(&self) -> (j: Json)
        ensures
            j.model() == persisted_json(self@),
            persisted_fits(self@),
    {
        let mut inner: Vec<Json> = Vec::new();
        if let Some(t) = &self.title {
            let mut fields: Vec<Json> = Vec::new();
            push_text(&t.text, &t.links, &t.tags, false, &mut fields);
            assert(models(fields@) =~= text_json(t@, false));
            inner.push(object_json(Some("title"), fields));
        }
        if !self.active {
            inner.push(flag_json("active", false));
        }
        let ghost title: Seq<JsonModel> = match self@.title {
            Some(t) => seq![object(Some(utf8("title"@)), text_json(t, false))],
            None => Seq::empty(),
        };
        assert(models(inner@) =~= title + maybe(!self.active, flag("active"@, false)));
        push_time("closed_at", self.closed_at, &mut inner);
        push_time("resurface_after", self.resurface_after, &mut inner);
        let ghost timed = models(inner@);
        if self.inbox {
            inner.push(flag_json("inbox", true));
        }
        assert(models(inner@) =~= timed + maybe(self.inbox, flag("inbox"@, true)));
        assert(models(inner@) == head_json(self@));
        self.body.push_json(&mut inner);
        assert(models(inner@) =~= persisted_json(self@).inner);
        object_json(None, inner)
    }

    /// The JSON text.
    pub fn to_text(&self) -> (text: String)
        ensures
            utf8(text@) == json_stored(persisted_json(self@)),
            persisted_read(utf8(text@)) == Some(self@),
    {
        let j = self.to_json();
        proof {
            stored_cells_are_read_back(self@);
        }
        j.to_text()
    }
}

// ---------------------------------------------------------------------------
// Reading
// ---------------------------------------------------------------------------

/// The stored cell that a text spells.
pub open spec fn persisted_read(b: Seq<u8>) -> Option<PersistedModel> {
    match json_parsed(b) {
        Some(t) => persisted_of(t),
        None => None,
    }
}

fn links_or_none(j: &Json) -> (r: Option<Vec<LinkRecord>>)
    ensures
        (match r {
            Some(v) => Some(views(v@)),
            None => None,
        }) == list_or_none(j.model(), "links"@, |t: JsonModel| link_of(t)),
{
    match j.field("links") {
        Some(v) => match &v.value {
            JsonValue::List => {
                assert(v.model().inner =~= models(v.inner@));
                links_read(&v.inner)
            },
            _ => None,
        },
        None => {
            let out: Vec<LinkRecord> = Vec::new();
            assert(views(out@) =~= Seq::empty());
            Some(out)
        },
    }
}

fn size_field(j: &Json, key: &str) -> (r: Option<usize>)
    ensures
        (match r {
            Some(n) => Some(n as int),
            None => None,
        }) == size_of_field(j.model(), key@),
{
    match j.number_field(key) {
        Some(n) => if 0 <= n && n <= usize::MAX as i128 {
            Some(n as usize)
        } else {
            None
        },
        None => None,
    }
}

fn tags_read(js: &Vec<Json>) -> (r: Option<Vec<TagRecord>>)
    ensures
        (match r {
            Some(v) => Some(views(v@)),
            None => None,
        }) == each_of(models(js@), |t: JsonModel| tag_of(t)),
{
    let ghost f = |t: JsonModel| tag_of(t);
    let ghost ts = models(js@);
    let mut out: Vec<TagRecord> = Vec::new();
    let mut i: usize = 0;
    while i < js.len()
        invariant
            i <= js.len(),
            ts == models(js@),
            f == (|t: JsonModel| tag_of(t)),
            out@.len() == i,
            forall|k: int| 0 <= k < i ==> f(#[trigger] ts[k]) == Some(out@[k]@),
        decreases js.len() - i,
    {
        assert(ts[i as int] == js@[i as int].model());
        let keys: Vec<&str> = vec!["start", "end"];
        assert(keys_of(keys@) =~= tag_keys());
        let n = js[i].listed(&keys);
        let j = match &n {
            Some(n) => n,
            None => &js[i],
        };
        match (size_field(j, "start"), size_field(j, "end")) {
            (Some(start), Some(end)) => {
                out.push(TagRecord { start, end });
            },
            _ => {
                assert(f(ts[i as int]) is None);
                return None;
            },
        }
        i += 1;
    }
    assert(Seq::new(ts.len(), |i: int| f(ts[i])->0) =~= views(out@));
    Some(out)
}

fn tags_or_none(j: &Json) -> (r: Option<Vec<TagRecord>>)
    ensures
        (match r {
            Some(v) => Some(views(v@)),
            None => None,
        }) == list_or_none(j.model(), "tags"@, |t: JsonModel| tag_of(t)),
{
    match j.field("tags") {
        Some(v) => match &v.value {
            JsonValue::List => {
                assert(v.model().inner =~= models(v.inner@));
                tags_read(&v.inner)
            },
            _ => None,
        },
        None => {
            let out: Vec<TagRecord> = Vec::new();
            assert(views(out@) =~= Seq::empty());
            Some(out)
        },
    }
}

fn flag_field(j: &Json, key: &str, default: bool) -> (r: Option<bool>)
    ensures
        r == flag_or(j.model(), key@, default),
{
    match j.field(key) {
        Some(v) => match &v.value {
            JsonValue::Bool(b) => Some(*b),
            _ => None,
        },
        None => Some(default),
    }
}

fn time_field(j: &Json, key: &str) -> (r: Option<Option<i64>>)
    ensures
        r == time_of(j.model(), key@),
{
    match j.field(key) {
        Some(v) => match &v.value {
            JsonValue::Null => Some(None),
            JsonValue::Number(n) => if i64::MIN as i128 <= *n && *n <= i64::MAX as i128 {
                Some(Some(*n as i64))
            } else {
                None
            },
            _ => None,
        },
        None => Some(None),
    }
}

fn text_from_json(j: &Json) -> (r: Option<TitleRecord>)
    ensures
        title_view(r) == said_by(j.model()),
{
    match (j.text_field("text"), links_or_none(j), tags_or_none(j)) {
        (Some(text), Some(links), Some(tags)) => Some(
            TitleRecord { text: text::copy(text), links, tags },
        ),
        _ => None,
    }
}

fn title_from_json(j: &Json) -> (r: Option<TitleRecord>)
    ensures
        title_view(r) == said_by(named(j.model(), title_keys())),
{
    let keys: Vec<&str> = vec!["text", "links", "tags"];
    assert(keys_of(keys@) =~= title_keys());
    let n = j.listed(&keys);
    let j = match &n {
        Some(n) => n,
        None => j,
    };
    text_from_json(j)
}

fn block_from_json(j: &Json) -> (r: Option<BlockRecord>)
    ensures
        (match r {
            Some(b) => Some(b@),
            None => None,
        }) == block_of(j.model()),
{
    let keys: Vec<&str> = vec![
        "id",
        "depth",
        "text",
        "links",
        "tags",
        "active",
        "closed_at",
        "resurface_after",
    ];
    assert(keys_of(keys@) =~= block_keys());
    let n = j.listed(&keys);
    let j = match &n {
        Some(n) => n,
        None => j,
    };
    match (
        j.id_field("id"),
        j.number_field("depth"),
        text_from_json(j),
        flag_field(j, "active", true),
        time_field(j, "closed_at"),
        time_field(j, "resurface_after"),
    ) {
        (
            Some(id),
            Some(depth),
            Some(said),
            Some(active),
            Some(closed_at),
            Some(resurface_after),
        ) => if 0 <= depth && depth <= u32::MAX as i128 {
            Some(
                BlockRecord {
                    id,
                    depth: depth as u32,
                    text: said.text,
                    links: said.links,
                    tags: said.tags,
                    active,
                    closed_at,
                    resurface_after,
                },
            )
        } else {
            None
        },
        _ => None,
    }
}

fn blocks_from_json(js: &Vec<Json>) -> (r: Option<Vec<BlockRecord>>)
    ensures
        (match r {
            Some(v) => Some(views(v@)),
            None => None,
        }) == each_of(models(js@), |t: JsonModel| block_of(t)),
{
    let ghost f = |t: JsonModel| block_of(t);
    let ghost ts = models(js@);
    let mut out: Vec<BlockRecord> = Vec::new();
    let mut i: usize = 0;
    while i < js.len()
        invariant
            i <= js.len(),
            ts == models(js@),
            f == (|t: JsonModel| block_of(t)),
            out@.len() == i,
            forall|k: int| 0 <= k < i ==> f(#[trigger] ts[k]) == Some(out@[k]@),
        decreases js.len() - i,
    {
        assert(ts[i as int] == js@[i as int].model());
        match block_from_json(&js[i]) {
            Some(b) => {
                out.push(b);
            },
            None => {
                assert(f(ts[i as int]) is None);
                return None;
            },
        }
        i += 1;
    }
    assert(Seq::new(ts.len(), |i: int| f(ts[i])->0) =~= views(out@));
    Some(out)
}

fn entries_from_json(js: &Vec<Json>) -> (r: Option<Vec<TableEntryRecord>>)
    ensures
        (match r {
            Some(v) => Some(views(v@)),
            None => None,
        }) == each_of(models(js@), |t: JsonModel| entry_of(t)),
{
    let ghost f = |t: JsonModel| entry_of(t);
    let ghost ts = models(js@);
    let mut out: Vec<TableEntryRecord> = Vec::new();
    let mut i: usize = 0;
    while i < js.len()
        invariant
            i <= js.len(),
            ts == models(js@),
            f == (|t: JsonModel| entry_of(t)),
            out@.len() == i,
            forall|k: int| 0 <= k < i ==> f(#[trigger] ts[k]) == Some(out@[k]@),
        decreases js.len() - i,
    {
        assert(ts[i as int] == js@[i as int].model());
        let keys: Vec<&str> = vec!["text", "links", "tags", "readonly"];
        assert(keys_of(keys@) =~= entry_keys());
        let n = js[i].listed(&keys);
        let j = match &n {
            Some(n) => n,
            None => &js[i],
        };
        match (text_from_json(j), flag_field(j, "readonly", false)) {
            (Some(said), Some(readonly)) => {
                out.push(
                    TableEntryRecord {
                        text: said.text,
                        links: said.links,
                        tags: said.tags,
                        readonly,
                    },
                );
            },
            _ => {
                assert(f(ts[i as int]) is None);
                return None;
            },
        }
        i += 1;
    }
    assert(Seq::new(ts.len(), |i: int| f(ts[i])->0) =~= views(out@));
    Some(out)
}

fn rows_from_json(js: &Vec<Json>) -> (r: Option<Vec<Vec<TableEntryRecord>>>)
    ensures
        (match r {
            Some(v) => Some(rows_record(v@)),
            None => None,
        }) == each_of(models(js@), |t: JsonModel| row_of(t)),
{
    let ghost f = |t: JsonModel| row_of(t);
    let ghost ts = models(js@);
    let mut out: Vec<Vec<TableEntryRecord>> = Vec::new();
    let mut i: usize = 0;
    while i < js.len()
        invariant
            i <= js.len(),
            ts == models(js@),
            f == (|t: JsonModel| row_of(t)),
            out@.len() == i,
            forall|k: int| 0 <= k < i ==> f(#[trigger] ts[k]) == Some(views(out@[k]@)),
        decreases js.len() - i,
    {
        let j = &js[i];
        assert(ts[i as int] == j.model());
        assert(j.model().inner =~= models(j.inner@));
        let row = match &j.value {
            JsonValue::List => entries_from_json(&j.inner),
            _ => None,
        };
        match row {
            Some(row) => {
                out.push(row);
            },
            None => {
                assert(f(ts[i as int]) is None);
                return None;
            },
        }
        i += 1;
    }
    assert(Seq::new(ts.len(), |i: int| f(ts[i])->0) =~= rows_record(out@));
    Some(out)
}

fn target_record_from_json(j: &Json) -> (r: Option<ReferenceTargetRecord>)
    ensures
        r == target_record_of(j.model()),
{
    proof {
        reveal(target_record_of);
    }
    let keys = target_key_list(j, "kind");
    let n = j.listed(&keys);
    let j = match &n {
        Some(n) => n,
        None => j,
    };
    let kinds = target_kind_list();
    match (j.kind_field("kind", &kinds), j.id_field("cell_id")) {
        (Some(kind), Some(cell_id)) => if text::same(kind, "cell") {
            Some(SerTarget::Cell { cell_id })
        } else if text::same(kind, "subtree") {
            match j.id_field("bullet_id") {
                Some(bullet_id) => Some(SerTarget::Subtree { cell_id, bullet_id }),
                None => None,
            }
        } else {
            None
        },
        _ => None,
    }
}

fn header_from_json(j: &Json) -> (r: Option<Option<ReferenceTargetRecord>>)
    ensures
        r == header_of(j.model()),
{
    match j.field("reference_header") {
        Some(v) => match &v.value {
            JsonValue::Null => Some(None),
            _ => match target_record_from_json(v) {
                Some(t) => Some(Some(t)),
                None => None,
            },
        },
        None => Some(None),
    }
}

/// A body that may not be there.
pub open spec fn body_view(b: Option<CellBody>) -> Option<BodyModel> {
    match b {
        Some(b) => Some(b@),
        None => None,
    }
}

impl CellBody {
    /// The body that JSON says.
    pub fn from_json(j: &Json) -> (r: Option<CellBody>)
        ensures
            body_view(r) == body_of(j.model()),
    {
        let kinds: Vec<&'static str> = vec!["plain", "outline", "poppop", "table", "reference"];
        assert(keys_of(kinds@) =~= body_kinds());
        match j.kind_field("kind", &kinds) {
            Some(kind) => if text::same(kind, "plain") {
                match text_from_json(j) {
                    Some(r) => Some(
                        CellBody::Plain { text: r.text, links: r.links, tags: r.tags },
                    ),
                    None => None,
                }
            } else if text::same(kind, "outline") {
                match (j.list_field("blocks"), header_from_json(j)) {
                    (Some(js), Some(reference_header)) => match blocks_from_json(js) {
                        Some(blocks) => Some(CellBody::Outline { blocks, reference_header }),
                        None => None,
                    },
                    _ => None,
                }
            } else if text::same(kind, "poppop") || text::same(kind, "pop") {
                match (j.text_field("text"), links_or_none(j)) {
                    (Some(text), Some(links)) => Some(
                        CellBody::PopPop { text: text::copy(text), links },
                    ),
                    _ => None,
                }
            } else if text::same(kind, "table") {
                match (size_field(j, "rows"), size_field(j, "cols"), j.list_field("cells")) {
                    (Some(rows), Some(cols), Some(js)) => match rows_from_json(js) {
                        Some(cells) => Some(CellBody::Table { rows, cols, cells }),
                        None => None,
                    },
                    _ => None,
                }
            } else if text::same(kind, "reference") {
                match j.field("target") {
                    Some(v) => match target_record_from_json(v) {
                        Some(target) => Some(CellBody::Reference { target }),
                        None => None,
                    },
                    None => None,
                }
            } else {
                None
            },
            None => None,
        }
    }
}

/// A stored cell that may not be there.
pub open spec fn persisted_view(p: Option<PersistedCell>) -> Option<PersistedModel> {
    match p {
        Some(p) => Some(p@),
        None => None,
    }
}

impl PersistedCell {
    /// The stored cell that JSON says.
    pub fn from_json(j: &Json) -> (r: Option<PersistedCell>)
        ensures
            persisted_view(r) == persisted_of(j.model()),
    {
        let title = match j.field("title") {
            Some(v) => match &v.value {
                JsonValue::Null => Some(None),
                _ => match title_from_json(v) {
                    Some(t) => Some(Some(t)),
                    None => None,
                },
            },
            None => Some(None),
        };
        match (
            title,
            flag_field(j, "active", true),
            time_field(j, "closed_at"),
            time_field(j, "resurface_after"),
            flag_field(j, "inbox", false),
            CellBody::from_json(j),
        ) {
            (
                Some(title),
                Some(active),
                Some(closed_at),
                Some(resurface_after),
                Some(inbox),
                Some(body),
            ) => Some(PersistedCell { title, active, closed_at, resurface_after, inbox, body }),
            _ => None,
        }
    }

    /// The stored cell that a text spells.
    pub fn parse(text: &str) -> (r: Option<PersistedCell>)
        ensures
            persisted_view(r) == persisted_read(utf8(text@)),
    {
        match Json::parse(text) {
            Some(j) => PersistedCell::from_json(&j),
            None => None,
        }
    }
}

} // verus!
