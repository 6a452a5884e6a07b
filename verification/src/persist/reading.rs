//! Stored cells are read back out of their JSON as they were.
use vstd::prelude::*;
use vstd::utf8::*;

use crate::cell::common::Link;
use crate::cell::wrap::Span;
use crate::clipboard::SerTarget;
use crate::clipboard::payload::{
    each_of, field, field_at, ids_spelled, lemma_links_json, lemma_storable_grows, links_fit,
    links_json, list, named, number, object, string,
};
use crate::ids::{spelling, uuid_spelled, Uuid};
use crate::json::{MOST_LEVELS, storable, JsonModel, ValueModel};
use crate::persist::records::{
    block_json, block_of, body_json, body_of, body_of_kind, entry_json, entry_of, flag, head_json,
    maybe, persisted_json, persisted_of, row_json, row_of, said_by, tag_json, tag_of, tags_json,
    target_record_json, target_record_of, text_json, time_json, title_keys, title_of, BlockModel,
    BodyModel, EntryRecord, PersistedModel, TextRecord,
};
use crate::text::utf8;

verus! {

// ---------------------------------------------------------------------------
// Fields
// ---------------------------------------------------------------------------

/// A number that tells the keys of stored cells apart.
spec fn digest(b: Seq<u8>) -> int {
    b.len() * 65536 + b[0] * 256 + b[1]
}

proof fn lemma_digest(s: Seq<char>)
    requires
        is_ascii_chars(s),
        s.len() >= 2,
    ensures
        digest(utf8(s)) == s.len() * 65536 + (s[0] as int) * 256 + (s[1] as int),
{
    is_ascii_chars_encode_utf8(s);
}

proof fn lemma_keys()
    ensures
        digest(utf8("title"@)) == 357481,
        digest(utf8("active"@)) == 418147,
        digest(utf8("closed_at"@)) == 615276,
        digest(utf8("resurface_after"@)) == 1012325,
        digest(utf8("inbox"@)) == 354670,
        digest(utf8("kind"@)) == 289641,
        digest(utf8("text"@)) == 291941,
        digest(utf8("links"@)) == 355433,
        digest(utf8("tags"@)) == 291937,
        digest(utf8("blocks"@)) == 418412,
        digest(utf8("reference_header"@)) == 1077861,
        digest(utf8("rows"@)) == 291439,
        digest(utf8("cols"@)) == 287599,
        digest(utf8("cells"@)) == 353125,
        digest(utf8("target"@)) == 423009,
        digest(utf8("id"@)) == 158052,
        digest(utf8("depth"@)) == 353381,
        digest(utf8("readonly"@)) == 553573,
        digest(utf8("start"@)) == 357236,
        digest(utf8("end"@)) == 222574,
        digest(utf8("url"@)) == 226674,
        digest(utf8("cell_id"@)) == 484197,
        digest(utf8("bullet_id"@)) == 615029,
{
    reveal_strlit("title");
    lemma_digest("title"@);
    reveal_strlit("active");
    lemma_digest("active"@);
    reveal_strlit("closed_at");
    lemma_digest("closed_at"@);
    reveal_strlit("resurface_after");
    lemma_digest("resurface_after"@);
    reveal_strlit("inbox");
    lemma_digest("inbox"@);
    reveal_strlit("kind");
    lemma_digest("kind"@);
    reveal_strlit("text");
    lemma_digest("text"@);
    reveal_strlit("links");
    lemma_digest("links"@);
    reveal_strlit("tags");
    lemma_digest("tags"@);
    reveal_strlit("blocks");
    lemma_digest("blocks"@);
    reveal_strlit("reference_header");
    lemma_digest("reference_header"@);
    reveal_strlit("rows");
    lemma_digest("rows"@);
    reveal_strlit("cols");
    lemma_digest("cols"@);
    reveal_strlit("cells");
    lemma_digest("cells"@);
    reveal_strlit("target");
    lemma_digest("target"@);
    reveal_strlit("id");
    lemma_digest("id"@);
    reveal_strlit("depth");
    lemma_digest("depth"@);
    reveal_strlit("readonly");
    lemma_digest("readonly"@);
    reveal_strlit("start");
    lemma_digest("start"@);
    reveal_strlit("end");
    lemma_digest("end"@);
    reveal_strlit("url");
    lemma_digest("url"@);
    reveal_strlit("cell_id");
    lemma_digest("cell_id"@);
    reveal_strlit("bullet_id");
    lemma_digest("bullet_id"@);
}

proof fn lemma_kinds()
    ensures
        digest(utf8("cell"@)) == 287589,
        digest(utf8("subtree"@)) == 488309,
        digest(utf8("plain"@)) == 356460,
        digest(utf8("outline"@)) == 487285,
        digest(utf8("poppop"@)) == 421999,
        digest(utf8("pop"@)) == 225391,
        digest(utf8("table"@)) == 357473,
        digest(utf8("reference"@)) == 619109,
{
    reveal_strlit("cell");
    lemma_digest("cell"@);
    reveal_strlit("subtree");
    lemma_digest("subtree"@);
    reveal_strlit("plain");
    lemma_digest("plain"@);
    reveal_strlit("outline");
    lemma_digest("outline"@);
    reveal_strlit("poppop");
    lemma_digest("poppop"@);
    reveal_strlit("pop");
    lemma_digest("pop"@);
    reveal_strlit("table");
    lemma_digest("table"@);
    reveal_strlit("reference");
    lemma_digest("reference"@);
}

/// What stands under `key` among `ts`.
#[verifier::opaque]
pub open spec fn look(ts: Seq<JsonModel>, key: Seq<u8>) -> Option<JsonModel> {
    let k = field_at(ts, key, 0);
    if k < ts.len() {
        Some(ts[k])
    } else {
        None
    }
}

proof fn lemma_place(ts: Seq<JsonModel>, key: Seq<u8>, k: int)
    requires
        0 <= k <= ts.len(),
    ensures
        k <= field_at(ts, key, k) <= ts.len(),
        field_at(ts, key, k) < ts.len() ==> ts[field_at(ts, key, k)].item.key == Some(key),
        forall|i: int| k <= i < field_at(ts, key, k) ==> (#[trigger] ts[i]).item.key != Some(key),
    decreases ts.len() - k,
{
    if k < ts.len() && ts[k].item.key != Some(key) {
        lemma_place(ts, key, k + 1);
    }
}

proof fn lemma_place_is(ts: Seq<JsonModel>, key: Seq<u8>, k: int, at: int)
    requires
        0 <= k <= at <= ts.len(),
        at < ts.len() ==> ts[at].item.key == Some(key),
        forall|i: int| k <= i < at ==> (#[trigger] ts[i]).item.key != Some(key),
    ensures
        field_at(ts, key, k) == at,
    decreases at - k,
{
    if k < at {
        assert(ts[k].item.key != Some(key));
        lemma_place_is(ts, key, k + 1, at);
    }
}

proof fn lemma_field(t: JsonModel, key: Seq<char>)
    requires
        t.item.value is Object,
    ensures
        field(t, key) == look(t.inner, utf8(key)),
{
    reveal(look);
}

proof fn lemma_look_add(a: Seq<JsonModel>, b: Seq<JsonModel>, key: Seq<u8>)
    ensures
        look(a + b, key) == (if look(a, key) is Some {
            look(a, key)
        } else {
            look(b, key)
        }),
{
    reveal(look);
    lemma_place(a, key, 0);
    lemma_place(b, key, 0);
    let i = field_at(a, key, 0);
    let j = field_at(b, key, 0);
    if i < a.len() {
        lemma_place_is(a + b, key, 0, i);
    } else {
        assert forall|n: int| 0 <= n < a.len() + j implies (#[trigger] (a + b)[n]).item.key != Some(
            key,
        ) by {
            if n < a.len() {
                assert(a[n].item.key != Some(key));
            } else {
                assert(b[n - a.len()].item.key != Some(key));
            }
        }
        lemma_place_is(a + b, key, 0, a.len() + j);
    }
}

proof fn lemma_look_adds(a: Seq<JsonModel>, b: Seq<JsonModel>)
    ensures
        forall|key: Seq<u8>|
            #[trigger] look(a + b, key) == (if look(a, key) is Some {
                look(a, key)
            } else {
                look(b, key)
            }),
{
    assert forall|key: Seq<u8>|
        #[trigger] look(a + b, key) == (if look(a, key) is Some {
            look(a, key)
        } else {
            look(b, key)
        }) by {
        lemma_look_add(a, b, key);
    }
}

proof fn lemma_look_few(ts: Seq<JsonModel>)
    ensures
        ts.len() == 0 ==> forall|key: Seq<u8>| #[trigger] look(ts, key) is None,
        ts.len() == 1 ==> forall|key: Seq<u8>|
            #[trigger] look(ts, key) == (if ts[0].item.key == Some(key) {
                Some(ts[0])
            } else {
                None
            }),
        ts.len() == 2 ==> forall|key: Seq<u8>|
            #[trigger] look(ts, key) == (if ts[0].item.key == Some(key) {
                Some(ts[0])
            } else if ts[1].item.key == Some(key) {
                Some(ts[1])
            } else {
                None
            }),
{
    reveal(look);
    reveal_with_fuel(field_at, 3);
}

proof fn lemma_look_some(ts: Seq<JsonModel>)
    ensures
        ts.len() == 3 ==> forall|key: Seq<u8>|
            #[trigger] look(ts, key) == (if ts[0].item.key == Some(key) {
                Some(ts[0])
            } else if ts[1].item.key == Some(key) {
                Some(ts[1])
            } else if ts[2].item.key == Some(key) {
                Some(ts[2])
            } else {
                None
            }),
        ts.len() == 4 ==> forall|key: Seq<u8>|
            #[trigger] look(ts, key) == (if ts[0].item.key == Some(key) {
                Some(ts[0])
            } else if ts[1].item.key == Some(key) {
                Some(ts[1])
            } else if ts[2].item.key == Some(key) {
                Some(ts[2])
            } else if ts[3].item.key == Some(key) {
                Some(ts[3])
            } else {
                None
            }),
{
    reveal(look);
    reveal_with_fuel(field_at, 5);
}

/// No two of `ts` stand under one key, all stand under one, and all can be stored.
pub open spec fn apart(ts: Seq<JsonModel>, room: int) -> bool {
    &&& forall|i: int|
        0 <= i < ts.len() ==> (#[trigger] ts[i]).item.key is Some && storable(ts[i], room)
    &&& forall|i: int, j: int|
        0 <= i < j < ts.len() ==> (#[trigger] ts[i]).item.key != (#[trigger] ts[j]).item.key
}

proof fn lemma_apart_add(a: Seq<JsonModel>, b: Seq<JsonModel>, room: int)
    requires
        apart(a, room),
        apart(b, room),
        forall|i: int|
            0 <= i < b.len() ==> look(a, (#[trigger] b[i]).item.key->0) is None,
    ensures
        apart(a + b, room),
{
    let c = a + b;
    assert forall|i: int, j: int| 0 <= i < j < c.len() implies (#[trigger] c[i]).item.key != (
    #[trigger] c[j]).item.key by {
        if j < a.len() {
            assert(a[i].item.key != a[j].item.key);
        } else if i >= a.len() {
            assert(b[i - a.len()].item.key != b[j - a.len()].item.key);
        } else {
            let key = b[j - a.len()].item.key->0;
            reveal(look);
            lemma_place(a, key, 0);
            assert(a[i].item.key != Some(key));
        }
    }
    assert forall|i: int| 0 <= i < c.len() implies (#[trigger] c[i]).item.key is Some && storable(
        c[i],
        room,
    ) by {
        if i < a.len() {
            assert(c[i] == a[i]);
        } else {
            assert(c[i] == b[i - a.len()]);
        }
    }
}

proof fn lemma_apart_grows(ts: Seq<JsonModel>, room: int, more: int)
    requires
        apart(ts, room),
        room <= more,
    ensures
        apart(ts, more),
{
    assert forall|i: int| 0 <= i < ts.len() implies (#[trigger] ts[i]).item.key is Some && storable(
        ts[i],
        more,
    ) by {
        lemma_storable_grows(ts[i], room, more);
    }
}

proof fn lemma_apart_stored(key: Option<Seq<u8>>, ts: Seq<JsonModel>, room: int)
    requires
        apart(ts, room),
        room > 0,
    ensures
        storable(object(key, ts), room + 1),
{
}

/// A field of no kind that holds others can be stored.
proof fn lemma_leaf(t: JsonModel)
    requires
        t.inner.len() == 0,
        !(t.item.value is List),
        !(t.item.value is Object),
        !(t.item.value is Other),
        t.item.value matches ValueModel::Number(n) ==> i64::MIN <= n <= u64::MAX,
    ensures
        storable(t, 1),
        storable(t, 3),
        storable(t, 6),
{
}

// ---------------------------------------------------------------------------
// Texts
// ---------------------------------------------------------------------------

/// Every number of the tags fits the machine.
pub open spec fn tags_fit(ts: Seq<Span>) -> bool {
    forall|i: int|
        0 <= i < ts.len() ==> 0 <= (#[trigger] ts[i]).start <= usize::MAX && 0 <= ts[i].end
            <= usize::MAX
}

/// Every number of the text fits the machine.
pub open spec fn text_fits(r: TextRecord) -> bool {
    links_fit(r.links) && tags_fit(r.tags)
}

proof fn lemma_tag_json(s: Span)
    requires
        0 <= s.start <= usize::MAX,
        0 <= s.end <= usize::MAX,
    ensures
        tag_of(tag_json(s)) == Some(s),
        storable(tag_json(s), 2),
{
    reveal(named);
    lemma_keys();
    lemma_look_few(tag_json(s).inner);
    reveal_with_fuel(storable, 2);
    lemma_field(tag_json(s), "start"@);
    lemma_field(tag_json(s), "end"@);
}

proof fn lemma_tags_json(ts: Seq<Span>)
    requires
        tags_fit(ts),
    ensures
        each_of(tags_json(ts), |t: JsonModel| tag_of(t)) == Some(ts),
        storable(list(Some(utf8("tags"@)), tags_json(ts)), 3),
{
    let f = |t: JsonModel| tag_of(t);
    let js = tags_json(ts);
    assert forall|i: int| 0 <= i < js.len() implies f(#[trigger] js[i]) == Some(ts[i]) && storable(
        js[i],
        2,
    ) by {
        lemma_tag_json(ts[i]);
    }
    assert(Seq::new(js.len(), |i: int| f(js[i])->0) =~= ts);
}

/// What stands among the fields of a text.
proof fn lemma_text_json(r: TextRecord, always: bool)
    requires
        text_fits(r),
    ensures
        look(text_json(r, always), utf8("text"@)) == Some(string("text"@, r.text)),
        look(text_json(r, always), utf8("links"@)) == Some(
            list(Some(utf8("links"@)), links_json(r.links)),
        ),
        look(text_json(r, always), utf8("tags"@)) == (if always || r.tags.len() > 0 {
            Some(list(Some(utf8("tags"@)), tags_json(r.tags)))
        } else {
            None
        }),
        forall|key: Seq<u8>|
            key != utf8("text"@) && key != utf8("links"@) && key != utf8("tags"@)
                ==> #[trigger] look(text_json(r, always), key) is None,
        apart(text_json(r, always), 3),
{
    lemma_keys();
    let text = string("text"@, r.text);
    let links = list(Some(utf8("links"@)), links_json(r.links));
    let tags = list(Some(utf8("tags"@)), tags_json(r.tags));
    let there = always || r.tags.len() > 0;
    lemma_look_few(seq![text, links]);
    lemma_look_few(maybe(there, tags));
    lemma_look_adds(seq![text, links], maybe(there, tags));
    lemma_links_json(r.links, utf8("links"@));
    lemma_tags_json(r.tags);
    lemma_leaf(text);
    assert(apart(seq![text, links], 3));
    assert(apart(maybe(there, tags), 3));
    lemma_apart_add(seq![text, links], maybe(there, tags), 3);
}

/// A text is read out of an object in which its fields are found.
proof fn lemma_text_of(t: JsonModel, r: TextRecord, always: bool)
    requires
        text_fits(r),
        t.item.value is Object,
        look(t.inner, utf8("text"@)) == look(text_json(r, always), utf8("text"@)),
        look(t.inner, utf8("links"@)) == look(text_json(r, always), utf8("links"@)),
        look(t.inner, utf8("tags"@)) == look(text_json(r, always), utf8("tags"@)),
    ensures
        said_by(t) == Some(r),
{
    lemma_text_json(r, always);
    lemma_links_json(r.links, utf8("links"@));
    lemma_tags_json(r.tags);
    lemma_field(t, "text"@);
    lemma_field(t, "links"@);
    lemma_field(t, "tags"@);
    assert(said_by(t)->0 =~= r);
}

// ---------------------------------------------------------------------------
// Bodies
// ---------------------------------------------------------------------------

/// The identity is read as it is spelled.
pub open spec fn id_spelled(id: Uuid) -> bool {
    uuid_spelled(spelling(id)) == Some(id)
}

/// What a stored body holds fits the machine, and its identities are read as they
/// are spelled.
pub open spec fn body_fits(b: BodyModel) -> bool {
    match b {
        BodyModel::Plain(r) => text_fits(r),
        BodyModel::Outline(blocks, header) => {
            &&& forall|i: int|
                0 <= i < blocks.len() ==> text_fits((#[trigger] blocks[i]).said) && id_spelled(
                    blocks[i].id,
                )
            &&& header matches Some(t) ==> ids_spelled(t)
        },
        BodyModel::PopPop(_, links) => links_fit(links),
        BodyModel::Table(rows, cols, cells) => {
            &&& 0 <= rows <= usize::MAX
            &&& 0 <= cols <= usize::MAX
            &&& forall|r: int, c: int|
                0 <= r < cells.len() && 0 <= c < cells[r].len() ==> text_fits(
                    (#[trigger] cells[r][c]).said,
                )
        },
        BodyModel::Reference(t) => ids_spelled(t),
    }
}

/// What a stored cell holds fits the machine, and its identities are read as they
/// are spelled.
pub open spec fn persisted_fits(p: PersistedModel) -> bool {
    &&& p.title matches Some(t) ==> text_fits(t)
    &&& body_fits(p.body)
}

proof fn lemma_time(key: Seq<char>, time: Option<i64>)
    ensures
        forall|k: Seq<u8>|
            #[trigger] look(time_json(key, time), k) == (if time is Some && k == utf8(key) {
                Some(number(key, time->0 as int))
            } else {
                None
            }),
        apart(time_json(key, time), 3),
        apart(time_json(key, time), 6),
        time_json(key, time).len() == 1 ==> time_json(key, time)[0].item.key == Some(utf8(key)),
{
    lemma_look_few(time_json(key, time));
    lemma_leaf(number(key, time->0 as int));
}

proof fn lemma_flag(key: Seq<char>, there: bool, b: bool)
    ensures
        forall|k: Seq<u8>|
            #[trigger] look(maybe(there, flag(key, b)), k) == (if there && k == utf8(key) {
                Some(flag(key, b))
            } else {
                None
            }),
        apart(maybe(there, flag(key, b)), 3),
        apart(maybe(there, flag(key, b)), 6),
{
    lemma_look_few(maybe(there, flag(key, b)));
    lemma_leaf(flag(key, b));
}

#[verifier::rlimit(50)]
proof fn lemma_block_json(b: BlockModel)
    requires
        text_fits(b.said),
        id_spelled(b.id),
    ensures
        block_of(block_json(b)) == Some(b),
        storable(block_json(b), 4),
{
    reveal(named);
    broadcast use encode_utf8_decode_utf8;

    lemma_keys();
    let head = seq![string("id"@, utf8(spelling(b.id))), number("depth"@, b.depth as int)];
    let said = text_json(b.said, true);
    let active = maybe(!b.active, flag("active"@, false));
    let closed = time_json("closed_at"@, b.closed_at);
    let later = time_json("resurface_after"@, b.resurface_after);
    lemma_look_few(head);
    lemma_text_json(b.said, true);
    lemma_flag("active"@, !b.active, false);
    lemma_time("closed_at"@, b.closed_at);
    lemma_time("resurface_after"@, b.resurface_after);
    lemma_leaf(head[0]);
    lemma_leaf(head[1]);
    lemma_look_adds(head, said);
    lemma_look_adds(head + said, active);
    lemma_look_adds(head + said + active, closed);
    lemma_look_adds(head + said + active + closed, later);
    let t = block_json(b);
    assert(t.inner == head + said + active + closed + later);
    assert(apart(head, 3));
    assert(apart(t.inner, 3)) by {
        assert forall|i: int| 0 <= i < said.len() implies look(head, (#[trigger] said[i]).item.key->0)
            is None by {}
        lemma_apart_add(head, said, 3);
        lemma_apart_add(head + said, active, 3);
        lemma_apart_add(head + said + active, closed, 3);
        lemma_apart_add(head + said + active + closed, later, 3);
    }
    lemma_apart_stored(None, t.inner, 3);
    lemma_text_of(t, b.said, true);
    lemma_field(t, "id"@);
    lemma_field(t, "depth"@);
    lemma_field(t, "active"@);
    lemma_field(t, "closed_at"@);
    lemma_field(t, "resurface_after"@);
    assert(block_of(t)->0 =~= b);
}

proof fn lemma_entry_json(e: EntryRecord)
    requires
        text_fits(e.said),
    ensures
        entry_of(entry_json(e)) == Some(e),
        storable(entry_json(e), 4),
{
    reveal(named);
    lemma_keys();
    let said = text_json(e.said, true);
    let readonly = flag("readonly"@, e.readonly);
    lemma_text_json(e.said, true);
    lemma_look_few(seq![readonly]);
    lemma_leaf(readonly);
    lemma_look_adds(said, seq![readonly]);
    let t = entry_json(e);
    assert(apart(seq![readonly], 3));
    lemma_apart_add(said, seq![readonly], 3);
    lemma_apart_stored(None, t.inner, 3);
    lemma_text_of(t, e.said, true);
    lemma_field(t, "readonly"@);
    assert(entry_of(t)->0 =~= e);
}

proof fn lemma_row_json(row: Seq<EntryRecord>)
    requires
        forall|c: int| 0 <= c < row.len() ==> text_fits((#[trigger] row[c]).said),
    ensures
        row_of(row_json(row)) == Some(row),
        storable(row_json(row), 5),
{
    let f = |t: JsonModel| entry_of(t);
    let js = row_json(row).inner;
    assert forall|i: int| 0 <= i < js.len() implies f(#[trigger] js[i]) == Some(row[i]) && storable(
        js[i],
        4,
    ) by {
        lemma_entry_json(row[i]);
    }
    assert(Seq::new(js.len(), |i: int| f(js[i])->0) =~= row);
}

proof fn lemma_target_record(key: Seq<char>, t: SerTarget)
    requires
        ids_spelled(t),
    ensures
        target_record_of(target_record_json(key, t)) == Some(t),
        storable(target_record_json(key, t), 2),
        storable(target_record_json(key, t), 6),
        !(target_record_json(key, t).item.value is Null),
{
    reveal(named);
    reveal(target_record_of);
    let o = target_record_json(key, t);
    assert(utf8("kind"@) != utf8("cell_id"@) && utf8("kind"@) != utf8("bullet_id"@) && utf8(
        "cell_id"@,
    ) != utf8("bullet_id"@)) by {
        lemma_keys();
    }
    assert(utf8("cell"@) != utf8("subtree"@)) by {
        lemma_kinds();
    }
    assert(apart(o.inner, 1)) by {
        lemma_leaf(o.inner[0]);
        lemma_leaf(o.inner[1]);
        if t is Subtree {
            lemma_leaf(o.inner[2]);
        }
    }
    lemma_apart_stored(Some(utf8(key)), o.inner, 1);
    lemma_storable_grows(o, 2, 6);
    lemma_field(o, "kind"@);
    lemma_field(o, "cell_id"@);
    match t {
        SerTarget::Cell { cell_id } => {
            lemma_look_few(o.inner);
            encode_utf8_decode_utf8(spelling(cell_id));
        },
        SerTarget::Subtree { cell_id, bullet_id } => {
            lemma_field(o, "bullet_id"@);
            lemma_look_some(o.inner);
            encode_utf8_decode_utf8(spelling(cell_id));
            encode_utf8_decode_utf8(spelling(bullet_id));
        },
    }
}

/// The fields of the body `b` are found in `t`.
spec fn embodies(t: JsonModel, b: BodyModel) -> bool {
    &&& t.item.value is Object
    &&& forall|key: Seq<u8>|
        key != utf8("title"@) && key != utf8("active"@) && key != utf8("closed_at"@) && key
            != utf8("resurface_after"@) && key != utf8("inbox"@) ==> #[trigger] look(t.inner, key)
            == look(body_json(b), key)
}

/// No field of the head is among `ts`, and they can be stored.
spec fn of_body(ts: Seq<JsonModel>) -> bool {
    &&& apart(ts, 6)
    &&& look(ts, utf8("title"@)) is None
    &&& look(ts, utf8("active"@)) is None
    &&& look(ts, utf8("closed_at"@)) is None
    &&& look(ts, utf8("resurface_after"@)) is None
    &&& look(ts, utf8("inbox"@)) is None
}

proof fn lemma_plain_json(r: TextRecord, t: JsonModel)
    requires
        text_fits(r),
        embodies(t, BodyModel::Plain(r)),
    ensures
        body_of(t) == Some(BodyModel::Plain(r)),
        of_body(body_json(BodyModel::Plain(r))),
{
    lemma_keys();
    lemma_kinds();
    let kind = string("kind"@, utf8("plain"@));
    lemma_look_few(seq![kind]);
    lemma_leaf(kind);
    lemma_text_json(r, false);
    lemma_look_adds(seq![kind], text_json(r, false));
    lemma_apart_grows(text_json(r, false), 3, 6);
    assert(apart(seq![kind], 6));
    lemma_apart_add(seq![kind], text_json(r, false), 6);
    lemma_text_of(t, r, false);
    lemma_field(t, "kind"@);
}

proof fn lemma_blocks_json(blocks: Seq<BlockModel>)
    requires
        body_fits(BodyModel::Outline(blocks, None)),
    ensures
        each_of(
            Seq::new(blocks.len(), |i: int| block_json(blocks[i])),
            |t: JsonModel| block_of(t),
        ) == Some(blocks),
        storable(
            list(
                Some(utf8("blocks"@)),
                Seq::new(blocks.len(), |i: int| block_json(blocks[i])),
            ),
            6,
        ),
{
    let f = |t: JsonModel| block_of(t);
    let bs = Seq::new(blocks.len(), |i: int| block_json(blocks[i]));
    assert forall|i: int| 0 <= i < bs.len() implies f(#[trigger] bs[i]) == Some(blocks[i])
        && storable(bs[i], 5) by {
        lemma_block_json(blocks[i]);
        lemma_storable_grows(bs[i], 4, 5);
    }
    assert(Seq::new(bs.len(), |i: int| f(bs[i])->0) =~= blocks);
}

proof fn lemma_outline_json(blocks: Seq<BlockModel>, header: Option<SerTarget>, t: JsonModel)
    requires
        body_fits(BodyModel::Outline(blocks, header)),
        embodies(t, BodyModel::Outline(blocks, header)),
    ensures
        body_of(t) == Some(BodyModel::Outline(blocks, header)),
        of_body(body_json(BodyModel::Outline(blocks, header))),
{
    lemma_keys();
    lemma_kinds();
    lemma_blocks_json(blocks);
    let kind = string("kind"@, utf8("outline"@));
    let listed = list(
        Some(utf8("blocks"@)),
        Seq::new(blocks.len(), |i: int| block_json(blocks[i])),
    );
    lemma_leaf(kind);
    lemma_look_few(seq![kind, listed]);
    assert(apart(seq![kind, listed], 6));
    let more: Seq<JsonModel> = match header {
        Some(t) => seq![target_record_json("reference_header"@, t)],
        None => Seq::empty(),
    };
    if let Some(h) = header {
        lemma_target_record("reference_header"@, h);
    }
    lemma_look_few(more);
    lemma_look_adds(seq![kind, listed], more);
    assert(apart(more, 6));
    lemma_apart_add(seq![kind, listed], more, 6);
    assert(body_json(BodyModel::Outline(blocks, header)) == seq![kind, listed] + more);
    lemma_field(t, "kind"@);
    lemma_field(t, "blocks"@);
    lemma_field(t, "reference_header"@);
}

/// A key that no field of the head stands under.
spec fn body_key(key: Seq<u8>) -> bool {
    &&& key != utf8("title"@)
    &&& key != utf8("active"@)
    &&& key != utf8("closed_at"@)
    &&& key != utf8("resurface_after"@)
    &&& key != utf8("inbox"@)
}

proof fn lemma_body_keys()
    ensures
        body_key(utf8("kind"@)),
        body_key(utf8("text"@)),
        body_key(utf8("links"@)),
        body_key(utf8("rows"@)),
        body_key(utf8("cols"@)),
        body_key(utf8("cells"@)),
        body_key(utf8("target"@)),
{
    lemma_keys();
}

/// Fields under keys of a body are found under them, wherever the body is.
proof fn lemma_fields(js: Seq<JsonModel>, t: JsonModel, i: int, key: Seq<char>)
    requires
        apart(js, 6),
        0 <= i < js.len(),
        js[i].item.key == Some(utf8(key)),
        body_key(utf8(key)),
        t.item.value is Object,
        look(t.inner, utf8(key)) == look(js, utf8(key)),
    ensures
        field(t, key) == Some(js[i]),
{
    lemma_own_key(js, i, 6);
    lemma_field(t, key);
}

proof fn lemma_of_body(js: Seq<JsonModel>)
    requires
        apart(js, 6),
        forall|i: int| 0 <= i < js.len() ==> body_key((#[trigger] js[i]).item.key->0),
    ensures
        of_body(js),
{
    reveal(look);
    lemma_place(js, utf8("title"@), 0);
    lemma_place(js, utf8("active"@), 0);
    lemma_place(js, utf8("closed_at"@), 0);
    lemma_place(js, utf8("resurface_after"@), 0);
    lemma_place(js, utf8("inbox"@), 0);
}

proof fn lemma_poppop_json(text: Seq<u8>, links: Seq<Link>, t: JsonModel)
    requires
        links_fit(links),
        embodies(t, BodyModel::PopPop(text, links)),
    ensures
        body_of(t) == Some(BodyModel::PopPop(text, links)),
        of_body(body_json(BodyModel::PopPop(text, links))),
{
    let js = body_json(BodyModel::PopPop(text, links));
    lemma_links_json(links, utf8("links"@));
    assert(apart(js, 6)) by {
        lemma_storable_grows(js[2], 3, 6);
        lemma_leaf(js[0]);
        lemma_leaf(js[1]);
        lemma_keys();
    }
    lemma_body_keys();
    lemma_of_body(js);
    lemma_fields(js, t, 0, "kind"@);
    lemma_fields(js, t, 1, "text"@);
    lemma_fields(js, t, 2, "links"@);
    assert(body_of_kind(t, utf8("poppop"@)) == Some(BodyModel::PopPop(text, links))) by {
        lemma_kinds();
    }
}

proof fn lemma_rows_json(cells: Seq<Seq<EntryRecord>>)
    requires
        forall|r: int, c: int|
            0 <= r < cells.len() && 0 <= c < cells[r].len() ==> text_fits(
                (#[trigger] cells[r][c]).said,
            ),
    ensures
        each_of(
            Seq::new(cells.len(), |r: int| row_json(cells[r])),
            |t: JsonModel| row_of(t),
        ) == Some(cells),
        storable(
            list(Some(utf8("cells"@)), Seq::new(cells.len(), |r: int| row_json(cells[r]))),
            6,
        ),
{
    let f = |t: JsonModel| row_of(t);
    let rs = Seq::new(cells.len(), |r: int| row_json(cells[r]));
    assert forall|i: int| 0 <= i < rs.len() implies f(#[trigger] rs[i]) == Some(cells[i])
        && storable(rs[i], 5) by {
        let row = cells[i];
        assert forall|c: int| 0 <= c < row.len() implies text_fits((#[trigger] row[c]).said) by {
            assert(cells[i][c] == row[c]);
        }
        lemma_row_json(row);
    }
    assert(Seq::new(rs.len(), |i: int| f(rs[i])->0) =~= cells);
}

proof fn lemma_apart_four(js: Seq<JsonModel>)
    requires
        js.len() == 4,
        storable(js[0], 6),
        storable(js[1], 6),
        storable(js[2], 6),
        storable(js[3], 6),
        js[0].item.key is Some,
        js[1].item.key is Some,
        js[2].item.key is Some,
        js[3].item.key is Some,
        js[0].item.key != js[1].item.key,
        js[0].item.key != js[2].item.key,
        js[0].item.key != js[3].item.key,
        js[1].item.key != js[2].item.key,
        js[1].item.key != js[3].item.key,
        js[2].item.key != js[3].item.key,
    ensures
        apart(js, 6),
{
    assert forall|i: int| 0 <= i < js.len() implies (#[trigger] js[i]).item.key is Some && storable(
        js[i],
        6,
    ) by {
        assert(i == 0 || i == 1 || i == 2 || i == 3);
    }
    assert forall|i: int, j: int| 0 <= i < j < js.len() implies (#[trigger] js[i]).item.key != (
    #[trigger] js[j]).item.key by {
        assert(i == 0 || i == 1 || i == 2);
        assert(j == 1 || j == 2 || j == 3);
    }
}

#[verifier::rlimit(30)]
proof fn lemma_table_json(rows: int, cols: int, cells: Seq<Seq<EntryRecord>>, t: JsonModel)
    requires
        body_fits(BodyModel::Table(rows, cols, cells)),
        embodies(t, BodyModel::Table(rows, cols, cells)),
    ensures
        body_of(t) == Some(BodyModel::Table(rows, cols, cells)),
        of_body(body_json(BodyModel::Table(rows, cols, cells))),
{
    let js = body_json(BodyModel::Table(rows, cols, cells));
    lemma_rows_json(cells);
    lemma_leaf(js[0]);
    lemma_leaf(js[1]);
    lemma_leaf(js[2]);
    assert({
        &&& utf8("kind"@) != utf8("rows"@)
        &&& utf8("kind"@) != utf8("cols"@)
        &&& utf8("kind"@) != utf8("cells"@)
        &&& utf8("rows"@) != utf8("cols"@)
        &&& utf8("rows"@) != utf8("cells"@)
        &&& utf8("cols"@) != utf8("cells"@)
    }) by {
        lemma_keys();
    }
    lemma_apart_four(js);
    lemma_body_keys();
    lemma_of_body(js);
    lemma_fields(js, t, 0, "kind"@);
    lemma_fields(js, t, 1, "rows"@);
    lemma_fields(js, t, 2, "cols"@);
    lemma_fields(js, t, 3, "cells"@);
    assert(body_of_kind(t, utf8("table"@)) == Some(BodyModel::Table(rows, cols, cells))) by {
        lemma_kinds();
    }
}

proof fn lemma_reference_fields(js: Seq<JsonModel>, target: SerTarget, t: JsonModel)
    requires
        js.len() == 2,
        js[0] == string("kind"@, utf8("reference"@)),
        js[1].item.key == Some(utf8("target"@)),
        storable(js[1], 6),
        target_record_of(js[1]) == Some(target),
        t.item.value is Object,
        look(t.inner, utf8("kind"@)) == look(js, utf8("kind"@)),
        look(t.inner, utf8("target"@)) == look(js, utf8("target"@)),
    ensures
        body_of(t) == Some(BodyModel::Reference(target)),
        of_body(js),
{
    assert(utf8("kind"@) != utf8("target"@)) by {
        lemma_keys();
    }
    lemma_leaf(js[0]);
    assert(apart(js, 6));
    lemma_body_keys();
    lemma_of_body(js);
    lemma_fields(js, t, 0, "kind"@);
    lemma_fields(js, t, 1, "target"@);
    assert(body_of_kind(t, utf8("reference"@)) == Some(BodyModel::Reference(target))) by {
        lemma_kinds();
    }
}

proof fn lemma_reference_json(target: SerTarget, t: JsonModel)
    requires
        ids_spelled(target),
        embodies(t, BodyModel::Reference(target)),
    ensures
        body_of(t) == Some(BodyModel::Reference(target)),
        of_body(body_json(BodyModel::Reference(target))),
{
    let js = body_json(BodyModel::Reference(target));
    lemma_target_record("target"@, target);
    let held = target_record_json("target"@, target);
    assert(js[1] == held && held.item.key == Some(utf8("target"@)));
    lemma_body_keys();
    lemma_reference_fields(js, target, t);
}

/// A stored body is read back out of its fields, wherever they are found.
proof fn lemma_body_json(b: BodyModel, t: JsonModel)
    requires
        body_fits(b),
        embodies(t, b),
    ensures
        body_of(t) == Some(b),
        of_body(body_json(b)),
{
    match b {
        BodyModel::Plain(r) => lemma_plain_json(r, t),
        BodyModel::Outline(blocks, header) => lemma_outline_json(blocks, header, t),
        BodyModel::PopPop(text, links) => lemma_poppop_json(text, links, t),
        BodyModel::Table(rows, cols, cells) => lemma_table_json(rows, cols, cells, t),
        BodyModel::Reference(target) => lemma_reference_json(target, t),
    }
}

/// What stands before the body.
proof fn lemma_head_json(p: PersistedModel)
    requires
        p.title matches Some(t) ==> text_fits(t),
    ensures
        look(head_json(p), utf8("title"@)) == (match p.title {
            Some(t) => Some(object(Some(utf8("title"@)), text_json(t, false))),
            None => None,
        }),
        look(head_json(p), utf8("active"@)) == (if p.active {
            None
        } else {
            Some(flag("active"@, false))
        }),
        look(head_json(p), utf8("closed_at"@)) == (match p.closed_at {
            Some(n) => Some(number("closed_at"@, n as int)),
            None => None,
        }),
        look(head_json(p), utf8("resurface_after"@)) == (match p.resurface_after {
            Some(n) => Some(number("resurface_after"@, n as int)),
            None => None,
        }),
        look(head_json(p), utf8("inbox"@)) == (if p.inbox {
            Some(flag("inbox"@, true))
        } else {
            None
        }),
        forall|key: Seq<u8>|
            key != utf8("title"@) && key != utf8("active"@) && key != utf8("closed_at"@) && key
                != utf8("resurface_after"@) && key != utf8("inbox"@) ==> #[trigger] look(
                head_json(p),
                key,
            ) is None,
        apart(head_json(p), 6),
{
    lemma_keys();
    let title: Seq<JsonModel> = match p.title {
        Some(t) => seq![object(Some(utf8("title"@)), text_json(t, false))],
        None => Seq::empty(),
    };
    match p.title {
        Some(r) => {
            lemma_text_json(r, false);
            lemma_apart_stored(Some(utf8("title"@)), text_json(r, false), 3);
            lemma_storable_grows(title[0], 4, 6);
        },
        None => {},
    }
    lemma_look_few(title);
    assert(apart(title, 6));
    let active = maybe(!p.active, flag("active"@, false));
    let closed = time_json("closed_at"@, p.closed_at);
    let later = time_json("resurface_after"@, p.resurface_after);
    let inbox = maybe(p.inbox, flag("inbox"@, true));
    lemma_flag("active"@, !p.active, false);
    lemma_time("closed_at"@, p.closed_at);
    lemma_time("resurface_after"@, p.resurface_after);
    lemma_flag("inbox"@, p.inbox, true);
    lemma_look_adds(title, active);
    lemma_look_adds(title + active, closed);
    lemma_look_adds(title + active + closed, later);
    lemma_look_adds(title + active + closed + later, inbox);
    lemma_apart_add(title, active, 6);
    lemma_apart_add(title + active, closed, 6);
    lemma_apart_add(title + active + closed, later, 6);
    lemma_apart_add(title + active + closed + later, inbox, 6);
    assert(head_json(p) == title + active + closed + later + inbox);
}

/// A stored cell is read back out of its JSON as it was.
pub proof fn stored_cells_are_read_back(p: PersistedModel)
    requires
        persisted_fits(p),
    ensures
        persisted_of(persisted_json(p)) == Some(p),
        storable(persisted_json(p), MOST_LEVELS as int),
        persisted_json(p).item.key is None,
{
    lemma_keys();
    let t = persisted_json(p);
    let head = head_json(p);
    let body = body_json(p.body);
    lemma_head_json(p);
    lemma_look_adds(head, body);
    assert(t.inner == head + body);
    lemma_body_json(p.body, t);
    assert forall|i: int| 0 <= i < body.len() implies look(head, (#[trigger] body[i]).item.key->0)
        is None by {
        lemma_own_key(body, i, 6);
    }
    lemma_apart_add(head, body, 6);
    lemma_apart_stored(None, t.inner, 6);
    lemma_storable_grows(t, 7, MOST_LEVELS as int);
    lemma_field(t, "title"@);
    lemma_field(t, "active"@);
    lemma_field(t, "closed_at"@);
    lemma_field(t, "resurface_after"@);
    lemma_field(t, "inbox"@);
    assert(title_of(t) == Some(p.title)) by {
        if let Some(r) = p.title {
            let o = object(Some(utf8("title"@)), text_json(r, false));
            lemma_text_of(o, r, false);
            assert(named(o, title_keys()) == o) by {
                reveal(named);
            }
        }
    }
    assert(persisted_of(t)->0 =~= p);
}

/// A field is found under its own key.
proof fn lemma_own_key(ts: Seq<JsonModel>, i: int, room: int)
    requires
        apart(ts, room),
        0 <= i < ts.len(),
    ensures
        look(ts, ts[i].item.key->0) == Some(ts[i]),
{
    let key = ts[i].item.key->0;
    assert forall|k: int| 0 <= k < i implies (#[trigger] ts[k]).item.key != Some(key) by {
        assert(ts[k].item.key != ts[i].item.key);
    }
    reveal(look);
    lemma_place_is(ts, key, 0, i);
}

} // verus!
