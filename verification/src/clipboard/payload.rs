//! The JSON form of what is on the clipboard.
use vstd::prelude::*;
use vstd::utf8::*;

use crate::text;
use crate::cell::common::Link;
use crate::clipboard::{BulletPayload, ClipBullet, KeptPayload, PayloadModel, SerLink, SerTarget};
use crate::ids::{id_text, parse_id, spelling, uuid_spelled, Uuid};
use crate::json::{
    models, MOST_LEVELS, storable, under, Json, JsonModel, JsonValue, NodeModel, ValueModel,
};
use crate::text::{lemma_utf8_injective, utf8, views};
use crate::tree::TreeModel;

verus! {

// ---------------------------------------------------------------------------
// JSON values
// ---------------------------------------------------------------------------

/// A value without anything in it.
pub open spec fn leaf(key: Option<Seq<u8>>, value: ValueModel) -> JsonModel {
    TreeModel { item: NodeModel { key, value }, inner: Seq::empty() }
}

/// A number under a key.
pub open spec fn number(key: Seq<char>, n: int) -> JsonModel {
    leaf(Some(utf8(key)), ValueModel::Number(n))
}

/// A text under a key.
pub open spec fn string(key: Seq<char>, s: Seq<u8>) -> JsonModel {
    leaf(Some(utf8(key)), ValueModel::Text(s))
}

/// A list.
pub open spec fn list(key: Option<Seq<u8>>, inner: Seq<JsonModel>) -> JsonModel {
    TreeModel { item: NodeModel { key, value: ValueModel::List }, inner }
}

/// An object.
pub open spec fn object(key: Option<Seq<u8>>, inner: Seq<JsonModel>) -> JsonModel {
    TreeModel { item: NodeModel { key, value: ValueModel::Object }, inner }
}

/// The first of `ts`, from `k` on, that stands under `key`.
pub open spec fn field_at(ts: Seq<JsonModel>, key: Seq<u8>, k: int) -> int
    decreases ts.len() - k,
{
    if k < 0 || k >= ts.len() {
        ts.len() as int
    } else if ts[k].item.key == Some(key) {
        k
    } else {
        field_at(ts, key, k + 1)
    }
}

/// What stands under `key` in an object.
pub open spec fn field(t: JsonModel, key: Seq<char>) -> Option<JsonModel> {
    let k = field_at(t.inner, utf8(key), 0);
    if t.item.value is Object && k < t.inner.len() {
        Some(t.inner[k])
    } else {
        None
    }
}

/// The text under `key`.
pub open spec fn text_field(t: JsonModel, key: Seq<char>) -> Option<Seq<u8>> {
    match field(t, key) {
        Some(v) => match v.item.value {
            ValueModel::Text(s) => Some(s),
            _ => None,
        },
        None => None,
    }
}

/// The whole number under `key`.
pub open spec fn number_field(t: JsonModel, key: Seq<char>) -> Option<int> {
    match field(t, key) {
        Some(v) => match v.item.value {
            ValueModel::Number(n) => Some(n),
            _ => None,
        },
        None => None,
    }
}

/// What is in the list under `key`.
pub open spec fn list_field(t: JsonModel, key: Seq<char>) -> Option<Seq<JsonModel>> {
    match field(t, key) {
        Some(v) => if v.item.value is List {
            Some(v.inner)
        } else {
            None
        },
        None => None,
    }
}

/// The identity that is spelled under `key`.
pub open spec fn id_field(t: JsonModel, key: Seq<char>) -> Option<Uuid> {
    match text_field(t, key) {
        Some(s) => uuid_spelled(decode_utf8(s)),
        None => None,
    }
}

/// A record: an object as it is, a list as the object that has its values under `keys`, in
/// their order. A list of more values is no record.
#[verifier::opaque]
pub open spec fn named(t: JsonModel, keys: Seq<Seq<char>>) -> JsonModel {
    if t.item.value is List && t.inner.len() <= keys.len() {
        object(
            t.item.key,
            Seq::new(t.inner.len(), |i: int| under(Some(utf8(keys[i])), t.inner[i])),
        )
    } else {
        t
    }
}

/// The kind that a value tells: its name, or a number, its place among `kinds`.
pub open spec fn kind_said(t: JsonModel, kinds: Seq<Seq<char>>) -> Option<Seq<u8>> {
    match t.item.value {
        ValueModel::Text(s) => Some(s),
        ValueModel::Number(n) => if 0 <= n < kinds.len() {
            Some(utf8(kinds[n]))
        } else {
            None
        },
        _ => None,
    }
}

/// The kind that is told under `key`.
pub open spec fn kind_field(t: JsonModel, key: Seq<char>, kinds: Seq<Seq<char>>) -> Option<Seq<u8>> {
    match field(t, key) {
        Some(v) => kind_said(v, kinds),
        None => None,
    }
}

/// The kind that a list starts with.
pub open spec fn leading_kind(t: JsonModel, kinds: Seq<Seq<char>>) -> Option<Seq<u8>> {
    if t.item.value is List && t.inner.len() > 0 {
        kind_said(t.inner[0], kinds)
    } else {
        None
    }
}

/// Keys as they are modelled.
pub open spec fn keys_of(keys: Seq<&str>) -> Seq<Seq<char>> {
    Seq::new(keys.len(), |i: int| keys[i]@)
}

/// Every one of `ts` read by `f`; nothing where one of them cannot be.
pub open spec fn each_of<A>(ts: Seq<JsonModel>, f: spec_fn(JsonModel) -> Option<A>) -> Option<
    Seq<A>,
> {
    if forall|i: int| 0 <= i < ts.len() ==> f(#[trigger] ts[i]) is Some {
        Some(Seq::new(ts.len(), |i: int| f(ts[i])->0))
    } else {
        None
    }
}

/// Makes a number under a key.
pub fn number_json(key: &str, n: i128) -> (j: Json)
    ensures
        j.model() == number(key@, n as int),
{
    let j = Json { key: Some(text::copy(key)), value: JsonValue::Number(n), inner: Vec::new() };
    assert(j.model().inner =~= Seq::empty());
    j
}

/// Makes a text under a key.
pub fn string_json(key: &str, s: &str) -> (j: Json)
    ensures
        j.model() == string(key@, utf8(s@)),
{
    let j = Json {
        key: Some(text::copy(key)),
        value: JsonValue::Text(text::copy(s)),
        inner: Vec::new(),
    };
    assert(j.model().inner =~= Seq::empty());
    j
}

/// Makes a list.
pub fn list_json(key: Option<&str>, inner: Vec<Json>) -> (j: Json)
    ensures
        j.model() == list(
            match key {
                Some(k) => Some(utf8(k@)),
                None => None,
            },
            models(inner@),
        ),
{
    let key = match key {
        Some(k) => Some(text::copy(k)),
        None => None,
    };
    let j = Json { key, value: JsonValue::List, inner };
    assert(j.model().inner =~= models(inner@));
    j
}

/// Makes an object.
pub fn object_json(key: Option<&str>, inner: Vec<Json>) -> (j: Json)
    ensures
        j.model() == object(
            match key {
                Some(k) => Some(utf8(k@)),
                None => None,
            },
            models(inner@),
        ),
{
    let key = match key {
        Some(k) => Some(text::copy(k)),
        None => None,
    };
    let j = Json { key, value: JsonValue::Object, inner };
    assert(j.model().inner =~= models(inner@));
    j
}

impl Json {
    /// What stands under `key`, where the value is an object that has it.
    pub fn field(&self, key: &str) -> (v: Option<&Json>)
        ensures
            (match v {
                Some(j) => Some((*j).model()),
                None => None,
            }) == field(self.model(), key@),
    {
        let ghost ts = self.model().inner;
        match &self.value {
            JsonValue::Object => {},
            _ => {
                return None;
            },
        }
        let mut i: usize = 0;
        while i < self.inner.len()
            invariant
                i <= self.inner.len(),
                ts == self.model().inner,
                self.value@ is Object,
                field_at(ts, utf8(key@), 0) == field_at(ts, utf8(key@), i as int),
            decreases self.inner.len() - i,
        {
            assert(ts[i as int] == self.inner@[i as int].model());
            if let Some(k) = &self.inner[i].key {
                if text::same(k.as_str(), key) {
                    assert(field_at(ts, utf8(key@), i as int) == i);
                    return Some(&self.inner[i]);
                }
            }
            i += 1;
        }
        None
    }

    /// The text under `key`.
    pub fn text_field(&self, key: &str) -> (v: Option<&str>)
        ensures
            (match v {
                Some(s) => Some(utf8(s@)),
                None => None,
            }) == text_field(self.model(), key@),
    {
        match self.field(key) {
            Some(j) => match &j.value {
                JsonValue::Text(s) => Some(s.as_str()),
                _ => None,
            },
            None => None,
        }
    }

    /// The whole number under `key`.
    pub fn number_field(&self, key: &str) -> (v: Option<i128>)
        ensures
            (match v {
                Some(n) => Some(n as int),
                None => None,
            }) == number_field(self.model(), key@),
    {
        match self.field(key) {
            Some(j) => match &j.value {
                JsonValue::Number(n) => Some(*n),
                _ => None,
            },
            None => None,
        }
    }

    /// The record of a list whose values stand under `keys`, in their order; nothing where
    /// the value is its own record.
    pub fn listed(&self, keys: &Vec<&str>) -> (r: Option<Json>)
        ensures
            match r {
                Some(j) => j.model() == named(self.model(), keys_of(keys@)),
                None => named(self.model(), keys_of(keys@)) == self.model(),
            },
    {
        proof {
            reveal(named);
        }
        if !matches!(self.value, JsonValue::List) || self.inner.len() > keys.len() {
            return None;
        }
        let ghost t = self.model();
        let ghost ks = keys_of(keys@);
        let mut inner: Vec<Json> = Vec::new();
        let mut i: usize = 0;
        while i < self.inner.len()
            invariant
                i <= self.inner.len() <= keys.len(),
                t == self.model(),
                ks == keys_of(keys@),
                inner@.len() == i,
                forall|k: int|
                    0 <= k < i ==> (#[trigger] inner@[k]).model() == under(
                        Some(utf8(ks[k])),
                        t.inner[k],
                    ),
            decreases self.inner.len() - i,
        {
            assert(t.inner[i as int] == self.inner@[i as int].model());
            inner.push(self.inner[i].copied(Some(text::copy(keys[i]))));
            i += 1;
        }
        assert(models(inner@) =~= named(t, ks).inner);
        let key = match &self.key {
            Some(k) => Some(text::copy(k.as_str())),
            None => None,
        };
        let j = Json { key, value: JsonValue::Object, inner };
        assert(j.model().inner =~= models(j.inner@));
        assert(j.model() =~= named(t, ks));
        Some(j)
    }

    /// The kind that the value tells: its name, or a number, its place among `kinds`.
    pub fn kind_said<'a>(&'a self, kinds: &Vec<&'static str>) -> (r: Option<&'a str>)
        ensures
            (match r {
                Some(s) => Some(utf8(s@)),
                None => None,
            }) == kind_said(self.model(), keys_of(kinds@)),
    {
        match &self.value {
            JsonValue::Text(s) => Some(s.as_str()),
            JsonValue::Number(n) => if 0 <= *n && *n < kinds.len() as i128 {
                Some(kinds[*n as usize])
            } else {
                None
            },
            _ => None,
        }
    }

    /// The kind that is told under `key`.
    pub fn kind_field<'a>(&'a self, key: &str, kinds: &Vec<&'static str>) -> (r: Option<&'a str>)
        ensures
            (match r {
                Some(s) => Some(utf8(s@)),
                None => None,
            }) == kind_field(self.model(), key@, keys_of(kinds@)),
    {
        match self.field(key) {
            Some(j) => j.kind_said(kinds),
            None => None,
        }
    }

    /// The kind that a list starts with.
    pub fn leading_kind<'a>(&'a self, kinds: &Vec<&'static str>) -> (r: Option<&'a str>)
        ensures
            (match r {
                Some(s) => Some(utf8(s@)),
                None => None,
            }) == leading_kind(self.model(), keys_of(kinds@)),
    {
        if !matches!(self.value, JsonValue::List) || self.inner.len() == 0 {
            return None;
        }
        assert(self.model().inner[0] == self.inner@[0].model());
        self.inner[0].kind_said(kinds)
    }

    /// What is in the list under `key`.
    pub fn list_field(&self, key: &str) -> (v: Option<&Vec<Json>>)
        ensures
            (match v {
                Some(l) => Some(models(l@)),
                None => None,
            }) == list_field(self.model(), key@),
    {
        match self.field(key) {
            Some(j) => match &j.value {
                JsonValue::List => {
                    assert(j.model().inner =~= models(j.inner@));
                    Some(&j.inner)
                },
                _ => None,
            },
            None => None,
        }
    }

    /// The identity that is spelled under `key`.
    pub fn id_field(&self, key: &str) -> (v: Option<Uuid>)
        ensures
            v == id_field(self.model(), key@),
    {
        broadcast use encode_utf8_decode_utf8;

        match self.text_field(key) {
            Some(s) => parse_id(s),
            None => None,
        }
    }
}

// ---------------------------------------------------------------------------
// Payloads as JSON
// ---------------------------------------------------------------------------

/// A link as JSON.
pub open spec fn link_json(l: Link) -> JsonModel {
    object(None, seq![number("start"@, l.start), number("end"@, l.end), string("url"@, l.url)])
}

/// Links as JSON.
pub open spec fn links_json(ls: Seq<Link>) -> Seq<JsonModel> {
    Seq::new(ls.len(), |i: int| link_json(ls[i]))
}

/// The keys of a link.
pub open spec fn link_keys() -> Seq<Seq<char>> {
    seq!["start"@, "end"@, "url"@]
}

/// The link that JSON says.
pub open spec fn link_of(t: JsonModel) -> Option<Link> {
    let t = named(t, link_keys());
    match (number_field(t, "start"@), number_field(t, "end"@), text_field(t, "url"@)) {
        (Some(start), Some(end), Some(url)) => if 0 <= start <= usize::MAX && 0 <= end
            <= usize::MAX {
            Some(Link { start, end, url })
        } else {
            None
        },
        _ => None,
    }
}

/// The links in the list under `links`.
pub open spec fn links_of(t: JsonModel) -> Option<Seq<Link>> {
    match list_field(t, "links"@) {
        Some(ts) => each_of(ts, |t: JsonModel| link_of(t)),
        None => None,
    }
}

/// A bullet as JSON.
pub open spec fn bullet_json(b: ClipBullet) -> JsonModel {
    object(
        None,
        seq![
            number("depth"@, b.depth as int),
            string("text"@, b.text),
            list(Some(utf8("links"@)), links_json(b.links)),
        ],
    )
}

/// The keys of a bullet.
pub open spec fn bullet_keys() -> Seq<Seq<char>> {
    seq!["depth"@, "text"@, "links"@]
}

/// The bullet that JSON says.
pub open spec fn bullet_of(t: JsonModel) -> Option<ClipBullet> {
    let t = named(t, bullet_keys());
    match (number_field(t, "depth"@), text_field(t, "text"@), links_of(t)) {
        (Some(depth), Some(text), Some(links)) => if 0 <= depth <= u32::MAX {
            Some(ClipBullet { depth: depth as u32, text, links })
        } else {
            None
        },
        _ => None,
    }
}

/// What a reference points at, as JSON.
pub open spec fn target_json(t: SerTarget) -> JsonModel {
    match t {
        SerTarget::Cell { cell_id } => object(
            Some(utf8("target"@)),
            seq![
                string("target_kind"@, utf8("cell"@)),
                string("cell_id"@, utf8(spelling(cell_id))),
            ],
        ),
        SerTarget::Subtree { cell_id, bullet_id } => object(
            Some(utf8("target"@)),
            seq![
                string("target_kind"@, utf8("subtree"@)),
                string("cell_id"@, utf8(spelling(cell_id))),
                string("bullet_id"@, utf8(spelling(bullet_id))),
            ],
        ),
    }
}

/// The kinds of targets.
pub open spec fn target_kinds() -> Seq<Seq<char>> {
    seq!["cell"@, "subtree"@]
}

/// The keys of a target whose kind stands under `tag`, as the list that `t` is has it.
pub open spec fn target_keys(t: JsonModel, tag: Seq<char>) -> Seq<Seq<char>> {
    if leading_kind(t, target_kinds()) == Some(utf8("subtree"@)) {
        seq![tag, "cell_id"@, "bullet_id"@]
    } else {
        seq![tag, "cell_id"@]
    }
}

/// The target that JSON says.
pub open spec fn target_of(t: JsonModel) -> Option<SerTarget> {
    let t = named(t, target_keys(t, "target_kind"@));
    match (kind_field(t, "target_kind"@, target_kinds()), id_field(t, "cell_id"@)) {
        (Some(kind), Some(cell_id)) => if kind == utf8("cell"@) {
            Some(SerTarget::Cell { cell_id })
        } else if kind == utf8("subtree"@) {
            match id_field(t, "bullet_id"@) {
                Some(bullet_id) => Some(SerTarget::Subtree { cell_id, bullet_id }),
                None => None,
            }
        } else {
            None
        },
        _ => None,
    }
}

/// What is on the clipboard, as JSON.
pub open spec fn payload_json(p: PayloadModel) -> JsonModel {
    match p {
        PayloadModel::Text(text, links) => object(
            None,
            seq![
                string("kind"@, utf8("text"@)),
                string("text"@, text),
                list(Some(utf8("links"@)), links_json(links)),
            ],
        ),
        PayloadModel::Outline(bullets) => object(
            None,
            seq![
                string("kind"@, utf8("outline"@)),
                list(
                    Some(utf8("bullets"@)),
                    Seq::new(bullets.len(), |i: int| bullet_json(bullets[i])),
                ),
            ],
        ),
        PayloadModel::Reference(target, snippet) => object(
            None,
            seq![
                string("kind"@, utf8("reference"@)),
                target_json(target),
                string("snippet"@, snippet),
            ],
        ),
    }
}

/// The keys of a payload, as the list that `t` is has it.
pub open spec fn payload_keys(t: JsonModel) -> Seq<Seq<char>> {
    let kind = leading_kind(t, Seq::empty());
    if kind == Some(utf8("outline"@)) {
        seq!["kind"@, "bullets"@]
    } else if kind == Some(utf8("reference"@)) {
        seq!["kind"@, "target"@, "snippet"@]
    } else {
        seq!["kind"@, "text"@, "links"@]
    }
}

/// The payload that JSON says.
pub open spec fn payload_of(t: JsonModel) -> Option<PayloadModel> {
    let t = named(t, payload_keys(t));
    match text_field(t, "kind"@) {
        Some(kind) => if kind == utf8("text"@) {
            match (text_field(t, "text"@), links_of(t)) {
                (Some(text), Some(links)) => Some(PayloadModel::Text(text, links)),
                _ => None,
            }
        } else if kind == utf8("outline"@) {
            match list_field(t, "bullets"@) {
                Some(ts) => match each_of(ts, |t: JsonModel| bullet_of(t)) {
                    Some(bullets) => Some(PayloadModel::Outline(bullets)),
                    None => None,
                },
                None => None,
            }
        } else if kind == utf8("reference"@) {
            match (field(t, "target"@), text_field(t, "snippet"@)) {
                (Some(inner), Some(snippet)) => match target_of(inner) {
                    Some(target) => Some(PayloadModel::Reference(target, snippet)),
                    None => None,
                },
                _ => None,
            }
        } else {
            None
        },
        None => None,
    }
}

/// The identities of a target are read as they are spelled.
pub open spec fn ids_spelled(t: SerTarget) -> bool {
    match t {
        SerTarget::Cell { cell_id } => uuid_spelled(spelling(cell_id)) == Some(cell_id),
        SerTarget::Subtree { cell_id, bullet_id } => uuid_spelled(spelling(cell_id)) == Some(
            cell_id,
        ) && uuid_spelled(spelling(bullet_id)) == Some(bullet_id),
    }
}

proof fn lemma_keys()
    ensures
        utf8("start"@) != utf8("end"@),
        utf8("start"@) != utf8("url"@),
        utf8("end"@) != utf8("url"@),
        utf8("depth"@) != utf8("text"@),
        utf8("depth"@) != utf8("links"@),
        utf8("text"@) != utf8("links"@),
        utf8("kind"@) != utf8("text"@),
        utf8("kind"@) != utf8("links"@),
        utf8("kind"@) != utf8("bullets"@),
        utf8("kind"@) != utf8("target"@),
        utf8("kind"@) != utf8("snippet"@),
        utf8("target"@) != utf8("snippet"@),
        utf8("target_kind"@) != utf8("cell_id"@),
        utf8("target_kind"@) != utf8("bullet_id"@),
        utf8("cell_id"@) != utf8("bullet_id"@),
        utf8("cell"@) != utf8("subtree"@),
        utf8("text"@) != utf8("outline"@),
        utf8("text"@) != utf8("reference"@),
        utf8("outline"@) != utf8("reference"@),
{
    reveal_strlit("start");
    reveal_strlit("end");
    reveal_strlit("url");
    reveal_strlit("depth");
    reveal_strlit("text");
    reveal_strlit("links");
    reveal_strlit("kind");
    reveal_strlit("bullets");
    reveal_strlit("target");
    reveal_strlit("snippet");
    reveal_strlit("target_kind");
    reveal_strlit("cell_id");
    reveal_strlit("bullet_id");
    reveal_strlit("cell");
    reveal_strlit("subtree");
    reveal_strlit("outline");
    reveal_strlit("reference");
    lemma_utf8_differs("start"@, "end"@);
    lemma_utf8_differs("start"@, "url"@);
    lemma_utf8_differs("end"@, "url"@);
    lemma_utf8_differs("depth"@, "text"@);
    lemma_utf8_differs("depth"@, "links"@);
    lemma_utf8_differs("text"@, "links"@);
    lemma_utf8_differs("kind"@, "text"@);
    lemma_utf8_differs("kind"@, "links"@);
    lemma_utf8_differs("kind"@, "bullets"@);
    lemma_utf8_differs("kind"@, "target"@);
    lemma_utf8_differs("kind"@, "snippet"@);
    lemma_utf8_differs("target"@, "snippet"@);
    lemma_utf8_differs("target_kind"@, "cell_id"@);
    lemma_utf8_differs("target_kind"@, "bullet_id"@);
    lemma_utf8_differs("cell_id"@, "bullet_id"@);
    lemma_utf8_differs("cell"@, "subtree"@);
    lemma_utf8_differs("text"@, "outline"@);
    lemma_utf8_differs("text"@, "reference"@);
    lemma_utf8_differs("outline"@, "reference"@);
}

proof fn lemma_utf8_differs(a: Seq<char>, b: Seq<char>)
    requires
        a.len() != b.len() || a[0] != b[0],
    ensures
        utf8(a) != utf8(b),
{
    if utf8(a) == utf8(b) {
        lemma_utf8_injective(a, b);
    }
}

proof fn lemma_link_json(l: Link)
    requires
        0 <= l.start <= usize::MAX,
        0 <= l.end <= usize::MAX,
    ensures
        link_of(link_json(l)) == Some(l),
        storable(link_json(l), 2),
{
    reveal(named);
    lemma_keys();
    reveal_with_fuel(field_at, 4);
    reveal_with_fuel(storable, 2);
}

/// Every number of the links fits the machine.
pub open spec fn links_fit(ls: Seq<Link>) -> bool {
    forall|i: int|
        0 <= i < ls.len() ==> 0 <= (#[trigger] ls[i]).start <= usize::MAX && 0 <= ls[i].end
            <= usize::MAX
}

pub proof fn lemma_links_json(ls: Seq<Link>, key: Seq<u8>)
    requires
        links_fit(ls),
    ensures
        each_of(links_json(ls), |t: JsonModel| link_of(t)) == Some(ls),
        storable(list(Some(key), links_json(ls)), 3),
{
    let f = |t: JsonModel| link_of(t);
    let ts = links_json(ls);
    assert forall|i: int| 0 <= i < ts.len() implies f(#[trigger] ts[i]) == Some(ls[i]) && storable(
        ts[i],
        2,
    ) by {
        lemma_link_json(ls[i]);
    }
    assert(Seq::new(ts.len(), |i: int| f(ts[i])->0) =~= ls);
}

proof fn lemma_bullet_json(b: ClipBullet)
    requires
        links_fit(b.links),
    ensures
        bullet_of(bullet_json(b)) == Some(b),
        storable(bullet_json(b), 4),
{
    reveal(named);
    lemma_keys();
    lemma_links_json(b.links, utf8("links"@));
    reveal_with_fuel(field_at, 4);
    assert(storable(number("depth"@, b.depth as int), 3));
    assert(storable(string("text"@, b.text), 3));
    assert(bullet_of(bullet_json(b))->0 =~= b);
}

proof fn lemma_target_json(t: SerTarget)
    requires
        ids_spelled(t),
    ensures
        target_of(target_json(t)) == Some(t),
        storable(target_json(t), 2),
{
    reveal(named);
    broadcast use encode_utf8_decode_utf8;

    lemma_keys();
    reveal_with_fuel(field_at, 4);
    reveal_with_fuel(storable, 2);
}

/// The links of the payload have numbers that fit the machine.
pub open spec fn payload_fits(p: PayloadModel) -> bool {
    match p {
        PayloadModel::Text(_, links) => links_fit(links),
        PayloadModel::Outline(bullets) => forall|i: int|
            0 <= i < bullets.len() ==> links_fit((#[trigger] bullets[i]).links),
        PayloadModel::Reference(..) => true,
    }
}

/// A payload is read back out of its JSON form as it was.
pub proof fn payloads_are_read_back(p: PayloadModel)
    requires
        payload_fits(p),
        p matches PayloadModel::Reference(t, _) ==> ids_spelled(t),
    ensures
        payload_of(payload_json(p)) == Some(p),
        storable(payload_json(p), MOST_LEVELS as int),
        payload_json(p).item.key is None,
{
    reveal(named);
    lemma_keys();
    reveal_with_fuel(field_at, 4);
    match p {
        PayloadModel::Text(text, links) => {
            lemma_links_json(links, utf8("links"@));
            lemma_storable_grows(list(Some(utf8("links"@)), links_json(links)), 3, 99);
            assert(storable(string("kind"@, utf8("text"@)), 99));
            assert(storable(string("text"@, text), 99));
        },
        PayloadModel::Outline(bullets) => {
            let f = |t: JsonModel| bullet_of(t);
            let ts = Seq::new(bullets.len(), |i: int| bullet_json(bullets[i]));
            assert forall|i: int| 0 <= i < ts.len() implies f(#[trigger] ts[i]) == Some(bullets[i])
                && storable(ts[i], 98) by {
                lemma_bullet_json(bullets[i]);
                lemma_storable_grows(ts[i], 4, 98);
            }
            assert(Seq::new(ts.len(), |i: int| f(ts[i])->0) =~= bullets);
            assert(storable(list(Some(utf8("bullets"@)), ts), 99));
            assert(storable(string("kind"@, utf8("outline"@)), 99));
        },
        PayloadModel::Reference(target, snippet) => {
            lemma_target_json(target);
            lemma_storable_grows(target_json(target), 2, 99);
            assert(storable(string("kind"@, utf8("reference"@)), 99));
            assert(storable(string("snippet"@, snippet), 99));
        },
    }
}

pub proof fn lemma_storable_grows(t: JsonModel, room: int, more: int)
    requires
        storable(t, room),
        room <= more,
    ensures
        storable(t, more),
    decreases t,
{
    assert forall|i: int| 0 <= i < t.inner.len() implies storable(#[trigger] t.inner[i], more - 1) by {
        lemma_storable_grows(t.inner[i], room - 1, more - 1);
    }
}

fn link_to_json(l: &SerLink) -> (j: Json)
    ensures
        j.model() == link_json(l@),
{
    let mut inner: Vec<Json> = Vec::new();
    inner.push(number_json("start", l.start as i128));
    inner.push(number_json("end", l.end as i128));
    inner.push(string_json("url", l.url.as_str()));
    assert(models(inner@) =~= link_json(l@).inner);
    object_json(None, inner)
}

pub(crate) fn links_to_json(links: &Vec<SerLink>) -> (js: Vec<Json>)
    ensures
        models(js@) == links_json(views(links@)),
{
    let mut out: Vec<Json> = Vec::new();
    let mut i: usize = 0;
    while i < links.len()
        invariant
            i <= links.len(),
            out@.len() == i,
            forall|k: int| 0 <= k < i ==> (#[trigger] out@[k]).model() == link_json(links@[k]@),
        decreases links.len() - i,
    {
        out.push(link_to_json(&links[i]));
        i += 1;
    }
    assert(models(out@) =~= links_json(views(links@)));
    out
}

fn bullet_to_json(b: &BulletPayload) -> (j: Json)
    ensures
        j.model() == bullet_json(b@),
{
    let links = links_to_json(&b.links);
    let mut inner: Vec<Json> = Vec::new();
    inner.push(number_json("depth", b.depth as i128));
    inner.push(string_json("text", b.text.as_str()));
    inner.push(list_json(Some("links"), links));
    assert(models(inner@) =~= bullet_json(b@).inner);
    object_json(None, inner)
}

fn target_to_json(t: &SerTarget) -> (j: Json)
    ensures
        j.model() == target_json(*t),
        ids_spelled(*t),
{
    let mut inner: Vec<Json> = Vec::new();
    match t {
        SerTarget::Cell { cell_id } => {
            inner.push(string_json("target_kind", "cell"));
            inner.push(string_json("cell_id", id_text(*cell_id).as_str()));
        },
        SerTarget::Subtree { cell_id, bullet_id } => {
            inner.push(string_json("target_kind", "subtree"));
            inner.push(string_json("cell_id", id_text(*cell_id).as_str()));
            inner.push(string_json("bullet_id", id_text(*bullet_id).as_str()));
        },
    }
    assert(models(inner@) =~= target_json(*t).inner);
    object_json(Some("target"), inner)
}

fn link_from_json(j: &Json) -> (l: Option<SerLink>)
    ensures
        (match l {
            Some(l) => Some(l@),
            None => None,
        }) == link_of(j.model()),
{
    let keys: Vec<&str> = vec!["start", "end", "url"];
    assert(keys_of(keys@) =~= link_keys());
    let n = j.listed(&keys);
    let j = match &n {
        Some(n) => n,
        None => j,
    };
    match (j.number_field("start"), j.number_field("end"), j.text_field("url")) {
        (Some(start), Some(end), Some(url)) => if 0 <= start && start <= usize::MAX as i128 && 0
            <= end && end <= usize::MAX as i128 {
            Some(SerLink { start: start as usize, end: end as usize, url: text::copy(url) })
        } else {
            None
        },
        _ => None,
    }
}

pub(crate) fn links_read(js: &Vec<Json>) -> (ls: Option<Vec<SerLink>>)
    ensures
        (match ls {
            Some(ls) => Some(views(ls@)),
            None => None,
        }) == each_of(models(js@), |t: JsonModel| link_of(t)),
{
    let ghost f = |t: JsonModel| link_of(t);
    let ghost ts = models(js@);
    let mut out: Vec<SerLink> = Vec::new();
    let mut i: usize = 0;
    while i < js.len()
        invariant
            i <= js.len(),
            ts == models(js@),
            f == (|t: JsonModel| link_of(t)),
            out@.len() == i,
            forall|k: int| 0 <= k < i ==> f(#[trigger] ts[k]) == Some(out@[k]@),
        decreases js.len() - i,
    {
        assert(ts[i as int] == js@[i as int].model());
        match link_from_json(&js[i]) {
            Some(l) => {
                out.push(l);
            },
            None => {
                assert(f(ts[i as int]) is None);
                return None;
            },
        }
        i += 1;
    }
    assert(Seq::new(ts.len(), |i: int| f(ts[i])->0) =~= views(out@));
    Some(out)
}

fn links_from_json(j: &Json) -> (ls: Option<Vec<SerLink>>)
    ensures
        (match ls {
            Some(ls) => Some(views(ls@)),
            None => None,
        }) == links_of(j.model()),
{
    match j.list_field("links") {
        Some(js) => links_read(js),
        None => None,
    }
}

fn bullet_from_json(j: &Json) -> (b: Option<BulletPayload>)
    ensures
        (match b {
            Some(b) => Some(b@),
            None => None,
        }) == bullet_of(j.model()),
{
    let keys: Vec<&str> = vec!["depth", "text", "links"];
    assert(keys_of(keys@) =~= bullet_keys());
    let n = j.listed(&keys);
    let j = match &n {
        Some(n) => n,
        None => j,
    };
    match (j.number_field("depth"), j.text_field("text"), links_from_json(j)) {
        (Some(depth), Some(text), Some(links)) => if 0 <= depth && depth <= u32::MAX as i128 {
            Some(BulletPayload { depth: depth as u32, text: text::copy(text), links })
        } else {
            None
        },
        _ => None,
    }
}

fn bullets_from_json(js: &Vec<Json>) -> (bs: Option<Vec<BulletPayload>>)
    ensures
        (match bs {
            Some(bs) => Some(views(bs@)),
            None => None,
        }) == each_of(models(js@), |t: JsonModel| bullet_of(t)),
{
    let ghost f = |t: JsonModel| bullet_of(t);
    let ghost ts = models(js@);
    let mut out: Vec<BulletPayload> = Vec::new();
    let mut i: usize = 0;
    while i < js.len()
        invariant
            i <= js.len(),
            ts == models(js@),
            f == (|t: JsonModel| bullet_of(t)),
            out@.len() == i,
            forall|k: int| 0 <= k < i ==> f(#[trigger] ts[k]) == Some(out@[k]@),
        decreases js.len() - i,
    {
        assert(ts[i as int] == js@[i as int].model());
        match bullet_from_json(&js[i]) {
            Some(b) => {
                out.push(b);
            },
            None => {
                assert(f(ts[i as int]) is None);
                return None;
            },
        }
        i += 1;
    }
    assert(Seq::new(ts.len(), |i: int| f(ts[i])->0) =~= views(out@));
    Some(out)
}

pub(crate) fn target_kind_list() -> (kinds: Vec<&'static str>)
    ensures
        keys_of(kinds@) == target_kinds(),
{
    let kinds: Vec<&'static str> = vec!["cell", "subtree"];
    assert(keys_of(kinds@) =~= target_kinds());
    kinds
}

pub(crate) fn target_key_list<'a>(j: &Json, tag: &'a str) -> (keys: Vec<&'a str>)
    ensures
        keys_of(keys@) == target_keys(j.model(), tag@),
{
    let kinds = target_kind_list();
    let deep: bool = match j.leading_kind(&kinds) {
        Some(kind) => text::same(kind, "subtree"),
        None => false,
    };
    let keys: Vec<&str> = if deep {
        vec![tag, "cell_id", "bullet_id"]
    } else {
        vec![tag, "cell_id"]
    };
    assert(keys_of(keys@) =~= target_keys(j.model(), tag@));
    keys
}

fn target_from_json(j: &Json) -> (t: Option<SerTarget>)
    ensures
        t == target_of(j.model()),
{
    let keys = target_key_list(j, "target_kind");
    let n = j.listed(&keys);
    let j = match &n {
        Some(n) => n,
        None => j,
    };
    let kinds = target_kind_list();
    match (j.kind_field("target_kind", &kinds), j.id_field("cell_id")) {
        (Some(kind), Some(cell_id)) => if text::same(kind, "cell") {
            Some(SerTarget::Cell { cell_id })
        } else if text::same(kind, "subtree") {
            match j.id_field("bullet_id") {
                Some(bullet_id) => Some(SerTarget::Subtree { cell_id, bullet_id }),
                None => None,
            }
        } else {
            None
        },
        _ => None,
    }
}

fn payload_key_list(j: &Json) -> (keys: Vec<&'static str>)
    ensures
        keys_of(keys@) == payload_keys(j.model()),
{
    let kinds: Vec<&'static str> = Vec::new();
    assert(keys_of(kinds@) =~= Seq::<Seq<char>>::empty());
    let kind = j.leading_kind(&kinds);
    let outline: bool = match kind {
        Some(kind) => text::same(kind, "outline"),
        None => false,
    };
    let reference: bool = match kind {
        Some(kind) => text::same(kind, "reference"),
        None => false,
    };
    let keys: Vec<&'static str> = if outline {
        vec!["kind", "bullets"]
    } else if reference {
        vec!["kind", "target", "snippet"]
    } else {
        vec!["kind", "text", "links"]
    };
    assert(keys_of(keys@) =~= payload_keys(j.model()));
    keys
}

impl KeptPayload {
    /// The JSON form.
    pub fn to_json(&self) -> (j: Json)
        ensures
            j.model() == payload_json(self@),
            self@ matches PayloadModel::Reference(t, _) ==> ids_spelled(t),
    {
        let mut inner: Vec<Json> = Vec::new();
        match self {
            KeptPayload::Text { text, links } => {
                let links = links_to_json(links);
                inner.push(string_json("kind", "text"));
                inner.push(string_json("text", text.as_str()));
                inner.push(list_json(Some("links"), links));
            },
            KeptPayload::Outline { bullets } => {
                let mut js: Vec<Json> = Vec::new();
                let mut i: usize = 0;
                while i < bullets.len()
                    invariant
                        i <= bullets.len(),
                        js@.len() == i,
                        forall|k: int|
                            0 <= k < i ==> (#[trigger] js@[k]).model() == bullet_json(bullets@[k]@),
                    decreases bullets.len() - i,
                {
                    js.push(bullet_to_json(&bullets[i]));
                    i += 1;
                }
                let ghost bs = views(bullets@);
                assert(models(js@) =~= Seq::new(bs.len(), |i: int| bullet_json(bs[i])));
                inner.push(string_json("kind", "outline"));
                inner.push(list_json(Some("bullets"), js));
            },
            KeptPayload::Reference { target, snippet } => {
                inner.push(string_json("kind", "reference"));
                inner.push(target_to_json(target));
                inner.push(string_json("snippet", snippet.as_str()));
            },
        }
        assert(models(inner@) =~= payload_json(self@).inner);
        object_json(None, inner)
    }

    /// The payload that JSON says.
    pub fn from_json(j: &Json) -> (p: Option<KeptPayload>)
        ensures
            payload_view(p) == payload_of(j.model()),
    {
        let keys = payload_key_list(j);
        let n = j.listed(&keys);
        let j = match &n {
            Some(n) => n,
            None => j,
        };
        match j.text_field("kind") {
            Some(kind) => if text::same(kind, "text") {
                match (j.text_field("text"), links_from_json(j)) {
                    (Some(text), Some(links)) => Some(
                        KeptPayload::Text { text: text::copy(text), links },
                    ),
                    _ => None,
                }
            } else if text::same(kind, "outline") {
                match j.list_field("bullets") {
                    Some(js) => match bullets_from_json(js) {
                        Some(bullets) => Some(KeptPayload::Outline { bullets }),
                        None => None,
                    },
                    None => None,
                }
            } else if text::same(kind, "reference") {
                match (j.field("target"), j.text_field("snippet")) {
                    (Some(inner), Some(snippet)) => match target_from_json(inner) {
                        Some(target) => Some(
                            KeptPayload::Reference { target, snippet: text::copy(snippet) },
                        ),
                        None => None,
                    },
                    _ => None,
                }
            } else {
                None
            },
            None => None,
        }
    }
}

/// A payload that may not be there, as it is modelled.
pub open spec fn payload_view(p: Option<KeptPayload>) -> Option<PayloadModel> {
    match p {
        Some(p) => Some(p@),
        None => None,
    }
}

} // verus!
