//! JSON values, and the text that they are stored as.
use serde_json::{Number, Value};
use vstd::prelude::*;

use crate::text;
use crate::text::utf8;
use crate::tree::TreeModel;

verus! {

/// What a JSON value is, apart from what is in it.
#[verifier::ext_equal]
pub enum ValueModel {
    Null,
    Bool(bool),
    Number(int),
    Text(Seq<u8>),
    /// A number that is no whole one, or too large.
    Other,
    List,
    Object,
}

/// A JSON value and the key that it stands under, in an object.
#[verifier::ext_equal]
pub struct NodeModel {
    pub key: Option<Seq<u8>>,
    pub value: ValueModel,
}

/// A JSON value with all that is in it.
pub type JsonModel = TreeModel<NodeModel>;

/// What a JSON value is, apart from what is in it.
pub enum JsonValue {
    Null,
    Bool(bool),
    Number(i128),
    Text(String),
    Other,
    List,
    Object,
}

impl View for JsonValue {
    type V = ValueModel;

    open spec fn view(&self) -> ValueModel {
        match self {
            JsonValue::Null => ValueModel::Null,
            JsonValue::Bool(b) => ValueModel::Bool(*b),
            JsonValue::Number(n) => ValueModel::Number(*n as int),
            JsonValue::Text(s) => ValueModel::Text(utf8(s@)),
            JsonValue::Other => ValueModel::Other,
            JsonValue::List => ValueModel::List,
            JsonValue::Object => ValueModel::Object,
        }
    }
}

/// A key as it is modelled.
pub open spec fn key_view(key: Option<String>) -> Option<Seq<u8>> {
    match key {
        Some(k) => Some(utf8(k@)),
        None => None,
    }
}

// ---------------------------------------------------------------------------
// JSON text
// ---------------------------------------------------------------------------

/// `serde_json::Value`.
#[verifier::external_type_specification]
#[verifier::external_body]
pub struct ExValue(serde_json::Value);

/// What a value of `serde_json` holds, under no key.
pub uninterp spec fn json_held(value: Value) -> JsonModel;

/// The text that `serde_json` writes for a value.
pub uninterp spec fn json_stored(json: JsonModel) -> Seq<u8>;

/// The value that `serde_json` reads out of a text, if it can.
pub uninterp spec fn json_parsed(text: Seq<u8>) -> Option<JsonModel>;

/// The value can be stored: what is in it stands under distinct keys in an object
/// and under none in a list, nothing is in any other value, its numbers are those
/// of 64 bits, and it is less than `room` levels deep.
pub open spec fn storable(t: JsonModel, room: int) -> bool
    decreases t,
{
    &&& room > 0
    &&& match t.item.value {
        ValueModel::List => forall|i: int|
            0 <= i < t.inner.len() ==> (#[trigger] t.inner[i]).item.key is None && storable(
                t.inner[i],
                room - 1,
            ),
        ValueModel::Object => {
            &&& forall|i: int|
                0 <= i < t.inner.len() ==> (#[trigger] t.inner[i]).item.key is Some && storable(
                    t.inner[i],
                    room - 1,
                )
            &&& forall|i: int, j: int|
                0 <= i < j < t.inner.len() ==> (#[trigger] t.inner[i]).item.key != (
                #[trigger] t.inner[j]).item.key
        },
        ValueModel::Number(n) => i64::MIN <= n <= u64::MAX && t.inner.len() == 0,
        ValueModel::Other => false,
        _ => t.inner.len() == 0,
    }
}

/// How deep a value may be.
pub const MOST_LEVELS: usize = 100;

/// The value under a key.
pub open spec fn under(key: Option<Seq<u8>>, t: JsonModel) -> JsonModel {
    TreeModel { item: NodeModel { key, value: t.item.value }, inner: t.inner }
}

/// The values under their keys.
spec fn all_under(inner: Seq<(Option<String>, Value)>) -> Seq<JsonModel> {
    Seq::new(inner.len(), |i: int| under(key_view(inner[i].0), json_held(inner[i].1)))
}

/// The value that is `value` and has these in it.
spec fn together(value: ValueModel, inner: Seq<(Option<String>, Value)>) -> JsonModel {
    TreeModel { item: NodeModel { key: None, value }, inner: all_under(inner) }
}

/// The value can have these in it.
spec fn can_hold(value: ValueModel, inner: Seq<JsonModel>) -> bool {
    match value {
        ValueModel::List => forall|i: int|
            0 <= i < inner.len() ==> (#[trigger] inner[i]).item.key is None,
        ValueModel::Object => {
            &&& forall|i: int| 0 <= i < inner.len() ==> (#[trigger] inner[i]).item.key is Some
            &&& forall|i: int, j: int|
                0 <= i < j < inner.len() ==> (#[trigger] inner[i]).item.key != (
                #[trigger] inner[j]).item.key
        },
        ValueModel::Number(n) => i64::MIN <= n <= u64::MAX && inner.len() == 0,
        ValueModel::Other => false,
        _ => inner.len() == 0,
    }
}

/// `serde_json::from_str` to a `Value`: the value that a text spells, where it is
/// JSON.
#[verifier::external_body]
fn read_json(text: &str) -> (value: Option<Value>)
    ensures
        (match value {
            Some(v) => Some(json_held(v)),
            None => None,
        }) == json_parsed(utf8(text@)),
{
    serde_json::from_str::<Value>(text).ok()
}

/// `Value`'s `Display`: its JSON text, out of which `serde_json::from_str` reads the
/// value again. Objects keep the order of their keys.
#[verifier::external_body]
fn write_json(value: &Value) -> (text: String)
    requires
        storable(json_held(*value), MOST_LEVELS as int),
    ensures
        utf8(text@) == json_stored(json_held(*value)),
        json_parsed(utf8(text@)) == Some(json_held(*value)),
{
    value.to_string()
}

/// The variants of `Value`, with what is right in the value, in its order.
/// `Number::as_i128` gives every whole number that a value can hold.
#[verifier::external_body]
fn take_apart(value: Value) -> (r: (JsonValue, Vec<(Option<String>, Value)>))
    ensures
        together(r.0@, r.1@) == json_held(value),
{
    match value {
        Value::Null => (JsonValue::Null, Vec::new()),
        Value::Bool(b) => (JsonValue::Bool(b), Vec::new()),
        Value::Number(n) => (n.as_i128().map_or(JsonValue::Other, JsonValue::Number), Vec::new()),
        Value::String(s) => (JsonValue::Text(s), Vec::new()),
        Value::Array(v) => (JsonValue::List, v.into_iter().map(|x| (None, x)).collect()),
        Value::Object(m) => (JsonValue::Object, m.into_iter().map(|(k, x)| (Some(k), x)).collect()),
    }
}

/// The variants of `Value`, out of what is to be right in the value.
/// `Number::from_i128` takes every whole number of 64 bits, and an object keeps the
/// order in which it got its keys.
#[verifier::external_body]
fn put_together(value: JsonValue, inner: Vec<(Option<String>, Value)>) -> (r: Value)
    requires
        can_hold(value@, all_under(inner@)),
    ensures
        json_held(r) == together(value@, inner@),
{
    let inner = inner.into_iter();
    match value {
        JsonValue::Null | JsonValue::Other => Value::Null,
        JsonValue::Bool(b) => Value::Bool(b),
        JsonValue::Number(n) => Number::from_i128(n).map_or(Value::Null, Value::Number),
        JsonValue::Text(s) => Value::String(s),
        JsonValue::List => Value::Array(inner.map(|x| x.1).collect()),
        JsonValue::Object => inner.map(|x| (x.0.unwrap_or_default(), x.1)).collect(),
    }
}

// ---------------------------------------------------------------------------
// JSON values
// ---------------------------------------------------------------------------

/// A JSON value with all that is in it, and the key that it stands under.
pub struct Json {
    pub key: Option<String>,
    pub value: JsonValue,
    pub inner: Vec<Json>,
}

impl Json {
    /// The mathematical content of the value.
    pub open spec fn model(self) -> JsonModel
        decreases self,
    {
        TreeModel {
            item: NodeModel { key: key_view(self.key), value: self.value@ },
            inner: Seq::new(
                self.inner@.len(),
                |i: int|
                    if 0 <= i < self.inner@.len() {
                        self.inner@[i].model()
                    } else {
                        arbitrary()
                    },
            ),
        }
    }
}

/// The mathematical content of values.
pub open spec fn models(v: Seq<Json>) -> Seq<JsonModel> {
    Seq::new(v.len(), |i: int| v[i].model())
}

fn copy_key(key: &Option<String>) -> (k: Option<String>)
    ensures
        key_view(k) == key_view(*key),
{
    match key {
        Some(k) => Some(text::copy(k.as_str())),
        None => None,
    }
}

fn copy_value(value: &JsonValue) -> (v: JsonValue)
    ensures
        v@ == value@,
{
    match value {
        JsonValue::Null => JsonValue::Null,
        JsonValue::Bool(b) => JsonValue::Bool(*b),
        JsonValue::Number(n) => JsonValue::Number(*n),
        JsonValue::Text(s) => JsonValue::Text(text::copy(s.as_str())),
        JsonValue::Other => JsonValue::Other,
        JsonValue::List => JsonValue::List,
        JsonValue::Object => JsonValue::Object,
    }
}

/// The values the other way round.
fn turned<T>(values: Vec<T>) -> (r: Vec<T>)
    ensures
        r@ == values@.reverse(),
{
    let mut left = values;
    let mut out: Vec<T> = Vec::new();
    while left.len() > 0
        invariant
            out@ == values@.subrange(left@.len() as int, values@.len() as int).reverse(),
            left@ == values@.subrange(0, left@.len() as int),
            left@.len() <= values@.len(),
        decreases left.len(),
    {
        let ghost n = left@.len();
        let ghost before = out@;
        match left.pop() {
            Some(x) => {
                out.push(x);
                assert(x == values@[n - 1]);
                assert(left@ =~= values@.subrange(0, n - 1));
                assert(out@ =~= values@.subrange(n - 1, values@.len() as int).reverse());
            },
            None => {},
        }
    }
    assert(values@.subrange(0, values@.len() as int) =~= values@);
    out
}

/// What a value of `serde_json` holds, under a key.
fn grow(key: Option<String>, value: Value) -> (j: Json)
    ensures
        j.model() == under(key_view(key), json_held(value)),
        json_held(value).item.key is None,
    decreases json_held(value).inner,
{
    let ghost t = json_held(value);
    let (what, parts) = take_apart(value);
    let ghost all = parts@;
    let mut left = turned(parts);
    let mut inner: Vec<Json> = Vec::new();
    assert(all.subrange(0, all.len() as int) =~= all);
    while left.len() > 0
        invariant
            left@ == all.subrange(inner@.len() as int, all.len() as int).reverse(),
            inner@.len() <= all.len(),
            t.inner == all_under(all),
            models(inner@) == t.inner.subrange(0, inner@.len() as int),
            t == json_held(value),
        decreases left.len(),
    {
        let ghost k = inner@.len() as int;
        let ghost before = inner@;
        match left.pop() {
            Some((name, x)) => {
                assert((name, x) == all[k]);
                assert(t.inner[k] == under(key_view(name), json_held(x)));
                assert(decreases_to!(t.inner => t.inner[k]));
                assert(decreases_to!(t.inner[k] => t.inner[k].inner));
                assert(t.inner[k].inner == json_held(x).inner);
                let j = grow(name, x);
                inner.push(j);
                assert(models(inner@) =~= models(before).push(t.inner[k]));
                assert(t.inner.subrange(0, k + 1) =~= t.inner.subrange(0, k).push(t.inner[k]));
                assert(left@ =~= all.subrange(k + 1, all.len() as int).reverse());
            },
            None => {},
        }
    }
    assert(t.inner.subrange(0, all.len() as int) =~= t.inner);
    let j = Json { key, value: what, inner };
    assert(j.model().inner =~= models(j.inner@));
    j
}

impl Json {
    /// The value as `serde_json` has it.
    fn to_value(&self, Ghost(room): Ghost<int>) -> (v: Value)
        requires
            storable(self.model(), room),
        ensures
            json_held(v) == under(None, self.model()),
        decreases self,
    {
        let ghost t = self.model();
        let mut parts: Vec<(Option<String>, Value)> = Vec::new();
        let mut i: usize = 0;
        while i < self.inner.len()
            invariant
                i <= self.inner.len(),
                t == self.model(),
                storable(t, room),
                all_under(parts@) == t.inner.subrange(0, i as int),
            decreases self.inner.len() - i,
        {
            let ghost before = parts@;
            let ghost c = t.inner[i as int];
            assert(c == self.inner@[i as int].model());
            assert(storable(c, room - 1));
            let v = self.inner[i].to_value(Ghost(room - 1));
            let key = copy_key(&self.inner[i].key);
            parts.push((key, v));
            assert(under(key_view(key), json_held(v)) =~= c);
            assert(all_under(parts@) =~= all_under(before).push(c));
            assert(t.inner.subrange(0, i + 1) =~= t.inner.subrange(0, i as int).push(c));
            i += 1;
        }
        assert(t.inner.subrange(0, i as int) =~= t.inner);
        let v = put_together(copy_value(&self.value), parts);
        assert(json_held(v) =~= under(None, t));
        v
    }

    /// The value under another key.
    pub fn copied(&self, key: Option<String>) -> (j: Json)
        ensures
            j.model() == under(key_view(key), self.model()),
        decreases self,
    {
        let ghost t = self.model();
        let mut inner: Vec<Json> = Vec::new();
        let mut i: usize = 0;
        while i < self.inner.len()
            invariant
                i <= self.inner.len(),
                t == self.model(),
                models(inner@) == t.inner.subrange(0, i as int),
            decreases self.inner.len() - i,
        {
            let ghost before = inner@;
            let ghost c = t.inner[i as int];
            assert(c == self.inner@[i as int].model());
            let j = self.inner[i].copied(copy_key(&self.inner[i].key));
            inner.push(j);
            assert(j.model() =~= c);
            assert(models(inner@) =~= models(before).push(c));
            assert(t.inner.subrange(0, i + 1) =~= t.inner.subrange(0, i as int).push(c));
            i += 1;
        }
        assert(t.inner.subrange(0, i as int) =~= t.inner);
        let j = Json { key, value: copy_value(&self.value), inner };
        assert(j.model().inner =~= models(j.inner@));
        j
    }

    /// The JSON text of the value.
    pub fn to_text(&self) -> (text: String)
        requires
            self.model().item.key is None,
            storable(self.model(), MOST_LEVELS as int),
        ensures
            utf8(text@) == json_stored(self.model()),
            json_parsed(utf8(text@)) == Some(self.model()),
    {
        let v = self.to_value(Ghost(MOST_LEVELS as int));
        assert(json_held(v) =~= self.model());
        write_json(&v)
    }

    /// The value that a text spells, where it is JSON. Of a key that an object repeats,
    /// `serde_json` keeps the last value, so that no repetition is left to be seen.
    pub fn parse(text: &str) -> (json: Option<Json>)
        ensures
            (match json {
                Some(j) => Some(j.model()),
                None => None,
            }) == json_parsed(utf8(text@)),
    {
        match read_json(text) {
            Some(v) => Some(grow(None, v)),
            None => None,
        }
    }
}

} // verus!
