//! JSON and YAML text to and from `JsonValue`, by `serde_json` and
//! `serde_yaml`. What these crates compute is named here, not restated:
//! each wrapper's contract says that its result is the named result of its
//! arguments.
use vstd::prelude::*;
use crate::json::{JsonTree, JsonValue, KeyedMap, record};

verus! {

#[verifier::external_type_specification]
#[verifier::external_body]
pub struct ExSerdeJsonValue(serde_json::Value);

/// An optional value, by its tree.
pub open spec fn opt_tree(r: Option<JsonValue>) -> Option<JsonTree> {
    match r {
        Some(v) => Some(v.tree()),
        None => None,
    }
}

/// An optional byte buffer, by its bytes.
pub open spec fn opt_bytes(r: Option<Vec<u8>>) -> Option<Seq<u8>> {
    match r {
        Some(b) => Some(b@),
        None => None,
    }
}

/// What `serde_json::from_slice::<serde_json::Value>` reads from bytes
/// (`None` where it fails).
pub uninterp spec fn json_bytes_value(bytes: Seq<u8>) -> Option<JsonTree>;

/// What `serde_json::from_str::<serde_json::Value>` reads from text.
pub uninterp spec fn json_text_value(text: Seq<char>) -> Option<JsonTree>;

/// What `serde_yaml::from_str::<serde_json::Value>` reads from text, or the
/// text of its error.
pub uninterp spec fn yaml_text_value(text: Seq<char>) -> Result<JsonTree, Seq<char>>;

/// What `serde_json::to_vec` writes for a value (`None` where it fails).
pub uninterp spec fn json_bytes_of(value: JsonTree) -> Option<Seq<u8>>;

/// A JSON value as `serde_json` hands it over: an object as its members,
/// in the order `serde_json` walks them.
pub enum RawJson {
    Null,
    Bool(bool),
    Number(String),
    String(String),
    Array(Vec<RawJson>),
    Object(Vec<(String, RawJson)>),
}

/// The trees of a sequence of raw values.
pub closed spec fn raw_trees(s: Seq<RawJson>) -> Seq<JsonTree>
    decreases s,
{
    if s.len() == 0 {
        Seq::empty()
    } else {
        raw_trees(s.drop_last()).push(s.last().raw_tree())
    }
}

/// The record that raw members stand for (a later member of a name
/// overriding an earlier one, as a map insert does).
pub closed spec fn raw_record(s: Seq<(String, RawJson)>) -> Map<Seq<char>, JsonTree>
    decreases s,
{
    if s.len() == 0 {
        Map::empty()
    } else {
        raw_record(s.drop_last()).insert(s.last().0@, s.last().1.raw_tree())
    }
}

impl RawJson {
    /// The tree a raw value stands for.
    pub closed spec fn raw_tree(self) -> JsonTree
        decreases self,
    {
        match self {
            RawJson::Null => JsonTree::Null,
            RawJson::Bool(b) => JsonTree::Bool(b),
            RawJson::Number(n) => JsonTree::Number(n@),
            RawJson::String(s) => JsonTree::Text(s@),
            RawJson::Array(a) => JsonTree::List(raw_trees(a@)),
            RawJson::Object(o) => JsonTree::Record(raw_record(o@)),
        }
    }
}

/// An optional raw value, by its tree.
pub open spec fn opt_raw_tree(r: Option<RawJson>) -> Option<JsonTree> {
    match r {
        Some(v) => Some(v.raw_tree()),
        None => None,
    }
}

proof fn lemma_raw_trees(s: Seq<RawJson>)
    ensures
        raw_trees(s).len() == s.len(),
        forall|i: int| 0 <= i < s.len() ==> #[trigger] raw_trees(s)[i] == s[i].raw_tree(),
    decreases s.len(),
{
    if s.len() > 0 {
        lemma_raw_trees(s.drop_last());
        assert forall|i: int| 0 <= i < s.len() implies #[trigger] raw_trees(s)[i] == s[i].raw_tree() by {
            if i < s.len() - 1 {
                assert(s.drop_last()[i] == s[i]);
            }
        }
    }
}

/// The `JsonValue` of a raw value: the same tree, each object's members
/// put into a `KeyedMap` one by one.
pub fn json_of_raw(r: &RawJson) -> (v: JsonValue)
    ensures
        v.tree() == r.raw_tree(),
    decreases r,
{
    match r {
        RawJson::Null => {
            proof { crate::json::lemma_tree(JsonValue::Null); }
            JsonValue::Null
        },
        RawJson::Bool(b) => {
            proof { crate::json::lemma_tree(JsonValue::Bool(*b)); }
            JsonValue::Bool(*b)
        },
        RawJson::Number(n) => {
            let v = JsonValue::Number(n.clone());
            proof { crate::json::lemma_tree(v); }
            v
        },
        RawJson::String(t) => {
            let v = JsonValue::String(t.clone());
            proof { crate::json::lemma_tree(v); }
            v
        },
        RawJson::Array(a) => {
            let mut out: Vec<JsonValue> = Vec::new();
            let mut i: usize = 0;
            while i < a.len()
                invariant
                    i <= a.len(),
                    *r == RawJson::Array(*a),
                    out@.len() == i,
                    forall|j: int| 0 <= j < i ==> #[trigger] out@[j].tree() == a@[j].raw_tree(),
                decreases a.len() - i,
            {
                proof {
                    let x = *r;
                    assert(decreases_to!(x => x->Array_0));
                    assert(decreases_to!(x->Array_0 => (x->Array_0)@));
                    assert(decreases_to!((x->Array_0)@ => (x->Array_0)@[i as int]));
                    assert(decreases_to!(x => a@[i as int]));
                }
                out.push(json_of_raw(&a[i]));
                i += 1;
            }
            let v = JsonValue::Array(out);
            proof {
                crate::json::lemma_tree(v);
                crate::json::lemma_trees(out@);
                lemma_raw_trees(a@);
                assert(crate::json::trees(out@) =~= raw_trees(a@));
            }
            v
        },
        RawJson::Object(o) => {
            let mut m: KeyedMap<JsonValue> = KeyedMap::new();
            let mut i: usize = 0;
            proof {
                assert(o@.take(0) =~= Seq::<(String, RawJson)>::empty());
                assert(record(m.as_map()) =~= Map::<Seq<char>, JsonTree>::empty());
            }
            while i < o.len()
                invariant
                    i <= o.len(),
                    *r == RawJson::Object(*o),
                    record(m.as_map()) == raw_record(o@.take(i as int)),
                decreases o.len() - i,
            {
                proof {
                    let x = *r;
                    let y = x->Object_0;
                    assert(decreases_to!(x => y));
                    assert(decreases_to!(y => y@));
                    assert(decreases_to!(y@ => y@[i as int]));
                    assert(decreases_to!(y@[i as int] => y@[i as int].1));
                    assert(decreases_to!(x => o@[i as int].1));
                }
                let ghost before = m.as_map();
                let k = o[i].0.clone();
                let v = json_of_raw(&o[i].1);
                m.insert(k, v);
                proof {
                    assert(o@.take(i + 1).drop_last() =~= o@.take(i as int));
                    assert(o@.take(i + 1).last() == o@[i as int]);
                    assert(record(m.as_map()) =~= record(before).insert(o@[i as int].0@, o@[i as int].1.raw_tree()));
                }
                i += 1;
            }
            proof {
                assert(o@.take(o@.len() as int) =~= o@);
            }
            let v = JsonValue::Object(m);
            proof { crate::json::lemma_tree(v); }
            v
        },
    }
}

/// Moves a `serde_json::Value` into a `RawJson`, variant for variant; a
/// number keeps the text `serde_json` prints for it, an object its members
/// in the order `serde_json` walks them. Only the wrappers of this module
/// call it, and nothing is claimed of it on its own.
#[verifier::external_body]
fn value_from_serde(v: serde_json::Value) -> RawJson {
    match v {
        serde_json::Value::Null => RawJson::Null,
        serde_json::Value::Bool(b) => RawJson::Bool(b),
        serde_json::Value::Number(n) => RawJson::Number(n.to_string()),
        serde_json::Value::String(s) => RawJson::String(s),
        serde_json::Value::Array(a) => RawJson::Array(a.into_iter().map(value_from_serde).collect()),
        serde_json::Value::Object(o) => RawJson::Object(o.into_iter().map(|(k, x)| (k, value_from_serde(x))).collect()),
    }
}

/// Copies a `JsonValue` into a `serde_json::Value`, variant for variant; a
/// number is read back with `serde_json::Number`'s `FromStr` (text it does
/// not take goes out as a string). Only the wrappers of this module call
/// it, and nothing is claimed of it on its own.
#[verifier::external_body]
fn value_to_serde(v: &JsonValue) -> serde_json::Value {
    match v {
        JsonValue::Null => serde_json::Value::Null,
        JsonValue::Bool(b) => serde_json::Value::Bool(*b),
        JsonValue::Number(n) => match n.parse::<serde_json::Number>() {
            Ok(x) => serde_json::Value::Number(x),
            Err(_) => serde_json::Value::String(n.clone()),
        },
        JsonValue::String(s) => serde_json::Value::String(s.clone()),
        JsonValue::Array(a) => serde_json::Value::Array(a.iter().map(value_to_serde).collect()),
        JsonValue::Object(m) => serde_json::Value::Object(m.entries.iter().map(|e| (e.0.clone(), value_to_serde(&e.1))).collect()),
    }
}

/// `serde_json::from_slice::<serde_json::Value>`: the value read from
/// `bytes`, or `None` where they are not JSON.
#[verifier::external_body]
fn read_json_bytes(bytes: &[u8]) -> (r: Option<RawJson>)
    ensures
        opt_raw_tree(r) == json_bytes_value(bytes@),
{
    match serde_json::from_slice::<serde_json::Value>(bytes) {
        Ok(v) => Some(value_from_serde(v)),
        Err(_) => None,
    }
}

/// `serde_json::from_str::<serde_json::Value>`: the value read from
/// `text`, or `None` where it is not JSON.
#[verifier::external_body]
fn read_json_text(text: &str) -> (r: Option<RawJson>)
    ensures
        opt_raw_tree(r) == json_text_value(text@),
{
    match serde_json::from_str::<serde_json::Value>(text) {
        Ok(v) => Some(value_from_serde(v)),
        Err(_) => None,
    }
}

/// `serde_yaml::from_str::<serde_json::Value>`: the value read from
/// `text`, or the text of the error.
#[verifier::external_body]
fn read_yaml_text(text: &str) -> (r: Result<RawJson, String>)
    ensures
        match r {
            Ok(v) => yaml_text_value(text@) == Ok::<JsonTree, Seq<char>>(v.raw_tree()),
            Err(e) => yaml_text_value(text@) == Err::<JsonTree, Seq<char>>(e@),
        },
{
    match serde_yaml::from_str::<serde_json::Value>(text) {
        Ok(v) => Ok(value_from_serde(v)),
        Err(e) => Err(e.to_string()),
    }
}

/// JSON bytes read into a value, or `None` where they are not JSON.
pub(crate) fn parse_json_bytes(bytes: &[u8]) -> (r: Option<JsonValue>)
    ensures
        opt_tree(r) == json_bytes_value(bytes@),
{
    match read_json_bytes(bytes) {
        Some(raw) => Some(json_of_raw(&raw)),
        None => None,
    }
}

/// JSON text read into a value, or `None` where it is not JSON.
pub(crate) fn parse_json_text(text: &str) -> (r: Option<JsonValue>)
    ensures
        opt_tree(r) == json_text_value(text@),
{
    match read_json_text(text) {
        Some(raw) => Some(json_of_raw(&raw)),
        None => None,
    }
}

/// YAML text read into a value, or the text of the error.
pub(crate) fn parse_yaml_text(text: &str) -> (r: Result<JsonValue, String>)
    ensures
        match r {
            Ok(v) => yaml_text_value(text@) == Ok::<JsonTree, Seq<char>>(v.tree()),
            Err(e) => yaml_text_value(text@) == Err::<JsonTree, Seq<char>>(e@),
        },
{
    match read_yaml_text(text) {
        Ok(raw) => Ok(json_of_raw(&raw)),
        Err(e) => Err(e),
    }
}

/// `serde_json::to_vec`: the JSON text of a value, or `None` where it fails.
#[verifier::external_body]
pub(crate) fn write_json_bytes(v: &JsonValue) -> (r: Option<Vec<u8>>)
    ensures
        opt_bytes(r) == json_bytes_of(v.tree()),
{
    match serde_json::to_vec(&value_to_serde(v)) {
        Ok(b) => Some(b),
        Err(_) => None,
    }
}

} // verus!
