//! Parses OpenAPI 2.0 (Swagger) and OpenAPI 3.x documents (JSON or YAML)
//! into the normalized [`ApiSpec`] model.
//!
//! The documents are read as plain JSON values: Swagger 2.0 and OpenAPI 3.x
//! differ in shape (`definitions` vs `components.schemas`, `basePath` vs
//! `servers`, ...), and only a small subset matters here (paths,
//! operations, parameters, schemas). What each function extracts is stated
//! over the document's tree; objects are walked in key order.
use vstd::prelude::*;
use crate::codec::{json_text_value, yaml_text_value, parse_json_text, parse_yaml_text};
use crate::diff::schemas::opt_view;
use crate::error::{ErrorView, ShotgunError};
use crate::json::{JsonTree, JsonValue, KeyedMap, record_entries, tree_entries, lemma_record_entries,
    lemma_map_has_key, lemma_map_at, lemma_sorted_distinct, opt_val, group_json_tree};
use crate::spec::model::{ApiSpec, ApiSpecView, Body, BodyView, Endpoint, EndpointView, Field, FieldType, FieldView, HttpMethod, Operation, OperationView, ParamLocation, ParamView, Parameter, Schema, SchemaView, endpoint_views, field_views, method_of, opt_body_view, param_views, type_debug_name};
use crate::search::{first_index, lemma_first_found, lemma_first_none};
use crate::text::{lower, ends_with, is_suffix, owned, append_str, str_eq, strip_prefix, strip_prefix_owned, chars_of, string_of};

verus! {

broadcast use group_json_tree;

// ---------------------------------------------------------------------
// Reading a document
// ---------------------------------------------------------------------

/// A borrowed value that may be absent, by its tree.
pub open spec fn tree_of(r: Option<&JsonValue>) -> Option<JsonTree> {
    match r {
        Some(v) => Some(v.tree()),
        None => None,
    }
}

/// Member `k` of an object (`Value::get` with a string key).
pub open spec fn at(t: Option<JsonTree>, k: Seq<char>) -> Option<JsonTree> {
    match t {
        Some(JsonTree::Record(m)) => if m.contains_key(k) { Some(m[k]) } else { None },
        _ => None,
    }
}

/// The text of a string value (`Value::as_str`).
pub open spec fn text_at(t: Option<JsonTree>) -> Option<Seq<char>> {
    match t {
        Some(JsonTree::Text(s)) => Some(s),
        _ => None,
    }
}

/// The truth value of a boolean (`Value::as_bool`).
pub open spec fn flag_at(t: Option<JsonTree>) -> Option<bool> {
    match t {
        Some(JsonTree::Bool(b)) => Some(b),
        _ => None,
    }
}

/// The elements of an array (`Value::as_array`).
pub open spec fn list_at(t: Option<JsonTree>) -> Option<Seq<JsonTree>> {
    match t {
        Some(JsonTree::List(s)) => Some(s),
        _ => None,
    }
}

/// The entries of an object in key order (`Value::as_object`).
pub open spec fn record_at(t: Option<JsonTree>) -> Option<Seq<(Seq<char>, JsonTree)>> {
    match t {
        Some(JsonTree::Record(m)) => Some(record_entries(m)),
        _ => None,
    }
}

/// The pointer step `0`: the first element of an array, or member `"0"`.
pub open spec fn first_at(t: Option<JsonTree>) -> Option<JsonTree> {
    match t {
        Some(JsonTree::List(s)) => if s.len() > 0 { Some(s[0]) } else { None },
        Some(JsonTree::Record(m)) => if m.contains_key("0"@) { Some(m["0"@]) } else { None },
        _ => None,
    }
}

pub open spec fn text_or_empty(t: Option<Seq<char>>) -> Seq<char> {
    match t {
        Some(s) => s,
        None => Seq::empty(),
    }
}

fn member<'a>(v: Option<&'a JsonValue>, k: &str) -> (r: Option<&'a JsonValue>)
    ensures
        tree_of(r) == at(tree_of(v), k@),
{
    match v {
        Some(x) => {
            x.get(k)
        },
        None => None,
    }
}

fn text<'a>(v: Option<&'a JsonValue>) -> (r: Option<&'a str>)
    ensures
        match r {
            Some(s) => text_at(tree_of(v)) == Some(s@),
            None => text_at(tree_of(v)) is None,
        },
{
    match v {
        Some(x) => x.as_str(),
        None => None,
    }
}

fn text_owned(v: Option<&JsonValue>) -> (r: Option<String>)
    ensures
        opt_view(r) == text_at(tree_of(v)),
{
    match text(v) {
        Some(s) => Some(owned(s)),
        None => None,
    }
}

fn text_or_default(v: Option<&JsonValue>) -> (r: String)
    ensures
        r@ == text_or_empty(text_at(tree_of(v))),
{
    match text(v) {
        Some(s) => owned(s),
        None => String::new(),
    }
}

fn text_is(v: Option<&JsonValue>, w: &str) -> (b: bool)
    ensures
        b == (text_at(tree_of(v)) == Some(w@)),
{
    match text(v) {
        Some(s) => str_eq(s, w),
        None => false,
    }
}

fn flag(v: Option<&JsonValue>) -> (r: Option<bool>)
    ensures
        r == flag_at(tree_of(v)),
{
    match v {
        Some(x) => x.as_bool(),
        None => None,
    }
}

fn first<'a>(v: Option<&'a JsonValue>) -> (r: Option<&'a JsonValue>)
    ensures
        tree_of(r) == first_at(tree_of(v)),
{
    match v {
        Some(JsonValue::Array(a)) => {
            proof {
                crate::json::lemma_trees(a@);
            }
            if a.len() > 0 {
                Some(&a[0])
            } else {
                None
            }
        },
        Some(x) => member(Some(x), "0"),
        None => None,
    }
}

/// The entries of an object value, with what the caller needs to walk them
/// in key order.
fn object<'a>(v: Option<&'a JsonValue>) -> (r: Option<&'a KeyedMap<JsonValue>>)
    ensures
        match r {
            Some(m) => record_at(tree_of(v)) == Some(tree_entries(m@)) && crate::json::keys_sorted(m@)
                && tree_of(v) == Some(JsonTree::Record(crate::json::record(m.as_map()))),
            None => record_at(tree_of(v)) is None,
        },
{
    match v {
        Some(x) => match x.as_object() {
            Some(m) => {
                proof {
                    use_type_invariant(m);
                    lemma_record_entries(*m);
                }
                Some(m)
            },
            None => None,
        },
        None => None,
    }
}

fn array<'a>(v: Option<&'a JsonValue>) -> (r: Option<&'a Vec<JsonValue>>)
    ensures
        match r {
            Some(a) => list_at(tree_of(v)) == Some(crate::json::trees(a@)),
            None => list_at(tree_of(v)) is None,
        },
{
    match v {
        Some(x) => x.as_array(),
        None => None,
    }
}

// ---------------------------------------------------------------------
// Fields and bodies
// ---------------------------------------------------------------------

/// The type a schema `type` string names.
pub open spec fn field_type_of(s: Seq<char>) -> FieldType {
    if s == "string"@ {
        FieldType::String
    } else if s == "integer"@ {
        FieldType::Integer
    } else if s == "number"@ {
        FieldType::Number
    } else if s == "boolean"@ {
        FieldType::Boolean
    } else if s == "array"@ {
        FieldType::Array
    } else if s == "object"@ {
        FieldType::Object
    } else {
        FieldType::Unknown
    }
}

proof fn lemma_lower_name(upper: Seq<char>, name: Seq<char>)
    requires
        upper.len() == name.len(),
        upper.len() > 0,
        'A' <= upper[0] <= 'Z',
        name[0] == ((upper[0] as u32) + 32) as char,
        forall|i: int| 1 <= i < upper.len() ==> upper[i] == name[i] && !('A' <= #[trigger] upper[i] <= 'Z'),
    ensures
        lower(upper) == name,
{
    assert(lower(upper) =~= name);
}

/// A schema `type` string reads as the type of that name: every type
/// other than `Unknown` is read from its own name (its `{:?}` name in
/// lower case), and a string that reads as such a type is that name.
pub proof fn lemma_type_names(s: Seq<char>, t: FieldType)
    ensures
        field_type_of(s) != FieldType::Unknown ==> lower(type_debug_name(field_type_of(s))) == s,
        t != FieldType::Unknown ==> field_type_of(lower(type_debug_name(t))) == t,
{
    reveal_strlit("String");
    reveal_strlit("Integer");
    reveal_strlit("Number");
    reveal_strlit("Boolean");
    reveal_strlit("Array");
    reveal_strlit("Object");
    reveal_strlit("string");
    reveal_strlit("integer");
    reveal_strlit("number");
    reveal_strlit("boolean");
    reveal_strlit("array");
    reveal_strlit("object");
    lemma_lower_name("String"@, "string"@);
    lemma_lower_name("Integer"@, "integer"@);
    lemma_lower_name("Number"@, "number"@);
    lemma_lower_name("Boolean"@, "boolean"@);
    lemma_lower_name("Array"@, "array"@);
    lemma_lower_name("Object"@, "object"@);
    // the six names differ from one another in their first letters
    assert("string"@[0] != "integer"@[0] && "string"@[0] != "number"@[0] && "string"@[0] != "boolean"@[0]
        && "string"@[0] != "array"@[0] && "string"@[0] != "object"@[0]);
    assert("integer"@[0] != "number"@[0] && "integer"@[0] != "boolean"@[0] && "integer"@[0] != "array"@[0]
        && "integer"@[0] != "object"@[0]);
    assert("number"@[0] != "boolean"@[0] && "number"@[0] != "array"@[0] && "number"@[0] != "object"@[0]);
    assert("boolean"@[0] != "array"@[0] && "boolean"@[0] != "object"@[0]);
    assert("array"@[0] != "object"@[0]);
}

pub open spec fn opt_type_of(s: Option<Seq<char>>) -> Option<FieldType> {
    match s {
        Some(s) => Some(field_type_of(s)),
        None => None,
    }
}

pub open spec fn type_or_unknown(s: Option<Seq<char>>) -> FieldType {
    match s {
        Some(s) => field_type_of(s),
        None => FieldType::Unknown,
    }
}

pub open spec fn swagger2_ref(r: Seq<char>) -> Option<Seq<char>> {
    strip_prefix("#/definitions/"@, r)
}

pub open spec fn openapi3_ref(r: Seq<char>) -> Option<Seq<char>> {
    strip_prefix("#/components/schemas/"@, r)
}

/// A `$ref` in either dialect.
pub open spec fn any_ref(r: Seq<char>) -> Option<Seq<char>> {
    match openapi3_ref(r) {
        Some(n) => Some(n),
        None => swagger2_ref(r),
    }
}

pub open spec fn dialect_ref(r: Seq<char>, v3: bool) -> Option<Seq<char>> {
    if v3 {
        openapi3_ref(r)
    } else {
        swagger2_ref(r)
    }
}

/// The field a property schema describes.
pub open spec fn field_of_property(name: Seq<char>, prop: JsonTree) -> FieldView {
    match text_at(at(Some(prop), "$ref"@)) {
        Some(r) => FieldView { name, ty: FieldType::Object, schema_ref: any_ref(r), item_ty: None, item_schema_ref: None },
        None => {
            let ty = type_or_unknown(text_at(at(Some(prop), "type"@)));
            let items = at(Some(prop), "items"@);
            if ty == FieldType::Array && items is Some {
                match text_at(at(items, "$ref"@)) {
                    Some(r) => FieldView {
                        name,
                        ty,
                        schema_ref: None,
                        item_ty: Some(FieldType::Object),
                        item_schema_ref: any_ref(r),
                    },
                    None => FieldView {
                        name,
                        ty,
                        schema_ref: None,
                        item_ty: opt_type_of(text_at(at(items, "type"@))),
                        item_schema_ref: None,
                    },
                }
            } else {
                FieldView { name, ty, schema_ref: None, item_ty: None, item_schema_ref: None }
            }
        },
    }
}

/// A property's field keeps its name and is consistently typed: a schema
/// reference only on an object, item details only on an array, and an
/// item schema reference only with object items.
pub proof fn lemma_field_shape(name: Seq<char>, prop: JsonTree)
    ensures
        ({
            let f = field_of_property(name, prop);
            &&& f.name == name
            &&& f.schema_ref is Some ==> f.ty == FieldType::Object
            &&& f.item_ty is Some || f.item_schema_ref is Some ==> f.ty == FieldType::Array
            &&& f.item_schema_ref is Some ==> f.item_ty == Some(FieldType::Object)
        }),
{
}

/// The fields an inline object schema lists under `properties`, in key order.
pub open spec fn fields_of_schema(schema: JsonTree) -> Seq<FieldView> {
    match record_at(at(Some(schema), "properties"@)) {
        Some(es) => es.map_values(|e: (Seq<char>, JsonTree)| field_of_property(e.0, e.1)),
        None => Seq::empty(),
    }
}

/// The body a request/response schema describes.
pub open spec fn body_of(schema: JsonTree, v3: bool) -> BodyView {
    match text_at(at(Some(schema), "$ref"@)) {
        Some(r) => BodyView { fields: Seq::empty(), schema_ref: dialect_ref(r, v3), is_array: false },
        None => {
            let items = at(Some(schema), "items"@);
            if text_at(at(Some(schema), "type"@)) == Some("array"@) && items is Some {
                match text_at(at(items, "$ref"@)) {
                    Some(r) => BodyView { fields: Seq::empty(), schema_ref: dialect_ref(r, v3), is_array: true },
                    None => BodyView { fields: fields_of_schema(items->0), schema_ref: None, is_array: true },
                }
            } else {
                BodyView { fields: fields_of_schema(schema), schema_ref: None, is_array: false }
            }
        },
    }
}

pub open spec fn opt_body_of(schema: Option<JsonTree>, v3: bool) -> Option<BodyView> {
    match schema {
        Some(s) => Some(body_of(s, v3)),
        None => None,
    }
}

fn field_type_from_str(s: &str) -> (t: FieldType)
    ensures
        t == field_type_of(s@),
{
    if str_eq(s, "string") {
        FieldType::String
    } else if str_eq(s, "integer") {
        FieldType::Integer
    } else if str_eq(s, "number") {
        FieldType::Number
    } else if str_eq(s, "boolean") {
        FieldType::Boolean
    } else if str_eq(s, "array") {
        FieldType::Array
    } else if str_eq(s, "object") {
        FieldType::Object
    } else {
        FieldType::Unknown
    }
}

fn opt_type(s: Option<&str>) -> (t: Option<FieldType>)
    ensures
        t == (match s {
            Some(x) => Some(field_type_of(x@)),
            None => None::<FieldType>,
        }),
{
    match s {
        Some(x) => Some(field_type_from_str(x)),
        None => None,
    }
}

fn resolve_swagger2_ref(r: &str) -> (n: Option<String>)
    ensures
        opt_view(n) == swagger2_ref(r@),
{
    strip_prefix_owned(r, "#/definitions/")
}

fn resolve_openapi3_ref(r: &str) -> (n: Option<String>)
    ensures
        opt_view(n) == openapi3_ref(r@),
{
    strip_prefix_owned(r, "#/components/schemas/")
}

fn resolve_any_ref(r: &str) -> (n: Option<String>)
    ensures
        opt_view(n) == any_ref(r@),
{
    match resolve_openapi3_ref(r) {
        Some(n) => Some(n),
        None => resolve_swagger2_ref(r),
    }
}

fn resolve_dialect_ref(r: &str, v3: bool) -> (n: Option<String>)
    ensures
        opt_view(n) == dialect_ref(r@, v3),
{
    if v3 {
        resolve_openapi3_ref(r)
    } else {
        resolve_swagger2_ref(r)
    }
}

fn field_from_property(name: &str, prop: &JsonValue) -> (f: Field)
    ensures
        f@ == field_of_property(name@, prop.tree()),
{
    let p = Some(prop);
    if let Some(r) = text(member(p, "$ref")) {
        return Field {
            name: owned(name),
            ty: FieldType::Object,
            schema_ref: resolve_any_ref(r),
            item_ty: None,
            item_schema_ref: None,
        };
    }
    let ty = match text(member(p, "type")) {
        Some(s) => field_type_from_str(s),
        None => FieldType::Unknown,
    };
    if ty == FieldType::Array {
        let items = member(p, "items");
        if items.is_some() {
            if let Some(r) = text(member(items, "$ref")) {
                return Field {
                    name: owned(name),
                    ty,
                    schema_ref: None,
                    item_ty: Some(FieldType::Object),
                    item_schema_ref: resolve_any_ref(r),
                };
            }
            let item_ty = opt_type(text(member(items, "type")));
            return Field { name: owned(name), ty, schema_ref: None, item_ty, item_schema_ref: None };
        }
    }
    Field { name: owned(name), ty, schema_ref: None, item_ty: None, item_schema_ref: None }
}

/// Extract flat fields from an inline object schema (used for both v2 and
/// v3, since `properties`/`type`/`items`/`$ref` are shaped the same way).
fn fields_from_object_schema(schema: &JsonValue) -> (r: Vec<Field>)
    ensures
        field_views(r@) == fields_of_schema(schema.tree()),
{
    let props = match object(member(Some(schema), "properties")) {
        Some(m) => m,
        None => {
            let r: Vec<Field> = Vec::new();
            assert(field_views(r@) =~= Seq::empty());
            return r;
        },
    };
    let ghost es = tree_entries(props@);
    let mut out: Vec<Field> = Vec::new();
    let mut i: usize = 0;
    while i < props.len()
        invariant
            i <= props@.len(),
            es == tree_entries(props@),
            out@.len() == i,
            forall|j: int| 0 <= j < i ==> (#[trigger] out@[j])@ == field_of_property(es[j].0, es[j].1),
        decreases props@.len() - i,
    {
        let (k, v) = props.entry(i);
        out.push(field_from_property(k.as_str(), v));
        i += 1;
    }
    assert(field_views(out@) =~= es.map_values(|e: (Seq<char>, JsonTree)| field_of_property(e.0, e.1)));
    out
}

fn body_from_schema(schema: &JsonValue, v3: bool) -> (b: Body)
    ensures
        b@ == body_of(schema.tree(), v3),
{
    let s = Some(schema);
    if let Some(r) = text(member(s, "$ref")) {
        let b = Body { fields: Vec::new(), schema_ref: resolve_dialect_ref(r, v3), is_array: false };
        assert(field_views(b.fields@) =~= Seq::empty());
        return b;
    }
    if text_is(member(s, "type"), "array") {
        let items = member(s, "items");
        if let Some(it) = items {
            if let Some(r) = text(member(items, "$ref")) {
                let b = Body { fields: Vec::new(), schema_ref: resolve_dialect_ref(r, v3), is_array: true };
                assert(field_views(b.fields@) =~= Seq::empty());
                return b;
            }
            return Body { fields: fields_from_object_schema(it), schema_ref: None, is_array: true };
        }
    }
    Body { fields: fields_from_object_schema(schema), schema_ref: None, is_array: false }
}

fn body_from_swagger2_schema(schema: &JsonValue) -> (b: Body)
    ensures
        b@ == body_of(schema.tree(), false),
{
    body_from_schema(schema, false)
}

fn body_from_openapi3_schema(schema: &JsonValue) -> (b: Body)
    ensures
        b@ == body_of(schema.tree(), true),
{
    body_from_schema(schema, true)
}

// ---------------------------------------------------------------------
// Responses
// ---------------------------------------------------------------------

/// The first entry from `i` on whose key starts with `2`.
pub open spec fn first_two_hundred(es: Seq<(Seq<char>, JsonTree)>, i: int) -> Option<JsonTree>
    decreases es.len() - i,
{
    if i < 0 || i >= es.len() {
        None
    } else if es[i].0.len() > 0 && es[i].0[0] == '2' {
        Some(es[i].1)
    } else {
        first_two_hundred(es, i + 1)
    }
}

/// The primary success response: `200`, `201`, `202`, `203` or `204`, in
/// that order, else the first `2..` key.
pub open spec fn success_response(responses: JsonTree) -> Option<JsonTree> {
    let r = Some(responses);
    if record_at(r) is None {
        None
    } else if at(r, "200"@) is Some {
        at(r, "200"@)
    } else if at(r, "201"@) is Some {
        at(r, "201"@)
    } else if at(r, "202"@) is Some {
        at(r, "202"@)
    } else if at(r, "203"@) is Some {
        at(r, "203"@)
    } else if at(r, "204"@) is Some {
        at(r, "204"@)
    } else {
        first_two_hundred(record_at(r)->0, 0)
    }
}

/// A Swagger 2.0 response that is a `$ref` into the document's top-level
/// `responses`, followed one level.
pub open spec fn swagger2_response(resp: JsonTree, doc: JsonTree) -> Option<JsonTree> {
    match text_at(at(Some(resp), "$ref"@)) {
        Some(r) => match strip_prefix("#/responses/"@, r) {
            Some(name) => at(at(Some(doc), "responses"@), name),
            None => None,
        },
        None => Some(resp),
    }
}

fn find_success_response(responses: &JsonValue) -> (r: Option<&JsonValue>)
    ensures
        tree_of(r) == success_response(responses.tree()),
{
    let s = Some(responses);
    let obj = match object(s) {
        Some(m) => m,
        None => return None,
    };
    let r = member(s, "200");
    if r.is_some() {
        return r;
    }
    let r = member(s, "201");
    if r.is_some() {
        return r;
    }
    let r = member(s, "202");
    if r.is_some() {
        return r;
    }
    let r = member(s, "203");
    if r.is_some() {
        return r;
    }
    let r = member(s, "204");
    if r.is_some() {
        return r;
    }
    // Fall back to the first 2xx-looking key.
    let ghost es = tree_entries(obj@);
    let mut i: usize = 0;
    while i < obj.len()
        invariant
            i <= obj@.len(),
            es == tree_entries(obj@),
            record_at(Some(responses.tree())) == Some(es),
            success_response(responses.tree()) == first_two_hundred(es, 0),
            first_two_hundred(es, 0) == first_two_hundred(es, i as int),
        decreases obj@.len() - i,
    {
        let (k, v) = obj.entry(i);
        let cs = chars_of(k.as_str());
        assert(es[i as int] == (k@, v.tree()));
        if cs.len() > 0 && cs[0] == '2' {
            return Some(v);
        }
        i += 1;
    }
    None
}

fn resolve_swagger2_response<'a>(resp: &'a JsonValue, doc: &'a JsonValue) -> (r: Option<&'a JsonValue>)
    ensures
        tree_of(r) == swagger2_response(resp.tree(), doc.tree()),
{
    if let Some(r) = text(member(Some(resp), "$ref")) {
        let name = match strip_prefix_owned(r, "#/responses/") {
            Some(n) => n,
            None => return None,
        };
        return member(member(Some(doc), "responses"), name.as_str());
    }
    Some(resp)
}

// ---------------------------------------------------------------------
// Operations
// ---------------------------------------------------------------------

pub open spec fn location_of(loc: Seq<char>) -> Option<ParamLocation> {
    if loc == "path"@ {
        Some(ParamLocation::Path)
    } else if loc == "query"@ {
        Some(ParamLocation::Query)
    } else if loc == "header"@ {
        Some(ParamLocation::Header)
    } else {
        None
    }
}

/// The parameter a Swagger 2.0 `path`/`query`/`header` parameter object
/// describes (`None` for any other location).
pub open spec fn swagger2_param(p: JsonTree) -> Option<ParamView> {
    match location_of(text_or_empty(text_at(at(Some(p), "in"@)))) {
        Some(location) => Some(ParamView {
            name: text_or_empty(text_at(at(Some(p), "name"@))),
            location,
            required: flag_at(at(Some(p), "required"@)) == Some(true),
            ty: type_or_unknown(text_at(at(Some(p), "type"@))),
        }),
        None => None,
    }
}

/// The same for OpenAPI 3.x, where the type sits under `schema`.
pub open spec fn openapi3_param(p: JsonTree) -> Option<ParamView> {
    match location_of(text_or_empty(text_at(at(Some(p), "in"@)))) {
        Some(location) => Some(ParamView {
            name: text_or_empty(text_at(at(Some(p), "name"@))),
            location,
            required: flag_at(at(Some(p), "required"@)) == Some(true),
            ty: type_or_unknown(text_at(at(at(Some(p), "schema"@), "type"@))),
        }),
        None => None,
    }
}

/// The parameters the first `n` parameter objects give.
pub open spec fn params_upto(ps: Seq<JsonTree>, n: int, v3: bool) -> Seq<ParamView>
    decreases n,
{
    if n <= 0 {
        Seq::empty()
    } else {
        let prev = params_upto(ps, n - 1, v3);
        match (if v3 { openapi3_param(ps[n - 1]) } else { swagger2_param(ps[n - 1]) }) {
            Some(p) => prev.push(p),
            None => prev,
        }
    }
}

/// The Swagger 2.0 request body after the first `n` parameter objects:
/// every `body` parameter sets it from its `schema` (the last one wins).
pub open spec fn swagger2_request_upto(ps: Seq<JsonTree>, n: int) -> Option<BodyView>
    decreases n,
{
    if n <= 0 {
        None
    } else if text_or_empty(text_at(at(Some(ps[n - 1]), "in"@))) == "body"@ {
        opt_body_of(at(Some(ps[n - 1]), "schema"@), false)
    } else {
        swagger2_request_upto(ps, n - 1)
    }
}

pub open spec fn param_list(op: JsonTree) -> Seq<JsonTree> {
    match list_at(at(Some(op), "parameters"@)) {
        Some(ps) => ps,
        None => Seq::empty(),
    }
}

pub open spec fn swagger2_operation(op: JsonTree, doc: JsonTree) -> OperationView {
    let ps = param_list(op);
    OperationView {
        operation_id: text_at(at(Some(op), "operationId"@)),
        summary: text_at(at(Some(op), "summary"@)),
        parameters: params_upto(ps, ps.len() as int, false),
        request_body: swagger2_request_upto(ps, ps.len() as int),
        response_body: match at(Some(op), "responses"@) {
            Some(rs) => match success_response(rs) {
                Some(resp) => match swagger2_response(resp, doc) {
                    Some(x) => opt_body_of(at(Some(x), "schema"@), false),
                    None => None,
                },
                None => None,
            },
            None => None,
        },
    }
}

/// `content["application/json"].schema` of a request body or response.
pub open spec fn json_schema_at(t: Option<JsonTree>) -> Option<JsonTree> {
    at(at(at(t, "content"@), "application/json"@), "schema"@)
}

pub open spec fn openapi3_operation(op: JsonTree) -> OperationView {
    let ps = param_list(op);
    let responses = match at(Some(op), "responses"@) {
        Some(rs) => rs,
        None => JsonTree::Null,
    };
    OperationView {
        operation_id: text_at(at(Some(op), "operationId"@)),
        summary: text_at(at(Some(op), "summary"@)),
        parameters: params_upto(ps, ps.len() as int, true),
        request_body: opt_body_of(json_schema_at(at(Some(op), "requestBody"@)), true),
        response_body: opt_body_of(json_schema_at(success_response(responses)), true),
    }
}

fn param_location(loc: &str) -> (l: Option<ParamLocation>)
    ensures
        l == location_of(loc@),
{
    if str_eq(loc, "path") {
        Some(ParamLocation::Path)
    } else if str_eq(loc, "query") {
        Some(ParamLocation::Query)
    } else if str_eq(loc, "header") {
        Some(ParamLocation::Header)
    } else {
        None
    }
}

proof fn lemma_body_is_no_location()
    ensures
        location_of("body"@) is None,
{
    reveal_strlit("body");
    reveal_strlit("path");
    reveal_strlit("query");
    reveal_strlit("header");
    assert("body"@[0] != "path"@[0]);
    assert("body"@.len() != "query"@.len());
    assert("body"@.len() != "header"@.len());
}

/// Reads the parameter objects of an operation; for Swagger 2.0 also the
/// request body that `body` parameters give.
fn parameters_of(op: &JsonValue, v3: bool) -> (r: (Vec<Parameter>, Option<Body>))
    ensures
        param_views(r.0@) == params_upto(param_list(op.tree()), param_list(op.tree()).len() as int, v3),
        !v3 ==> opt_body_view(r.1) == swagger2_request_upto(param_list(op.tree()), param_list(op.tree()).len() as int),
{
    let mut parameters: Vec<Parameter> = Vec::new();
    let mut request_body: Option<Body> = None;
    let params = match array(member(Some(op), "parameters")) {
        Some(a) => a,
        None => {
            assert(param_views(parameters@) =~= Seq::empty());
            return (parameters, request_body);
        },
    };
    let ghost ps = param_list(op.tree());
    proof {
        crate::json::lemma_trees(params@);
    }
    let mut i: usize = 0;
    while i < params.len()
        invariant
            i <= params@.len(),
            ps == crate::json::trees(params@),
            ps.len() == params@.len(),
            forall|j: int| 0 <= j < params@.len() ==> #[trigger] ps[j] == params@[j].tree(),
            param_views(parameters@) == params_upto(ps, i as int, v3),
            !v3 ==> opt_body_view(request_body) == swagger2_request_upto(ps, i as int),
        decreases params@.len() - i,
    {
        let p = Some(&params[i]);
        let loc = text_or_default(member(p, "in"));
        let name = text_or_default(member(p, "name"));
        let ghost old_params = parameters@;
        if !v3 && str_eq(loc.as_str(), "body") {
            request_body = match member(p, "schema") {
                Some(s) => Some(body_from_swagger2_schema(s)),
                None => None,
            };
        } else {
            match param_location(loc.as_str()) {
                Some(location) => {
                    let ty_text = if v3 {
                        text(member(member(p, "schema"), "type"))
                    } else {
                        text(member(p, "type"))
                    };
                    let ty = match ty_text {
                        Some(s) => field_type_from_str(s),
                        None => FieldType::Unknown,
                    };
                    let required = match flag(member(p, "required")) {
                        Some(b) => b,
                        None => false,
                    };
                    parameters.push(Parameter { name, location, required, ty });
                    assert(param_views(parameters@) =~= param_views(old_params).push(parameters@.last()@));
                },
                None => {},
            }
        }
        proof {
            lemma_body_is_no_location();
        }
        i += 1;
    }
    (parameters, request_body)
}

fn parse_swagger2_operation(op: &JsonValue, doc: &JsonValue) -> (o: Operation)
    ensures
        o@ == swagger2_operation(op.tree(), doc.tree()),
{
    let o = Some(op);
    let operation_id = text_owned(member(o, "operationId"));
    let summary = text_owned(member(o, "summary"));
    let (parameters, request_body) = parameters_of(op, false);
    let response_body = match member(o, "responses") {
        Some(responses) => match find_success_response(responses) {
            Some(resp) => match resolve_swagger2_response(resp, doc) {
                Some(x) => match member(Some(x), "schema") {
                    Some(s) => Some(body_from_swagger2_schema(s)),
                    None => None,
                },
                None => None,
            },
            None => None,
        },
        None => None,
    };
    Operation { operation_id, summary, parameters, request_body, response_body }
}

fn json_schema_of<'a>(v: Option<&'a JsonValue>) -> (r: Option<&'a JsonValue>)
    ensures
        tree_of(r) == json_schema_at(tree_of(v)),
{
    member(member(member(v, "content"), "application/json"), "schema")
}

fn parse_openapi3_operation(op: &JsonValue) -> (o: Operation)
    ensures
        o@ == openapi3_operation(op.tree()),
{
    let o = Some(op);
    let operation_id = text_owned(member(o, "operationId"));
    let summary = text_owned(member(o, "summary"));
    let (parameters, _) = parameters_of(op, true);
    let request_body = match json_schema_of(member(o, "requestBody")) {
        Some(s) => Some(body_from_openapi3_schema(s)),
        None => None,
    };
    let null = JsonValue::Null;
    let responses = match member(o, "responses") {
        Some(r) => r,
        None => &null,
    };
    let response_body = match json_schema_of(find_success_response(responses)) {
        Some(s) => Some(body_from_openapi3_schema(s)),
        None => None,
    };
    Operation { operation_id, summary, parameters, request_body, response_body }
}

// ---------------------------------------------------------------------
// Documents
// ---------------------------------------------------------------------

pub open spec fn operation_of(op: JsonTree, doc: JsonTree, v3: bool) -> OperationView {
    if v3 {
        openapi3_operation(op)
    } else {
        swagger2_operation(op, doc)
    }
}

/// The endpoints one path item gives: each key that names a method, in key
/// order.
pub open spec fn item_endpoints(path: Seq<char>, es: Seq<(Seq<char>, JsonTree)>, doc: JsonTree, v3: bool) -> Seq<EndpointView>
    decreases es.len(),
{
    if es.len() == 0 {
        Seq::empty()
    } else {
        let prev = item_endpoints(path, es.drop_last(), doc, v3);
        match method_of(es.last().0) {
            Some(m) => prev.push(EndpointView { path, method: m, operation: operation_of(es.last().1, doc, v3) }),
            None => prev,
        }
    }
}

/// The endpoints of the `paths` entries, path by path in key order; an
/// entry that is not an object gives none.
pub open spec fn paths_endpoints(es: Seq<(Seq<char>, JsonTree)>, doc: JsonTree, v3: bool) -> Seq<EndpointView>
    decreases es.len(),
{
    if es.len() == 0 {
        Seq::empty()
    } else {
        paths_endpoints(es.drop_last(), doc, v3) + match record_at(Some(es.last().1)) {
            Some(item) => item_endpoints(es.last().0, item, doc, v3),
            None => Seq::empty(),
        }
    }
}

pub open spec fn endpoints_of(doc: JsonTree, v3: bool) -> Seq<EndpointView> {
    match record_at(at(Some(doc), "paths"@)) {
        Some(es) => paths_endpoints(es, doc, v3),
        None => Seq::empty(),
    }
}

/// The named schemas of a `definitions` / `components.schemas` object.
pub open spec fn schemas_of(defs: Option<JsonTree>) -> Map<Seq<char>, SchemaView> {
    match defs {
        Some(JsonTree::Record(m)) => Map::new(
            |k: Seq<char>| m.contains_key(k),
            |k: Seq<char>| SchemaView { name: k, fields: fields_of_schema(m[k]) },
        ),
        _ => Map::empty(),
    }
}

pub open spec fn swagger2_spec(doc: JsonTree) -> ApiSpecView {
    let d = Some(doc);
    ApiSpecView {
        title: text_or_empty(text_at(at(at(d, "info"@), "title"@))),
        version: text_or_empty(text_at(at(at(d, "info"@), "version"@))),
        base_path: text_or_empty(text_at(at(d, "basePath"@))),
        endpoints: endpoints_of(doc, false),
        schemas: schemas_of(at(d, "definitions"@)),
    }
}

/// The URL of the first server, if the document names one.
pub open spec fn server_url(doc: JsonTree) -> Option<Seq<char>> {
    text_at(at(first_at(at(Some(doc), "servers"@)), "url"@))
}

/// The path `url::Url` parses out of a URL (`None` where it does not parse).
pub uninterp spec fn url_path(url: Seq<char>) -> Option<Seq<char>>;

/// The base path of an OpenAPI 3.x document, from the path of its first
/// server's URL (a bare `/` is no base path).
pub open spec fn openapi3_base(server_path: Option<Seq<char>>) -> Seq<char> {
    match server_path {
        Some(p) => if p == "/"@ { Seq::empty() } else { p },
        None => Seq::empty(),
    }
}

pub open spec fn openapi3_spec(doc: JsonTree, server_path: Option<Seq<char>>) -> ApiSpecView {
    let d = Some(doc);
    ApiSpecView {
        title: text_or_empty(text_at(at(at(d, "info"@), "title"@))),
        version: text_or_empty(text_at(at(at(d, "info"@), "version"@))),
        base_path: openapi3_base(server_path),
        endpoints: endpoints_of(doc, true),
        schemas: schemas_of(at(at(d, "components"@), "schemas"@)),
    }
}

/// The path part of a URL written as a path: its text up to the first
/// `?` or `#`.
pub open spec fn path_part(u: Seq<char>) -> Seq<char> {
    match first_index(u.len() as int, |i: int| u[i] == '?' || u[i] == '#') {
        Some(i) => u.take(i),
        None => u,
    }
}

/// The path of a document's first server URL: a URL that starts with `/`
/// is a path already (its text before any query or fragment); any other
/// goes through `url::Url`.
pub open spec fn server_path_of(doc: JsonTree) -> Option<Seq<char>> {
    match server_url(doc) {
        Some(u) => if u.len() > 0 && u[0] == '/' {
            Some(path_part(u))
        } else {
            url_path(u)
        },
        None => None,
    }
}

/// The path part of a URL written as a path.
fn relative_url_path(u: &str) -> (r: String)
    ensures
        r@ == path_part(u@),
{
    let cs = chars_of(u);
    let ghost p = |i: int| u@[i] == '?' || u@[i] == '#';
    let mut i: usize = 0;
    while i < cs.len()
        invariant
            cs@ == u@,
            i <= cs@.len(),
            p == (|j: int| u@[j] == '?' || u@[j] == '#'),
            forall|j: int| 0 <= j < i ==> !#[trigger] p(j),
        decreases cs@.len() - i,
    {
        if cs[i] == '?' || cs[i] == '#' {
            proof {
                assert(cs@[i as int] == u@[i as int]);
                assert(p(i as int));
                lemma_first_found(u@.len() as int, p, i as int);
            }
            let r = string_of(&cs, 0, i);
            assert(r@ =~= u@.take(i as int));
            return r;
        }
        i += 1;
    }
    proof {
        lemma_first_none(u@.len() as int, p);
    }
    let r = string_of(&cs, 0, cs.len());
    assert(r@ =~= u@);
    r
}

/// Whether a URL starts with `/`.
fn starts_with_slash(u: &str) -> (b: bool)
    ensures
        b == (u@.len() > 0 && u@[0] == '/'),
{
    let cs = chars_of(u);
    cs.len() > 0 && cs[0] == '/'
}

/// `url::Url::parse(url)` and its `path()`, or `None` where the URL does not
/// parse.
#[verifier::external_body]
fn parsed_url_path(url: &str) -> (r: Option<String>)
    ensures
        opt_view(r) == url_path(url@),
{
    match url::Url::parse(url) {
        Ok(u) => Some(u.path().to_string()),
        Err(_) => None,
    }
}

fn endpoints_from(doc: &JsonValue, v3: bool) -> (r: Vec<Endpoint>)
    ensures
        endpoint_views(r@) == endpoints_of(doc.tree(), v3),
{
    let mut endpoints: Vec<Endpoint> = Vec::new();
    let paths = match object(member(Some(doc), "paths")) {
        Some(m) => m,
        None => {
            assert(endpoint_views(endpoints@) =~= Seq::empty());
            return endpoints;
        },
    };
    let ghost es = tree_entries(paths@);
    let mut i: usize = 0;
    assert(endpoint_views(endpoints@) =~= paths_endpoints(es.take(0), doc.tree(), v3));
    while i < paths.len()
        invariant
            i <= paths@.len(),
            es == tree_entries(paths@),
            endpoint_views(endpoints@) == paths_endpoints(es.take(i as int), doc.tree(), v3),
        decreases paths@.len() - i,
    {
        let (path, item_value) = paths.entry(i);
        let ghost before = endpoints@;
        assert(es.take(i + 1).drop_last() =~= es.take(i as int));
        assert(es.take(i + 1).last() == es[i as int]);
        if let Some(item) = object(Some(item_value)) {
            let ghost ies = tree_entries(item@);
            let mut j: usize = 0;
            assert(endpoint_views(endpoints@) =~= endpoint_views(before) + item_endpoints(path@, ies.take(0), doc.tree(), v3));
            while j < item.len()
                invariant
                    j <= item@.len(),
                    ies == tree_entries(item@),
                    endpoint_views(endpoints@) == endpoint_views(before) + item_endpoints(path@, ies.take(j as int), doc.tree(), v3),
                decreases item@.len() - j,
            {
                let (method_str, op) = item.entry(j);
                let ghost mid = endpoints@;
                assert(ies.take(j + 1).drop_last() =~= ies.take(j as int));
                assert(ies.take(j + 1).last() == ies[j as int]);
                if let Some(method) = HttpMethod::parse(method_str.as_str()) {
                    let operation = if v3 {
                        parse_openapi3_operation(op)
                    } else {
                        parse_swagger2_operation(op, doc)
                    };
                    endpoints.push(Endpoint { path: path.clone(), method, operation });
                    assert(endpoint_views(endpoints@) =~= endpoint_views(mid).push(endpoints@.last()@));
                }
                j += 1;
            }
            assert(ies.take(item@.len() as int) =~= ies);
        }
        i += 1;
    }
    assert(es.take(paths@.len() as int) =~= es);
    endpoints
}

fn build_schema_registry(defs: Option<&JsonValue>) -> (r: KeyedMap<Schema>)
    ensures
        r.as_map().map_values(|s: Schema| s@) == schemas_of(tree_of(defs)),
{
    let mut out: KeyedMap<Schema> = KeyedMap::new();
    let m = match object(defs) {
        Some(m) => m,
        None => {
            assert(out.as_map().map_values(|s: Schema| s@) =~= schemas_of(tree_of(defs)));
            return out;
        },
    };
    let ghost es = tree_entries(m@);
    proof {
        lemma_sorted_distinct(m@);
    }
    let mut i: usize = 0;
    while i < m.len()
        invariant
            i <= m@.len(),
            es == tree_entries(m@),
            crate::json::keys_distinct(m@),
            forall|j: int| 0 <= j < i ==> #[trigger] out.as_map().contains_key(m@[j].0)
                && out.as_map()[m@[j].0]@ == (SchemaView { name: m@[j].0, fields: fields_of_schema(m@[j].1.tree()) }),
            forall|k: Seq<char>| #[trigger] out.as_map().contains_key(k) ==> exists|j: int| 0 <= j < i && m@[j].0 == k,
        decreases m@.len() - i,
    {
        let (name, schema) = m.entry(i);
        let fields = fields_from_object_schema(schema);
        let ghost before = out.as_map();
        out.insert(name.clone(), Schema { name: name.clone(), fields });
        proof {
            assert forall|j: int| 0 <= j < i + 1 implies #[trigger] out.as_map().contains_key(m@[j].0)
                && out.as_map()[m@[j].0]@ == (SchemaView { name: m@[j].0, fields: fields_of_schema(m@[j].1.tree()) }) by {
                if j < i {
                    assert(m@[j].0 != m@[i as int].0);
                }
            }
            assert forall|k: Seq<char>| #[trigger] out.as_map().contains_key(k) implies exists|j: int| 0 <= j < i + 1 && m@[j].0 == k by {
                if k != m@[i as int].0 {
                    assert(before.contains_key(k));
                }
            }
        }
        i += 1;
    }
    proof {
        let t = tree_of(defs)->0;
        assert(t == JsonTree::Record(crate::json::record(m.as_map())));
        assert forall|k: Seq<char>| true implies (#[trigger] out.as_map().contains_key(k) <==> m.as_map().contains_key(k)) by {
            lemma_map_has_key(m@, k);
        }
        assert forall|k: Seq<char>| #[trigger] out.as_map().contains_key(k) implies out.as_map()[k]@ == (SchemaView { name: k, fields: fields_of_schema(m.as_map()[k].tree()) }) by {
            let j = choose|j: int| 0 <= j < m@.len() && m@[j].0 == k;
            lemma_map_at(m@, j);
        }
        assert(out.as_map().map_values(|s: Schema| s@) =~= schemas_of(tree_of(defs)));
    }
    out
}

fn parse_swagger2(doc: &JsonValue) -> (s: ApiSpec)
    ensures
        s@ == swagger2_spec(doc.tree()),
{
    let d = Some(doc);
    let title = text_or_default(member(member(d, "info"), "title"));
    let version = text_or_default(member(member(d, "info"), "version"));
    let base_path = text_or_default(member(d, "basePath"));
    let schemas = build_schema_registry(member(d, "definitions"));
    let endpoints = endpoints_from(doc, false);
    ApiSpec { title, version, base_path, endpoints, schemas }
}

/// An OpenAPI 3.x document, given the path of its first server's URL.
pub fn parse_openapi3_with(doc: &JsonValue, server_path: Option<String>) -> (s: ApiSpec)
    ensures
        s@ == openapi3_spec(doc.tree(), opt_view(server_path)),
{
    let d = Some(doc);
    let title = text_or_default(member(member(d, "info"), "title"));
    let version = text_or_default(member(member(d, "info"), "version"));
    let base_path = match server_path {
        Some(p) => if str_eq(p.as_str(), "/") {
            String::new()
        } else {
            p
        },
        None => String::new(),
    };
    let schemas = build_schema_registry(member(member(d, "components"), "schemas"));
    let endpoints = endpoints_from(doc, true);
    ApiSpec { title, version, base_path, endpoints, schemas }
}

fn parse_openapi3(doc: &JsonValue) -> (s: ApiSpec)
    ensures
        s@ == openapi3_spec(doc.tree(), server_path_of(doc.tree())),
{
    let server_path = match text(member(first(member(Some(doc), "servers")), "url")) {
        Some(u) => if starts_with_slash(u) {
            Some(relative_url_path(u))
        } else {
            parsed_url_path(u)
        },
        None => None,
    };
    parse_openapi3_with(doc, server_path)
}

/// A result by its plain values.
pub open spec fn spec_result(r: Result<ApiSpec, ShotgunError>) -> Result<ApiSpecView, ErrorView> {
    match r {
        Ok(s) => Ok(s@),
        Err(e) => Err(e@),
    }
}

/// What a document parses to: OpenAPI 3.x when it has an `openapi`
/// string, Swagger 2.0 when `swagger` is `"2.0"`, else an error.
pub open spec fn spec_of_document(path: Seq<char>, doc: JsonTree) -> Result<ApiSpecView, ErrorView> {
    if text_at(at(Some(doc), "openapi"@)) is Some {
        Ok(openapi3_spec(doc, server_path_of(doc)))
    } else if text_at(at(Some(doc), "swagger"@)) == Some("2.0"@) {
        Ok(swagger2_spec(doc))
    } else {
        Err(ErrorView::UnsupportedVersion("could not detect OpenAPI/Swagger version for "@ + path))
    }
}

pub fn parse_spec_value(path: &str, value: &JsonValue) -> (r: Result<ApiSpec, ShotgunError>)
    ensures
        spec_result(r) == spec_of_document(path@, value.tree()),
{
    let v = Some(value);
    if text(member(v, "openapi")).is_some() {
        Ok(parse_openapi3(value))
    } else if text_is(member(v, "swagger"), "2.0") {
        Ok(parse_swagger2(value))
    } else {
        let mut m = owned("could not detect OpenAPI/Swagger version for ");
        append_str(&mut m, path);
        Err(ShotgunError::UnsupportedVersion(m))
    }
}

/// A document that did not parse.
pub open spec fn parse_failure(path: Seq<char>, message: Seq<char>) -> Result<ApiSpecView, ErrorView> {
    Err(ErrorView::SpecParse { path, message })
}

/// What spec text parses to: YAML for a `.yaml`/`.yml` path, else JSON with
/// YAML as the fallback (the error reported is YAML's).
pub open spec fn spec_of_text(path: Seq<char>, contents: Seq<char>) -> Result<ApiSpecView, ErrorView> {
    let yaml = match yaml_text_value(contents) {
        Ok(t) => spec_of_document(path, t),
        Err(e) => parse_failure(path, e),
    };
    if is_suffix(".yaml"@, path) || is_suffix(".yml"@, path) {
        yaml
    } else {
        match json_text_value(contents) {
            Some(t) => spec_of_document(path, t),
            None => yaml,
        }
    }
}

fn from_yaml(path: &str, contents: &str) -> (r: Result<ApiSpec, ShotgunError>)
    ensures
        spec_result(r) == (match yaml_text_value(contents@) {
            Ok(t) => spec_of_document(path@, t),
            Err(e) => parse_failure(path@, e),
        }),
{
    match parse_yaml_text(contents) {
        Ok(v) => parse_spec_value(path, &v),
        Err(message) => Err(ShotgunError::SpecParse { path: owned(path), message }),
    }
}

pub fn parse_spec_str(path: &str, contents: &str) -> (r: Result<ApiSpec, ShotgunError>)
    ensures
        spec_result(r) == spec_of_text(path@, contents@),
{
    if ends_with(path, ".yaml") || ends_with(path, ".yml") {
        from_yaml(path, contents)
    } else {
        // Try JSON first, fall back to YAML (YAML is a superset for our purposes).
        match parse_json_text(contents) {
            Some(v) => parse_spec_value(path, &v),
            None => from_yaml(path, contents),
        }
    }
}

} // verus!
