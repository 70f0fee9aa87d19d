//! Normalized, version-agnostic representation of an OpenAPI/Swagger document.
//!
//! Both OpenAPI 3.x and Swagger 2.0 specs are parsed down into this shape so
//! the rest of the crate (diffing, mapping, proxying) never has to think about
//! which spec version it originated from.
use vstd::prelude::*;
use crate::json::{JsonValue, KeyedMap};
use crate::text::{lower, lower_chars, chars_equal, chars_of, owned, append_str};
use crate::diff::schemas::opt_view;

verus! {

#[derive(Debug, Clone, Copy, PartialEq, Eq, Structural, Hash, PartialOrd, Ord)]
pub enum HttpMethod {
    Get,
    Put,
    Post,
    Delete,
    Options,
    Head,
    Patch,
    Trace,
}

/// The upper-case name of a method, as it appears in an endpoint key.
pub open spec fn method_text(m: HttpMethod) -> Seq<char> {
    match m {
        HttpMethod::Get => "GET"@,
        HttpMethod::Put => "PUT"@,
        HttpMethod::Post => "POST"@,
        HttpMethod::Delete => "DELETE"@,
        HttpMethod::Options => "OPTIONS"@,
        HttpMethod::Head => "HEAD"@,
        HttpMethod::Patch => "PATCH"@,
        HttpMethod::Trace => "TRACE"@,
    }
}

/// The method a (case-insensitive) name stands for.
pub open spec fn method_of(s: Seq<char>) -> Option<HttpMethod> {
    let l = lower(s);
    if l == "get"@ {
        Some(HttpMethod::Get)
    } else if l == "put"@ {
        Some(HttpMethod::Put)
    } else if l == "post"@ {
        Some(HttpMethod::Post)
    } else if l == "delete"@ {
        Some(HttpMethod::Delete)
    } else if l == "options"@ {
        Some(HttpMethod::Options)
    } else if l == "head"@ {
        Some(HttpMethod::Head)
    } else if l == "patch"@ {
        Some(HttpMethod::Patch)
    } else if l == "trace"@ {
        Some(HttpMethod::Trace)
    } else {
        None
    }
}

fn is_word(l: &Vec<char>, w: &str) -> (b: bool)
    ensures
        b == (l@ == w@),
{
    let cw = chars_of(w);
    chars_equal(l, &cw)
}

impl HttpMethod {
    pub fn as_str(&self) -> (s: &'static str)
        ensures
            s@ == method_text(*self),
    {
        match self {
            HttpMethod::Get => "GET",
            HttpMethod::Put => "PUT",
            HttpMethod::Post => "POST",
            HttpMethod::Delete => "DELETE",
            HttpMethod::Options => "OPTIONS",
            HttpMethod::Head => "HEAD",
            HttpMethod::Patch => "PATCH",
            HttpMethod::Trace => "TRACE",
        }
    }

    pub fn parse(s: &str) -> (m: Option<HttpMethod>)
        ensures
            m == method_of(s@),
    {
        let l = lower_chars(s);
        if is_word(&l, "get") {
            Some(HttpMethod::Get)
        } else if is_word(&l, "put") {
            Some(HttpMethod::Put)
        } else if is_word(&l, "post") {
            Some(HttpMethod::Post)
        } else if is_word(&l, "delete") {
            Some(HttpMethod::Delete)
        } else if is_word(&l, "options") {
            Some(HttpMethod::Options)
        } else if is_word(&l, "head") {
            Some(HttpMethod::Head)
        } else if is_word(&l, "patch") {
            Some(HttpMethod::Patch)
        } else if is_word(&l, "trace") {
            Some(HttpMethod::Trace)
        } else {
            None
        }
    }
}

/// Parsing the name that `as_str` prints gives the method back.
pub proof fn lemma_method_round_trip(m: HttpMethod)
    ensures
        method_of(method_text(m)) == Some(m),
{
    reveal_strlit("GET");
    reveal_strlit("PUT");
    reveal_strlit("POST");
    reveal_strlit("DELETE");
    reveal_strlit("OPTIONS");
    reveal_strlit("HEAD");
    reveal_strlit("PATCH");
    reveal_strlit("TRACE");
    reveal_strlit("get");
    reveal_strlit("put");
    reveal_strlit("post");
    reveal_strlit("delete");
    reveal_strlit("options");
    reveal_strlit("head");
    reveal_strlit("patch");
    reveal_strlit("trace");
    let t = method_text(m);
    let l = lower(t);
    match m {
        HttpMethod::Get => { assert(l =~= "get"@); },
        HttpMethod::Put => { assert(l =~= "put"@); assert(l[0] != "get"@[0]); assert(l != "get"@); },
        HttpMethod::Post => { assert(l =~= "post"@); assert(l != "get"@); assert(l != "put"@); },
        HttpMethod::Delete => { assert(l =~= "delete"@); assert(l != "get"@); assert(l != "put"@); assert(l != "post"@); },
        HttpMethod::Options => { assert(l =~= "options"@); assert(l != "get"@); assert(l != "put"@); assert(l != "post"@); assert(l != "delete"@); },
        HttpMethod::Head => { assert(l =~= "head"@); assert(l[0] != "post"@[0]); assert(l != "get"@); assert(l != "put"@); assert(l != "post"@); assert(l != "delete"@); assert(l != "options"@); },
        HttpMethod::Patch => { assert(l =~= "patch"@); assert(l != "get"@); assert(l != "put"@); assert(l != "post"@); assert(l != "delete"@); assert(l != "options"@); assert(l != "head"@); },
        HttpMethod::Trace => { assert(l =~= "trace"@); assert(l[0] != "patch"@[0]); assert(l != "get"@); assert(l != "put"@); assert(l != "post"@); assert(l != "delete"@); assert(l != "options"@); assert(l != "head"@); assert(l != "patch"@); },
    }
}

/// A simplified type descriptor for a schema/field: just enough to compare
/// shapes between two specs.
#[derive(Debug, Clone, Copy, PartialEq, Eq, Structural)]
pub enum FieldType {
    String,
    Integer,
    Number,
    Boolean,
    Array,
    Object,
    Unknown,
}

/// Whether two types are "compatible enough" to be the same field without
/// flagging it for manual review.
pub open spec fn types_compatible(a: FieldType, b: FieldType) -> bool {
    a == b || (a == FieldType::Integer && b == FieldType::Number) || (a == FieldType::Number && b == FieldType::Integer)
}

/// The value `zero_value` produces for a type.
pub open spec fn zero_tree(t: FieldType) -> crate::json::JsonTree {
    match t {
        FieldType::String | FieldType::Unknown => crate::json::JsonTree::Text(Seq::empty()),
        FieldType::Integer | FieldType::Number => crate::json::JsonTree::Number(seq!['0']),
        FieldType::Boolean => crate::json::JsonTree::Bool(false),
        FieldType::Array => crate::json::JsonTree::List(Seq::empty()),
        FieldType::Object => crate::json::JsonTree::Record(Map::empty()),
    }
}

/// A JSON value that is blank for its kind: `false`, `0`, an empty
/// string, an empty array or an empty object (or `null`).
pub open spec fn is_blank(v: crate::json::JsonTree) -> bool {
    match v {
        crate::json::JsonTree::Null => true,
        crate::json::JsonTree::Bool(b) => !b,
        crate::json::JsonTree::Number(n) => n == seq!['0'],
        crate::json::JsonTree::Text(t) => t.len() == 0,
        crate::json::JsonTree::List(l) => l.len() == 0,
        crate::json::JsonTree::Record(m) => m == Map::<Seq<char>, crate::json::JsonTree>::empty(),
    }
}

/// A JSON value of the kind a field of type `t` holds (a field of unknown
/// type is written as a string: a mapping file has no null literal).
pub open spec fn of_kind(t: FieldType, v: crate::json::JsonTree) -> bool {
    match t {
        FieldType::String | FieldType::Unknown => v is Text,
        FieldType::Integer | FieldType::Number => v is Number,
        FieldType::Boolean => v is Bool,
        FieldType::Array => v is List,
        FieldType::Object => v is Record,
    }
}

/// The zero of a type is a blank value of that type's kind: `false` for a
/// boolean, `0` for a number, and empty text, array or object.
pub proof fn lemma_zero_is_blank(t: FieldType)
    ensures
        is_blank(zero_tree(t)),
        of_kind(t, zero_tree(t)),
{
}

/// The name `{:?}` prints for a type.
pub open spec fn type_debug_name(t: FieldType) -> Seq<char> {
    match t {
        FieldType::String => "String"@,
        FieldType::Integer => "Integer"@,
        FieldType::Number => "Number"@,
        FieldType::Boolean => "Boolean"@,
        FieldType::Array => "Array"@,
        FieldType::Object => "Object"@,
        FieldType::Unknown => "Unknown"@,
    }
}

impl FieldType {
    pub fn compatible(&self, other: &FieldType) -> (b: bool)
        ensures
            b == types_compatible(*self, *other),
    {
        match (self, other) {
            (FieldType::Integer, FieldType::Number) | (FieldType::Number, FieldType::Integer) => true,
            _ => *self == *other,
        }
    }

    /// A reasonable zero value for this type, used when generating `defaults`.
    /// `Unknown` gets an empty string: a mapping file has no null literal.
    pub fn zero_value(&self) -> (v: JsonValue)
        ensures
            v.tree() == zero_tree(*self),
    {
        proof {
            broadcast use crate::json::group_json_tree;
        }
        match self {
            FieldType::String | FieldType::Unknown => {
                let v = JsonValue::String(String::new());
                assert(v.tree() == zero_tree(*self));
                v
            },
            FieldType::Integer | FieldType::Number => {
                let mut n = String::new();
                crate::text::push_char(&mut n, '0');
                let v = JsonValue::Number(n);
                assert(n@ =~= seq!['0']);
                v
            },
            FieldType::Boolean => JsonValue::Bool(false),
            FieldType::Array => {
                let v = JsonValue::Array(Vec::new());
                proof {
                    crate::json::lemma_trees(Seq::<JsonValue>::empty());
                }
                assert(crate::json::trees(Seq::<JsonValue>::empty()) =~= Seq::empty());
                v
            },
            FieldType::Object => {
                let m = KeyedMap::new();
                let v = JsonValue::Object(m);
                assert(crate::json::record(m.as_map()) =~= Map::empty());
                v
            },
        }
    }

    /// The name `{:?}` prints.
    pub fn debug_name(&self) -> (s: &'static str)
        ensures
            s@ == type_debug_name(*self),
    {
        match self {
            FieldType::String => "String",
            FieldType::Integer => "Integer",
            FieldType::Number => "Number",
            FieldType::Boolean => "Boolean",
            FieldType::Array => "Array",
            FieldType::Object => "Object",
            FieldType::Unknown => "Unknown",
        }
    }
}

/// `compatible` is reflexive and symmetric.
pub proof fn lemma_compatible_symmetric(a: FieldType, b: FieldType)
    ensures
        types_compatible(a, a),
        types_compatible(a, b) == types_compatible(b, a),
{
}

/// A field within an object schema.
#[derive(Debug, Clone)]
pub struct Field {
    pub name: String,
    pub ty: FieldType,
    /// If `ty == Object`, name of the referenced schema (for recursive matching).
    pub schema_ref: Option<String>,
    /// If `ty == Array`, the type of the array's items.
    pub item_ty: Option<FieldType>,
    pub item_schema_ref: Option<String>,
}

/// A named, reusable object schema (e.g. "User", "Repository").
#[derive(Debug, Clone)]
pub struct Schema {
    pub name: String,
    pub fields: Vec<Field>,
}

/// A single request/response body shape attached to an operation.
#[derive(Debug, Clone)]
pub struct Body {
    /// Inline fields (when the body isn't a named schema).
    pub fields: Vec<Field>,
    /// Reference to a named schema, if the body is `$ref`'d or a named type.
    pub schema_ref: Option<String>,
    /// True if the body/response is an array of the above shape.
    pub is_array: bool,
}

#[derive(Debug, Clone)]
pub struct Parameter {
    pub name: String,
    pub location: ParamLocation,
    pub required: bool,
    pub ty: FieldType,
}

#[derive(Debug, Clone, Copy, PartialEq, Eq, Structural)]
pub enum ParamLocation {
    Path,
    Query,
    Header,
}

#[derive(Debug, Clone)]
pub struct Operation {
    pub operation_id: Option<String>,
    pub summary: Option<String>,
    pub parameters: Vec<Parameter>,
    pub request_body: Option<Body>,
    /// Response body for the "primary" success response (2xx), if any.
    pub response_body: Option<Body>,
}

#[derive(Debug, Clone)]
pub struct Endpoint {
    pub path: String,
    pub method: HttpMethod,
    pub operation: Operation,
}

/// `"METHOD /path"`, the key that names an endpoint.
pub open spec fn endpoint_key(method: HttpMethod, path: Seq<char>) -> Seq<char> {
    method_text(method) + seq![' '] + path
}

impl Endpoint {
    pub fn key(&self) -> (k: String)
        ensures
            k@ == endpoint_key(self.method, self.path@),
    {
        let mut k = owned(self.method.as_str());
        crate::text::push_char(&mut k, ' ');
        append_str(&mut k, self.path.as_str());
        k
    }
}

/// The normalized representation of an entire API spec, regardless of
/// whether it started life as Swagger 2.0 or OpenAPI 3.x.
pub struct ApiSpec {
    pub title: String,
    pub version: String,
    /// Base path prefix (e.g. "/api/v1") extracted from `basePath` (v2) or
    /// the first server URL's path component (v3).
    pub base_path: String,
    pub endpoints: Vec<Endpoint>,
    /// Named reusable schemas, keyed by name (from `definitions` in v2 or
    /// `components.schemas` in v3).
    pub schemas: KeyedMap<Schema>,
}

impl ApiSpec {
    pub fn endpoint_count(&self) -> (n: usize)
        ensures
            n == self.endpoints@.len(),
    {
        self.endpoints.len()
    }
}

/// A field by its plain values.
pub struct FieldView {
    pub name: Seq<char>,
    pub ty: FieldType,
    pub schema_ref: Option<Seq<char>>,
    pub item_ty: Option<FieldType>,
    pub item_schema_ref: Option<Seq<char>>,
}

impl View for Field {
    type V = FieldView;

    open spec fn view(&self) -> FieldView {
        FieldView {
            name: self.name@,
            ty: self.ty,
            schema_ref: opt_view(self.schema_ref),
            item_ty: self.item_ty,
            item_schema_ref: opt_view(self.item_schema_ref),
        }
    }
}

pub open spec fn field_views(s: Seq<Field>) -> Seq<FieldView> {
    s.map_values(|f: Field| f@)
}

/// A body by its plain values.
pub struct BodyView {
    pub fields: Seq<FieldView>,
    pub schema_ref: Option<Seq<char>>,
    pub is_array: bool,
}

impl View for Body {
    type V = BodyView;

    open spec fn view(&self) -> BodyView {
        BodyView { fields: field_views(self.fields@), schema_ref: opt_view(self.schema_ref), is_array: self.is_array }
    }
}

pub open spec fn opt_body_view(b: Option<Body>) -> Option<BodyView> {
    match b {
        Some(b) => Some(b@),
        None => None,
    }
}

/// A parameter by its plain values.
pub struct ParamView {
    pub name: Seq<char>,
    pub location: ParamLocation,
    pub required: bool,
    pub ty: FieldType,
}

impl View for Parameter {
    type V = ParamView;

    open spec fn view(&self) -> ParamView {
        ParamView { name: self.name@, location: self.location, required: self.required, ty: self.ty }
    }
}

pub open spec fn param_views(s: Seq<Parameter>) -> Seq<ParamView> {
    s.map_values(|p: Parameter| p@)
}

/// An operation by its plain values.
pub struct OperationView {
    pub operation_id: Option<Seq<char>>,
    pub summary: Option<Seq<char>>,
    pub parameters: Seq<ParamView>,
    pub request_body: Option<BodyView>,
    pub response_body: Option<BodyView>,
}

impl View for Operation {
    type V = OperationView;

    open spec fn view(&self) -> OperationView {
        OperationView {
            operation_id: opt_view(self.operation_id),
            summary: opt_view(self.summary),
            parameters: param_views(self.parameters@),
            request_body: opt_body_view(self.request_body),
            response_body: opt_body_view(self.response_body),
        }
    }
}

/// An endpoint by its plain values.
pub struct EndpointView {
    pub path: Seq<char>,
    pub method: HttpMethod,
    pub operation: OperationView,
}

impl View for Endpoint {
    type V = EndpointView;

    open spec fn view(&self) -> EndpointView {
        EndpointView { path: self.path@, method: self.method, operation: self.operation@ }
    }
}

pub open spec fn endpoint_views(s: Seq<Endpoint>) -> Seq<EndpointView> {
    s.map_values(|e: Endpoint| e@)
}

/// A schema by its plain values.
pub struct SchemaView {
    pub name: Seq<char>,
    pub fields: Seq<FieldView>,
}

impl View for Schema {
    type V = SchemaView;

    open spec fn view(&self) -> SchemaView {
        SchemaView { name: self.name@, fields: field_views(self.fields@) }
    }
}

/// A whole spec by its plain values; the schemas as a map by name.
pub struct ApiSpecView {
    pub title: Seq<char>,
    pub version: Seq<char>,
    pub base_path: Seq<char>,
    pub endpoints: Seq<EndpointView>,
    pub schemas: Map<Seq<char>, SchemaView>,
}

impl View for ApiSpec {
    type V = ApiSpecView;

    open spec fn view(&self) -> ApiSpecView {
        ApiSpecView {
            title: self.title@,
            version: self.version@,
            base_path: self.base_path@,
            endpoints: endpoint_views(self.endpoints@),
            schemas: self.schemas.as_map().map_values(|s: Schema| s@),
        }
    }
}

} // verus!
