//! JSON value tree transformation engine.
//!
//! This is the runtime heart of the proxy: given a mapping rule (renames,
//! defaults, drops, nested schema references) it rewrites a JSON value
//! tree. The same engine is used for both directions:
//! - Responses come back from the target API and need translating target -> source.
//! - Requests come in from the source-speaking client and need translating source -> target.
use vstd::prelude::*;
use crate::json::{JsonTree, JsonValue, KeyedMap, record, tree_entries, group_json_tree, lemma_trees, trees};
use crate::mapping::merge::{existing_schema_for, last_with_name, lemma_last_with_name};
use crate::mapping::types::{EndpointMapping, FieldMapping, MappingFile, NestedMapping, SchemaMapping, UnmappedFieldBehavior};
use crate::text::views;

verus! {

broadcast use group_json_tree;

/// The rules of a field mapping as plain values: renames (source name to
/// target name) in key order, defaults in key order, drops in list order.
pub struct RulesView {
    pub renames: Seq<(Seq<char>, Seq<char>)>,
    pub defaults: Seq<(Seq<char>, JsonTree)>,
    pub drops: Seq<Seq<char>>,
}

pub open spec fn text_entries(s: Seq<(Seq<char>, String)>) -> Seq<(Seq<char>, Seq<char>)> {
    s.map_values(|p: (Seq<char>, String)| (p.0, p.1@))
}

pub open spec fn rules_of(renames: KeyedMap<String>, defaults: KeyedMap<JsonValue>, drops: Seq<String>) -> RulesView {
    RulesView { renames: text_entries(renames@), defaults: tree_entries(defaults@), drops: views(drops) }
}

pub open spec fn field_rules(fm: FieldMapping) -> RulesView {
    rules_of(fm.renames, fm.defaults, fm.drops@)
}

pub open spec fn schema_rules(s: SchemaMapping) -> RulesView {
    rules_of(s.renames, s.defaults, s.drops@)
}

/// Responses: each rename moves the value under the target name back to
/// the source name, in order.
pub open spec fn renamed_back(m: Map<Seq<char>, JsonTree>, rs: Seq<(Seq<char>, Seq<char>)>) -> Map<Seq<char>, JsonTree>
    decreases rs.len(),
{
    if rs.len() == 0 {
        m
    } else {
        let prev = renamed_back(m, rs.drop_last());
        let (s, t) = rs.last();
        if prev.contains_key(t) {
            prev.remove(t).insert(s, prev[t])
        } else {
            prev
        }
    }
}

/// Requests: each rename moves the value under the source name to the
/// target name, in order.
pub open spec fn renamed_forward(m: Map<Seq<char>, JsonTree>, rs: Seq<(Seq<char>, Seq<char>)>) -> Map<Seq<char>, JsonTree>
    decreases rs.len(),
{
    if rs.len() == 0 {
        m
    } else {
        let prev = renamed_forward(m, rs.drop_last());
        let (s, t) = rs.last();
        if prev.contains_key(s) {
            prev.remove(s).insert(t, prev[s])
        } else {
            prev
        }
    }
}

/// Each default fills its field where the field is absent.
pub open spec fn defaulted(m: Map<Seq<char>, JsonTree>, ds: Seq<(Seq<char>, JsonTree)>) -> Map<Seq<char>, JsonTree>
    decreases ds.len(),
{
    if ds.len() == 0 {
        m
    } else {
        let prev = defaulted(m, ds.drop_last());
        if prev.contains_key(ds.last().0) {
            prev
        } else {
            prev.insert(ds.last().0, ds.last().1)
        }
    }
}

/// Each named field removed.
pub open spec fn without(m: Map<Seq<char>, JsonTree>, ks: Seq<Seq<char>>) -> Map<Seq<char>, JsonTree>
    decreases ks.len(),
{
    if ks.len() == 0 {
        m
    } else {
        without(m, ks.drop_last()).remove(ks.last())
    }
}

pub open spec fn entry_keys_of(ds: Seq<(Seq<char>, JsonTree)>) -> Seq<Seq<char>> {
    ds.map_values(|p: (Seq<char>, JsonTree)| p.0)
}

/// A response object: renamed back, defaults filled, drops removed.
pub open spec fn response_record(m: Map<Seq<char>, JsonTree>, r: RulesView) -> Map<Seq<char>, JsonTree> {
    without(defaulted(renamed_back(m, r.renames), r.defaults), r.drops)
}

/// A request object: renamed forward, the source-only (default) fields
/// removed.
pub open spec fn request_record(m: Map<Seq<char>, JsonTree>, r: RulesView) -> Map<Seq<char>, JsonTree> {
    without(renamed_forward(m, r.renames), entry_keys_of(r.defaults))
}

/// A response body: objects rewritten, arrays element by element (at any
/// depth), anything else as it is.
pub open spec fn response_tree(t: JsonTree, r: RulesView) -> JsonTree
    decreases t,
{
    match t {
        JsonTree::Record(m) => JsonTree::Record(response_record(m, r)),
        JsonTree::List(s) => JsonTree::List(response_list(s, r)),
        _ => t,
    }
}

pub open spec fn response_list(s: Seq<JsonTree>, r: RulesView) -> Seq<JsonTree>
    decreases s,
{
    if s.len() == 0 {
        Seq::empty()
    } else {
        response_list(s.drop_last(), r).push(response_tree(s.last(), r))
    }
}

/// A request body, the same way.
pub open spec fn request_tree(t: JsonTree, r: RulesView) -> JsonTree
    decreases t,
{
    match t {
        JsonTree::Record(m) => JsonTree::Record(request_record(m, r)),
        JsonTree::List(s) => JsonTree::List(request_list(s, r)),
        _ => t,
    }
}

pub open spec fn request_list(s: Seq<JsonTree>, r: RulesView) -> Seq<JsonTree>
    decreases s,
{
    if s.len() == 0 {
        Seq::empty()
    } else {
        request_list(s.drop_last(), r).push(request_tree(s.last(), r))
    }
}

proof fn lemma_response_list(s: Seq<JsonTree>, r: RulesView)
    ensures
        response_list(s, r).len() == s.len(),
        forall|i: int| 0 <= i < s.len() ==> #[trigger] response_list(s, r)[i] == response_tree(s[i], r),
    decreases s.len(),
{
    if s.len() > 0 {
        lemma_response_list(s.drop_last(), r);
        assert forall|i: int| 0 <= i < s.len() implies #[trigger] response_list(s, r)[i] == response_tree(s[i], r) by {
            if i < s.len() - 1 {
                assert(s.drop_last()[i] == s[i]);
            }
        }
    }
}

proof fn lemma_request_list(s: Seq<JsonTree>, r: RulesView)
    ensures
        request_list(s, r).len() == s.len(),
        forall|i: int| 0 <= i < s.len() ==> #[trigger] request_list(s, r)[i] == request_tree(s[i], r),
    decreases s.len(),
{
    if s.len() > 0 {
        lemma_request_list(s.drop_last(), r);
        assert forall|i: int| 0 <= i < s.len() implies #[trigger] request_list(s, r)[i] == request_tree(s[i], r) by {
            if i < s.len() - 1 {
                assert(s.drop_last()[i] == s[i]);
            }
        }
    }
}

/// A copy of an object value's map, with the same record.
fn copy_map(v: &JsonValue) -> (c: KeyedMap<JsonValue>)
    requires
        v is Object,
    ensures
        JsonTree::Record(record(c.as_map())) == v.tree(),
{
    match v.clone() {
        JsonValue::Object(m) => m,
        _ => {
            assert(false);
            KeyedMap::new()
        },
    }
}

fn rename_back(m: &mut KeyedMap<JsonValue>, renames: &KeyedMap<String>)
    ensures
        record(final(m).as_map()) == renamed_back(record(old(m).as_map()), text_entries(renames@)),
{
    let ghost start = record(m.as_map());
    let ghost rs = text_entries(renames@);
    let mut i: usize = 0;
    while i < renames.len()
        invariant
            i <= renames@.len(),
            rs == text_entries(renames@),
            record(m.as_map()) == renamed_back(start, rs.take(i as int)),
        decreases renames@.len() - i,
    {
        let (s, t) = renames.entry(i);
        let ghost before = m.as_map();
        assert(rs.take(i + 1).drop_last() =~= rs.take(i as int));
        assert(rs.take(i + 1).last() == (s@, t@));
        if let Some(val) = m.remove(t.as_str()) {
            m.insert(s.clone(), val);
            assert(record(m.as_map()) =~= record(before).remove(t@).insert(s@, record(before)[t@]));
        }
        i += 1;
    }
    assert(rs.take(renames@.len() as int) =~= rs);
}

fn rename_forward(m: &mut KeyedMap<JsonValue>, renames: &KeyedMap<String>)
    ensures
        record(final(m).as_map()) == renamed_forward(record(old(m).as_map()), text_entries(renames@)),
{
    let ghost start = record(m.as_map());
    let ghost rs = text_entries(renames@);
    let mut i: usize = 0;
    while i < renames.len()
        invariant
            i <= renames@.len(),
            rs == text_entries(renames@),
            record(m.as_map()) == renamed_forward(start, rs.take(i as int)),
        decreases renames@.len() - i,
    {
        let (s, t) = renames.entry(i);
        let ghost before = m.as_map();
        assert(rs.take(i + 1).drop_last() =~= rs.take(i as int));
        assert(rs.take(i + 1).last() == (s@, t@));
        if let Some(val) = m.remove(s.as_str()) {
            m.insert(t.clone(), val);
            assert(record(m.as_map()) =~= record(before).remove(s@).insert(t@, record(before)[s@]));
        }
        i += 1;
    }
    assert(rs.take(renames@.len() as int) =~= rs);
}

fn fill_defaults(m: &mut KeyedMap<JsonValue>, defaults: &KeyedMap<JsonValue>)
    ensures
        record(final(m).as_map()) == defaulted(record(old(m).as_map()), tree_entries(defaults@)),
{
    let ghost start = record(m.as_map());
    let ghost ds = tree_entries(defaults@);
    let mut i: usize = 0;
    while i < defaults.len()
        invariant
            i <= defaults@.len(),
            ds == tree_entries(defaults@),
            record(m.as_map()) == defaulted(start, ds.take(i as int)),
        decreases defaults@.len() - i,
    {
        let (k, d) = defaults.entry(i);
        let ghost before = m.as_map();
        assert(ds.take(i + 1).drop_last() =~= ds.take(i as int));
        assert(ds.take(i + 1).last() == (k@, d.tree()));
        if !m.contains_key(k.as_str()) {
            m.insert(k.clone(), d.clone());
            assert(record(m.as_map()) =~= record(before).insert(k@, d.tree()));
        }
        i += 1;
    }
    assert(ds.take(defaults@.len() as int) =~= ds);
}

fn remove_all(m: &mut KeyedMap<JsonValue>, drops: &Vec<String>)
    ensures
        record(final(m).as_map()) == without(record(old(m).as_map()), views(drops@)),
{
    let ghost start = record(m.as_map());
    let ghost ks = views(drops@);
    let mut i: usize = 0;
    while i < drops.len()
        invariant
            i <= drops@.len(),
            ks == views(drops@),
            record(m.as_map()) == without(start, ks.take(i as int)),
        decreases drops@.len() - i,
    {
        let ghost before = m.as_map();
        assert(ks.take(i + 1).drop_last() =~= ks.take(i as int));
        assert(ks.take(i + 1).last() == drops@[i as int]@);
        m.remove(drops[i].as_str());
        assert(record(m.as_map()) =~= record(before).remove(drops@[i as int]@));
        i += 1;
    }
    assert(ks.take(drops@.len() as int) =~= ks);
}

fn remove_default_keys(m: &mut KeyedMap<JsonValue>, defaults: &KeyedMap<JsonValue>)
    ensures
        record(final(m).as_map()) == without(record(old(m).as_map()), entry_keys_of(tree_entries(defaults@))),
{
    let ghost start = record(m.as_map());
    let ghost ks = entry_keys_of(tree_entries(defaults@));
    let mut i: usize = 0;
    while i < defaults.len()
        invariant
            i <= defaults@.len(),
            ks == entry_keys_of(tree_entries(defaults@)),
            record(m.as_map()) == without(start, ks.take(i as int)),
        decreases defaults@.len() - i,
    {
        let (k, _) = defaults.entry(i);
        let ghost before = m.as_map();
        assert(ks.take(i + 1).drop_last() =~= ks.take(i as int));
        assert(ks.take(i + 1).last() == k@);
        m.remove(k.as_str());
        assert(record(m.as_map()) =~= record(before).remove(k@));
        i += 1;
    }
    assert(ks.take(defaults@.len() as int) =~= ks);
}

/// The response rules on one object: renamed back, defaults filled, drops
/// removed.
fn apply_response_object(map: &mut KeyedMap<JsonValue>, renames: &KeyedMap<String>, defaults: &KeyedMap<JsonValue>, drops: &Vec<String>, unmapped_field_behavior: &UnmappedFieldBehavior)
    ensures
        record(final(map).as_map()) == response_record(record(old(map).as_map()), rules_of(*renames, *defaults, drops@)),
{
    // renames: source_name -> target_name. Body is target-shaped; rename
    // target_name key back to source_name.
    rename_back(map, renames);
    fill_defaults(map, defaults);
    remove_all(map, drops);
    // `Drop` keeps the object as the rules leave it: without the full
    // source field list there is no allowlist to apply here.
}

/// A copy of `v` with the response rules applied.
fn response_copy(v: &JsonValue, renames: &KeyedMap<String>, defaults: &KeyedMap<JsonValue>, drops: &Vec<String>, unmapped_field_behavior: &UnmappedFieldBehavior) -> (out: JsonValue)
    ensures
        out.tree() == response_tree(v.tree(), rules_of(*renames, *defaults, drops@)),
    decreases v,
{
    let ghost r = rules_of(*renames, *defaults, drops@);
    match v {
        JsonValue::Object(_) => {
            let mut m = copy_map(v);
            apply_response_object(&mut m, renames, defaults, drops, unmapped_field_behavior);
            JsonValue::Object(m)
        },
        JsonValue::Array(a) => {
            let mut out: Vec<JsonValue> = Vec::new();
            let mut i: usize = 0;
            while i < a.len()
                invariant
                    i <= a.len(),
                    *v == JsonValue::Array(*a),
                    r == rules_of(*renames, *defaults, drops@),
                    out@.len() == i,
                    forall|j: int| 0 <= j < i ==> #[trigger] out@[j].tree() == response_tree(a@[j].tree(), r),
                decreases a.len() - i,
            {
                proof {
                    let x = *v;
                    assert(decreases_to!(x => x->Array_0));
                    assert(decreases_to!(x->Array_0 => (x->Array_0)@));
                    assert(decreases_to!((x->Array_0)@ => (x->Array_0)@[i as int]));
                    assert(decreases_to!(x => a@[i as int]));
                }
                out.push(response_copy(&a[i], renames, defaults, drops, unmapped_field_behavior));
                i += 1;
            }
            proof {
                lemma_trees(out@);
                lemma_trees(a@);
                lemma_response_list(trees(a@), r);
                assert(trees(out@) =~= response_list(trees(a@), r));
            }
            JsonValue::Array(out)
        },
        _ => v.clone(),
    }
}

/// A copy of `v` with the request rules applied.
fn request_copy(v: &JsonValue, fm: &FieldMapping) -> (out: JsonValue)
    ensures
        out.tree() == request_tree(v.tree(), field_rules(*fm)),
    decreases v,
{
    let ghost r = field_rules(*fm);
    match v {
        JsonValue::Object(_) => {
            let mut m = copy_map(v);
            apply_request_object(&mut m, fm);
            JsonValue::Object(m)
        },
        JsonValue::Array(a) => {
            let mut out: Vec<JsonValue> = Vec::new();
            let mut i: usize = 0;
            while i < a.len()
                invariant
                    i <= a.len(),
                    *v == JsonValue::Array(*a),
                    r == field_rules(*fm),
                    out@.len() == i,
                    forall|j: int| 0 <= j < i ==> #[trigger] out@[j].tree() == request_tree(a@[j].tree(), r),
                decreases a.len() - i,
            {
                proof {
                    let x = *v;
                    assert(decreases_to!(x => x->Array_0));
                    assert(decreases_to!(x->Array_0 => (x->Array_0)@));
                    assert(decreases_to!((x->Array_0)@ => (x->Array_0)@[i as int]));
                    assert(decreases_to!(x => a@[i as int]));
                }
                out.push(request_copy(&a[i], fm));
                i += 1;
            }
            proof {
                lemma_trees(out@);
                lemma_trees(a@);
                lemma_request_list(trees(a@), r);
                assert(trees(out@) =~= request_list(trees(a@), r));
            }
            JsonValue::Array(out)
        },
        _ => v.clone(),
    }
}

fn apply_response_field_mapping(body: &mut JsonValue, fm: &FieldMapping, unmapped_field_behavior: &UnmappedFieldBehavior)
    ensures
        final(body).tree() == response_tree(old(body).tree(), field_rules(*fm)),
{
    let out = response_copy(body, &fm.renames, &fm.defaults, &fm.drops, unmapped_field_behavior);
    *body = out;
}

fn apply_request_object(map: &mut KeyedMap<JsonValue>, fm: &FieldMapping)
    ensures
        record(final(map).as_map()) == request_record(record(old(map).as_map()), field_rules(*fm)),
{
    // Mirror of the response direction: source_name -> target_name, but
    // here the body is source-shaped and we rename forward to target_name.
    rename_forward(map, &fm.renames);
    // `defaults` describes fields the source has but the target lacks --
    // the target won't understand them, so strip them from outgoing requests.
    remove_default_keys(map, &fm.defaults);
    // `drops` describes target-only fields; nothing to do on the way in.
}

fn apply_request_field_mapping(body: &mut JsonValue, fm: &FieldMapping)
    ensures
        final(body).tree() == request_tree(old(body).tree(), field_rules(*fm)),
{
    let out = request_copy(body, fm);
    *body = out;
}

fn transform_value_with_schema(val: &mut JsonValue, schema: &SchemaMapping, unmapped_field_behavior: &UnmappedFieldBehavior)
    ensures
        final(val).tree() == response_tree(old(val).tree(), schema_rules(*schema)),
{
    let out = response_copy(val, &schema.renames, &schema.defaults, &schema.drops, unmapped_field_behavior);
    *val = out;
}

/// The schema maps by name: for each name, the last schema with it.
pub open spec fn registry_of(schemas: Seq<SchemaMapping>) -> Map<Seq<char>, SchemaMapping> {
    Map::new(
        |n: Seq<char>| existing_schema_for(schemas, n) is Some,
        |n: Seq<char>| schemas[existing_schema_for(schemas, n)->0],
    )
}

pub struct SchemaRegistry<'a> {
    by_name: KeyedMap<&'a SchemaMapping>,
}

impl<'a> SchemaRegistry<'a> {
    /// The schema maps the registry holds, by name.
    pub closed spec fn schemas(self) -> Map<Seq<char>, SchemaMapping> {
        self.by_name.as_map().map_values(|s: &SchemaMapping| *s)
    }

    pub fn from_mapping_file(mf: &'a MappingFile) -> (r: Self)
        ensures
            r.schemas() == registry_of(mf.schemas@),
    {
        let ghost s = mf.schemas@;
        let mut by_name: KeyedMap<&'a SchemaMapping> = KeyedMap::new();
        let mut i: usize = 0;
        while i < mf.schemas.len()
            invariant
                i <= s.len(),
                s == mf.schemas@,
                forall|n: Seq<char>| #[trigger] by_name.as_map().contains_key(n) <==> last_with_name(s, n, i as int) is Some,
                forall|n: Seq<char>| #[trigger] by_name.as_map().contains_key(n) ==> *by_name.as_map()[n] == s[last_with_name(s, n, i as int)->0],
            decreases s.len() - i,
        {
            let sm = &mf.schemas[i];
            by_name.insert(sm.name.clone(), sm);
            i += 1;
        }
        let r = SchemaRegistry { by_name };
        assert(r.schemas() =~= registry_of(s));
        r
    }

    pub fn get(&self, name: &str) -> (r: Option<&'a SchemaMapping>)
        ensures
            r is Some <==> self.schemas().contains_key(name@),
            r matches Some(x) ==> *x == self.schemas()[name@],
    {
        match self.by_name.get(name) {
            Some(x) => Some(*x),
            None => None,
        }
    }
}

/// The nested references of a field mapping: (path, schema map name).
pub open spec fn nested_pairs(ns: Seq<NestedMapping>) -> Seq<(Seq<char>, Seq<char>)> {
    ns.map_values(|n: NestedMapping| (n.path@, n.schema_map@))
}

/// Each nested reference whose member is present and whose schema map is
/// known rewrites that member with the schema map's rules, in order.
pub open spec fn nested_applied(m: Map<Seq<char>, JsonTree>, ns: Seq<(Seq<char>, Seq<char>)>, reg: Map<Seq<char>, SchemaMapping>) -> Map<Seq<char>, JsonTree>
    decreases ns.len(),
{
    if ns.len() == 0 {
        m
    } else {
        let prev = nested_applied(m, ns.drop_last(), reg);
        let (p, s) = ns.last();
        if prev.contains_key(p) && reg.contains_key(s) {
            prev.insert(p, response_tree(prev[p], schema_rules(reg[s])))
        } else {
            prev
        }
    }
}

pub open spec fn with_nested(t: JsonTree, ns: Seq<(Seq<char>, Seq<char>)>, reg: Map<Seq<char>, SchemaMapping>) -> JsonTree {
    match t {
        JsonTree::Record(m) => JsonTree::Record(nested_applied(m, ns, reg)),
        _ => t,
    }
}

/// A response body in the source API's shape: the endpoint's response
/// rules, then its nested schema maps on the top object or on each object
/// of a top array.
pub open spec fn transformed_response(t: JsonTree, endpoint: EndpointMapping, reg: Map<Seq<char>, SchemaMapping>) -> JsonTree {
    let ns = nested_pairs(endpoint.response.nested@);
    match response_tree(t, field_rules(endpoint.response)) {
        JsonTree::Record(m) => JsonTree::Record(nested_applied(m, ns, reg)),
        JsonTree::List(items) => JsonTree::List(items.map_values(|x: JsonTree| with_nested(x, ns, reg))),
        other => other,
    }
}

/// A request body in the target API's shape.
pub open spec fn transformed_request(t: JsonTree, endpoint: EndpointMapping) -> JsonTree {
    request_tree(t, field_rules(endpoint.request))
}

fn apply_nested(map: &mut KeyedMap<JsonValue>, nested: &Vec<NestedMapping>, registry: &SchemaRegistry, unmapped_field_behavior: &UnmappedFieldBehavior)
    ensures
        record(final(map).as_map()) == nested_applied(record(old(map).as_map()), nested_pairs(nested@), registry.schemas()),
{
    let ghost start = record(map.as_map());
    let ghost ns = nested_pairs(nested@);
    let mut i: usize = 0;
    while i < nested.len()
        invariant
            i <= nested@.len(),
            ns == nested_pairs(nested@),
            record(map.as_map()) == nested_applied(start, ns.take(i as int), registry.schemas()),
        decreases nested@.len() - i,
    {
        let n = &nested[i];
        let ghost before = map.as_map();
        assert(ns.take(i + 1).drop_last() =~= ns.take(i as int));
        assert(ns.take(i + 1).last() == (n.path@, n.schema_map@));
        if map.contains_key(n.path.as_str()) {
            if let Some(schema) = registry.get(n.schema_map.as_str()) {
                if let Some(mut val) = map.remove(n.path.as_str()) {
                    transform_value_with_schema(&mut val, schema, unmapped_field_behavior);
                    map.insert(n.path.clone(), val);
                    assert(record(map.as_map()) =~= record(before).insert(n.path@,
                        response_tree(record(before)[n.path@], schema_rules(*schema))));
                }
            }
        }
        i += 1;
    }
    assert(ns.take(nested@.len() as int) =~= ns);
}

/// Transform a response body received from the target API into the shape
/// the source-speaking client expects.
pub fn transform_response(body: &mut JsonValue, endpoint: &EndpointMapping, registry: &SchemaRegistry, unmapped_field_behavior: &UnmappedFieldBehavior)
    ensures
        final(body).tree() == transformed_response(old(body).tree(), *endpoint, registry.schemas()),
{
    apply_response_field_mapping(body, &endpoint.response, unmapped_field_behavior);
    let ghost ns = nested_pairs(endpoint.response.nested@);
    let ghost reg = registry.schemas();
    let mut taken = JsonValue::Null;
    std::mem::swap(&mut taken, body);
    let ghost t1 = taken.tree();
    let result = match taken {
        JsonValue::Object(mut map) => {
            apply_nested(&mut map, &endpoint.response.nested, registry, unmapped_field_behavior);
            JsonValue::Object(map)
        },
        JsonValue::Array(mut items) => {
            let ghost orig = items@;
            let n = items.len();
            let mut rev: Vec<JsonValue> = Vec::new();
            while items.len() > 0
                invariant
                    items@.len() + rev@.len() == n,
                    n == orig.len(),
                    forall|j: int| 0 <= j < items@.len() ==> #[trigger] items@[j] == orig[j],
                    forall|j: int| 0 <= j < rev@.len() ==> #[trigger] rev@[j] == orig[n - 1 - j],
                decreases items@.len(),
            {
                let x = items.pop().unwrap();
                rev.push(x);
            }
            let mut out: Vec<JsonValue> = Vec::new();
            while rev.len() > 0
                invariant
                    rev@.len() + out@.len() == n,
                    n == orig.len(),
                    ns == nested_pairs(endpoint.response.nested@),
                    reg == registry.schemas(),
                    forall|j: int| 0 <= j < rev@.len() ==> #[trigger] rev@[j] == orig[n - 1 - j],
                    forall|j: int| 0 <= j < out@.len() ==> #[trigger] out@[j].tree() == with_nested(orig[j].tree(), ns, reg),
                decreases rev@.len(),
            {
                let x = rev.pop().unwrap();
                let ghost k = out@.len() as int;
                assert(x == orig[k]);
                let y = match x {
                    JsonValue::Object(mut map) => {
                        apply_nested(&mut map, &endpoint.response.nested, registry, unmapped_field_behavior);
                        JsonValue::Object(map)
                    },
                    other => other,
                };
                out.push(y);
            }
            proof {
                lemma_trees(out@);
                lemma_trees(orig);
                assert(trees(out@) =~= trees(orig).map_values(|x: JsonTree| with_nested(x, ns, reg)));
            }
            JsonValue::Array(out)
        },
        other => other,
    };
    *body = result;
}

/// Transform a request body coming from the source-speaking client into the
/// shape the target API expects (the mirror image of `transform_response`).
pub fn transform_request(body: &mut JsonValue, endpoint: &EndpointMapping)
    ensures
        final(body).tree() == transformed_request(old(body).tree(), *endpoint),
{
    apply_request_field_mapping(body, &endpoint.request);
}

/// Rename rules that can be undone: no name is used twice, on either
/// side, and no target name is also a source name.
pub open spec fn renames_invertible(rs: Seq<(Seq<char>, Seq<char>)>) -> bool {
    &&& forall|i: int, j: int| 0 <= i < rs.len() && 0 <= j < rs.len() && i != j ==> #[trigger] rs[i].0 != #[trigger] rs[j].0
    &&& forall|i: int, j: int| 0 <= i < rs.len() && 0 <= j < rs.len() && i != j ==> #[trigger] rs[i].1 != #[trigger] rs[j].1
    &&& forall|i: int, j: int| 0 <= i < rs.len() && 0 <= j < rs.len() ==> #[trigger] rs[i].0 != #[trigger] rs[j].1
}

/// The object holds none of the rules' target names.
pub open spec fn holds_no_target(m: Map<Seq<char>, JsonTree>, rs: Seq<(Seq<char>, Seq<char>)>) -> bool {
    forall|i: int| 0 <= i < rs.len() ==> !m.contains_key(#[trigger] rs[i].1)
}

/// The object holds none of the rules' source names.
pub open spec fn holds_no_source(m: Map<Seq<char>, JsonTree>, rs: Seq<(Seq<char>, Seq<char>)>) -> bool {
    forall|i: int| 0 <= i < rs.len() ==> !m.contains_key(#[trigger] rs[i].0)
}

/// `out` is `m` with each source name's value moved to its target name.
pub open spec fn moved_to_targets(m: Map<Seq<char>, JsonTree>, out: Map<Seq<char>, JsonTree>, rs: Seq<(Seq<char>, Seq<char>)>) -> bool {
    &&& forall|i: int| 0 <= i < rs.len() ==> (out.contains_key(#[trigger] rs[i].1) == m.contains_key(rs[i].0))
    &&& forall|i: int| 0 <= i < rs.len() && m.contains_key(#[trigger] rs[i].0) ==> out[rs[i].1] == m[rs[i].0]
    &&& forall|i: int| 0 <= i < rs.len() ==> !out.contains_key(#[trigger] rs[i].0)
    &&& forall|k: Seq<char>| (forall|i: int| 0 <= i < rs.len() ==> k != #[trigger] rs[i].0 && k != rs[i].1)
        ==> (#[trigger] out.contains_key(k) == m.contains_key(k) && (m.contains_key(k) ==> out[k] == m[k]))
}

/// `out` is `m` with each target name's value moved to its source name.
pub open spec fn moved_to_sources(m: Map<Seq<char>, JsonTree>, out: Map<Seq<char>, JsonTree>, rs: Seq<(Seq<char>, Seq<char>)>) -> bool {
    &&& forall|i: int| 0 <= i < rs.len() ==> (out.contains_key(#[trigger] rs[i].0) == m.contains_key(rs[i].1))
    &&& forall|i: int| 0 <= i < rs.len() && m.contains_key(#[trigger] rs[i].1) ==> out[rs[i].0] == m[rs[i].1]
    &&& forall|i: int| 0 <= i < rs.len() ==> !out.contains_key(#[trigger] rs[i].1)
    &&& forall|k: Seq<char>| (forall|i: int| 0 <= i < rs.len() ==> k != #[trigger] rs[i].0 && k != rs[i].1)
        ==> (#[trigger] out.contains_key(k) == m.contains_key(k) && (m.contains_key(k) ==> out[k] == m[k]))
}

proof fn lemma_renamed_forward(m: Map<Seq<char>, JsonTree>, rs: Seq<(Seq<char>, Seq<char>)>)
    requires
        renames_invertible(rs),
        holds_no_target(m, rs),
    ensures
        moved_to_targets(m, renamed_forward(m, rs), rs),
    decreases rs.len(),
{
    if rs.len() > 0 {
        let rs0 = rs.drop_last();
        let l = rs.len() - 1;
        assert(rs[l] == rs.last());
        assert forall|i: int| 0 <= i < rs0.len() implies #[trigger] rs0[i] == rs[i] by {}
        assert(renames_invertible(rs0)) by {
            assert forall|i: int, j: int| 0 <= i < rs0.len() && 0 <= j < rs0.len() implies #[trigger] rs0[i].0 != #[trigger] rs0[j].1 by {
                assert(rs0[i] == rs[i] && rs0[j] == rs[j]);
            }
            assert forall|i: int, j: int| 0 <= i < rs0.len() && 0 <= j < rs0.len() && i != j implies #[trigger] rs0[i].0 != #[trigger] rs0[j].0 by {
                assert(rs0[i] == rs[i] && rs0[j] == rs[j]);
            }
            assert forall|i: int, j: int| 0 <= i < rs0.len() && 0 <= j < rs0.len() && i != j implies #[trigger] rs0[i].1 != #[trigger] rs0[j].1 by {
                assert(rs0[i] == rs[i] && rs0[j] == rs[j]);
            }
        }
        assert(holds_no_target(m, rs0)) by {
            assert forall|i: int| 0 <= i < rs0.len() implies !m.contains_key(#[trigger] rs0[i].1) by {
                assert(rs0[i] == rs[i]);
            }
        }
        lemma_renamed_forward(m, rs0);
        let prev = renamed_forward(m, rs0);
        let (s, t) = rs.last();
        assert forall|i: int| 0 <= i < rs0.len() implies s != #[trigger] rs0[i].0 && s != rs0[i].1
            && t != rs0[i].0 && t != rs0[i].1 by {
            assert(rs0[i] == rs[i]);
            assert(rs[i].0 != rs[l].0);
            assert(rs[l].0 != rs[i].1);
            assert(rs[i].0 != rs[l].1);
            assert(rs[i].1 != rs[l].1);
        }
        assert(prev.contains_key(s) == m.contains_key(s));
        assert(!prev.contains_key(t)) by {
            assert(!m.contains_key(rs[l].1));
        }
        let out = renamed_forward(m, rs);
        assert forall|i: int| 0 <= i < rs.len() implies (out.contains_key(#[trigger] rs[i].1)
            == m.contains_key(rs[i].0)) by {
            if i < l {
                assert(rs0[i] == rs[i]);
            }
        }
        assert forall|i: int| 0 <= i < rs.len() && m.contains_key(#[trigger] rs[i].0)
            implies out[rs[i].1] == m[rs[i].0] by {
            if i < l {
                assert(rs0[i] == rs[i]);
            }
        }
        assert forall|i: int| 0 <= i < rs.len() implies !out.contains_key(#[trigger] rs[i].0) by {
            if i < l {
                assert(rs0[i] == rs[i]);
            }
        }
        assert forall|k: Seq<char>| (forall|i: int| 0 <= i < rs.len() ==> k != #[trigger] rs[i].0 && k != rs[i].1)
            implies (#[trigger] out.contains_key(k) == m.contains_key(k) && (m.contains_key(k) ==> out[k] == m[k])) by {
            assert(k != rs[l].0 && k != rs[l].1);
            assert forall|i: int| 0 <= i < rs0.len() implies k != #[trigger] rs0[i].0 && k != rs0[i].1 by {
                assert(rs0[i] == rs[i]);
                assert(k != rs[i].0 && k != rs[i].1);
            }
        }
    }
}

proof fn lemma_renamed_back(m: Map<Seq<char>, JsonTree>, rs: Seq<(Seq<char>, Seq<char>)>)
    requires
        renames_invertible(rs),
        holds_no_source(m, rs),
    ensures
        moved_to_sources(m, renamed_back(m, rs), rs),
    decreases rs.len(),
{
    if rs.len() > 0 {
        let rs0 = rs.drop_last();
        let l = rs.len() - 1;
        assert(rs[l] == rs.last());
        assert(renames_invertible(rs0)) by {
            assert forall|i: int, j: int| 0 <= i < rs0.len() && 0 <= j < rs0.len() implies #[trigger] rs0[i].0 != #[trigger] rs0[j].1 by {
                assert(rs0[i] == rs[i] && rs0[j] == rs[j]);
            }
            assert forall|i: int, j: int| 0 <= i < rs0.len() && 0 <= j < rs0.len() && i != j implies #[trigger] rs0[i].0 != #[trigger] rs0[j].0 by {
                assert(rs0[i] == rs[i] && rs0[j] == rs[j]);
            }
            assert forall|i: int, j: int| 0 <= i < rs0.len() && 0 <= j < rs0.len() && i != j implies #[trigger] rs0[i].1 != #[trigger] rs0[j].1 by {
                assert(rs0[i] == rs[i] && rs0[j] == rs[j]);
            }
        }
        assert(holds_no_source(m, rs0)) by {
            assert forall|i: int| 0 <= i < rs0.len() implies !m.contains_key(#[trigger] rs0[i].0) by {
                assert(rs0[i] == rs[i]);
            }
        }
        lemma_renamed_back(m, rs0);
        let prev = renamed_back(m, rs0);
        let (s, t) = rs.last();
        assert forall|i: int| 0 <= i < rs0.len() implies s != #[trigger] rs0[i].0 && s != rs0[i].1
            && t != rs0[i].0 && t != rs0[i].1 by {
            assert(rs0[i] == rs[i]);
            assert(rs[i].0 != rs[l].0);
            assert(rs[l].0 != rs[i].1);
            assert(rs[i].0 != rs[l].1);
            assert(rs[i].1 != rs[l].1);
        }
        assert(prev.contains_key(t) == m.contains_key(t));
        assert(!prev.contains_key(s)) by {
            assert(!m.contains_key(rs[l].0));
        }
        let out = renamed_back(m, rs);
        assert forall|i: int| 0 <= i < rs.len() implies (out.contains_key(#[trigger] rs[i].0)
            == m.contains_key(rs[i].1)) by {
            if i < l {
                assert(rs0[i] == rs[i]);
            }
        }
        assert forall|i: int| 0 <= i < rs.len() && m.contains_key(#[trigger] rs[i].1)
            implies out[rs[i].0] == m[rs[i].1] by {
            if i < l {
                assert(rs0[i] == rs[i]);
            }
        }
        assert forall|i: int| 0 <= i < rs.len() implies !out.contains_key(#[trigger] rs[i].1) by {
            if i < l {
                assert(rs0[i] == rs[i]);
            }
        }
        assert forall|k: Seq<char>| (forall|i: int| 0 <= i < rs.len() ==> k != #[trigger] rs[i].0 && k != rs[i].1)
            implies (#[trigger] out.contains_key(k) == m.contains_key(k) && (m.contains_key(k) ==> out[k] == m[k])) by {
            assert(k != rs[l].0 && k != rs[l].1);
            assert forall|i: int| 0 <= i < rs0.len() implies k != #[trigger] rs0[i].0 && k != rs0[i].1 by {
                assert(rs0[i] == rs[i]);
                assert(k != rs[i].0 && k != rs[i].1);
            }
        }
    }
}

/// Renames undo each other: an object renamed source -> target on its way
/// to the target API, and renamed back target -> source on its way back,
/// is the object it was, for rules that only rename (no defaults, no
/// drops) with invertible renames, on an object that holds no target name.
pub proof fn lemma_rename_round_trip(m: Map<Seq<char>, JsonTree>, r: RulesView)
    requires
        r.defaults.len() == 0,
        r.drops.len() == 0,
        renames_invertible(r.renames),
        holds_no_target(m, r.renames),
    ensures
        response_record(request_record(m, r), r) == m,
{
    let rs = r.renames;
    let f = renamed_forward(m, rs);
    lemma_renamed_forward(m, rs);
    assert(request_record(m, r) == f) by {
        assert(entry_keys_of(r.defaults) =~= Seq::<Seq<char>>::empty());
    }
    assert(holds_no_source(f, rs));
    lemma_renamed_back(f, rs);
    let g = renamed_back(f, rs);
    assert(response_record(f, r) == g) by {
        assert(defaulted(g, r.defaults) == g);
    }
    assert forall|k: Seq<char>| #[trigger] g.contains_key(k) == m.contains_key(k) && (m.contains_key(k) ==> g[k] == m[k]) by {
        if exists|i: int| 0 <= i < rs.len() && #[trigger] rs[i].0 == k {
            let i = choose|i: int| 0 <= i < rs.len() && #[trigger] rs[i].0 == k;
            assert(g.contains_key(rs[i].0) == f.contains_key(rs[i].1));
            assert(f.contains_key(rs[i].1) == m.contains_key(rs[i].0));
        } else if exists|i: int| 0 <= i < rs.len() && #[trigger] rs[i].1 == k {
            let i = choose|i: int| 0 <= i < rs.len() && #[trigger] rs[i].1 == k;
            assert(!g.contains_key(rs[i].1));
            assert(!m.contains_key(rs[i].1));
        } else {
            assert forall|i: int| 0 <= i < rs.len() implies k != #[trigger] rs[i].0 && k != rs[i].1 by {}
        }
    }
    assert(g =~= m);
}

/// A field name that no rule of `r` mentions.
pub open spec fn unmentioned(r: RulesView, k: Seq<char>) -> bool {
    &&& forall|i: int| #![trigger r.renames[i]] 0 <= i < r.renames.len() ==> r.renames[i].0 != k && r.renames[i].1 != k
    &&& forall|i: int| #![trigger r.defaults[i]] 0 <= i < r.defaults.len() ==> r.defaults[i].0 != k
    &&& forall|i: int| #![trigger r.drops[i]] 0 <= i < r.drops.len() ==> r.drops[i] != k
}

proof fn lemma_renamed_back_keeps(m: Map<Seq<char>, JsonTree>, rs: Seq<(Seq<char>, Seq<char>)>, k: Seq<char>)
    requires
        forall|i: int| #![trigger rs[i]] 0 <= i < rs.len() ==> rs[i].0 != k && rs[i].1 != k,
    ensures
        renamed_back(m, rs).contains_key(k) == m.contains_key(k),
        m.contains_key(k) ==> renamed_back(m, rs)[k] == m[k],
    decreases rs.len(),
{
    if rs.len() > 0 {
        assert(rs.last() == rs[rs.len() - 1]);
        assert forall|i: int| #![trigger rs.drop_last()[i]] 0 <= i < rs.len() - 1 implies rs.drop_last()[i].0 != k && rs.drop_last()[i].1 != k by {
            assert(rs.drop_last()[i] == rs[i]);
        }
        lemma_renamed_back_keeps(m, rs.drop_last(), k);
    }
}

proof fn lemma_renamed_forward_keeps(m: Map<Seq<char>, JsonTree>, rs: Seq<(Seq<char>, Seq<char>)>, k: Seq<char>)
    requires
        forall|i: int| #![trigger rs[i]] 0 <= i < rs.len() ==> rs[i].0 != k && rs[i].1 != k,
    ensures
        renamed_forward(m, rs).contains_key(k) == m.contains_key(k),
        m.contains_key(k) ==> renamed_forward(m, rs)[k] == m[k],
    decreases rs.len(),
{
    if rs.len() > 0 {
        assert(rs.last() == rs[rs.len() - 1]);
        assert forall|i: int| #![trigger rs.drop_last()[i]] 0 <= i < rs.len() - 1 implies rs.drop_last()[i].0 != k && rs.drop_last()[i].1 != k by {
            assert(rs.drop_last()[i] == rs[i]);
        }
        lemma_renamed_forward_keeps(m, rs.drop_last(), k);
    }
}

proof fn lemma_defaulted_keeps(m: Map<Seq<char>, JsonTree>, ds: Seq<(Seq<char>, JsonTree)>, k: Seq<char>)
    requires
        forall|i: int| #![trigger ds[i]] 0 <= i < ds.len() ==> ds[i].0 != k,
    ensures
        defaulted(m, ds).contains_key(k) == m.contains_key(k),
        m.contains_key(k) ==> defaulted(m, ds)[k] == m[k],
    decreases ds.len(),
{
    if ds.len() > 0 {
        assert(ds.last() == ds[ds.len() - 1]);
        assert forall|i: int| #![trigger ds.drop_last()[i]] 0 <= i < ds.len() - 1 implies ds.drop_last()[i].0 != k by {
            assert(ds.drop_last()[i] == ds[i]);
        }
        lemma_defaulted_keeps(m, ds.drop_last(), k);
    }
}

proof fn lemma_without_keeps(m: Map<Seq<char>, JsonTree>, ks: Seq<Seq<char>>, k: Seq<char>)
    requires
        forall|i: int| #![trigger ks[i]] 0 <= i < ks.len() ==> ks[i] != k,
    ensures
        without(m, ks).contains_key(k) == m.contains_key(k),
        m.contains_key(k) ==> without(m, ks)[k] == m[k],
    decreases ks.len(),
{
    if ks.len() > 0 {
        assert(ks.last() == ks[ks.len() - 1]);
        assert forall|i: int| #![trigger ks.drop_last()[i]] 0 <= i < ks.len() - 1 implies ks.drop_last()[i] != k by {
            assert(ks.drop_last()[i] == ks[i]);
        }
        lemma_without_keeps(m, ks.drop_last(), k);
    }
}

/// A field that no rule mentions passes both ways untouched: same-named
/// fields need no rule, the key being the same on both sides.
pub proof fn lemma_unmentioned_field_kept(m: Map<Seq<char>, JsonTree>, r: RulesView, k: Seq<char>)
    requires
        unmentioned(r, k),
    ensures
        response_record(m, r).contains_key(k) == m.contains_key(k),
        m.contains_key(k) ==> response_record(m, r)[k] == m[k],
        request_record(m, r).contains_key(k) == m.contains_key(k),
        m.contains_key(k) ==> request_record(m, r)[k] == m[k],
{
    lemma_renamed_back_keeps(m, r.renames, k);
    lemma_defaulted_keeps(renamed_back(m, r.renames), r.defaults, k);
    lemma_without_keeps(defaulted(renamed_back(m, r.renames), r.defaults), r.drops, k);
    lemma_renamed_forward_keeps(m, r.renames, k);
    let ks = entry_keys_of(r.defaults);
    assert forall|i: int| #![trigger ks[i]] 0 <= i < ks.len() implies ks[i] != k by {
        assert(ks[i] == r.defaults[i].0);
    }
    lemma_without_keeps(renamed_forward(m, r.renames), ks, k);
}

/// Arrays are translated element by element, both ways: a list body comes
/// out as the list of its elements' translations.
pub proof fn lemma_lists_elementwise(s: Seq<JsonTree>, r: RulesView)
    ensures
        response_tree(JsonTree::List(s), r) == JsonTree::List(s.map_values(|x: JsonTree| response_tree(x, r))),
        request_tree(JsonTree::List(s), r) == JsonTree::List(s.map_values(|x: JsonTree| request_tree(x, r))),
{
    lemma_response_list(s, r);
    lemma_request_list(s, r);
    assert(response_list(s, r) =~= s.map_values(|x: JsonTree| response_tree(x, r)));
    assert(request_list(s, r) =~= s.map_values(|x: JsonTree| request_tree(x, r)));
}

/// A request body that is a list goes upstream as the list of its
/// elements, each translated as a request body of its own.
pub proof fn lemma_request_list_body(s: Seq<JsonTree>, e: EndpointMapping)
    ensures
        transformed_request(JsonTree::List(s), e) == JsonTree::List(s.map_values(|x: JsonTree| transformed_request(x, e))),
{
    lemma_lists_elementwise(s, field_rules(e.request));
    assert(s.map_values(|x: JsonTree| request_tree(x, field_rules(e.request)))
        =~= s.map_values(|x: JsonTree| transformed_request(x, e)));
}

/// Renames undo each other on a list of objects too: with rename-only,
/// invertible rules, a list of objects none of which holds a target name,
/// sent as a request and read back as a response, is the list it was.
pub proof fn lemma_rename_round_trip_list(objs: Seq<Map<Seq<char>, JsonTree>>, r: RulesView)
    requires
        r.defaults.len() == 0,
        r.drops.len() == 0,
        renames_invertible(r.renames),
        forall|i: int| 0 <= i < objs.len() ==> holds_no_target(#[trigger] objs[i], r.renames),
    ensures
        ({
            let body = JsonTree::List(objs.map_values(|m: Map<Seq<char>, JsonTree>| JsonTree::Record(m)));
            response_tree(request_tree(body, r), r) == body
        }),
{
    let items = objs.map_values(|m: Map<Seq<char>, JsonTree>| JsonTree::Record(m));
    lemma_lists_elementwise(items, r);
    let sent = items.map_values(|x: JsonTree| request_tree(x, r));
    lemma_lists_elementwise(sent, r);
    let back = sent.map_values(|x: JsonTree| response_tree(x, r));
    assert forall|i: int| 0 <= i < items.len() implies #[trigger] back[i] == items[i] by {
        lemma_rename_round_trip(objs[i], r);
    }
    assert(back =~= items);
}

/// Applying nested schema maps keeps the body's member names.
proof fn lemma_nested_dom(m: Map<Seq<char>, JsonTree>, ns: Seq<(Seq<char>, Seq<char>)>, reg: Map<Seq<char>, SchemaMapping>)
    ensures
        nested_applied(m, ns, reg).dom() == m.dom(),
    decreases ns.len(),
{
    if ns.len() > 0 {
        lemma_nested_dom(m, ns.drop_last(), reg);
        let prev = nested_applied(m, ns.drop_last(), reg);
        let (p, s) = ns.last();
        if prev.contains_key(p) && reg.contains_key(s) {
            assert(prev.insert(p, response_tree(prev[p], schema_rules(reg[s]))).dom() =~= prev.dom());
        }
    }
}

/// A member that no nested entry names is left as it is.
pub proof fn lemma_nested_other_members_kept(m: Map<Seq<char>, JsonTree>, ns: Seq<(Seq<char>, Seq<char>)>, reg: Map<Seq<char>, SchemaMapping>, q: Seq<char>)
    requires
        forall|k: int| 0 <= k < ns.len() ==> (#[trigger] ns[k]).0 != q,
    ensures
        nested_applied(m, ns, reg).contains_key(q) == m.contains_key(q),
        m.contains_key(q) ==> nested_applied(m, ns, reg)[q] == m[q],
    decreases ns.len(),
{
    lemma_nested_dom(m, ns, reg);
    if ns.len() > 0 {
        assert forall|k: int| 0 <= k < ns.len() - 1 implies (#[trigger] ns.drop_last()[k]).0 != q by {
            assert(ns.drop_last()[k] == ns[k]);
        }
        lemma_nested_other_members_kept(m, ns.drop_last(), reg, q);
        assert(ns.last() == ns[ns.len() - 1]);
    }
}

/// Each nested schema map applies to its member, whatever the member's
/// shape: with no path named twice, a present member whose schema map is
/// known becomes that member as a response body under the schema map's
/// rules (an array member element by element).
pub proof fn lemma_nested_member_mapped(m: Map<Seq<char>, JsonTree>, ns: Seq<(Seq<char>, Seq<char>)>, reg: Map<Seq<char>, SchemaMapping>, k: int)
    requires
        forall|a: int, b: int| 0 <= a < b < ns.len() ==> (#[trigger] ns[a]).0 != (#[trigger] ns[b]).0,
        0 <= k < ns.len(),
        m.contains_key(ns[k].0),
        reg.contains_key(ns[k].1),
    ensures
        nested_applied(m, ns, reg).contains_key(ns[k].0),
        nested_applied(m, ns, reg)[ns[k].0] == response_tree(m[ns[k].0], schema_rules(reg[ns[k].1])),
    decreases ns.len(),
{
    let last = ns.len() - 1;
    let prevs = ns.drop_last();
    lemma_nested_dom(m, ns, reg);
    if k == last {
        assert forall|j: int| 0 <= j < prevs.len() implies (#[trigger] prevs[j]).0 != ns[k].0 by {
            assert(prevs[j] == ns[j]);
        }
        lemma_nested_other_members_kept(m, prevs, reg, ns[k].0);
        assert(ns.last() == ns[k]);
    } else {
        assert forall|a: int, b: int| 0 <= a < b < prevs.len() implies (#[trigger] prevs[a]).0 != (#[trigger] prevs[b]).0 by {
            assert(prevs[a] == ns[a] && prevs[b] == ns[b]);
        }
        assert(prevs[k] == ns[k]);
        lemma_nested_member_mapped(m, prevs, reg, k);
        assert(ns.last() == ns[last]);
        assert(ns[last].0 != ns[k].0);
    }
}

/// A response body that is a list of objects comes back as the list of
/// its objects, each translated as a response body of its own (the
/// endpoint's rules, then its nested schema maps).
pub proof fn lemma_response_list_body(s: Seq<JsonTree>, e: EndpointMapping, reg: Map<Seq<char>, SchemaMapping>)
    requires
        forall|i: int| 0 <= i < s.len() ==> (#[trigger] s[i]) is Record,
    ensures
        transformed_response(JsonTree::List(s), e, reg) == JsonTree::List(s.map_values(|x: JsonTree| transformed_response(x, e, reg))),
{
    let r = field_rules(e.response);
    let ns = nested_pairs(e.response.nested@);
    lemma_response_list(s, r);
    let out = response_list(s, r).map_values(|x: JsonTree| with_nested(x, ns, reg));
    assert forall|i: int| 0 <= i < s.len() implies #[trigger] out[i] == transformed_response(s[i], e, reg) by {
        assert(response_list(s, r)[i] == response_tree(s[i], r));
    }
    assert(out =~= s.map_values(|x: JsonTree| transformed_response(x, e, reg)));
}

} // verus!
