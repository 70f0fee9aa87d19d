//! Field-level diffing between a source and a target shape, and the registry
//! of reusable schema maps discovered while diffing.
use vstd::prelude::*;
use crate::json::{JsonValue, JsonTree, KeyedMap, record};
use crate::mapping::types::{FieldMapping, NestedMapping, SchemaMapping};
use crate::search::{last_index, lemma_last_found, lemma_last_none, lemma_last_index};
use crate::spec::model::{ApiSpec, Body, Field, FieldType, types_compatible, type_debug_name, zero_tree, is_blank, of_kind, lemma_zero_is_blank};
use crate::text::{owned, append_str, str_eq, views, lex_sorted, sort_strings};

verus! {

/// An optional string, by its characters.
pub open spec fn opt_view(o: Option<String>) -> Option<Seq<char>> {
    match o {
        Some(s) => Some(s@),
        None => None,
    }
}

/// The target field that a source field named `name` meets: the last one
/// with that name.
pub open spec fn target_named(target: Seq<Field>, name: Seq<char>) -> Option<int> {
    last_index(target.len() as int, |ti: int| target[ti].name@ == name)
}

/// `source is {:?}, target is {:?}`
pub open spec fn conflict_message(s: FieldType, t: FieldType) -> Seq<char> {
    "source is "@ + type_debug_name(s) + ", target is "@ + type_debug_name(t)
}

/// The schema a field points at, directly or through its items.
pub open spec fn field_ref(f: Field) -> Option<Seq<char>> {
    match f.schema_ref {
        Some(r) => Some(r@),
        None => opt_view(f.item_schema_ref),
    }
}

/// A nested-schema reference for a same-named, compatible field pair: when
/// either side is an object (or an array of objects) and names a schema.
pub open spec fn nested_entry(sf: Field, tf: Field) -> Option<(Seq<char>, Option<Seq<char>>, Option<Seq<char>>)> {
    let objectish = sf.ty == FieldType::Object || tf.ty == FieldType::Object
        || sf.item_ty == Some(FieldType::Object) || tf.item_ty == Some(FieldType::Object);
    if objectish && (field_ref(sf) is Some || field_ref(tf) is Some) {
        Some((sf.name@, field_ref(sf), field_ref(tf)))
    } else {
        None
    }
}

/// Same-named fields whose types are incompatible, with the reason.
pub open spec fn conflicts_of(source: Seq<Field>, target: Seq<Field>) -> Map<Seq<char>, Seq<char>>
    decreases source.len(),
{
    if source.len() == 0 {
        Map::empty()
    } else {
        let prev = conflicts_of(source.drop_last(), target);
        let sf = source.last();
        match target_named(target, sf.name@) {
            Some(ti) => if !types_compatible(sf.ty, target[ti].ty) {
                prev.insert(sf.name@, conflict_message(sf.ty, target[ti].ty))
            } else {
                prev
            },
            None => prev,
        }
    }
}

/// Source-only fields, each with the zero value of its type.
pub open spec fn defaults_of(source: Seq<Field>, target: Seq<Field>) -> Map<Seq<char>, JsonTree>
    decreases source.len(),
{
    if source.len() == 0 {
        Map::empty()
    } else {
        let prev = defaults_of(source.drop_last(), target);
        let sf = source.last();
        match target_named(target, sf.name@) {
            Some(_) => prev,
            None => prev.insert(sf.name@, zero_tree(sf.ty)),
        }
    }
}

/// A generated default is the blank value of its field's type: every
/// default belongs to a source field of that name that the target lacks,
/// and holds `false`, `0`, empty text, an empty array or an empty object,
/// as the field's type calls for.
pub proof fn lemma_defaults_are_blank(source: Seq<Field>, target: Seq<Field>, k: Seq<char>)
    ensures
        defaults_of(source, target).contains_key(k) ==> {
            let v = defaults_of(source, target)[k];
            &&& is_blank(v)
            &&& target_named(target, k) is None
            &&& exists|i: int| 0 <= i < source.len() && (#[trigger] source[i]).name@ == k && of_kind(source[i].ty, v)
        },
    decreases source.len(),
{
    if source.len() > 0 {
        let sd = source.drop_last();
        lemma_defaults_are_blank(sd, target, k);
        let sf = source.last();
        lemma_zero_is_blank(sf.ty);
        let d = defaults_of(source, target);
        if d.contains_key(k) {
            if target_named(target, sf.name@) is None && sf.name@ == k {
                assert(source[source.len() - 1] == sf);
            } else {
                let i = choose|i: int| 0 <= i < sd.len() && (#[trigger] sd[i]).name@ == k && of_kind(sd[i].ty, defaults_of(sd, target)[k]);
                assert(source[i] == sd[i]);
            }
        }
    }
}

/// The target field a name meets is one with that name, and there is
/// none exactly where no target field has the name.
proof fn lemma_target_named(target: Seq<Field>, name: String)
    ensures
        target_named(target, name@) matches Some(j) ==> 0 <= j < target.len() && target[j].name@ == name@,
        target_named(target, name@) is None <==> !has_field_named(target, name@),
{
    let p = |ti: int| target[ti].name@ == name@;
    lemma_last_index(target.len() as int, p);
    assert(target_named(target, name@) == last_index(target.len() as int, p));
    if target_named(target, name@) is None {
        assert forall|j: int| 0 <= j < target.len() implies #[trigger] target[j].name@ != name@ by {
            assert(!p(j));
        }
    }
}

/// Each source field falls under exactly one rule: a name no target field
/// has becomes a default; a name whose target field (the last of that
/// name) has an incompatible type is a type conflict; a compatible pair
/// needs nothing. No name is both a default and a conflict.
pub proof fn lemma_fields_classified(source: Seq<Field>, target: Seq<Field>, name: String)
    ensures
        defaults_of(source, target).contains_key(name@) <==> has_field_named(source, name@) && !has_field_named(target, name@),
        conflicts_of(source, target).contains_key(name@) <==> exists|i: int| 0 <= i < source.len() && (#[trigger] source[i]).name@ == name@
            && (target_named(target, name@) matches Some(j) && !types_compatible(source[i].ty, target[j].ty)),
        !(defaults_of(source, target).contains_key(name@) && conflicts_of(source, target).contains_key(name@)),
    decreases source.len(),
{
    lemma_target_named(target, name);
    if source.len() > 0 {
        let sd = source.drop_last();
        lemma_fields_classified(sd, target, name);
        let sf = source.last();
        assert(source[source.len() - 1] == sf);
        if has_field_named(sd, name@) {
            let i = choose|i: int| 0 <= i < sd.len() && #[trigger] sd[i].name@ == name@;
            assert(source[i] == sd[i]);
        }
        if has_field_named(source, name@) && sf.name@ != name@ {
            let i = choose|i: int| 0 <= i < source.len() && #[trigger] source[i].name@ == name@;
            assert(sd[i] == source[i]);
        }
        if exists|i: int| 0 <= i < source.len() && (#[trigger] source[i]).name@ == name@
            && (target_named(target, name@) matches Some(j) && !types_compatible(source[i].ty, target[j].ty)) {
            let i = choose|i: int| 0 <= i < source.len() && (#[trigger] source[i]).name@ == name@
                && (target_named(target, name@) matches Some(j) && !types_compatible(source[i].ty, target[j].ty));
            if i < sd.len() {
                assert(sd[i] == source[i]);
            }
        }
        if exists|i: int| 0 <= i < sd.len() && (#[trigger] sd[i]).name@ == name@
            && (target_named(target, name@) matches Some(j) && !types_compatible(sd[i].ty, target[j].ty)) {
            let i = choose|i: int| 0 <= i < sd.len() && (#[trigger] sd[i]).name@ == name@
                && (target_named(target, name@) matches Some(j) && !types_compatible(sd[i].ty, target[j].ty));
            assert(source[i] == sd[i]);
        }
        lemma_target_named(target, sf.name);
    }
}

/// A name is dropped exactly when the target has a field of that name and
/// the source has none.
pub proof fn lemma_drops_classified(source: Seq<Field>, target: Seq<Field>, name: String)
    ensures
        target_only_names(source, target).contains(name@) <==> has_field_named(target, name@) && !has_field_named(source, name@),
    decreases target.len(),
{
    if target.len() > 0 {
        let td = target.drop_last();
        lemma_drops_classified(source, td, name);
        let prev = target_only_names(source, td);
        let cur = target_only_names(source, target);
        assert(target[target.len() - 1] == target.last());
        if has_field_named(td, name@) {
            let i = choose|i: int| 0 <= i < td.len() && #[trigger] td[i].name@ == name@;
            assert(target[i] == td[i]);
        }
        if has_field_named(target, name@) && target.last().name@ != name@ {
            let i = choose|i: int| 0 <= i < target.len() && #[trigger] target[i].name@ == name@;
            assert(td[i] == target[i]);
        }
        if !has_field_named(source, target.last().name@) {
            assert(cur == prev.push(target.last().name@));
            if prev.contains(name@) {
                let i = choose|i: int| 0 <= i < prev.len() && prev[i] == name@;
                assert(cur[i] == name@);
            }
            if cur.contains(name@) && target.last().name@ != name@ {
                let i = choose|i: int| 0 <= i < cur.len() && cur[i] == name@;
                assert(i < prev.len());
                assert(prev[i] == name@);
            }
            assert(cur[prev.len() as int] == target.last().name@);
        }
    }
}

/// Nested-schema references of the compatible same-named pairs, in source order.
pub open spec fn nested_of(source: Seq<Field>, target: Seq<Field>) -> Seq<(Seq<char>, Option<Seq<char>>, Option<Seq<char>>)>
    decreases source.len(),
{
    if source.len() == 0 {
        Seq::empty()
    } else {
        let prev = nested_of(source.drop_last(), target);
        let sf = source.last();
        match target_named(target, sf.name@) {
            Some(ti) => if types_compatible(sf.ty, target[ti].ty) {
                match nested_entry(sf, target[ti]) {
                    Some(e) => prev.push(e),
                    None => prev,
                }
            } else {
                prev
            },
            None => prev,
        }
    }
}

/// Whether some field is named `name`.
pub open spec fn has_field_named(fields: Seq<Field>, name: Seq<char>) -> bool {
    exists|i: int| 0 <= i < fields.len() && #[trigger] fields[i].name@ == name
}

/// Names of the target fields that no source field shares, in target order.
pub open spec fn target_only_names(source: Seq<Field>, target: Seq<Field>) -> Seq<Seq<char>>
    decreases target.len(),
{
    if target.len() == 0 {
        Seq::empty()
    } else {
        let prev = target_only_names(source, target.drop_last());
        if has_field_named(source, target.last().name@) {
            prev
        } else {
            prev.push(target.last().name@)
        }
    }
}

/// The views of nested-schema references.
pub open spec fn nested_views(v: Seq<(String, Option<String>, Option<String>)>) -> Seq<(Seq<char>, Option<Seq<char>>, Option<Seq<char>>)> {
    v.map_values(|e: (String, Option<String>, Option<String>)| (e.0@, opt_view(e.1), opt_view(e.2)))
}

/// The map of string values, by characters.
pub open spec fn text_map(m: Map<Seq<char>, String>) -> Map<Seq<char>, Seq<char>> {
    m.map_values(|v: String| v@)
}

/// The rules of a field diff: no rename, the conflicts, the defaults, and
/// the sorted drops.
pub open spec fn diff_rules(source: Seq<Field>, target: Seq<Field>, m: FieldMapping) -> bool {
    &&& m.renames@.len() == 0
    &&& text_map(m.type_conflicts.as_map()) == conflicts_of(source, target)
    &&& record(m.defaults.as_map()) == defaults_of(source, target)
    &&& lex_sorted(views(m.drops@))
    &&& views(m.drops@).to_multiset() == target_only_names(source, target).to_multiset()
}

/// The result of diffing two flat field lists, as `diff_fields` produces it.
pub open spec fn is_field_diff(source: Seq<Field>, target: Seq<Field>, m: FieldMapping, nested: Seq<(String, Option<String>, Option<String>)>) -> bool {
    &&& diff_rules(source, target, m)
    &&& m.nested@.len() == 0
    &&& nested_views(nested) == nested_of(source, target)
}

/// The rules needed to translate target -> source for one shape, and the
/// nested schema references found on the way.
pub struct FieldDiffResult {
    pub mapping: FieldMapping,
    /// (source field path, source schema ref, target schema ref)
    pub nested_refs: Vec<(String, Option<String>, Option<String>)>,
}

fn opt_clone(o: &Option<String>) -> (r: Option<String>)
    ensures
        opt_view(r) == opt_view(*o),
{
    match o {
        Some(s) => Some(s.clone()),
        None => None,
    }
}

/// The index of the last target field named `name`.
#[verifier::loop_isolation(false)]
fn find_target(target: &[Field], name: &String) -> (r: Option<usize>)
    ensures
        match r {
            Some(i) => target_named(target@, name@) == Some(i as int) && i < target@.len(),
            None => target_named(target@, name@) is None,
        },
{
    let ghost p = |ti: int| target@[ti].name@ == name@;
    let mut k: usize = target.len();
    while k > 0
        invariant
            k <= target@.len(),
            forall|j: int| k <= j < target@.len() ==> !#[trigger] p(j),
        decreases k,
    {
        let j = k - 1;
        if str_eq(target[j].name.as_str(), name.as_str()) {
            proof { lemma_last_found(target@.len() as int, p, j as int); }
            return Some(j);
        }
        k = j;
    }
    proof { lemma_last_none(target@.len() as int, p); }
    None
}

fn has_name(fields: &[Field], name: &String) -> (b: bool)
    ensures
        b == has_field_named(fields@, name@),
{
    let mut i: usize = 0;
    while i < fields.len()
        invariant
            i <= fields@.len(),
            forall|j: int| 0 <= j < i ==> #[trigger] fields@[j].name@ != name@,
        decreases fields@.len() - i,
    {
        if str_eq(fields[i].name.as_str(), name.as_str()) {
            assert(fields@[i as int].name@ == name@);
            return true;
        }
        i += 1;
    }
    false
}

fn conflict_text(s: FieldType, t: FieldType) -> (r: String)
    ensures
        r@ == conflict_message(s, t),
{
    let mut r = owned("source is ");
    append_str(&mut r, s.debug_name());
    append_str(&mut r, ", target is ");
    append_str(&mut r, t.debug_name());
    r
}

/// Records the nested-schema reference of a same-named, compatible field
/// pair, when there is one.
fn queue_nested(out: &mut Vec<(String, Option<String>, Option<String>)>, field_path: &str, sf: &Field, tf: &Field)
    requires
        field_path@ == sf.name@,
    ensures
        nested_views(final(out)@) == nested_views(old(out)@) + match nested_entry(*sf, *tf) {
            Some(e) => seq![e],
            None => Seq::empty(),
        },
{
    let s_ref = match &sf.schema_ref {
        Some(r) => Some(r.clone()),
        None => opt_clone(&sf.item_schema_ref),
    };
    let t_ref = match &tf.schema_ref {
        Some(r) => Some(r.clone()),
        None => opt_clone(&tf.item_schema_ref),
    };
    let ghost prev = nested_views(out@);
    if sf.ty == FieldType::Object || tf.ty == FieldType::Object {
        if s_ref.is_some() || t_ref.is_some() {
            out.push((owned(field_path), s_ref, t_ref));
        }
    } else if sf.item_ty == Some(FieldType::Object) || tf.item_ty == Some(FieldType::Object) {
        if s_ref.is_some() || t_ref.is_some() {
            out.push((owned(field_path), s_ref, t_ref));
        }
    }
    assert(nested_views(out@) =~= prev + match nested_entry(*sf, *tf) {
        Some(e) => seq![e],
        None => Seq::empty(),
    });
}

/// Diff two flat field lists (already resolved from a body or schema) and
/// produce the rules needed to translate target -> source, deterministically:
///
/// - same name + compatible type -> no entry needed (auto-mapped at runtime
///   because the key is identical on both sides)
/// - same name + incompatible type -> flagged in `type_conflicts`, left
///   untouched (no guessed rename, no silent coercion)
/// - field in source only -> `defaults`
/// - field in target only -> `drops`
///
/// There is no rename inference here: a wrong guess that looks confident is
/// worse than an honest gap.
pub fn diff_fields(source: &[Field], target: &[Field]) -> (r: FieldDiffResult)
    ensures
        is_field_diff(source@, target@, r.mapping, r.nested_refs@),
{
    let mut mapping = FieldMapping::default();
    let mut nested_refs: Vec<(String, Option<String>, Option<String>)> = Vec::new();
    let mut i: usize = 0;
    proof {
        assert(text_map(mapping.type_conflicts.as_map()) =~= Map::empty());
        assert(record(mapping.defaults.as_map()) =~= Map::empty());
        assert(nested_views(nested_refs@) =~= Seq::empty());
        assert(source@.take(0) =~= Seq::<Field>::empty());
    }
    while i < source.len()
        invariant
            i <= source@.len(),
            mapping.renames@.len() == 0,
            mapping.drops@.len() == 0,
            mapping.nested@.len() == 0,
            text_map(mapping.type_conflicts.as_map()) == conflicts_of(source@.take(i as int), target@),
            record(mapping.defaults.as_map()) == defaults_of(source@.take(i as int), target@),
            nested_views(nested_refs@) == nested_of(source@.take(i as int), target@),
        decreases source@.len() - i,
    {
        let sf = &source[i];
        let ghost pre = source@.take(i as int);
        assert(source@.take(i + 1).drop_last() =~= pre);
        assert(source@.take(i + 1).last() == *sf);
        match find_target(target, &sf.name) {
            Some(ti) => {
                let tf = &target[ti];
                if sf.ty.compatible(&tf.ty) {
                    queue_nested(&mut nested_refs, sf.name.as_str(), sf, tf);
                } else {
                    let msg = conflict_text(sf.ty, tf.ty);
                    let ghost before = mapping.type_conflicts.as_map();
                    mapping.type_conflicts.insert(sf.name.clone(), msg);
                    assert(text_map(mapping.type_conflicts.as_map()) =~= text_map(before).insert(sf.name@, msg@));
                }
            },
            None => {
                let z = sf.ty.zero_value();
                let ghost before = mapping.defaults.as_map();
                mapping.defaults.insert(sf.name.clone(), z);
                assert(record(mapping.defaults.as_map()) =~= record(before).insert(sf.name@, zero_tree(sf.ty)));
            },
        }
        i += 1;
    }
    assert(source@.take(source@.len() as int) =~= source@);
    // target-only fields: dropped from responses, in sorted order
    let mut drops: Vec<String> = Vec::new();
    let mut j: usize = 0;
    assert(target@.take(0) =~= Seq::<Field>::empty());
    while j < target.len()
        invariant
            j <= target@.len(),
            views(drops@) == target_only_names(source@, target@.take(j as int)),
        decreases target@.len() - j,
    {
        assert(target@.take(j + 1).drop_last() =~= target@.take(j as int));
        assert(target@.take(j + 1).last() == target@[j as int]);
        if !has_name(source, &target[j].name) {
            let ghost prev = drops@;
            drops.push(target[j].name.clone());
            assert(views(drops@) =~= views(prev).push(target@[j as int].name@));
        }
        j += 1;
    }
    assert(target@.take(target@.len() as int) =~= target@);
    mapping.drops = sort_strings(drops);
    FieldDiffResult { mapping, nested_refs }
}

/// Differently named fields are never paired up: the diff holds no rename,
/// whatever the two field lists are.
pub proof fn lemma_no_guessed_renames(source: Seq<Field>, target: Seq<Field>, m: FieldMapping, nested: Seq<(String, Option<String>, Option<String>)>)
    requires
        is_field_diff(source, target, m, nested),
    ensures
        m.renames.as_map() == Map::<Seq<char>, String>::empty(),
{
    assert(m.renames.as_map() =~= Map::<Seq<char>, String>::empty()) by {
        assert forall|k: Seq<char>| !m.renames.as_map().contains_key(k) by {
            crate::json::lemma_empty_map_has_no_key(m.renames, k);
        }
    }
}


/// The fields a body stands for: those of its named schema when the spec
/// has it, else its inline fields.
pub open spec fn body_fields_of(spec: ApiSpec, body: Body) -> Seq<Field> {
    match body.schema_ref {
        Some(r) => if spec.schemas.as_map().contains_key(r@) {
            spec.schemas.as_map()[r@].fields@
        } else {
            body.fields@
        },
        None => body.fields@,
    }
}

pub fn body_fields<'a>(spec: &'a ApiSpec, body: &'a Body) -> (r: &'a [Field])
    ensures
        r@ == body_fields_of(*spec, *body),
{
    if let Some(schema_ref) = &body.schema_ref {
        if let Some(schema) = spec.schemas.get(schema_ref.as_str()) {
            return schema.fields.as_slice();
        }
    }
    body.fields.as_slice()
}

/// The `[[endpoints.response.nested]]` entries of nested references: one per
/// reference that names a source schema, in order.
pub open spec fn nested_mappings_of(refs: Seq<(Seq<char>, Option<Seq<char>>, Option<Seq<char>>)>) -> Seq<(Seq<char>, Seq<char>)>
    decreases refs.len(),
{
    if refs.len() == 0 {
        Seq::empty()
    } else {
        let prev = nested_mappings_of(refs.drop_last());
        match refs.last().1 {
            Some(name) => prev.push((refs.last().0, name)),
            None => prev,
        }
    }
}

/// The views of nested mappings.
pub open spec fn nested_mapping_views(v: Seq<NestedMapping>) -> Seq<(Seq<char>, Seq<char>)> {
    v.map_values(|n: NestedMapping| (n.path@, n.schema_map@))
}

/// Convert a field-diff's nested refs into `[[endpoints.response.nested]]`
/// entries, given the schema name has already been registered.
pub fn nested_mappings_from_refs(refs: &[(String, Option<String>, Option<String>)]) -> (r: Vec<NestedMapping>)
    ensures
        nested_mapping_views(r@) == nested_mappings_of(nested_views(refs@)),
{
    let mut out: Vec<NestedMapping> = Vec::new();
    let mut i: usize = 0;
    assert(nested_views(refs@).take(0) =~= Seq::empty());
    while i < refs.len()
        invariant
            i <= refs@.len(),
            nested_mapping_views(out@) == nested_mappings_of(nested_views(refs@).take(i as int)),
        decreases refs@.len() - i,
    {
        assert(nested_views(refs@).take(i + 1).drop_last() =~= nested_views(refs@).take(i as int));
        assert(nested_views(refs@).take(i + 1).last() == nested_views(refs@)[i as int]);
        let (path, s_ref, _) = &refs[i];
        if let Some(name) = s_ref {
            let ghost prev = out@;
            out.push(NestedMapping { path: path.clone(), schema_map: name.clone() });
            assert(nested_mapping_views(out@) =~= nested_mapping_views(prev).push((path@, name@)));
        }
        i += 1;
    }
    assert(nested_views(refs@).take(refs@.len() as int) =~= nested_views(refs@));
    out
}

/// The fields of the target schema a reference names (none when it names
/// nothing the target spec has).
pub open spec fn target_schema_fields(target: ApiSpec, t: Option<Seq<char>>) -> Seq<Field> {
    match t {
        Some(n) => if target.schemas.as_map().contains_key(n) {
            target.schemas.as_map()[n].fields@
        } else {
            Seq::empty()
        },
        None => Seq::empty(),
    }
}

/// A schema entry is the diff of source schema `name` against the target
/// fields `t` names.
pub open spec fn is_schema_diff(source: ApiSpec, target: ApiSpec, e: SchemaMapping, t: Option<Seq<char>>) -> bool {
    let sfields = source.schemas.as_map()[e.name@].fields@;
    let tfields = target_schema_fields(target, t);
    &&& source.schemas.as_map().contains_key(e.name@)
    &&& !e.edited
    &&& e.renames@.len() == 0
    &&& text_map(e.type_conflicts.as_map()) == conflicts_of(sfields, tfields)
    &&& record(e.defaults.as_map()) == defaults_of(sfields, tfields)
    &&& lex_sorted(views(e.drops@))
    &&& views(e.drops@).to_multiset() == target_only_names(sfields, tfields).to_multiset()
}

/// Some entry of `out` is named `n`.
pub open spec fn registers(out: Seq<SchemaMapping>, n: Seq<char>) -> bool {
    exists|i: int| 0 <= i < out.len() && #[trigger] out[i].name@ == n
}

/// A reference that must end up registered: it names a source schema.
pub open spec fn names_source_schema(source: ApiSpec, r: Option<Seq<char>>) -> bool {
    r matches Some(n) && source.schemas.as_map().contains_key(n)
}

/// How many schemas are still unvisited.
spec fn unvisited(v: Seq<bool>) -> nat
    decreases v.len(),
{
    if v.len() == 0 {
        0
    } else {
        unvisited(v.drop_last()) + if v.last() { 0nat } else { 1nat }
    }
}

proof fn lemma_unvisited_mark(v: Seq<bool>, k: int)
    requires
        0 <= k < v.len(),
        !v[k],
    ensures
        unvisited(v.update(k, true)) + 1 == unvisited(v),
    decreases v.len(),
{
    if k < v.len() - 1 {
        assert(v.update(k, true).drop_last() =~= v.drop_last().update(k, true));
        lemma_unvisited_mark(v.drop_last(), k);
    } else {
        assert(v.update(k, true).drop_last() =~= v.drop_last());
    }
}

/// The views of queued reference pairs.
pub open spec fn ref_pair_views(v: Seq<(Option<String>, Option<String>)>) -> Seq<(Option<Seq<char>>, Option<Seq<char>>)> {
    v.map_values(|p: (Option<String>, Option<String>)| (opt_view(p.0), opt_view(p.1)))
}

/// What the entry for schema `e` nests, when diffed against target `t`.
pub open spec fn entry_nested(source: ApiSpec, target: ApiSpec, e: SchemaMapping, t: Option<Seq<char>>) -> Seq<(Seq<char>, Option<Seq<char>>, Option<Seq<char>>)> {
    nested_of(source.schemas.as_map()[e.name@].fields@, target_schema_fields(target, t))
}

/// Every source schema that entry `e` nests is registered in `out`.
pub open spec fn nests_registered(source: ApiSpec, target: ApiSpec, out: Seq<SchemaMapping>, e: SchemaMapping, t: Option<Seq<char>>) -> bool {
    forall|k: int| 0 <= k < entry_nested(source, target, e, t).len()
        && names_source_schema(source, (#[trigger] entry_nested(source, target, e, t)[k]).1)
        ==> registers(out, entry_nested(source, target, e, t)[k].1->0)
}

/// Entry `i` of `out` is the diff of its source schema against a target
/// schema paired with it, and what it nests is registered too.
pub open spec fn registered_entry(source: ApiSpec, target: ApiSpec, out: Seq<SchemaMapping>, i: int) -> bool {
    exists|t: Option<Seq<char>>| #[trigger] is_schema_diff(source, target, out[i], t) && nests_registered(source, target, out, out[i], t)
}

/// Reference `r` was queued.
spec fn queued(queue: Seq<(Option<String>, Option<String>)>, r: Option<Seq<char>>) -> bool {
    exists|q: int| 0 <= q < queue.len() && #[trigger] ref_pair_views(queue)[q].0 == r
}

/// What the entry for source schema `n` nests when paired with target
/// reference `t`, as queued reference pairs.
pub open spec fn nested_pairs_for(source: ApiSpec, target: ApiSpec, n: Seq<char>, t: Option<Seq<char>>) -> Seq<(Option<Seq<char>>, Option<Seq<char>>)> {
    ref_pairs_of(nested_of(source.schemas.as_map()[n].fields@, target_schema_fields(target, t)))
}

/// Nested references as the (source, target) reference pairs queued.
pub open spec fn ref_pairs_of(ns: Seq<(Seq<char>, Option<Seq<char>>, Option<Seq<char>>)>) -> Seq<(Option<Seq<char>>, Option<Seq<char>>)> {
    ns.map_values(|e: (Seq<char>, Option<Seq<char>>, Option<Seq<char>>)| (e.1, e.2))
}

/// The schemas a walk of the queue `q` registers, in order: each queued
/// source reference naming a source schema not registered yet, with the
/// target reference paired with it.
pub open spec fn first_visits(q: Seq<(Option<Seq<char>>, Option<Seq<char>>)>, source: ApiSpec) -> Seq<(Seq<char>, Option<Seq<char>>)>
    decreases q.len(),
{
    if q.len() == 0 {
        Seq::empty()
    } else {
        let prev = first_visits(q.drop_last(), source);
        match q.last().0 {
            Some(n) => if source.schemas.as_map().contains_key(n) && !(exists|i: int| 0 <= i < prev.len() && #[trigger] prev[i].0 == n) {
                prev.push((n, q.last().1))
            } else {
                prev
            },
            None => prev,
        }
    }
}

/// Everything the registered schemas queue, in order.
pub open spec fn queued_after(source: ApiSpec, target: ApiSpec, visits: Seq<(Seq<char>, Option<Seq<char>>)>) -> Seq<(Option<Seq<char>>, Option<Seq<char>>)>
    decreases visits.len(),
{
    if visits.len() == 0 {
        Seq::empty()
    } else {
        queued_after(source, target, visits.drop_last()) + nested_pairs_for(source, target, visits.last().0, visits.last().1)
    }
}

/// `out` is the registry a breadth-first walk from `seeds` builds: the
/// walk's queue is the seeds followed by what each registered schema nests,
/// and `out` holds one entry per registered schema, in the order met.
pub open spec fn registry_walk(source: ApiSpec, target: ApiSpec, seeds: Seq<(Option<Seq<char>>, Option<Seq<char>>)>, out: Seq<SchemaMapping>) -> bool {
    exists|q: Seq<(Option<Seq<char>>, Option<Seq<char>>)>| {
        &&& q == seeds + queued_after(source, target, #[trigger] first_visits(q, source))
        &&& out.len() == first_visits(q, source).len()
        &&& forall|i: int| 0 <= i < out.len() ==> (#[trigger] out[i]).name@ == first_visits(q, source)[i].0
            && is_schema_diff(source, target, out[i], first_visits(q, source)[i].1)
    }
}

/// Given a set of nested schema references discovered while diffing
/// endpoint bodies, recursively diff those named schemas and produce
/// reusable `[[schemas]]` entries (deduplicated by source schema name).
#[verifier::loop_isolation(false)]
#[verifier::spinoff_prover]
#[verifier::rlimit(40)]
pub fn build_schema_registry(
    source: &ApiSpec,
    target: &ApiSpec,
    seed_refs: Vec<(Option<String>, Option<String>)>,
) -> (out: Vec<SchemaMapping>)
    ensures
        forall|i: int, j: int| 0 <= i < j < out@.len() ==> #[trigger] out@[i].name@ != #[trigger] out@[j].name@,
        forall|i: int| 0 <= i < out@.len() ==> #[trigger] registered_entry(*source, *target, out@, i),
        forall|k: int| 0 <= k < seed_refs@.len() && names_source_schema(*source, #[trigger] opt_view(seed_refs@[k].0))
            ==> registers(out@, opt_view(seed_refs@[k].0)->0),
        registry_walk(*source, *target, ref_pair_views(seed_refs@), out@),
{
    proof {
        use_type_invariant(&source.schemas);
        crate::json::lemma_sorted_distinct(source.schemas@);
    }
    let n = source.schemas.len();
    let mut visited: Vec<bool> = Vec::new();
    while visited.len() < n
        invariant
            visited@.len() <= n,
            forall|k: int| 0 <= k < visited@.len() ==> !#[trigger] visited@[k],
        decreases n - visited@.len(),
    {
        visited.push(false);
    }
    let mut queue = seed_refs;
    let ghost seeds = ref_pair_views(queue@);
    let mut head: usize = 0;
    let mut out: Vec<SchemaMapping> = Vec::new();
    let ghost mut chosen: Seq<Option<Seq<char>>> = Seq::empty();
    while head < queue.len()
        invariant
            n == source.schemas@.len(),
            visited@.len() == n,
            head <= queue@.len(),
            seeds.len() <= queue@.len(),
            forall|k: int| 0 <= k < seeds.len() ==> #[trigger] ref_pair_views(queue@)[k] == seeds[k],
            chosen.len() == out@.len(),
            first_visits(ref_pair_views(queue@).take(head as int), *source).len() == out@.len(),
            forall|i: int| 0 <= i < out@.len() ==> (#[trigger] out@[i]).name@ == first_visits(ref_pair_views(queue@).take(head as int), *source)[i].0
                && chosen[i] == first_visits(ref_pair_views(queue@).take(head as int), *source)[i].1,
            ref_pair_views(queue@) == seeds + queued_after(*source, *target, first_visits(ref_pair_views(queue@).take(head as int), *source)),
            forall|i: int, j: int| 0 <= i < j < out@.len() ==> #[trigger] out@[i].name@ != #[trigger] out@[j].name@,
            forall|i: int| 0 <= i < out@.len() ==> #[trigger] is_schema_diff(*source, *target, out@[i], chosen[i]),
            forall|k: int| 0 <= k < n ==> (#[trigger] visited@[k] <==> registers(out@, source.schemas@[k].0)),
            forall|i: int, k: int| 0 <= i < out@.len() && 0 <= k < entry_nested(*source, *target, out@[i], chosen[i]).len()
                ==> queued(queue@, (#[trigger] entry_nested(*source, *target, out@[i], chosen[i])[k]).1),
            forall|q: int| 0 <= q < head && names_source_schema(*source, (#[trigger] ref_pair_views(queue@)[q]).0)
                ==> registers(out@, ref_pair_views(queue@)[q].0->0),
        decreases unvisited(visited@), queue@.len() - head,
    {
        let ghost q0 = queue@;
        let ghost qv0 = ref_pair_views(queue@);
        let ghost vis0 = first_visits(qv0.take(head as int), *source);
        assert(qv0.take(head + 1).drop_last() =~= qv0.take(head as int));
        assert(qv0.take(head + 1).last() == qv0[head as int]);
        let s_ref = &queue[head].0;
        let t_ref = &queue[head].1;
        assert(ref_pair_views(queue@)[head as int] == (opt_view(queue@[head as int].0), opt_view(queue@[head as int].1)));
        let found: Option<usize> = match s_ref {
            Some(s_name) => source.schemas.find(s_name.as_str()),
            None => None,
        };
        match found {
            Some(k) if !visited[k] => {
                let s_name = s_ref.as_ref().unwrap();
                let (_, s_schema) = source.schemas.entry(k);
                let empty: Vec<Field> = Vec::new();
                let t_fields: &[Field] = match t_ref {
                    Some(t_name) => match target.schemas.get(t_name.as_str()) {
                        Some(t_schema) => t_schema.fields.as_slice(),
                        None => empty.as_slice(),
                    },
                    None => empty.as_slice(),
                };
                let ghost t_view = opt_view(*t_ref);
                assert(t_fields@ == target_schema_fields(*target, t_view));
                assert(s_schema.fields@ == source.schemas.as_map()[s_name@].fields@);
                let diff = diff_fields(s_schema.fields.as_slice(), t_fields);
                let FieldDiffResult { mapping, nested_refs } = diff;
                let FieldMapping { renames, defaults, drops, type_conflicts, nested: _ } = mapping;
                let entry = SchemaMapping {
                    name: s_name.clone(),
                    edited: false,
                    renames,
                    defaults,
                    drops,
                    type_conflicts,
                };
                let ghost old_out = out@;
                let ghost old_visited = visited@;
                out.push(entry);
                visited.set(k, true);
                proof {
                    lemma_unvisited_mark(old_visited, k as int);
                    chosen = chosen.push(t_view);
                    assert(out@[out@.len() - 1].name@ == source.schemas@[k as int].0);
                    assert forall|i: int, j: int| 0 <= i < j < out@.len() implies #[trigger] out@[i].name@ != #[trigger] out@[j].name@ by {
                        if j == out@.len() - 1 {
                            if out@[i].name@ == source.schemas@[k as int].0 {
                                assert(old_out[i] == out@[i]);
                                assert(registers(old_out, source.schemas@[k as int].0));
                            }
                        } else {
                            assert(old_out[i] == out@[i] && old_out[j] == out@[j]);
                        }
                    }
                    assert forall|i: int| 0 <= i < out@.len() implies #[trigger] is_schema_diff(*source, *target, out@[i], chosen[i]) by {
                        if i < out@.len() - 1 {
                            assert(old_out[i] == out@[i]);
                        }
                    }
                    assert forall|x: int| 0 <= x < n implies (#[trigger] visited@[x] <==> registers(out@, source.schemas@[x].0)) by {
                        if registers(old_out, source.schemas@[x].0) {
                            let w = choose|i: int| 0 <= i < old_out.len() && #[trigger] old_out[i].name@ == source.schemas@[x].0;
                            assert(out@[w] == old_out[w]);
                        }
                        if registers(out@, source.schemas@[x].0) {
                            let w = choose|i: int| 0 <= i < out@.len() && #[trigger] out@[i].name@ == source.schemas@[x].0;
                            if w < old_out.len() {
                                assert(out@[w] == old_out[w]);
                            } else {
                                assert(source.schemas@[x].0 == source.schemas@[k as int].0);
                            }
                        }
                    }
                }
                // queue what this schema nests
                let mut r: usize = 0;
                let ghost qbase = queue@.len();
                while r < nested_refs.len()
                    invariant
                        r <= nested_refs@.len(),
                        queue@.len() == qbase + r,
                        qbase == q0.len(),
                        forall|q: int| 0 <= q < qbase ==> #[trigger] queue@[q] == q0[q],
                        forall|x: int| 0 <= x < r ==> #[trigger] ref_pair_views(queue@)[qbase + x].0 == nested_views(nested_refs@)[x].1,
                        forall|x: int| 0 <= x < r ==> #[trigger] ref_pair_views(queue@)[qbase + x]
                            == (nested_views(nested_refs@)[x].1, nested_views(nested_refs@)[x].2),
                    decreases nested_refs@.len() - r,
                {
                    let sr = opt_clone(&nested_refs[r].1);
                    let tr = opt_clone(&nested_refs[r].2);
                    assert(nested_views(nested_refs@)[r as int].1 == opt_view(nested_refs@[r as int].1));
                    let ghost qq = queue@;
                    queue.push((sr, tr));
                    assert(ref_pair_views(queue@)[qbase + r] == (opt_view(sr), opt_view(tr)));
                    assert forall|x: int| 0 <= x < r implies #[trigger] ref_pair_views(queue@)[qbase + x].0 == nested_views(nested_refs@)[x].1 by {
                        assert(ref_pair_views(queue@)[qbase + x] == ref_pair_views(qq)[qbase + x]);
                    }
                    assert forall|x: int| 0 <= x < r + 1 implies #[trigger] ref_pair_views(queue@)[qbase + x]
                        == (nested_views(nested_refs@)[x].1, nested_views(nested_refs@)[x].2) by {
                        if x < r {
                            assert(ref_pair_views(queue@)[qbase + x] == ref_pair_views(qq)[qbase + x]);
                        } else {
                            assert(nested_views(nested_refs@)[r as int].2 == opt_view(nested_refs@[r as int].2));
                        }
                    }
                    r += 1;
                }
                proof {
                    assert forall|x: int| 0 <= x < q0.len() implies #[trigger] ref_pair_views(queue@)[x] == ref_pair_views(q0)[x] by {
                        assert(queue@[x] == q0[x]);
                    }
                    let i_new = out@.len() - 1;
                    assert(nested_views(nested_refs@) == entry_nested(*source, *target, out@[i_new], chosen[i_new]));
                    assert forall|i: int, k2: int| 0 <= i < out@.len() && 0 <= k2 < entry_nested(*source, *target, out@[i], chosen[i]).len()
                        implies queued(queue@, (#[trigger] entry_nested(*source, *target, out@[i], chosen[i])[k2]).1) by {
                        if i == i_new {
                            assert(ref_pair_views(queue@)[qbase + k2].0 == nested_views(nested_refs@)[k2].1);
                        } else {
                            assert(old_out[i] == out@[i]);
                            assert(queued(q0, entry_nested(*source, *target, old_out[i], chosen[i])[k2].1));
                            let q = choose|q: int| 0 <= q < q0.len() && #[trigger] ref_pair_views(q0)[q].0
                                == entry_nested(*source, *target, old_out[i], chosen[i])[k2].1;
                            assert(ref_pair_views(queue@)[q] == ref_pair_views(q0)[q]);
                        }
                    }
                    assert forall|q: int| 0 <= q < head + 1 && names_source_schema(*source, (#[trigger] ref_pair_views(queue@)[q]).0)
                        implies registers(out@, ref_pair_views(queue@)[q].0->0) by {
                        assert(ref_pair_views(queue@)[q] == ref_pair_views(q0)[q]);
                        if q < head {
                            let w = choose|i: int| 0 <= i < old_out.len() && #[trigger] old_out[i].name@ == ref_pair_views(q0)[q].0->0;
                            assert(out@[w] == old_out[w]);
                        } else {
                            assert(out@[out@.len() - 1].name@ == s_name@);
                        }
                    }
                    assert forall|x: int| 0 <= x < seeds.len() implies #[trigger] ref_pair_views(queue@)[x] == seeds[x] by {
                        assert(ref_pair_views(queue@)[x] == ref_pair_views(q0)[x]);
                    }
                    // the walk: this schema is met for the first time here
                    let qv1 = ref_pair_views(queue@);
                    assert(qv1.take(head + 1) =~= qv0.take(head + 1));
                    let vis1 = first_visits(qv1.take(head + 1), *source);
                    assert(source.schemas.as_map().contains_key(s_name@));
                    assert(!(exists|i: int| 0 <= i < vis0.len() && #[trigger] vis0[i].0 == s_name@)) by {
                        if exists|i: int| 0 <= i < vis0.len() && #[trigger] vis0[i].0 == s_name@ {
                            let i = choose|i: int| 0 <= i < vis0.len() && #[trigger] vis0[i].0 == s_name@;
                            assert(old_out[i].name@ == s_name@);
                            assert(registers(old_out, source.schemas@[k as int].0));
                        }
                    }
                    assert(vis1 == vis0.push((s_name@, t_view)));
                    assert(nested_pairs_for(*source, *target, s_name@, t_view) =~= ref_pairs_of(nested_views(nested_refs@)));
                    assert(vis1.drop_last() =~= vis0);
                    let np = nested_pairs_for(*source, *target, s_name@, t_view);
                    assert(qv1.len() == qv0.len() + np.len());
                    assert forall|j: int| 0 <= j < qv1.len() implies #[trigger] qv1[j] == (qv0 + np)[j] by {
                        if j < qbase {
                            assert(ref_pair_views(queue@)[j] == ref_pair_views(q0)[j]);
                        } else {
                            let x = j - qbase;
                            assert(ref_pair_views(queue@)[qbase + x] == (nested_views(nested_refs@)[x].1, nested_views(nested_refs@)[x].2));
                        }
                    }
                    assert(qv1 =~= qv0 + np);
                    assert forall|i: int| 0 <= i < out@.len() implies (#[trigger] out@[i]).name@ == vis1[i].0 && chosen[i] == vis1[i].1 by {
                        if i < old_out.len() {
                            assert(out@[i] == old_out[i]);
                        }
                    }
                }
            },
            _ => {
                proof {
                    if names_source_schema(*source, ref_pair_views(queue@)[head as int].0) {
                        let k = found->0;
                        assert(visited@[k as int]);
                        let w = choose|i: int| 0 <= i < out@.len() && #[trigger] out@[i].name@ == source.schemas@[k as int].0;
                        assert(vis0[w].0 == source.schemas@[k as int].0);
                    }
                    assert(first_visits(qv0.take(head + 1), *source) == vis0);
                    assert(ref_pair_views(queue@) == qv0);
                    assert forall|i: int| 0 <= i < out@.len() implies (#[trigger] out@[i]).name@ == first_visits(ref_pair_views(queue@).take(head + 1), *source)[i].0
                        && chosen[i] == first_visits(ref_pair_views(queue@).take(head + 1), *source)[i].1 by {
                        assert(vis0[i].0 == out@[i].name@);
                    }
                }
            },
        }
        head += 1;
    }
    proof {
        assert forall|i: int| 0 <= i < out@.len() implies #[trigger] registered_entry(*source, *target, out@, i) by {
            let t = chosen[i];
            assert forall|k: int| 0 <= k < entry_nested(*source, *target, out@[i], t).len()
                && names_source_schema(*source, (#[trigger] entry_nested(*source, *target, out@[i], t)[k]).1)
                implies registers(out@, entry_nested(*source, *target, out@[i], t)[k].1->0) by {
                assert(queued(queue@, entry_nested(*source, *target, out@[i], t)[k].1));
                let q = choose|q: int| 0 <= q < queue@.len() && #[trigger] ref_pair_views(queue@)[q].0
                    == entry_nested(*source, *target, out@[i], t)[k].1;
            }
            assert(is_schema_diff(*source, *target, out@[i], t));
        }
        assert forall|k: int| 0 <= k < seed_refs@.len() && names_source_schema(*source, #[trigger] opt_view(seed_refs@[k].0))
            implies registers(out@, opt_view(seed_refs@[k].0)->0) by {
            assert(seeds[k] == ref_pair_views(queue@)[k]);
            assert(seeds[k].0 == opt_view(seed_refs@[k].0));
        }
        let qv = ref_pair_views(queue@);
        assert(qv.take(qv.len() as int) =~= qv);
        assert(registry_walk(*source, *target, ref_pair_views(seed_refs@), out@));
    }
    out
}

} // verus!
