//! Generation of a mapping file from two specs.
use vstd::prelude::*;
use crate::diff::endpoints::{
    match_endpoints, MatchOutcome, MatchVia, is_param_segment, path_match, operation_id_match, any_method_match,
};
use crate::diff::schemas::{
    body_fields, body_fields_of, build_schema_registry, diff_fields, diff_rules, nested_mappings_from_refs,
    nested_mappings_of, nested_mapping_views, nested_of, nested_views, opt_view, text_map, FieldDiffResult,
    registered_entry, registers, is_schema_diff, nests_registered, names_source_schema, ref_pair_views, ref_pairs_of, registry_walk,
};
use crate::json::KeyedMap;
use crate::mapping::types::{
    EndpointMapping, FieldMapping, MappingFile, Meta, Settings, field_mapping_empty, sorted_by_source, sort_by_source,
    pagination_is_default, UnmappedEndpointBehavior, UnmappedFieldBehavior,
};
use crate::spec::model::{ApiSpec, Endpoint, Field, endpoint_key, method_text};
use crate::text::{split, views, owned, append_str, concat, chars_of, string_of, split_at_char, str_eq};

verus! {

/// The version recorded in a generated file's `[meta]`.
pub fn shotgun_version() -> (v: &'static str)
    ensures
        v@ == "0.1.0"@,
{
    "0.1.0"
}

pub struct DiffSummary {
    pub total_source_endpoints: usize,
    pub mapped: usize,
    pub method_mismatches: usize,
    pub unmatched: usize,
}

/// The names of the `{param}` segments among `pieces`, braces removed.
pub open spec fn param_names(pieces: Seq<Seq<char>>) -> Seq<Seq<char>>
    decreases pieces.len(),
{
    if pieces.len() == 0 {
        Seq::empty()
    } else {
        let prev = param_names(pieces.drop_last());
        let seg = pieces.last();
        if is_param_segment(seg) {
            prev.push(seg.subrange(1, seg.len() - 1))
        } else {
            prev
        }
    }
}

/// Positional path-parameter renames between the first `n` names.
pub open spec fn param_renames_upto(sp: Seq<Seq<char>>, tp: Seq<Seq<char>>, n: nat) -> Map<Seq<char>, Seq<char>>
    decreases n,
{
    if n == 0 {
        Map::empty()
    } else {
        let prev = param_renames_upto(sp, tp, (n - 1) as nat);
        if sp[n - 1] != tp[n - 1] {
            prev.insert(sp[n - 1], tp[n - 1])
        } else {
            prev
        }
    }
}

/// Path-parameter renames: `{param}` segments paired by position, kept
/// where the names differ.
pub open spec fn param_renames(source_path: Seq<char>, target_path: Seq<char>) -> Map<Seq<char>, Seq<char>> {
    let sp = param_names(split(source_path, '/'));
    let tp = param_names(split(target_path, '/'));
    param_renames_upto(sp, tp, if sp.len() <= tp.len() { sp.len() } else { tp.len() })
}

pub open spec fn unmatched_note() -> Seq<char> {
    "no matching path or operationId found in target spec"@
}

pub open spec fn operation_id_note() -> Seq<char> {
    "matched by operationId; path differs between source and target -- verify path params below"@
}

pub open spec fn mismatch_note(target_path: Seq<char>, source_method: Seq<char>, target_method: Seq<char>) -> Seq<char> {
    "path matches '"@ + target_path + "' in target, but method differs (source "@ + source_method
        + " vs target "@ + target_method + ") -- confirm and map manually"@
}

/// Some queued pair has source reference `name`.
pub open spec fn seeded(seeds: Seq<(Option<String>, Option<String>)>, name: Seq<char>) -> bool {
    exists|q: int| 0 <= q < seeds.len() && opt_view(#[trigger] seeds[q].0) == Some(name)
}

/// The fields of a target body, or none.
pub open spec fn target_body_fields(target: ApiSpec, b: Option<crate::spec::model::Body>) -> Seq<Field> {
    match b {
        Some(tb) => body_fields_of(target, tb),
        None => Seq::empty(),
    }
}

/// The response rules of a matched pair.
pub open spec fn response_ok(source: ApiSpec, target: ApiSpec, s: Endpoint, t: Endpoint, m: FieldMapping) -> bool {
    match s.operation.response_body {
        Some(sb) => {
            let sf = body_fields_of(source, sb);
            let tf = target_body_fields(target, t.operation.response_body);
            diff_rules(sf, tf, m) && nested_mapping_views(m.nested@) == nested_mappings_of(nested_of(sf, tf))
        },
        None => field_mapping_empty(m),
    }
}

/// The request rules of a matched pair.
pub open spec fn request_ok(source: ApiSpec, target: ApiSpec, s: Endpoint, t: Endpoint, m: FieldMapping) -> bool {
    match s.operation.request_body {
        Some(sb) => {
            let sf = body_fields_of(source, sb);
            let tf = target_body_fields(target, t.operation.request_body);
            diff_rules(sf, tf, m) && m.nested@.len() == 0
        },
        None => field_mapping_empty(m),
    }
}

/// The entry of a source endpoint matched with target endpoint `ti`.
pub open spec fn matched_entry(source: ApiSpec, target: ApiSpec, s: Endpoint, ti: int, note: Option<Seq<char>>, e: EndpointMapping) -> bool {
    let t = target.endpoints@[ti];
    &&& e.target@ == endpoint_key(t.method, t.path@)
    &&& opt_view(e.note) == note
    &&& text_map(e.path_params.as_map()) == param_renames(s.path@, t.path@)
    &&& response_ok(source, target, s, t, e.response)
    &&& request_ok(source, target, s, t, e.request)
}

/// The entry of an unmapped source endpoint, with its note.
pub open spec fn unmapped_entry(note: Seq<char>, e: EndpointMapping) -> bool {
    &&& e.target@.len() == 0
    &&& opt_view(e.note) == Some(note)
    &&& e.path_params@.len() == 0
    &&& field_mapping_empty(e.request)
    &&& field_mapping_empty(e.response)
}

/// The mapping-file entry that the diff gives source endpoint `i`.
pub open spec fn entry_for(source: ApiSpec, target: ApiSpec, i: int, e: EndpointMapping) -> bool {
    let s = source.endpoints@[i];
    &&& e.source@ == endpoint_key(s.method, s.path@)
    &&& !e.edited
    &&& e.query_params@.len() == 0
    &&& e.headers@.len() == 0
    &&& if let Some(ti) = path_match(source, target, i) {
        matched_entry(source, target, s, ti, None, e)
    } else if let Some(ti) = operation_id_match(source, target, i) {
        matched_entry(source, target, s, ti, Some(operation_id_note()), e)
    } else if let Some(ti) = any_method_match(source, target, i) {
        unmapped_entry(mismatch_note(target.endpoints@[ti].path@, method_text(s.method), method_text(target.endpoints@[ti].method)), e)
    } else {
        unmapped_entry(unmatched_note(), e)
    }
}

/// 0: mapped, 1: same path but another method, 2: no match.
pub open spec fn match_kind(source: ApiSpec, target: ApiSpec, i: int) -> int {
    if path_match(source, target, i) is Some || operation_id_match(source, target, i) is Some {
        0
    } else if any_method_match(source, target, i) is Some {
        1
    } else {
        2
    }
}

/// How many of the first `n` source endpoints are of kind `k`.
pub open spec fn count_kind(source: ApiSpec, target: ApiSpec, n: int, k: int) -> nat
    decreases n,
{
    if n <= 0 {
        0
    } else {
        count_kind(source, target, n - 1, k) + if match_kind(source, target, n - 1) == k { 1nat } else { 0nat }
    }
}

/// Every endpoint falls under exactly one of the three outcomes.
pub proof fn lemma_counts_add_up(source: ApiSpec, target: ApiSpec, n: int)
    requires
        n >= 0,
    ensures
        count_kind(source, target, n, 0) + count_kind(source, target, n, 1) + count_kind(source, target, n, 2) == n,
    decreases n,
{
    if n > 0 {
        lemma_counts_add_up(source, target, n - 1);
    }
}

fn param_names_of(path: &str) -> (r: Vec<String>)
    ensures
        views(r@) == param_names(split(path@, '/')),
{
    let pieces = split_at_char(path, '/');
    let mut out: Vec<String> = Vec::new();
    let mut i: usize = 0;
    assert(views(pieces@).take(0) =~= Seq::empty());
    while i < pieces.len()
        invariant
            i <= pieces@.len(),
            views(pieces@) == split(path@, '/'),
            views(out@) == param_names(views(pieces@).take(i as int)),
        decreases pieces@.len() - i,
    {
        assert(views(pieces@).take(i + 1).drop_last() =~= views(pieces@).take(i as int));
        assert(views(pieces@).take(i + 1).last() == pieces@[i as int]@);
        let cs = chars_of(pieces[i].as_str());
        if cs.len() >= 1 && cs[0] == '{' && cs[cs.len() - 1] == '}' {
            let name = string_of(&cs, 1, cs.len() - 1);
            let ghost prev = out@;
            out.push(name);
            assert(views(out@) =~= views(prev).push(cs@.subrange(1, cs@.len() - 1)));
        }
        i += 1;
    }
    assert(views(pieces@).take(pieces@.len() as int) =~= views(pieces@));
    out
}

fn path_param_renames(source_path: &str, target_path: &str) -> (m: KeyedMap<String>)
    ensures
        text_map(m.as_map()) == param_renames(source_path@, target_path@),
{
    let sp = param_names_of(source_path);
    let tp = param_names_of(target_path);
    let n = if sp.len() <= tp.len() { sp.len() } else { tp.len() };
    let mut m: KeyedMap<String> = KeyedMap::new();
    let mut i: usize = 0;
    assert(text_map(m.as_map()) =~= Map::empty());
    while i < n
        invariant
            i <= n <= sp@.len(),
            n <= tp@.len(),
            text_map(m.as_map()) == param_renames_upto(views(sp@), views(tp@), i as nat),
        decreases n - i,
    {
        assert(views(sp@)[i as int] == sp@[i as int]@ && views(tp@)[i as int] == tp@[i as int]@);
        if !str_eq(sp[i].as_str(), tp[i].as_str()) {
            let ghost before = m.as_map();
            m.insert(sp[i].clone(), tp[i].clone());
            assert(text_map(m.as_map()) =~= text_map(before).insert(sp@[i as int]@, tp@[i as int]@));
        }
        i += 1;
    }
    m
}

fn mismatch_note_text(target_path: &str, source_method: &str, target_method: &str) -> (r: String)
    ensures
        r@ == mismatch_note(target_path@, source_method@, target_method@),
{
    let mut r = owned("path matches '");
    append_str(&mut r, target_path);
    append_str(&mut r, "' in target, but method differs (source ");
    append_str(&mut r, source_method);
    append_str(&mut r, " vs target ");
    append_str(&mut r, target_method);
    append_str(&mut r, ") -- confirm and map manually");
    r
}

/// The response rules of a matched pair; the nested references found go to `seeds`.
fn response_mapping(
    source: &ApiSpec,
    target: &ApiSpec,
    s: &Endpoint,
    t: &Endpoint,
    seeds: &mut Vec<(Option<String>, Option<String>)>,
) -> (m: FieldMapping)
    ensures
        response_ok(*source, *target, *s, *t, m),
        final(seeds)@.len() >= old(seeds)@.len(),
        forall|k: int| 0 <= k < old(seeds)@.len() ==> #[trigger] final(seeds)@[k] == old(seeds)@[k],
        forall|k: int| 0 <= k < m.nested@.len() ==> seeded(final(seeds)@, (#[trigger] m.nested@[k]).schema_map@),
        ref_pair_views(final(seeds)@) == ref_pair_views(old(seeds)@) + response_seeds(*source, *target, *s, *t),
{
    match &s.operation.response_body {
        Some(sb) => {
            let s_fields = body_fields(source, sb);
            let empty: Vec<Field> = Vec::new();
            let t_fields: &[Field] = match &t.operation.response_body {
                Some(tb) => body_fields(target, tb),
                None => empty.as_slice(),
            };
            let diff = diff_fields(s_fields, t_fields);
            let FieldDiffResult { mapping, nested_refs } = diff;
            let ghost base = seeds@.len();
            let mut r: usize = 0;
            while r < nested_refs.len()
                invariant
                    r <= nested_refs@.len(),
                    seeds@.len() == base + r,
                    base == old(seeds)@.len(),
                    forall|k: int| 0 <= k < old(seeds)@.len() ==> #[trigger] seeds@[k] == old(seeds)@[k],
                    forall|x: int| 0 <= x < r ==> opt_view(#[trigger] seeds@[base + x].0) == opt_view(nested_refs@[x].1),
                    ref_pair_views(seeds@) == ref_pair_views(old(seeds)@) + ref_pairs_of(nested_views(nested_refs@)).take(r as int),
                decreases nested_refs@.len() - r,
            {
                let sr = match &nested_refs[r].1 { Some(x) => Some(x.clone()), None => None };
                let tr = match &nested_refs[r].2 { Some(x) => Some(x.clone()), None => None };
                let ghost before = seeds@;
                assert(opt_view(sr) == opt_view(nested_refs@[r as int].1));
                assert(opt_view(tr) == opt_view(nested_refs@[r as int].2));
                seeds.push((sr, tr));
                assert(nested_views(nested_refs@)[r as int] == (nested_refs@[r as int].0@, opt_view(nested_refs@[r as int].1), opt_view(nested_refs@[r as int].2)));
                assert(ref_pairs_of(nested_views(nested_refs@))[r as int] == (opt_view(nested_refs@[r as int].1), opt_view(nested_refs@[r as int].2)));
                assert(ref_pair_views(seeds@) =~= ref_pair_views(before).push((opt_view(nested_refs@[r as int].1), opt_view(nested_refs@[r as int].2))));
                assert(ref_pairs_of(nested_views(nested_refs@)).take(r + 1) =~= ref_pairs_of(nested_views(nested_refs@)).take(r as int).push((opt_view(nested_refs@[r as int].1), opt_view(nested_refs@[r as int].2))));
                assert(ref_pair_views(seeds@) =~= ref_pair_views(old(seeds)@) + ref_pairs_of(nested_views(nested_refs@)).take(r + 1));
                assert forall|x: int| 0 <= x < r + 1 implies opt_view(#[trigger] seeds@[base + x].0) == opt_view(nested_refs@[x].1) by {
                    if x < r {
                        assert(seeds@[base + x] == before[base + x]);
                    }
                }
                r += 1;
            }
            assert(nested_views(nested_refs@).len() == nested_refs@.len());
            assert(ref_pairs_of(nested_views(nested_refs@)).take(nested_refs@.len() as int) =~= ref_pairs_of(nested_views(nested_refs@)));
            let nested = nested_mappings_from_refs(nested_refs.as_slice());
            let mut field_mapping = mapping;
            field_mapping.nested = nested;
            proof {
                // each nested mapping names the source ref of some queued pair
                assert forall|k: int| 0 <= k < field_mapping.nested@.len() implies seeded(seeds@, (#[trigger] field_mapping.nested@[k]).schema_map@) by {
                    let x = lemma_nested_mapping_source(nested_views(nested_refs@), k);
                    assert(nested_mapping_views(field_mapping.nested@)[k] == (field_mapping.nested@[k].path@, field_mapping.nested@[k].schema_map@));
                    assert(nested_views(nested_refs@)[x].1 == opt_view(nested_refs@[x].1));
                    assert(opt_view(seeds@[base + x].0) == opt_view(nested_refs@[x].1));
                    assert(nested_mapping_views(field_mapping.nested@)[k].1 == nested_mappings_of(nested_views(nested_refs@))[k].1);
                    assert(opt_view(seeds@[base + x].0) == Some(field_mapping.nested@[k].schema_map@));
                }
            }
            field_mapping
        },
        None => {
            assert(ref_pair_views(seeds@) =~= ref_pair_views(old(seeds)@) + Seq::empty());
            FieldMapping::default()
        },
    }
}

/// Each nested mapping comes from a reference with that source schema.
proof fn lemma_nested_mapping_source(refs: Seq<(Seq<char>, Option<Seq<char>>, Option<Seq<char>>)>, k: int) -> (x: int)
    requires
        0 <= k < nested_mappings_of(refs).len(),
    ensures
        0 <= x < refs.len(),
        refs[x].1 == Some(nested_mappings_of(refs)[k].1),
    decreases refs.len(),
{
    let prev = nested_mappings_of(refs.drop_last());
    if k < prev.len() {
        let x = lemma_nested_mapping_source(refs.drop_last(), k);
        assert(refs.drop_last()[x] == refs[x]);
        x
    } else {
        refs.len() - 1
    }
}

/// The request rules of a matched pair.
fn request_mapping(source: &ApiSpec, target: &ApiSpec, s: &Endpoint, t: &Endpoint) -> (m: FieldMapping)
    ensures
        request_ok(*source, *target, *s, *t, m),
{
    match &s.operation.request_body {
        Some(sb) => {
            let s_fields = body_fields(source, sb);
            let empty: Vec<Field> = Vec::new();
            let t_fields: &[Field] = match &t.operation.request_body {
                Some(tb) => body_fields(target, tb),
                None => empty.as_slice(),
            };
            diff_fields(s_fields, t_fields).mapping
        },
        None => FieldMapping::default(),
    }
}

/// The target a source endpoint is mapped to: by path, else by operationId.
pub open spec fn matched_target(source: ApiSpec, target: ApiSpec, i: int) -> Option<int> {
    if let Some(ti) = path_match(source, target, i) {
        Some(ti)
    } else {
        operation_id_match(source, target, i)
    }
}

/// The nested schema references a matched pair's response diff queues.
pub open spec fn response_seeds(source: ApiSpec, target: ApiSpec, s: Endpoint, t: Endpoint) -> Seq<(Option<Seq<char>>, Option<Seq<char>>)> {
    match s.operation.response_body {
        Some(sb) => ref_pairs_of(nested_of(body_fields_of(source, sb), target_body_fields(target, t.operation.response_body))),
        None => Seq::empty(),
    }
}

/// The references queued for the schema registry by the first `n` source
/// endpoints, in order.
pub open spec fn seeds_upto(source: ApiSpec, target: ApiSpec, n: int) -> Seq<(Option<Seq<char>>, Option<Seq<char>>)>
    decreases n,
{
    if n <= 0 {
        Seq::empty()
    } else {
        seeds_upto(source, target, n - 1) + match matched_target(source, target, n - 1) {
            Some(ti) => response_seeds(source, target, source.endpoints@[n - 1], target.endpoints@[ti]),
            None => Seq::empty(),
        }
    }
}

/// The generated file: sorted by source, one entry per source endpoint as
/// `entry_for` says, the schema registry of what the responses nest, and
/// counts that add up.
pub open spec fn generated(source: ApiSpec, target: ApiSpec, mf: MappingFile, summary: DiffSummary) -> bool {
    &&& sorted_by_source(mf.endpoints@)
    &&& exists|u: Seq<EndpointMapping>| #[trigger] u.to_multiset() == mf.endpoints@.to_multiset()
        && u.len() == source.endpoints@.len()
        && forall|i: int| 0 <= i < u.len() ==> entry_for(source, target, i, #[trigger] u[i])
    &&& forall|i: int, j: int| 0 <= i < j < mf.schemas@.len() ==> #[trigger] mf.schemas@[i].name@ != #[trigger] mf.schemas@[j].name@
    &&& forall|i: int| 0 <= i < mf.schemas@.len() ==> #[trigger] registered_entry(source, target, mf.schemas@, i)
    &&& registry_walk(source, target, seeds_upto(source, target, source.endpoints@.len() as int), mf.schemas@)
    &&& forall|e: int, k: int| 0 <= e < mf.endpoints@.len() && 0 <= k < mf.endpoints@[e].response.nested@.len()
        && names_source_schema(source, Some((#[trigger] mf.endpoints@[e].response.nested@[k]).schema_map@))
        ==> registers(mf.schemas@, mf.endpoints@[e].response.nested@[k].schema_map@)
    &&& summary.total_source_endpoints == source.endpoints@.len()
    &&& summary.mapped == count_kind(source, target, source.endpoints@.len() as int, 0)
    &&& summary.method_mismatches == count_kind(source, target, source.endpoints@.len() as int, 1)
    &&& summary.unmatched == count_kind(source, target, source.endpoints@.len() as int, 2)
}

pub fn build_mapping_file(
    source: &ApiSpec,
    target: &ApiSpec,
    source_spec_path: &str,
    target_spec_path: &str,
    generated_at: &str,
) -> (r: (MappingFile, DiffSummary))
    ensures
        generated(*source, *target, r.0, r.1),
        r.0.meta.source_spec@ == source_spec_path@,
        r.0.meta.target_spec@ == target_spec_path@,
        r.0.meta.generated_at@ == generated_at@,
        r.0.meta.shotgun_version@ == "0.1.0"@,
        r.0.settings.target_base_path@ == target.base_path@,
        r.0.settings.source_base_path@.len() == 0,
        r.0.settings.unmapped_endpoint_behavior == UnmappedEndpointBehavior::Reject,
        r.0.settings.unmapped_field_behavior == UnmappedFieldBehavior::Passthrough,
        pagination_is_default(r.0.settings.pagination),
        r.0.settings.synthesized_response_headers@.len() == 0,
{
    let matches = match_endpoints(source, target);
    let mut endpoints: Vec<EndpointMapping> = Vec::new();
    let mut seed_refs: Vec<(Option<String>, Option<String>)> = Vec::new();
    let mut mapped_count: usize = 0;
    let mut method_mismatches: usize = 0;
    let mut unmatched: usize = 0;
    let n = matches.len();
    let mut i: usize = 0;
    while i < n
        invariant
            n == matches@.len() == source.endpoints@.len(),
            forall|x: int| 0 <= x < matches@.len() ==> (#[trigger] matches@[x]).source_idx == x
                && crate::diff::endpoints::outcome_for(*source, *target, x, matches@[x].outcome)
                && crate::diff::endpoints::outcome_in_range(matches@[x].outcome, target.endpoints@.len() as int),
            i <= n,
            endpoints@.len() == i,
            forall|x: int| 0 <= x < i ==> entry_for(*source, *target, x, #[trigger] endpoints@[x]),
            mapped_count == count_kind(*source, *target, i as int, 0),
            method_mismatches == count_kind(*source, *target, i as int, 1),
            unmatched == count_kind(*source, *target, i as int, 2),
            mapped_count + method_mismatches + unmatched == i,
            forall|e: int, k: int| 0 <= e < endpoints@.len() && 0 <= k < endpoints@[e].response.nested@.len()
                ==> seeded(seed_refs@, (#[trigger] endpoints@[e].response.nested@[k]).schema_map@),
            ref_pair_views(seed_refs@) == seeds_upto(*source, *target, i as int),
        decreases n - i,
    {
        proof { lemma_counts_add_up(*source, *target, i as int); }
        let m = &matches[i];
        let s = &source.endpoints[m.source_idx];
        let ghost old_eps = endpoints@;
        let ghost old_seeds = seed_refs@;
        match &m.outcome {
            MatchOutcome::MethodMismatch { target_idx, target_method } => {
                method_mismatches += 1;
                let t = &target.endpoints[*target_idx];
                let note = mismatch_note_text(t.path.as_str(), s.method.as_str(), target_method.as_str());
                let mut e = EndpointMapping::default();
                e.source = s.key();
                e.note = Some(note);
                assert(m.source_idx == i);
                assert(unmapped_entry(mismatch_note(target.endpoints@[*target_idx as int].path@, method_text(s.method), method_text(target.endpoints@[*target_idx as int].method)), e));
                endpoints.push(e);
                assert(entry_for(*source, *target, i as int, endpoints@[i as int]));
            },
            MatchOutcome::Unmatched => {
                unmatched += 1;
                let mut e = EndpointMapping::default();
                e.source = s.key();
                e.note = Some(owned("no matching path or operationId found in target spec"));
                endpoints.push(e);
                assert(entry_for(*source, *target, i as int, endpoints@[i as int]));
            },
            MatchOutcome::Matched { target_idx, via } => {
                let t = &target.endpoints[*target_idx];
                mapped_count += 1;
                let path_params = path_param_renames(s.path.as_str(), t.path.as_str());
                let response = response_mapping(source, target, s, t, &mut seed_refs);
                let request = request_mapping(source, target, s, t);
                let note = match via {
                    MatchVia::Path => None,
                    MatchVia::OperationId => Some(owned(
                        "matched by operationId; path differs between source and target -- verify path params below",
                    )),
                };
                endpoints.push(EndpointMapping {
                    source: s.key(),
                    target: t.key(),
                    note,
                    edited: false,
                    path_params,
                    query_params: KeyedMap::new(),
                    headers: KeyedMap::new(),
                    request,
                    response,
                });
                assert(entry_for(*source, *target, i as int, endpoints@[i as int]));
            },
        }
        proof {
            assert(endpoints@.len() == i + 1);
            assert forall|x: int| 0 <= x < i + 1 implies entry_for(*source, *target, x, #[trigger] endpoints@[x]) by {
                if x < i {
                    assert(endpoints@[x] == old_eps[x]);
                }
            }
            assert forall|e: int, k: int| 0 <= e < endpoints@.len() && 0 <= k < endpoints@[e].response.nested@.len()
                implies seeded(seed_refs@, (#[trigger] endpoints@[e].response.nested@[k]).schema_map@) by {
                if e < i {
                    assert(endpoints@[e] == old_eps[e]);
                    assert(seeded(old_seeds, old_eps[e].response.nested@[k].schema_map@));
                    let q = choose|q: int| 0 <= q < old_seeds.len()
                        && opt_view(#[trigger] old_seeds[q].0) == Some(old_eps[e].response.nested@[k].schema_map@);
                    assert(seed_refs@[q] == old_seeds[q]);
                }
            }
        }
        i += 1;
    }
    let ghost unsorted = endpoints@;
    let endpoints = sort_by_source(endpoints);
    let ghost seeds_v = seed_refs@;
    let schemas = build_schema_registry(source, target, seed_refs);
    let mut settings = Settings::default();
    settings.target_base_path = target.base_path.clone();
    let mapping = MappingFile {
        meta: Meta {
            source_spec: owned(source_spec_path),
            target_spec: owned(target_spec_path),
            generated_at: owned(generated_at),
            shotgun_version: owned(shotgun_version()),
        },
        settings,
        endpoints,
        schemas,
    };
    let summary = DiffSummary {
        total_source_endpoints: source.endpoint_count(),
        mapped: mapped_count,
        method_mismatches,
        unmatched,
    };
    proof {
        assert(unsorted.to_multiset() == mapping.endpoints@.to_multiset());
        assert forall|e: int, k: int| 0 <= e < mapping.endpoints@.len() && 0 <= k < mapping.endpoints@[e].response.nested@.len()
            && names_source_schema(*source, Some((#[trigger] mapping.endpoints@[e].response.nested@[k]).schema_map@))
            implies registers(mapping.schemas@, mapping.endpoints@[e].response.nested@[k].schema_map@) by {
            let ep = mapping.endpoints@[e];
            broadcast use vstd::seq_lib::group_to_multiset_ensures;
            assert(mapping.endpoints@.contains(ep));
            assert(mapping.endpoints@.to_multiset().count(ep) > 0);
            assert(unsorted.to_multiset().count(ep) > 0);
            assert(unsorted.contains(ep));
            let w = choose|w: int| 0 <= w < unsorted.len() && unsorted[w] == ep;
            assert(seeded(seeds_v, unsorted[w].response.nested@[k].schema_map@));
            let q = choose|q: int| 0 <= q < seeds_v.len()
                && opt_view(#[trigger] seeds_v[q].0) == Some(unsorted[w].response.nested@[k].schema_map@);
        }
    }
    (mapping, summary)
}

/// A generated mapping never leaves a gap unexplained: every entry either
/// has a target or carries a note saying why it has none.
pub proof fn lemma_unmapped_entries_explained(source: ApiSpec, target: ApiSpec, mf: MappingFile, summary: DiffSummary, j: int)
    requires
        generated(source, target, mf, summary),
        0 <= j < mf.endpoints@.len(),
    ensures
        mf.endpoints@[j].target@.len() > 0 || mf.endpoints@[j].note is Some,
{
    broadcast use vstd::seq_lib::group_to_multiset_ensures;
    let u = choose|u: Seq<EndpointMapping>| #[trigger] u.to_multiset() == mf.endpoints@.to_multiset()
        && u.len() == source.endpoints@.len()
        && forall|i: int| 0 <= i < u.len() ==> entry_for(source, target, i, #[trigger] u[i]);
    let e = mf.endpoints@[j];
    assert(mf.endpoints@.contains(e));
    assert(mf.endpoints@.to_multiset().count(e) > 0);
    assert(u.to_multiset().count(e) > 0);
    assert(u.contains(e));
    let i = choose|i: int| 0 <= i < u.len() && u[i] == e;
    assert(entry_for(source, target, i, u[i]));
    let s = source.endpoints@[i];
    if path_match(source, target, i) is None && operation_id_match(source, target, i) is None {
        assert(opt_view(e.note) is Some);
    } else {
        let ti = if let Some(t) = path_match(source, target, i) { t } else { operation_id_match(source, target, i)->0 };
        let t = target.endpoints@[ti];
        assert(e.target@ == endpoint_key(t.method, t.path@));
        assert(endpoint_key(t.method, t.path@).len() > 0);
    }
}

/// A generated mapping writes no field rename, for any endpoint's request
/// or response nor for any reusable schema: every rename in a mapping file
/// is one a human added.
pub proof fn lemma_generated_has_no_renames(source: ApiSpec, target: ApiSpec, mf: MappingFile, summary: DiffSummary)
    requires
        generated(source, target, mf, summary),
    ensures
        forall|j: int| 0 <= j < mf.endpoints@.len() ==> (#[trigger] mf.endpoints@[j]).response.renames@.len() == 0
            && mf.endpoints@[j].request.renames@.len() == 0,
        forall|j: int| 0 <= j < mf.schemas@.len() ==> (#[trigger] mf.schemas@[j]).renames@.len() == 0,
{
    broadcast use vstd::seq_lib::group_to_multiset_ensures;
    let u = choose|u: Seq<EndpointMapping>| #[trigger] u.to_multiset() == mf.endpoints@.to_multiset()
        && u.len() == source.endpoints@.len()
        && forall|i: int| 0 <= i < u.len() ==> entry_for(source, target, i, #[trigger] u[i]);
    assert forall|j: int| 0 <= j < mf.endpoints@.len() implies (#[trigger] mf.endpoints@[j]).response.renames@.len() == 0
        && mf.endpoints@[j].request.renames@.len() == 0 by {
        let e = mf.endpoints@[j];
        assert(mf.endpoints@.contains(e));
        assert(mf.endpoints@.to_multiset().count(e) > 0);
        assert(u.to_multiset().count(e) > 0);
        assert(u.contains(e));
        let i = choose|i: int| 0 <= i < u.len() && u[i] == e;
        assert(entry_for(source, target, i, u[i]));
    }
    assert forall|j: int| 0 <= j < mf.schemas@.len() implies (#[trigger] mf.schemas@[j]).renames@.len() == 0 by {
        assert(registered_entry(source, target, mf.schemas@, j));
        let t = choose|t: Option<Seq<char>>| #[trigger] is_schema_diff(source, target, mf.schemas@[j], t)
            && nests_registered(source, target, mf.schemas@, mf.schemas@[j], t);
    }
}

} // verus!
