//! What the proxy decides for each request: which mapping entry it hits,
//! where it goes upstream, and how its headers and bodies are rewritten on
//! the way there and back. The server performs the exchange itself.
use vstd::prelude::*;
use crate::codec::{json_bytes_value, json_bytes_of, parse_json_bytes, write_json_bytes};
use crate::diff::endpoints::is_param_segment;
use crate::diff::schemas::opt_view;
use crate::json::KeyedMap;
use crate::mapping::types::{EndpointMapping, MappingFile, Settings, UnmappedEndpointBehavior, UnmappedFieldBehavior};
use crate::proxy::pagination::{index_of, pair_views, param_entries, translated, translate_query_params, rename_pair_keys, read_url, url_reading, UrlParts};
use crate::proxy::transform::{text_entries, transform_request, transform_response, transformed_request, transformed_response, SchemaRegistry};
use crate::text::{chars_of, chars_equal, lower, lower_chars, owned, append_str, split, split_at_char, string_of, strip_prefix, strip_prefix_owned, views};

verus! {

// ---------------------------------------------------------------------
// Matching a request
// ---------------------------------------------------------------------

/// The pieces that are not empty.
pub open spec fn nonempty(parts: Seq<Seq<char>>) -> Seq<Seq<char>>
    decreases parts.len(),
{
    if parts.len() == 0 {
        Seq::empty()
    } else {
        let prev = nonempty(parts.drop_last());
        if parts.last().len() > 0 {
            prev.push(parts.last())
        } else {
            prev
        }
    }
}

/// The non-empty pieces of a path between slashes.
pub open spec fn path_segments(p: Seq<char>) -> Seq<Seq<char>> {
    nonempty(split(p, '/'))
}

/// `"METHOD /path"` split at its first space.
pub open spec fn first_space_split(s: Seq<char>) -> Option<(Seq<char>, Seq<char>)> {
    match index_of(s, ' ', 0) {
        Some(i) => Some((s.take(i), s.skip(i + 1))),
        None => None,
    }
}

/// Request segments bound to pattern segments, the first `n` of them: a
/// `{name}` pattern binds its name to the request segment, any other must
/// equal it.
pub open spec fn bind_params(pats: Seq<Seq<char>>, vals: Seq<Seq<char>>, n: int) -> Option<Map<Seq<char>, Seq<char>>>
    decreases n,
{
    if n <= 0 {
        Some(Map::empty())
    } else {
        match bind_params(pats, vals, n - 1) {
            None => None,
            Some(m) => {
                let p = pats[n - 1];
                if is_param_segment(p) {
                    Some(m.insert(p.subrange(1, p.len() - 1), vals[n - 1]))
                } else if p == vals[n - 1] {
                    Some(m)
                } else {
                    None
                }
            },
        }
    }
}

/// The path params an entry's source binds for a request, if it matches:
/// same method (ASCII case aside), same number of segments, each segment
/// equal or a `{param}`.
pub open spec fn endpoint_binding(e: EndpointMapping, method: Seq<char>, path: Seq<char>) -> Option<Map<Seq<char>, Seq<char>>> {
    match first_space_split(e.source@) {
        None => None,
        Some((m, p)) => if lower(m) != lower(method) {
            None
        } else {
            let pats = path_segments(p);
            let vals = path_segments(path);
            if pats.len() != vals.len() {
                None
            } else {
                bind_params(pats, vals, pats.len() as int)
            }
        },
    }
}

/// The first entry from `i` on that matches the request.
pub open spec fn match_from(eps: Seq<EndpointMapping>, method: Seq<char>, path: Seq<char>, i: int) -> Option<int>
    decreases eps.len() - i,
{
    if i < 0 || i >= eps.len() {
        None
    } else if endpoint_binding(eps[i], method, path) is Some {
        Some(i)
    } else {
        match_from(eps, method, path, i + 1)
    }
}

/// A string map by its text.
pub open spec fn text_map_of(m: KeyedMap<String>) -> Map<Seq<char>, Seq<char>> {
    m.as_map().map_values(|s: String| s@)
}

proof fn lemma_first_space(s: Seq<char>, m: Seq<char>, p: Seq<char>)
    requires
        crate::mapping::types::splits_at_first_space(s, m, p),
    ensures
        first_space_split(s) == Some((m, p)),
{
    let k = m.len() as int;
    assert(s[k] == ' ');
    assert forall|j: int| 0 <= j < k implies s[j] != ' ' by {
        assert(s[j] == m[j]);
    }
    assert forall|j: int| 0 <= j <= k implies index_of(s, ' ', j) == Some(k) by {
        lemma_index_from(s, j, k);
    }
    assert(s.take(k) =~= m);
    assert(s.skip(k + 1) =~= p);
}

proof fn lemma_index_from(s: Seq<char>, j: int, k: int)
    requires
        0 <= j <= k < s.len(),
        s[k] == ' ',
        forall|x: int| 0 <= x < k ==> s[x] != ' ',
    ensures
        index_of(s, ' ', j) == Some(k),
    decreases k - j,
{
    if j < k {
        lemma_index_from(s, j + 1, k);
    }
}

proof fn lemma_no_space(s: Seq<char>, j: int)
    requires
        !s.contains(' '),
        0 <= j,
    ensures
        index_of(s, ' ', j) is None,
    decreases s.len() - j,
{
    if j < s.len() {
        assert(s[j] != ' ');
        lemma_no_space(s, j + 1);
    }
}

fn method_and_path_of(s: &str) -> (r: Option<(String, String)>)
    ensures
        match r {
            Some((m, p)) => first_space_split(s@) == Some((m@, p@)),
            None => first_space_split(s@) is None,
        },
{
    let r = EndpointMapping::method_and_path(s);
    proof {
        if r is Some {
            let (m, p) = r->0;
            lemma_first_space(s@, m@, p@);
        } else {
            lemma_no_space(s@, 0);
        }
    }
    r
}

fn eq_ignore_ascii_case(a: &str, b: &str) -> (r: bool)
    ensures
        r == (lower(a@) == lower(b@)),
{
    let la = lower_chars(a);
    let lb = lower_chars(b);
    chars_equal(&la, &lb)
}

fn segments(p: &str) -> (r: Vec<String>)
    ensures
        views(r@) == path_segments(p@),
{
    let parts = split_at_char(p, '/');
    let ghost ps = views(parts@);
    let mut out: Vec<String> = Vec::new();
    let mut i: usize = 0;
    while i < parts.len()
        invariant
            i <= parts@.len(),
            ps == views(parts@),
            views(out@) == nonempty(ps.take(i as int)),
        decreases parts@.len() - i,
    {
        assert(ps.take(i + 1).drop_last() =~= ps.take(i as int));
        assert(ps.take(i + 1).last() == parts@[i as int]@);
        let n = chars_of(parts[i].as_str()).len();
        if n > 0 {
            let ghost before = out@;
            out.push(parts[i].clone());
            assert(views(out@) =~= views(before).push(parts@[i as int]@));
        }
        i += 1;
    }
    assert(ps.take(parts@.len() as int) =~= ps);
    out
}

fn is_param(seg: &Vec<char>) -> (b: bool)
    ensures
        b == is_param_segment(seg@),
{
    seg.len() >= 1 && seg[0] == '{' && seg[seg.len() - 1] == '}'
}

proof fn lemma_bind_none(pats: Seq<Seq<char>>, vals: Seq<Seq<char>>, n: int, m: int)
    requires
        0 <= n <= m,
        bind_params(pats, vals, n) is None,
    ensures
        bind_params(pats, vals, m) is None,
    decreases m - n,
{
    if n < m {
        lemma_bind_none(pats, vals, n, m - 1);
    }
}

proof fn lemma_match_from(eps: Seq<EndpointMapping>, method: Seq<char>, path: Seq<char>, i: int)
    requires
        0 <= i,
    ensures
        match_from(eps, method, path, i) matches Some(j) ==> i <= j < eps.len(),
    decreases eps.len() - i,
{
    if i < eps.len() && endpoint_binding(eps[i], method, path) is None {
        lemma_match_from(eps, method, path, i + 1);
    }
}

proof fn lemma_first_match_from(eps: Seq<EndpointMapping>, method: Seq<char>, path: Seq<char>, i: int)
    requires
        0 <= i,
    ensures
        match match_from(eps, method, path, i) {
            Some(j) => i <= j < eps.len() && endpoint_binding(eps[j], method, path) is Some
                && forall|k: int| i <= k < j ==> (#[trigger] endpoint_binding(eps[k], method, path)) is None,
            None => forall|k: int| i <= k < eps.len() ==> (#[trigger] endpoint_binding(eps[k], method, path)) is None,
        },
    decreases eps.len() - i,
{
    if i < eps.len() && endpoint_binding(eps[i], method, path) is None {
        lemma_first_match_from(eps, method, path, i + 1);
    }
}

/// The first entry in file order wins: a request is matched to an entry
/// that binds it, and no entry before that one binds it; where nothing is
/// matched, no entry binds it.
pub proof fn lemma_first_entry_wins(eps: Seq<EndpointMapping>, method: Seq<char>, path: Seq<char>)
    ensures
        match match_from(eps, method, path, 0) {
            Some(i) => 0 <= i < eps.len() && endpoint_binding(eps[i], method, path) is Some
                && forall|j: int| 0 <= j < i ==> (#[trigger] endpoint_binding(eps[j], method, path)) is None,
            None => forall|j: int| 0 <= j < eps.len() ==> (#[trigger] endpoint_binding(eps[j], method, path)) is None,
        },
{
    lemma_first_match_from(eps, method, path, 0);
}

fn bind(pats: &Vec<String>, vals: &Vec<String>) -> (r: Option<KeyedMap<String>>)
    requires
        pats@.len() == vals@.len(),
    ensures
        match r {
            Some(m) => bind_params(views(pats@), views(vals@), pats@.len() as int) == Some(text_map_of(m)),
            None => bind_params(views(pats@), views(vals@), pats@.len() as int) is None,
        },
{
    let ghost ps = views(pats@);
    let ghost vs = views(vals@);
    let mut params: KeyedMap<String> = KeyedMap::new();
    assert(text_map_of(params) =~= Map::<Seq<char>, Seq<char>>::empty());
    let mut i: usize = 0;
    while i < pats.len()
        invariant
            i <= pats@.len(),
            pats@.len() == vals@.len(),
            ps == views(pats@),
            vs == views(vals@),
            bind_params(ps, vs, i as int) == Some(text_map_of(params)),
        decreases pats@.len() - i,
    {
        let pc = chars_of(pats[i].as_str());
        let ghost before = text_map_of(params);
        if is_param(&pc) {
            let name = string_of(&pc, 1, pc.len() - 1);
            params.insert(name, vals[i].clone());
            assert(text_map_of(params) =~= before.insert(ps[i as int].subrange(1, ps[i as int].len() - 1), vs[i as int]));
        } else if !crate::text::str_eq(pats[i].as_str(), vals[i].as_str()) {
            proof {
                assert(bind_params(ps, vs, i + 1) is None);
                lemma_bind_none(ps, vs, i + 1, pats@.len() as int);
            }
            return None;
        }
        i += 1;
    }
    Some(params)
}

fn find_match(mapping: &MappingFile, method: &str, path: &str) -> (r: Option<(usize, KeyedMap<String>)>)
    ensures
        match r {
            Some((i, params)) => match_from(mapping.endpoints@, method@, path@, 0) == Some(i as int)
                && i < mapping.endpoints@.len()
                && endpoint_binding(mapping.endpoints@[i as int], method@, path@) == Some(text_map_of(params)),
            None => match_from(mapping.endpoints@, method@, path@, 0) is None,
        },
{
    let ghost eps = mapping.endpoints@;
    proof {
        lemma_match_from(eps, method@, path@, 0);
    }
    let req_segs = segments(path);
    let mut i: usize = 0;
    while i < mapping.endpoints.len()
        invariant
            i <= eps.len(),
            eps == mapping.endpoints@,
            views(req_segs@) == path_segments(path@),
            match_from(eps, method@, path@, 0) == match_from(eps, method@, path@, i as int),
        decreases eps.len() - i,
    {
        let ep = &mapping.endpoints[i];
        if let Some((ep_method, ep_path)) = method_and_path_of(ep.source.as_str()) {
            if eq_ignore_ascii_case(ep_method.as_str(), method) {
                let pat_segs = segments(ep_path.as_str());
                if pat_segs.len() == req_segs.len() {
                    if let Some(params) = bind(&pat_segs, &req_segs) {
                        return Some((i, params));
                    }
                }
            }
        }
        i += 1;
    }
    None
}

/// Match an incoming (method, path) against the mapping file's source
/// endpoints. Path params are matched positionally by `{name}` segments.
pub fn match_endpoint<'a>(mapping: &'a MappingFile, method: &str, path: &str) -> (r: Option<(&'a EndpointMapping, KeyedMap<String>)>)
    ensures
        match r {
            Some((e, params)) => match_from(mapping.endpoints@, method@, path@, 0) matches Some(i)
                && *e == mapping.endpoints@[i]
                && endpoint_binding(mapping.endpoints@[i], method@, path@) == Some(text_map_of(params)),
            None => match_from(mapping.endpoints@, method@, path@, 0) is None,
        },
{
    match find_match(mapping, method, path) {
        Some((i, params)) => Some((&mapping.endpoints[i], params)),
        None => None,
    }
}

/// The request path as the sources see it: without `source_base_path`
/// where the path starts with it, else the path as it came.
pub open spec fn source_request_path(base: Seq<char>, path: Seq<char>) -> Seq<char> {
    match strip_prefix(base, path) {
        Some(rest) => rest,
        None => path,
    }
}

/// The request path with the settings' `source_base_path` stripped from
/// its front, ready to be matched against the `[[endpoints]]` sources.
pub fn strip_source_base(settings: &Settings, path: &str) -> (r: String)
    ensures
        r@ == source_request_path(settings.source_base_path@, path@),
{
    match strip_prefix_owned(path, settings.source_base_path.as_str()) {
        Some(rest) => rest,
        None => owned(path),
    }
}

// ---------------------------------------------------------------------
// The upstream path
// ---------------------------------------------------------------------

/// The source param whose renamed target is `t` (the first in key order),
/// falling back to `t` itself.
pub open spec fn source_param_for(pp: Seq<(Seq<char>, Seq<char>)>, t: Seq<char>, i: int) -> Seq<char>
    decreases pp.len() - i,
{
    if i < 0 || i >= pp.len() {
        t
    } else if pp[i].1 == t {
        pp[i].0
    } else {
        source_param_for(pp, t, i + 1)
    }
}

/// The target path built from the target pattern's segments: each
/// non-empty segment after a `/`, a `{param}` replaced by the value bound
/// to its source param (nothing where none is bound).
pub open spec fn path_from(segs: Seq<Seq<char>>, pp: Seq<(Seq<char>, Seq<char>)>, params: Map<Seq<char>, Seq<char>>) -> Seq<char>
    decreases segs.len(),
{
    if segs.len() == 0 {
        Seq::empty()
    } else {
        let prev = path_from(segs.drop_last(), pp, params);
        let seg = segs.last();
        if seg.len() == 0 {
            prev
        } else if is_param_segment(seg) {
            let source_name = source_param_for(pp, seg.subrange(1, seg.len() - 1), 0);
            prev + seq!['/'] + (if params.contains_key(source_name) { params[source_name] } else { Seq::empty() })
        } else {
            prev + seq!['/'] + seg
        }
    }
}

/// The upstream path of a matched entry: `target_base_path`, then the
/// target pattern with its params filled in.
pub open spec fn target_path(base: Seq<char>, e: EndpointMapping, params: Map<Seq<char>, Seq<char>>) -> Seq<char> {
    let pattern = match first_space_split(e.target@) {
        Some((_, p)) => p,
        None => Seq::empty(),
    };
    base + path_from(split(pattern, '/'), text_entries(e.path_params@), params)
}

fn source_param(pp: &KeyedMap<String>, t: &str) -> (r: String)
    ensures
        r@ == source_param_for(text_entries(pp@), t@, 0),
{
    let ghost es = text_entries(pp@);
    let mut i: usize = 0;
    while i < pp.len()
        invariant
            i <= pp@.len(),
            es == text_entries(pp@),
            source_param_for(es, t@, 0) == source_param_for(es, t@, i as int),
        decreases pp@.len() - i,
    {
        let (k, v) = pp.entry(i);
        assert(es[i as int] == (k@, v@));
        if crate::text::str_eq(v.as_str(), t) {
            return k.clone();
        }
        i += 1;
    }
    owned(t)
}

/// Build the upstream target path for a matched endpoint, substituting path
/// params (translated via `endpoint.path_params` when the target uses a
/// different param name) and applying `target_base_path`.
pub fn build_target_path(mapping: &MappingFile, endpoint: &EndpointMapping, source_params: &KeyedMap<String>) -> (r: String)
    ensures
        r@ == target_path(mapping.settings.target_base_path@, *endpoint, text_map_of(*source_params)),
{
    let target_pattern = match method_and_path_of(endpoint.target.as_str()) {
        Some((_, p)) => p,
        None => String::new(),
    };
    let segs = split_at_char(target_pattern.as_str(), '/');
    let ghost ss = views(segs@);
    let ghost pp = text_entries(endpoint.path_params@);
    let ghost params = text_map_of(*source_params);
    let mut path = String::new();
    let mut i: usize = 0;
    while i < segs.len()
        invariant
            i <= segs@.len(),
            ss == views(segs@),
            pp == text_entries(endpoint.path_params@),
            params == text_map_of(*source_params),
            path@ == path_from(ss.take(i as int), pp, params),
        decreases segs@.len() - i,
    {
        assert(ss.take(i + 1).drop_last() =~= ss.take(i as int));
        assert(ss.take(i + 1).last() == segs@[i as int]@);
        let cs = chars_of(segs[i].as_str());
        if cs.len() > 0 {
            crate::text::push_char(&mut path, '/');
            if is_param(&cs) {
                let target_param_name = string_of(&cs, 1, cs.len() - 1);
                // Find the source param name whose renamed target equals this,
                // falling back to same-name lookup.
                let source_name = source_param(&endpoint.path_params, target_param_name.as_str());
                if let Some(v) = source_params.get(source_name.as_str()) {
                    append_str(&mut path, v.as_str());
                }
            } else {
                append_str(&mut path, segs[i].as_str());
            }
        }
        i += 1;
    }
    assert(ss.take(segs@.len() as int) =~= ss);
    let mut out = owned(mapping.settings.target_base_path.as_str());
    append_str(&mut out, path.as_str());
    out
}

// ---------------------------------------------------------------------
// The plan for a request
// ---------------------------------------------------------------------

/// What `url::form_urlencoded::parse` reads from a query string.
pub uninterp spec fn form_decoded(query: Seq<char>) -> Seq<(Seq<char>, Seq<char>)>;

/// `url::form_urlencoded::parse`: the decoded (name, value) pairs of a
/// query string.
#[verifier::external_body]
fn form_pairs(query: &str) -> (r: Vec<(String, String)>)
    ensures
        pair_views(r@) == form_decoded(query@),
{
    let mut out = Vec::new();
    for (k, v) in url::form_urlencoded::parse(query.as_bytes()) {
        out.push((k.to_string(), v.to_string()));
    }
    out
}

/// What the proxy does with a request.
pub enum RequestPlan {
    /// Answer at once with this status and text.
    Respond { status: u16, body: String },
    /// Forward the request to the target as it came.
    Passthrough,
    /// Forward the translated request for the entry at `endpoint`, to
    /// `path` with the query `query`.
    Forward { endpoint: usize, path: String, query: Vec<(String, String)> },
}

/// A plan by its plain values.
pub enum PlanView {
    Respond { status: u16, body: Seq<char> },
    Passthrough,
    Forward { endpoint: int, path: Seq<char>, query: Seq<(Seq<char>, Seq<char>)> },
}

impl View for RequestPlan {
    type V = PlanView;

    open spec fn view(&self) -> PlanView {
        match self {
            RequestPlan::Respond { status, body } => PlanView::Respond { status: *status, body: body@ },
            RequestPlan::Passthrough => PlanView::Passthrough,
            RequestPlan::Forward { endpoint, path, query } => PlanView::Forward { endpoint: *endpoint as int, path: path@, query: pair_views(query@) },
        }
    }
}

pub open spec fn no_mapping_text() -> Seq<char> {
    "no mapping for this endpoint"@
}

pub open spec fn no_target_text(source: Seq<char>) -> Seq<char> {
    "endpoint '"@ + source + "' has no target configured in mappings.toml"@
}

/// The plan for a request, matched on its path without `source_base_path`:
/// unmatched requests are refused with 501 or
/// passed through, per `unmapped_endpoint_behavior`; a matched entry with
/// no target is refused with 501; otherwise the request goes to the target
/// path, its query params renamed by the entry's `query_params` and then by
/// the pagination param map.
pub open spec fn request_plan(mapping: MappingFile, method: Seq<char>, raw_path: Seq<char>, query: Seq<char>) -> PlanView {
    let eps = mapping.endpoints@;
    let path = source_request_path(mapping.settings.source_base_path@, raw_path);
    match match_from(eps, method, path, 0) {
        None => match mapping.settings.unmapped_endpoint_behavior {
            UnmappedEndpointBehavior::Reject => PlanView::Respond { status: 501, body: no_mapping_text() },
            UnmappedEndpointBehavior::Passthrough => PlanView::Passthrough,
        },
        Some(i) => {
            let e = eps[i];
            if e.target@.len() == 0 {
                PlanView::Respond { status: 501, body: no_target_text(e.source@) }
            } else {
                PlanView::Forward {
                    endpoint: i,
                    path: target_path(mapping.settings.target_base_path@, e, endpoint_binding(e, method, path)->0),
                    query: translated(
                        translated(form_decoded(query), text_entries(e.query_params@)),
                        param_entries(mapping.settings.pagination),
                    ),
                }
            }
        },
    }
}

pub fn plan_request(mapping: &MappingFile, method: &str, path: &str, query: &str) -> (p: RequestPlan)
    ensures
        p@ == request_plan(*mapping, method@, path@, query@),
{
    let source_path = strip_source_base(&mapping.settings, path);
    let (index, params) = match find_match(mapping, method, source_path.as_str()) {
        Some(m) => m,
        None => {
            return match mapping.settings.unmapped_endpoint_behavior {
                UnmappedEndpointBehavior::Reject => RequestPlan::Respond { status: 501, body: owned("no mapping for this endpoint") },
                UnmappedEndpointBehavior::Passthrough => RequestPlan::Passthrough,
            };
        },
    };
    let endpoint = &mapping.endpoints[index];
    if chars_of(endpoint.target.as_str()).len() == 0 {
        let mut body = owned("endpoint '");
        append_str(&mut body, endpoint.source.as_str());
        append_str(&mut body, "' has no target configured in mappings.toml");
        return RequestPlan::Respond { status: 501, body };
    }
    let target_path = build_target_path(mapping, endpoint, &params);
    let mut pairs = form_pairs(query);
    rename_pair_keys(&mut pairs, &endpoint.query_params);
    translate_query_params(&mut pairs, &mapping.settings.pagination);
    RequestPlan::Forward { endpoint: index, path: target_path, query: pairs }
}

// ---------------------------------------------------------------------
// Bodies and headers
// ---------------------------------------------------------------------

fn copy_bytes(b: &[u8]) -> (r: Vec<u8>)
    ensures
        r@ == b@,
{
    let mut out: Vec<u8> = Vec::new();
    let mut i: usize = 0;
    while i < b.len()
        invariant
            i <= b@.len(),
            out@ == b@.take(i as int),
        decreases b@.len() - i,
    {
        out.push(b[i]);
        i += 1;
        assert(out@ =~= b@.take(i as int));
    }
    assert(b@.take(b@.len() as int) =~= b@);
    out
}

/// The request body sent upstream: an empty body stays empty; a JSON body
/// is rewritten source -> target (kept as it came where it cannot be
/// written back); anything else goes as it came.
pub open spec fn request_body(endpoint: EndpointMapping, body: Seq<u8>) -> Seq<u8> {
    if body.len() == 0 {
        Seq::empty()
    } else {
        match json_bytes_value(body) {
            Some(t) => match json_bytes_of(transformed_request(t, endpoint)) {
                Some(b) => b,
                None => body,
            },
            None => body,
        }
    }
}

/// The response body sent to the client: a JSON body rewritten target ->
/// source (kept as it came where it cannot be written back); anything else
/// as it came.
pub open spec fn response_body(endpoint: EndpointMapping, reg: Map<Seq<char>, crate::mapping::types::SchemaMapping>, body: Seq<u8>) -> Seq<u8> {
    match json_bytes_value(body) {
        Some(t) => match json_bytes_of(transformed_response(t, endpoint, reg)) {
            Some(b) => b,
            None => body,
        },
        None => body,
    }
}

pub fn request_body_out(endpoint: &EndpointMapping, body: &[u8]) -> (r: Vec<u8>)
    ensures
        r@ == request_body(*endpoint, body@),
{
    if body.len() == 0 {
        return Vec::new();
    }
    match parse_json_bytes(body) {
        Some(mut json) => {
            transform_request(&mut json, endpoint);
            match write_json_bytes(&json) {
                Some(b) => b,
                None => copy_bytes(body),
            }
        },
        None => copy_bytes(body),
    }
}

pub fn response_body_out(endpoint: &EndpointMapping, registry: &SchemaRegistry, unmapped_field_behavior: &UnmappedFieldBehavior, body: &[u8]) -> (r: Vec<u8>)
    ensures
        r@ == response_body(*endpoint, registry.schemas(), body@),
{
    match parse_json_bytes(body) {
        Some(mut json) => {
            transform_response(&mut json, endpoint, registry, unmapped_field_behavior);
            match write_json_bytes(&json) {
                Some(b) => b,
                None => copy_bytes(body),
            }
        },
        None => copy_bytes(body),
    }
}

/// The name a request header goes upstream under: `host` and
/// `content-length` (in any case) are not forwarded; others are renamed by
/// the entry's `headers` map (an exact key) or keep their name.
pub open spec fn request_header(endpoint: EndpointMapping, name: Seq<char>) -> Option<Seq<char>> {
    if lower(name) == "host"@ || lower(name) == "content-length"@ {
        None
    } else if endpoint.headers.as_map().contains_key(name) {
        Some(endpoint.headers.as_map()[name]@)
    } else {
        Some(name)
    }
}

pub fn request_header_name(endpoint: &EndpointMapping, name: &str) -> (r: Option<String>)
    ensures
        opt_view(r) == request_header(*endpoint, name@),
{
    if eq_ignore_ascii_case(name, "host") || eq_ignore_ascii_case(name, "content-length") {
        proof {
            reveal_strlit("host");
            reveal_strlit("content-length");
            assert(lower("host"@) =~= "host"@);
            assert(lower("content-length"@) =~= "content-length"@);
        }
        return None;
    }
    proof {
        reveal_strlit("host");
        reveal_strlit("content-length");
        assert(lower("host"@) =~= "host"@);
        assert(lower("content-length"@) =~= "content-length"@);
    }
    match endpoint.headers.get(name) {
        Some(renamed) => Some(renamed.clone()),
        None => Some(owned(name)),
    }
}

/// What happens to a header of the upstream response.
#[derive(Debug, Clone, Copy, PartialEq, Eq, Structural)]
pub enum ResponseHeader {
    /// Left out: the body is re-framed here.
    Skip,
    /// A `Link` header whose URLs are moved to the proxy.
    RewriteLink,
    /// Passed on as it is.
    Keep,
}

/// `transfer-encoding` and `content-encoding` are left out (the body sent
/// on is a fully read buffer, maybe re-serialized); `link` is rewritten
/// when the pagination settings ask for it.
pub open spec fn response_header(settings: Settings, name: Seq<char>) -> ResponseHeader {
    if lower(name) == "transfer-encoding"@ || lower(name) == "content-encoding"@ {
        ResponseHeader::Skip
    } else if lower(name) == "link"@ && settings.pagination.rewrite_link_urls {
        ResponseHeader::RewriteLink
    } else {
        ResponseHeader::Keep
    }
}

pub fn response_header_kind(settings: &Settings, name: &str) -> (r: ResponseHeader)
    ensures
        r == response_header(*settings, name@),
{
    proof {
        reveal_strlit("transfer-encoding");
        reveal_strlit("content-encoding");
        reveal_strlit("link");
        assert(lower("transfer-encoding"@) =~= "transfer-encoding"@);
        assert(lower("content-encoding"@) =~= "content-encoding"@);
        assert(lower("link"@) =~= "link"@);
    }
    if eq_ignore_ascii_case(name, "transfer-encoding") || eq_ignore_ascii_case(name, "content-encoding") {
        ResponseHeader::Skip
    } else if eq_ignore_ascii_case(name, "link") && settings.pagination.rewrite_link_urls {
        ResponseHeader::RewriteLink
    } else {
        ResponseHeader::Keep
    }
}

/// Whether a header of the final response is sent: `content-length` is
/// left to the server, which frames the body itself.
pub fn response_header_sent(name: &str) -> (b: bool)
    ensures
        b == (lower(name@) != "content-length"@),
{
    proof {
        reveal_strlit("content-length");
        assert(lower("content-length"@) =~= "content-length"@);
    }
    !eq_ignore_ascii_case(name, "content-length")
}

/// Whether a request header is forwarded on a passthrough: all but `host`
/// (in any case), which the upstream connection sets itself.
pub fn passthrough_header_sent(name: &str) -> (b: bool)
    ensures
        b == (lower(name@) != "host"@),
{
    proof {
        reveal_strlit("host");
        assert(lower("host"@) =~= "host"@);
    }
    !eq_ignore_ascii_case(name, "host")
}

/// The proxy's own base for rewritten links: `http://proxy.local`.
pub fn proxy_link_base() -> (r: Option<UrlParts>)
    ensures
        match r {
            Some(p) => url_reading("http://proxy.local"@) matches Some((parts, _)) && p@ == parts,
            None => url_reading("http://proxy.local"@) is None,
        },
{
    match read_url("http://proxy.local") {
        Some((parts, _)) => Some(parts),
        None => None,
    }
}

} // verus!
