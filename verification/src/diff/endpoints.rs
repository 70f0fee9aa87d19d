//! Deterministic endpoint matching between a source and a target spec.
use vstd::prelude::*;
use crate::spec::model::{ApiSpec, HttpMethod, method_text};
use crate::search::{first_index, last_index, lemma_first_found, lemma_first_none, lemma_last_found, lemma_last_none};
use crate::text::{chars_of, string_of, split, join, is_prefix, count_char, lemma_split_count, lemma_split_pieces, lemma_split_nonempty, lemma_split_join, lemma_join_split, views, lower, lower_chars, chars_equal, split_at_char, join_with, owned, str_eq};

verus! {

/// A `{param}` segment stands for "some parameter": its name does not matter.
pub open spec fn is_param_segment(seg: Seq<char>) -> bool {
    seg.len() >= 1 && seg[0] == '{' && seg.last() == '}'
}

pub open spec fn normalize_segment(seg: Seq<char>) -> Seq<char> {
    if is_param_segment(seg) {
        seq!['{', '}']
    } else {
        seg
    }
}

/// `path` with a non-empty `base_path` prefix removed.
pub open spec fn strip_base(path: Seq<char>, base_path: Seq<char>) -> Seq<char> {
    if base_path.len() > 0 && is_prefix(base_path, path) {
        path.skip(base_path.len() as int)
    } else {
        path
    }
}

/// The normalized form of a path: base path stripped, every `{param}`
/// segment replaced by `{}`.
pub open spec fn normalized(path: Seq<char>, base_path: Seq<char>) -> Seq<char> {
    join(split(strip_base(path, base_path), '/').map_values(|seg: Seq<char>| normalize_segment(seg)), '/')
}

fn normalize_segment_exec(seg: &String) -> (r: String)
    ensures
        r@ == normalize_segment(seg@),
{
    let cs = chars_of(seg.as_str());
    if cs.len() >= 1 && cs[0] == '{' && cs[cs.len() - 1] == '}' {
        let mut r = String::new();
        crate::text::push_char(&mut r, '{');
        crate::text::push_char(&mut r, '}');
        assert(r@ =~= seq!['{', '}']);
        r
    } else {
        owned(seg.as_str())
    }
}

/// Normalize a path for comparison: strip a known base path prefix and
/// replace every `{param}` segment with a positional placeholder so that
/// `/repos/{owner}/{repo}` and `/repos/{user}/{project}` compare equal.
pub fn normalize_path(path: &str, base_path: &str) -> (r: String)
    ensures
        r@ == normalized(path@, base_path@),
{
    let stripped: String = if !base_path.is_empty() && crate::text::starts_with(path, base_path) {
        let cs = chars_of(path);
        let n = chars_of(base_path).len();
        string_of(&cs, n, cs.len())
    } else {
        owned(path)
    };
    proof {
        if base_path@.len() > 0 && is_prefix(base_path@, path@) {
            assert(path@.subrange(base_path@.len() as int, path@.len() as int) =~= path@.skip(base_path@.len() as int));
        }
    }
    let pieces = split_at_char(stripped.as_str(), '/');
    let mut out: Vec<String> = Vec::new();
    let mut i: usize = 0;
    while i < pieces.len()
        invariant
            i <= pieces.len(),
            out@.len() == i,
            views(out@) == views(pieces@).take(i as int).map_values(|seg: Seq<char>| normalize_segment(seg)),
        decreases pieces.len() - i,
    {
        let ghost prev = out@;
        out.push(normalize_segment_exec(&pieces[i]));
        assert(views(pieces@)[i as int] == pieces@[i as int]@);
        i += 1;
        assert forall|x: int| 0 <= x < i implies #[trigger] views(out@)[x] == views(pieces@).take(i as int).map_values(|seg: Seq<char>| normalize_segment(seg))[x] by {
            if x < i - 1 {
                assert(out@[x] == prev[x]);
                assert(views(prev)[x] == views(pieces@).take(i - 1).map_values(|seg: Seq<char>| normalize_segment(seg))[x]);
            }
        }
        assert(views(out@) =~= views(pieces@).take(i as int).map_values(|seg: Seq<char>| normalize_segment(seg)));
    }
    assert(views(pieces@).take(pieces.len() as int) =~= views(pieces@));
    join_with(&out, '/')
}

/// Renaming `{param}` segments never changes the normalized path.
pub proof fn lemma_param_names_ignored(a: Seq<char>, b: Seq<char>, base_path: Seq<char>)
    requires
        split(strip_base(a, base_path), '/').len() == split(strip_base(b, base_path), '/').len(),
        forall|i: int| 0 <= i < split(strip_base(a, base_path), '/').len() ==> {
            let x = #[trigger] split(strip_base(a, base_path), '/')[i];
            let y = split(strip_base(b, base_path), '/')[i];
            x == y || (is_param_segment(x) && is_param_segment(y))
        },
    ensures
        normalized(a, base_path) == normalized(b, base_path),
{
    let sa = split(strip_base(a, base_path), '/').map_values(|seg: Seq<char>| normalize_segment(seg));
    let sb = split(strip_base(b, base_path), '/').map_values(|seg: Seq<char>| normalize_segment(seg));
    assert(sa =~= sb);
}

/// The normalized segments of a path: none holds a `/`.
proof fn lemma_normalized_segments(path: Seq<char>, base_path: Seq<char>)
    ensures
        ({
            let segs = split(strip_base(path, base_path), '/').map_values(|seg: Seq<char>| normalize_segment(seg));
            &&& segs.len() == split(strip_base(path, base_path), '/').len()
            &&& segs.len() >= 1
            &&& forall|i: int| 0 <= i < segs.len() ==> !(#[trigger] segs[i]).contains('/')
            &&& split(normalized(path, base_path), '/') == segs
        }),
{
    let pieces = split(strip_base(path, base_path), '/');
    let segs = pieces.map_values(|seg: Seq<char>| normalize_segment(seg));
    lemma_split_pieces(strip_base(path, base_path), '/');
    lemma_split_nonempty(strip_base(path, base_path), '/');
    assert forall|i: int| 0 <= i < segs.len() implies !(#[trigger] segs[i]).contains('/') by {
        assert(!pieces[i].contains('/'));
        if is_param_segment(pieces[i]) {
            assert(segs[i] == seq!['{', '}']);
            if segs[i].contains('/') {
                let k = choose|k: int| 0 <= k < segs[i].len() && segs[i][k] == '/';
            }
        }
    }
    lemma_split_join(segs, '/');
}

/// Normalizing is idempotent: a normalized path, normalized again with no
/// base path, is unchanged.
pub proof fn lemma_normalize_idempotent(path: Seq<char>, base_path: Seq<char>)
    ensures
        normalized(normalized(path, base_path), Seq::empty()) == normalized(path, base_path),
{
    let r = normalized(path, base_path);
    lemma_normalized_segments(path, base_path);
    let segs = split(r, '/');
    assert(strip_base(r, Seq::empty()) == r);
    let again = segs.map_values(|seg: Seq<char>| normalize_segment(seg));
    assert(again =~= segs) by {
        assert forall|i: int| 0 <= i < segs.len() implies #[trigger] again[i] == segs[i] by {
            if is_param_segment(segs[i]) {
                let orig = split(strip_base(path, base_path), '/')[i];
                if is_param_segment(orig) {
                    assert(segs[i] =~= seq!['{', '}']);
                } else {
                    assert(segs[i] == orig);
                }
            }
        }
    }
    lemma_join_split(r, '/');
}

/// Normalizing keeps the segments: the normalized path holds as many `/`
/// as the path left once the base path is stripped.
pub proof fn lemma_normalize_keeps_segments(path: Seq<char>, base_path: Seq<char>)
    ensures
        count_char(normalized(path, base_path), '/') == count_char(strip_base(path, base_path), '/'),
{
    lemma_normalized_segments(path, base_path);
    lemma_split_count(normalized(path, base_path), '/');
    lemma_split_count(strip_base(path, base_path), '/');
}

#[derive(Debug, Clone, Copy, PartialEq, Eq, Structural)]
pub enum MatchVia {
    /// HTTP method + normalized path matched exactly in both specs.
    Path,
    /// No path match, but `operationId` matched exactly (case-insensitive).
    OperationId,
}

#[derive(Debug, Clone)]
pub enum MatchOutcome {
    Matched { target_idx: usize, via: MatchVia },
    /// The normalized path matched in both specs, but the HTTP method
    /// differs -- deliberately NOT auto-mapped; the user must confirm.
    MethodMismatch { target_idx: usize, target_method: String },
    Unmatched,
}

#[derive(Debug, Clone)]
pub struct EndpointMatch {
    pub source_idx: usize,
    pub outcome: MatchOutcome,
}

/// The normalized path of endpoint `i` of `spec`.
pub open spec fn endpoint_norm(spec: ApiSpec, i: int) -> Seq<char> {
    normalized(spec.endpoints@[i].path@, spec.base_path@)
}

/// Target endpoint with the same method and normalized path (the last one
/// wins, as in a map filled in order).
pub open spec fn path_match(source: ApiSpec, target: ApiSpec, si: int) -> Option<int> {
    last_index(target.endpoints@.len() as int, |ti: int|
        target.endpoints@[ti].method == source.endpoints@[si].method
        && endpoint_norm(target, ti) == endpoint_norm(source, si))
}

/// Target endpoint whose `operationId` equals the source's, ignoring ASCII
/// case (the first one wins).
pub open spec fn operation_id_match(source: ApiSpec, target: ApiSpec, si: int) -> Option<int> {
    match source.endpoints@[si].operation.operation_id {
        Some(op) => first_index(target.endpoints@.len() as int, |ti: int|
            target.endpoints@[ti].operation.operation_id is Some
            && lower(target.endpoints@[ti].operation.operation_id->0@) == lower(op@)),
        None => None,
    }
}

/// First target endpoint with the same normalized path, whatever its method.
pub open spec fn any_method_match(source: ApiSpec, target: ApiSpec, si: int) -> Option<int> {
    first_index(target.endpoints@.len() as int, |ti: int| endpoint_norm(target, ti) == endpoint_norm(source, si))
}

/// The target index an outcome names, if any, is a valid one.
pub open spec fn outcome_in_range(o: MatchOutcome, n: int) -> bool {
    match o {
        MatchOutcome::Matched { target_idx, .. } => target_idx < n,
        MatchOutcome::MethodMismatch { target_idx, .. } => target_idx < n,
        MatchOutcome::Unmatched => true,
    }
}

/// The outcome that the matching rules give source endpoint `si`.
pub open spec fn outcome_for(source: ApiSpec, target: ApiSpec, si: int, o: MatchOutcome) -> bool {
    if let Some(ti) = path_match(source, target, si) {
        o matches MatchOutcome::Matched { target_idx, via } && target_idx == ti && via == MatchVia::Path
    } else if let Some(ti) = operation_id_match(source, target, si) {
        o matches MatchOutcome::Matched { target_idx, via } && target_idx == ti && via == MatchVia::OperationId
    } else if let Some(ti) = any_method_match(source, target, si) {
        o matches MatchOutcome::MethodMismatch { target_idx, target_method }
            && target_idx == ti
            && target_method@ == method_text(target.endpoints@[ti].method)
    } else {
        o is Unmatched
    }
}

/// Deterministic endpoint matching: exact method+path match first, then
/// exact (case-insensitive) `operationId` match, otherwise unmatched.
/// No scoring, no fuzzy path similarity, no "close enough" heuristics --
/// every match this produces is something a diff-reader could verify by
/// eye in the two spec files.
pub fn match_endpoints(source: &ApiSpec, target: &ApiSpec) -> (matches: Vec<EndpointMatch>)
    ensures
        matches@.len() == source.endpoints@.len(),
        forall|i: int| 0 <= i < matches@.len() ==> (#[trigger] matches@[i]).source_idx == i
            && outcome_for(*source, *target, i, matches@[i].outcome)
            && outcome_in_range(matches@[i].outcome, target.endpoints@.len() as int),
{
    let tn = target.endpoints.len();
    // normalized target paths and lower-cased operation ids
    let mut tpaths: Vec<String> = Vec::new();
    let mut tops: Vec<Option<Vec<char>>> = Vec::new();
    let mut ti: usize = 0;
    while ti < tn
        invariant
            tn == target.endpoints@.len(),
            ti <= tn,
            tpaths@.len() == ti,
            tops@.len() == ti,
            forall|j: int| 0 <= j < ti ==> (#[trigger] tpaths@[j])@ == endpoint_norm(*target, j),
            forall|j: int| 0 <= j < ti ==> match (#[trigger] tops@[j]) {
                Some(l) => target.endpoints@[j].operation.operation_id is Some
                    && l@ == lower(target.endpoints@[j].operation.operation_id->0@),
                None => target.endpoints@[j].operation.operation_id is None,
            },
        decreases tn - ti,
    {
        let t = &target.endpoints[ti];
        tpaths.push(normalize_path(t.path.as_str(), target.base_path.as_str()));
        match &t.operation.operation_id {
            Some(op) => tops.push(Some(lower_chars(op.as_str()))),
            None => tops.push(None),
        }
        ti += 1;
    }

    let mut out: Vec<EndpointMatch> = Vec::new();
    let mut si: usize = 0;
    while si < source.endpoints.len()
        invariant
            tn == target.endpoints@.len(),
            tpaths@.len() == tn,
            tops@.len() == tn,
            forall|j: int| 0 <= j < tn ==> (#[trigger] tpaths@[j])@ == endpoint_norm(*target, j),
            forall|j: int| 0 <= j < tn ==> match (#[trigger] tops@[j]) {
                Some(l) => target.endpoints@[j].operation.operation_id is Some
                    && l@ == lower(target.endpoints@[j].operation.operation_id->0@),
                None => target.endpoints@[j].operation.operation_id is None,
            },
            si <= source.endpoints@.len(),
            out@.len() == si,
            forall|i: int| 0 <= i < si ==> (#[trigger] out@[i]).source_idx == i
                && outcome_for(*source, *target, i, out@[i].outcome)
                && outcome_in_range(out@[i].outcome, target.endpoints@.len() as int),
        decreases source.endpoints@.len() - si,
    {
        let s = &source.endpoints[si];
        let np = normalize_path(s.path.as_str(), source.base_path.as_str());
        let ghost sidx = si as int;
        let outcome = match_one(source, target, si, &np, &tpaths, &tops);
        out.push(EndpointMatch { source_idx: si, outcome });
        si += 1;
    }
    out
}

#[verifier::loop_isolation(false)]
fn match_one(
    source: &ApiSpec,
    target: &ApiSpec,
    si: usize,
    np: &String,
    tpaths: &Vec<String>,
    tops: &Vec<Option<Vec<char>>>,
) -> (o: MatchOutcome)
    requires
        si < source.endpoints@.len(),
        np@ == endpoint_norm(*source, si as int),
        tpaths@.len() == target.endpoints@.len(),
        tops@.len() == target.endpoints@.len(),
        forall|j: int| 0 <= j < target.endpoints@.len() ==> (#[trigger] tpaths@[j])@ == endpoint_norm(*target, j),
        forall|j: int| 0 <= j < target.endpoints@.len() ==> match (#[trigger] tops@[j]) {
            Some(l) => target.endpoints@[j].operation.operation_id is Some
                && l@ == lower(target.endpoints@[j].operation.operation_id->0@),
            None => target.endpoints@[j].operation.operation_id is None,
        },
    ensures
        outcome_for(*source, *target, si as int, o),
        outcome_in_range(o, target.endpoints@.len() as int),
{
    let s = &source.endpoints[si];
    let tn = target.endpoints.len();
    let ghost pp = |ti: int| target.endpoints@[ti].method == source.endpoints@[si as int].method
        && endpoint_norm(*target, ti) == endpoint_norm(*source, si as int);
    // exact method + normalized path: the last such target
    let mut k: usize = tn;
    while k > 0
        invariant
            k <= tn == target.endpoints@.len(),
            tpaths@.len() == tn,
            forall|j: int| 0 <= j < target.endpoints@.len() ==> (#[trigger] tpaths@[j])@ == endpoint_norm(*target, j),
            forall|j: int| k <= j < tn ==> !#[trigger] pp(j),
        decreases k,
    {
        let j = k - 1;
        if target.endpoints[j].method == s.method && str_eq(tpaths[j].as_str(), np.as_str()) {
            proof { lemma_last_found(tn as int, pp, j as int); }
            return MatchOutcome::Matched { target_idx: j, via: MatchVia::Path };
        }
        k = j;
    }
    proof { lemma_last_none(tn as int, pp); }
    // operationId, case-insensitively: the first such target
    if let Some(op) = &s.operation.operation_id {
        let lop = lower_chars(op.as_str());
        let ghost po = |ti: int| target.endpoints@[ti].operation.operation_id is Some
            && lower(target.endpoints@[ti].operation.operation_id->0@) == lower(op@);
        let mut j: usize = 0;
        while j < tn
            invariant
                j <= tn == target.endpoints@.len(),
                tops@.len() == tn,
                lop@ == lower(op@),
                forall|x: int| 0 <= x < target.endpoints@.len() ==> match (#[trigger] tops@[x]) {
                    Some(l) => target.endpoints@[x].operation.operation_id is Some
                        && l@ == lower(target.endpoints@[x].operation.operation_id->0@),
                    None => target.endpoints@[x].operation.operation_id is None,
                },
                forall|x: int| 0 <= x < j ==> !#[trigger] po(x),
            decreases tn - j,
        {
            if let Some(l) = &tops[j] {
                if chars_equal(l, &lop) {
                    proof { lemma_first_found(tn as int, po, j as int); }
                    return MatchOutcome::Matched { target_idx: j, via: MatchVia::OperationId };
                }
            }
            j += 1;
        }
        proof { lemma_first_none(tn as int, po); }
    }
    // same normalized path, other method: the first such target
    let ghost pa = |ti: int| endpoint_norm(*target, ti) == endpoint_norm(*source, si as int);
    let mut j: usize = 0;
    while j < tn
        invariant
            j <= tn == target.endpoints@.len(),
            tpaths@.len() == tn,
            forall|x: int| 0 <= x < target.endpoints@.len() ==> (#[trigger] tpaths@[x])@ == endpoint_norm(*target, x),
            forall|x: int| 0 <= x < j ==> !#[trigger] pa(x),
        decreases tn - j,
    {
        if str_eq(tpaths[j].as_str(), np.as_str()) {
            proof { lemma_first_found(tn as int, pa, j as int); }
            let m = owned(target.endpoints[j].method.as_str());
            return MatchOutcome::MethodMismatch { target_idx: j, target_method: m };
        }
        j += 1;
    }
    proof { lemma_first_none(tn as int, pa); }
    MatchOutcome::Unmatched
}

} // verus!
