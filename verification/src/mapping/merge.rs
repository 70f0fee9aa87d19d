//! Merging a freshly generated mapping into an existing, possibly
//! hand-edited one (`sync`).
use vstd::prelude::*;
use crate::diff::schemas::opt_view;
use crate::mapping::types::{EndpointMapping, MappingFile, SchemaMapping, sorted_by_source, sort_by_source, with_source};
use crate::text::{str_eq, owned, append_str};

verus! {

pub struct MergeReport {
    pub added: usize,
    pub updated: usize,
    pub kept_edited: usize,
    pub removed_flagged: usize,
}

/// Entry `i` is the last existing entry with its source (the one a map
/// keyed by source keeps).
pub open spec fn last_of_source(ex: Seq<EndpointMapping>, i: int) -> bool {
    0 <= i < ex.len() && forall|j: int| i < j < ex.len() ==> #[trigger] ex[j].source@ != ex[i].source@
}

/// The last of the first `n` existing entries with source `s`.
pub open spec fn last_with_source(ex: Seq<EndpointMapping>, s: Seq<char>, n: int) -> Option<int>
    decreases n,
{
    if n <= 0 {
        None
    } else if ex[n - 1].source@ == s {
        Some(n - 1)
    } else {
        last_with_source(ex, s, n - 1)
    }
}

/// The existing entry kept for source `s`, if any.
pub open spec fn existing_for(ex: Seq<EndpointMapping>, s: Seq<char>) -> Option<int> {
    last_with_source(ex, s, ex.len() as int)
}

/// Proposed entry `p` is the first proposed entry with its source.
pub open spec fn first_proposed(pr: Seq<EndpointMapping>, p: int) -> bool {
    forall|q: int| 0 <= q < p ==> #[trigger] pr[q].source@ != pr[p].source@
}

/// Proposed entry `p` takes over an existing entry.
pub open spec fn claims(ex: Seq<EndpointMapping>, pr: Seq<EndpointMapping>, p: int) -> bool {
    first_proposed(pr, p) && existing_for(ex, pr[p].source@) is Some
}

/// What stands in the merge for proposed entry `p`.
pub open spec fn merged_for(ex: Seq<EndpointMapping>, pr: Seq<EndpointMapping>, p: int) -> EndpointMapping {
    if claims(ex, pr, p) && ex[existing_for(ex, pr[p].source@)->0].edited {
        ex[existing_for(ex, pr[p].source@)->0]
    } else {
        pr[p]
    }
}

/// Existing entry `i` is kept by source and no proposed entry has its source.
pub open spec fn left_over(ex: Seq<EndpointMapping>, pr: Seq<EndpointMapping>, i: int) -> bool {
    last_of_source(ex, i) && forall|p: int| 0 <= p < pr.len() ==> #[trigger] pr[p].source@ != ex[i].source@
}

pub open spec fn removed_suffix() -> Seq<char> {
    " [no longer present in source spec]"@
}

pub open spec fn removed_note() -> Seq<char> {
    "no longer present in source spec"@
}

/// `f` is the flagged form of a left-over entry `e`: target cleared unless
/// hand-edited, note marked, everything else as it was.
pub open spec fn flagged(e: EndpointMapping, f: EndpointMapping) -> bool {
    &&& f.source == e.source
    &&& f.edited == e.edited
    &&& f.target@ == (if e.edited { e.target@ } else { Seq::<char>::empty() })
    &&& opt_view(f.note) == Some(match e.note {
        Some(n) => n@ + removed_suffix(),
        None => removed_note(),
    })
    &&& f.path_params == e.path_params
    &&& f.query_params == e.query_params
    &&& f.headers == e.headers
    &&& f.request == e.request
    &&& f.response == e.response
}

/// How many of the first `n` proposed entries take over an existing entry
/// with the given edited flag, or (`claimed == false`) take over nothing.
pub open spec fn count_proposed(ex: Seq<EndpointMapping>, pr: Seq<EndpointMapping>, n: int, claimed: bool, edited: bool) -> nat
    decreases n,
{
    if n <= 0 {
        0
    } else {
        let p = n - 1;
        let c = claims(ex, pr, p);
        let hit = if claimed { c && ex[existing_for(ex, pr[p].source@)->0].edited == edited } else { !c };
        count_proposed(ex, pr, n - 1, claimed, edited) + if hit { 1nat } else { 0nat }
    }
}

/// Proposed schema `p` is the first with its name.
pub open spec fn first_schema(pr: Seq<SchemaMapping>, p: int) -> bool {
    forall|q: int| 0 <= q < p ==> #[trigger] pr[q].name@ != pr[p].name@
}

/// The last of the first `k` existing schemas named `n`.
pub open spec fn last_with_name(ex: Seq<SchemaMapping>, n: Seq<char>, k: int) -> Option<int>
    decreases k,
{
    if k <= 0 {
        None
    } else if ex[k - 1].name@ == n {
        Some(k - 1)
    } else {
        last_with_name(ex, n, k - 1)
    }
}

/// The existing schema kept for a name, if any (the last one).
pub open spec fn existing_schema_for(ex: Seq<SchemaMapping>, n: Seq<char>) -> Option<int> {
    last_with_name(ex, n, ex.len() as int)
}

/// Existing schema `i` is the last with its name.
pub open spec fn last_of_name(ex: Seq<SchemaMapping>, i: int) -> bool {
    0 <= i < ex.len() && forall|j: int| i < j < ex.len() ==> #[trigger] ex[j].name@ != ex[i].name@
}

/// What stands in the merge for proposed schema `p`.
pub open spec fn merged_schema_for(ex: Seq<SchemaMapping>, pr: Seq<SchemaMapping>, p: int) -> SchemaMapping {
    if first_schema(pr, p) && existing_schema_for(ex, pr[p].name@) is Some
        && ex[existing_schema_for(ex, pr[p].name@)->0].edited {
        ex[existing_schema_for(ex, pr[p].name@)->0]
    } else {
        pr[p]
    }
}

/// Existing schema `x` is hand-edited (the last with its name) and no
/// proposed schema names it: it is kept as it is.
pub open spec fn schema_left_edited(ex: Seq<SchemaMapping>, pr: Seq<SchemaMapping>, x: int) -> bool {
    last_of_name(ex, x) && ex[x].edited && forall|q: int| 0 <= q < pr.len() ==> #[trigger] pr[q].name@ != ex[x].name@
}

/// The hand-edited existing schemas among the first `n` that no proposed
/// schema names, in their order.
pub open spec fn kept_schemas(ex: Seq<SchemaMapping>, pr: Seq<SchemaMapping>, n: int) -> Seq<SchemaMapping>
    decreases n,
{
    if n <= 0 {
        Seq::empty()
    } else if schema_left_edited(ex, pr, n - 1) {
        kept_schemas(ex, pr, n - 1).push(ex[n - 1])
    } else {
        kept_schemas(ex, pr, n - 1)
    }
}

/// No two schemas share a name.
pub open spec fn schema_names_distinct(s: Seq<SchemaMapping>) -> bool {
    forall|a: int, b: int| 0 <= a < b < s.len() ==> #[trigger] s[a].name@ != #[trigger] s[b].name@
}

/// The merged schemas: what stands for each proposed schema, then the
/// hand-edited existing schemas that the proposal no longer names.
pub open spec fn schemas_merged(ex: Seq<SchemaMapping>, pr: Seq<SchemaMapping>, m: Seq<SchemaMapping>) -> bool {
    &&& m.len() == pr.len() + kept_schemas(ex, pr, ex.len() as int).len()
    &&& forall|p: int| 0 <= p < pr.len() ==> #[trigger] m[p] == merged_schema_for(ex, pr, p)
    &&& m.skip(pr.len() as int) == kept_schemas(ex, pr, ex.len() as int)
}

/// `u` lists the merged endpoints before sorting: what stands for each
/// proposed entry, then the flagged left-over entries `left` (by index, in order).
pub open spec fn merged_unsorted(ex: Seq<EndpointMapping>, pr: Seq<EndpointMapping>, u: Seq<EndpointMapping>, left: Seq<int>) -> bool {
    &&& u.len() == pr.len() + left.len()
    &&& forall|p: int| 0 <= p < pr.len() ==> #[trigger] u[p] == merged_for(ex, pr, p)
    &&& forall|r: int| 0 <= r < left.len() ==> left_over(ex, pr, #[trigger] left[r]) && flagged(ex[left[r]], u[pr.len() + r])
    &&& forall|r: int, s: int| 0 <= r < s < left.len() ==> #[trigger] left[r] < #[trigger] left[s]
    &&& forall|i: int| left_over(ex, pr, i) ==> #[trigger] left.contains(i)
}

/// `merged` holds the entries of `u`, those of one source in the order of
/// `u`, and the report counts the flagged left-over entries.
pub open spec fn merged_from(ex: Seq<EndpointMapping>, pr: Seq<EndpointMapping>, merged: Seq<EndpointMapping>, report: MergeReport, u: Seq<EndpointMapping>, left: Seq<int>) -> bool {
    &&& u.to_multiset() == merged.to_multiset()
    &&& forall|k: Seq<char>| #[trigger] with_source(merged, k) == with_source(u, k)
    &&& merged_unsorted(ex, pr, u, left)
    &&& report.removed_flagged == left.len()
}

/// The merge as `merge_mapping_files` makes it.
pub open spec fn is_merge(existing: MappingFile, proposed: MappingFile, merged: MappingFile, report: MergeReport) -> bool {
    let ex = existing.endpoints@;
    let pr = proposed.endpoints@;
    &&& merged.meta == proposed.meta
    &&& merged.settings == existing.settings
    &&& sorted_by_source(merged.endpoints@)
    &&& exists|u: Seq<EndpointMapping>, left: Seq<int>| #[trigger] merged_from(ex, pr, merged.endpoints@, report, u, left)
    &&& report.added == count_proposed(ex, pr, pr.len() as int, false, false)
    &&& report.updated == count_proposed(ex, pr, pr.len() as int, true, false)
    &&& report.kept_edited == count_proposed(ex, pr, pr.len() as int, true, true)
    &&& schemas_merged(existing.schemas@, proposed.schemas@, merged.schemas@)
}

proof fn lemma_last_with_source(ex: Seq<EndpointMapping>, s: Seq<char>, n: int)
    requires
        0 <= n <= ex.len(),
    ensures
        last_with_source(ex, s, n) matches Some(j) ==> 0 <= j < n && ex[j].source@ == s
            && forall|k: int| j < k < n ==> #[trigger] ex[k].source@ != s,
        last_with_source(ex, s, n) is None ==> forall|k: int| 0 <= k < n ==> #[trigger] ex[k].source@ != s,
    decreases n,
{
    if n > 0 && ex[n - 1].source@ != s {
        lemma_last_with_source(ex, s, n - 1);
    }
}

proof fn lemma_existing_for_found(ex: Seq<EndpointMapping>, s: Seq<char>, j: int)
    requires
        last_of_source(ex, j),
        ex[j].source@ == s,
    ensures
        existing_for(ex, s) == Some(j),
{
    lemma_last_with_source(ex, s, ex.len() as int);
    if let Some(k) = existing_for(ex, s) {
        if k < j {
            assert(ex[j].source@ == s);
        } else if k > j {
            assert(ex[k].source@ == ex[j].source@);
        }
    }
}

proof fn lemma_existing_for_props(ex: Seq<EndpointMapping>, s: Seq<char>)
    ensures
        existing_for(ex, s) matches Some(j) ==> last_of_source(ex, j) && ex[j].source@ == s,
        existing_for(ex, s) is None ==> forall|i: int| 0 <= i < ex.len() ==> #[trigger] ex[i].source@ != s,
{
    lemma_last_with_source(ex, s, ex.len() as int);
}

pub proof fn lemma_last_with_name(ex: Seq<SchemaMapping>, s: Seq<char>, n: int)
    requires
        0 <= n <= ex.len(),
    ensures
        last_with_name(ex, s, n) matches Some(j) ==> 0 <= j < n && ex[j].name@ == s
            && forall|k: int| j < k < n ==> #[trigger] ex[k].name@ != s,
        last_with_name(ex, s, n) is None ==> forall|k: int| 0 <= k < n ==> #[trigger] ex[k].name@ != s,
    decreases n,
{
    if n > 0 && ex[n - 1].name@ != s {
        lemma_last_with_name(ex, s, n - 1);
    }
}

/// The still-unclaimed kept entry for `src`, searched from the end.
fn find_slot(slots: &Vec<Option<EndpointMapping>>, src: &String) -> (r: Option<usize>)
    ensures
        r matches Some(j) ==> j < slots@.len() && (slots@[j as int] matches Some(e) && e.source@ == src@),
        r is None ==> forall|x: int| 0 <= x < slots@.len() ==> !(#[trigger] slots@[x] matches Some(e) && e.source@ == src@),
{
    let mut k: usize = slots.len();
    while k > 0
        invariant
            k <= slots@.len(),
            forall|x: int| k <= x < slots@.len() ==> !(#[trigger] slots@[x] matches Some(e) && e.source@ == src@),
        decreases k,
    {
        let j = k - 1;
        let hit = match &slots[j] {
            Some(e) => str_eq(e.source.as_str(), src.as_str()),
            None => false,
        };
        if hit {
            return Some(j);
        }
        k = j;
    }
    None
}

/// The still-unclaimed kept schema named `name`, searched from the end.
fn find_schema_slot(slots: &Vec<Option<SchemaMapping>>, name: &String) -> (r: Option<usize>)
    ensures
        r matches Some(j) ==> j < slots@.len() && (slots@[j as int] matches Some(e) && e.name@ == name@),
        r is None ==> forall|x: int| 0 <= x < slots@.len() ==> !(#[trigger] slots@[x] matches Some(e) && e.name@ == name@),
{
    let mut k: usize = slots.len();
    while k > 0
        invariant
            k <= slots@.len(),
            forall|x: int| k <= x < slots@.len() ==> !(#[trigger] slots@[x] matches Some(e) && e.name@ == name@),
        decreases k,
    {
        let j = k - 1;
        let hit = match &slots[j] {
            Some(e) => str_eq(e.name.as_str(), name.as_str()),
            None => false,
        };
        if hit {
            return Some(j);
        }
        k = j;
    }
    None
}

fn flag_removed(e: EndpointMapping) -> (f: EndpointMapping)
    ensures
        flagged(e, f),
{
    let EndpointMapping { source, target, note, edited, path_params, query_params, headers, request, response } = e;
    let new_target = if edited { target } else { String::new() };
    let new_note = match note {
        Some(n) => {
            let mut t = n;
            append_str(&mut t, " [no longer present in source spec]");
            t
        },
        None => owned("no longer present in source spec"),
    };
    EndpointMapping {
        source,
        target: new_target,
        note: Some(new_note),
        edited,
        path_params,
        query_params,
        headers,
        request,
        response,
    }
}

/// The existing entries a map keyed by source keeps (the last of each
/// source), each at its own index.
fn kept_by_source(ex_eps: Vec<EndpointMapping>) -> (slots: Vec<Option<EndpointMapping>>)
    ensures
        slots@.len() == ex_eps@.len(),
        forall|x: int| 0 <= x < ex_eps@.len() ==> (#[trigger] slots@[x]) == (if last_of_source(ex_eps@, x) { Some(ex_eps@[x]) } else { None }),
{
    let ghost ex = ex_eps@;
    let n = ex_eps.len();
    let mut is_last: Vec<bool> = Vec::new();
    let mut i: usize = 0;
    while i < n
        invariant
            n == ex.len(),
            ex_eps@ == ex,
            i <= n,
            is_last@.len() == i,
            forall|x: int| 0 <= x < i ==> (#[trigger] is_last@[x] <==> last_of_source(ex, x)),
        decreases n - i,
    {
        let mut j = i + 1;
        let mut last = true;
        while j < n
            invariant
                n == ex.len(),
                ex_eps@ == ex,
                i < j <= n,
                last == forall|y: int| i < y < j ==> #[trigger] ex[y].source@ != ex[i as int].source@,
            decreases n - j,
        {
            if str_eq(ex_eps[j].source.as_str(), ex_eps[i].source.as_str()) {
                last = false;
            }
            j += 1;
        }
        is_last.push(last);
        i += 1;
    }
    let mut rest = ex_eps;
    let mut slots: Vec<Option<EndpointMapping>> = Vec::new();
    let mut i: usize = 0;
    while i < n
        invariant
            n == ex.len(),
            is_last@.len() == n,
            forall|x: int| 0 <= x < n ==> (#[trigger] is_last@[x] <==> last_of_source(ex, x)),
            i <= n,
            rest@ == ex.skip(i as int),
            slots@.len() == i,
            forall|x: int| 0 <= x < i ==> (#[trigger] slots@[x]) == (if last_of_source(ex, x) { Some(ex[x]) } else { None }),
        decreases n - i,
    {
        let e = rest.remove(0);
        assert(e == ex[i as int]);
        assert(rest@ =~= ex.skip(i + 1));
        if is_last[i] {
            slots.push(Some(e));
        } else {
            slots.push(None);
        }
        i += 1;
    }
    slots
}

/// Existing entry `x` is kept by source and none of the first `p` proposed
/// entries has its source.
pub open spec fn unclaimed(ex: Seq<EndpointMapping>, pr: Seq<EndpointMapping>, p: int, x: int) -> bool {
    last_of_source(ex, x) && forall|q: int| 0 <= q < p ==> #[trigger] pr[q].source@ != ex[x].source@
}

/// Walks the proposed entries: each takes over the kept existing entry of
/// its source (if it is the first to ask for it), which stays only when
/// hand-edited. The slots of the entries taken over are emptied.
fn take_proposed(slots: &mut Vec<Option<EndpointMapping>>, pr_eps: Vec<EndpointMapping>, Ghost(ex): Ghost<Seq<EndpointMapping>>) -> (r: (Vec<EndpointMapping>, MergeReport))
    requires
        old(slots)@.len() == ex.len(),
        forall|x: int| 0 <= x < ex.len() ==> (#[trigger] old(slots)@[x]) == (if last_of_source(ex, x) { Some(ex[x]) } else { None }),
    ensures
        final(slots)@.len() == ex.len(),
        forall|x: int| 0 <= x < ex.len() ==> (#[trigger] final(slots)@[x]) == (if left_over(ex, pr_eps@, x) { Some(ex[x]) } else { None }),
        r.0@.len() == pr_eps@.len(),
        forall|p: int| 0 <= p < pr_eps@.len() ==> #[trigger] r.0@[p] == merged_for(ex, pr_eps@, p),
        r.1.added == count_proposed(ex, pr_eps@, pr_eps@.len() as int, false, false),
        r.1.updated == count_proposed(ex, pr_eps@, pr_eps@.len() as int, true, false),
        r.1.kept_edited == count_proposed(ex, pr_eps@, pr_eps@.len() as int, true, true),
        r.1.removed_flagged == 0,
{
    let ghost pr = pr_eps@;
    let n = slots.len();
    let mut report = MergeReport { added: 0, updated: 0, kept_edited: 0, removed_flagged: 0 };
    let mut merged: Vec<EndpointMapping> = Vec::new();
    let pn = pr_eps.len();
    let mut prest = pr_eps;
    let mut p: usize = 0;
    while p < pn
        invariant
            pn == pr.len(),
            n == ex.len(),
            p <= pn,
            prest@ == pr.skip(p as int),
            slots@.len() == n,
            forall|x: int| 0 <= x < n ==> (#[trigger] slots@[x]) == (if unclaimed(ex, pr, p as int, x) { Some(ex[x]) } else { None }),
            merged@.len() == p,
            forall|x: int| 0 <= x < p ==> #[trigger] merged@[x] == merged_for(ex, pr, x),
            report.added == count_proposed(ex, pr, p as int, false, false),
            report.updated == count_proposed(ex, pr, p as int, true, false),
            report.kept_edited == count_proposed(ex, pr, p as int, true, true),
            report.added + report.updated + report.kept_edited == p,
            report.removed_flagged == 0,
        decreases pn - p,
    {
        let pe = prest.remove(0);
        assert(pe == pr[p as int]);
        assert(prest@ =~= pr.skip(p + 1));
        // the existing entry still unclaimed for this source: the last one
        let found = find_slot(slots, &pe.source);
        let ghost src = pr[p as int].source@;
        let ghost old_merged = merged@;
        let ghost old_slots = slots@;
        proof {
            lemma_existing_for_props(ex, src);
            match found {
                Some(j) => {
                    assert(slots@[j as int] == Some(ex[j as int]));
                    assert(last_of_source(ex, j as int));
                    lemma_existing_for_found(ex, src, j as int);
                    assert(first_proposed(pr, p as int));
                    assert(claims(ex, pr, p as int));
                },
                None => {
                    if first_proposed(pr, p as int) {
                        if existing_for(ex, src) is Some {
                            let j = existing_for(ex, src)->0;
                            assert(slots@[j] == Some(ex[j]));
                            assert(false);
                        }
                    }
                    assert(!claims(ex, pr, p as int));
                },
            }
        }
        match found {
            Some(j) => {
                let taken = slots.remove(j);
                slots.insert(j, None);
                let e = taken.unwrap();
                if e.edited {
                    report.kept_edited += 1;
                    merged.push(e);
                } else {
                    report.updated += 1;
                    merged.push(pe);
                }
                proof {
                    assert(slots@ =~= old_slots.update(j as int, None));
                    assert forall|x: int| 0 <= x < n implies (#[trigger] slots@[x]) == (if unclaimed(ex, pr, p + 1, x) { Some(ex[x]) } else { None }) by {
                        if x != j && last_of_source(ex, x) && ex[x].source@ == src {
                            if x < j {
                                assert(ex[j as int].source@ == ex[x].source@);
                            } else {
                                assert(ex[x].source@ == ex[j as int].source@);
                            }
                        }
                        if ex[x].source@ != src && unclaimed(ex, pr, p as int, x) {
                            assert forall|q: int| 0 <= q < p + 1 implies #[trigger] pr[q].source@ != ex[x].source@ by {
                                if q == p {}
                            }
                        }
                    }
                }
            },
            None => {
                report.added += 1;
                merged.push(pe);
                proof {
                    assert forall|x: int| 0 <= x < n implies (#[trigger] slots@[x]) == (if unclaimed(ex, pr, p + 1, x) { Some(ex[x]) } else { None }) by {
                        if ex[x].source@ != src && unclaimed(ex, pr, p as int, x) {
                            assert forall|q: int| 0 <= q < p + 1 implies #[trigger] pr[q].source@ != ex[x].source@ by {
                                if q == p {}
                            }
                        } else {
                            if slots@[x] is Some {
                                assert(!(slots@[x] matches Some(e) && e.source@ == pe.source@));
                            }
                        }
                    }
                }
            },
        }
        proof {
            assert forall|x: int| 0 <= x < p + 1 implies #[trigger] merged@[x] == merged_for(ex, pr, x) by {
                if x < p {
                    assert(merged@[x] == old_merged[x]);
                }
            }
        }
        p += 1;
    }
    proof {
        assert forall|x: int| 0 <= x < n implies (#[trigger] slots@[x]) == (if left_over(ex, pr, x) { Some(ex[x]) } else { None }) by {
            assert(unclaimed(ex, pr, pn as int, x) == left_over(ex, pr, x));
        }
    }
    (merged, report)
}

/// Appends the flagged form of each left-over entry, in index order.
fn flag_left_over(slots: Vec<Option<EndpointMapping>>, merged: &mut Vec<EndpointMapping>, Ghost(ex): Ghost<Seq<EndpointMapping>>, Ghost(pr): Ghost<Seq<EndpointMapping>>) -> (r: (usize, Ghost<Seq<int>>))
    requires
        slots@.len() == ex.len(),
        forall|x: int| 0 <= x < ex.len() ==> (#[trigger] slots@[x]) == (if left_over(ex, pr, x) { Some(ex[x]) } else { None }),
        old(merged)@.len() == pr.len(),
        forall|p: int| 0 <= p < pr.len() ==> #[trigger] old(merged)@[p] == merged_for(ex, pr, p),
    ensures
        merged_unsorted(ex, pr, final(merged)@, r.1@),
        r.0 == r.1@.len(),
{
    let n = slots.len();
    let pn = merged.len();
    let mut slots = slots;
    let mut count: usize = 0;
    let ghost mut left: Seq<int> = Seq::empty();
    let mut j: usize = 0;
    while j < n
        invariant
            n == ex.len(),
            pn == pr.len(),
            j <= n,
            slots@.len() == n,
            forall|x: int| 0 <= x < n ==> (#[trigger] slots@[x]) == (if x >= j && left_over(ex, pr, x) { Some(ex[x]) } else { None }),
            merged@.len() == pn + left.len(),
            forall|x: int| 0 <= x < pn ==> #[trigger] merged@[x] == merged_for(ex, pr, x),
            forall|r: int| 0 <= r < left.len() ==> #[trigger] left[r] < j && left_over(ex, pr, left[r])
                && flagged(ex[left[r]], merged@[pn + r]),
            forall|r: int, s: int| 0 <= r < s < left.len() ==> #[trigger] left[r] < #[trigger] left[s],
            forall|i: int| 0 <= i < j && left_over(ex, pr, i) ==> #[trigger] left.contains(i),
            count == left.len(),
            count <= j,
        decreases n - j,
    {
        let taken = slots.remove(j);
        slots.insert(j, None);
        let ghost old_merged = merged@;
        let ghost old_left = left;
        if let Some(e) = taken {
            assert(left_over(ex, pr, j as int));
            merged.push(flag_removed(e));
            count += 1;
            proof {
                left = left.push(j as int);
                assert forall|i: int| 0 <= i < j + 1 && left_over(ex, pr, i) implies #[trigger] left.contains(i) by {
                    if i < j {
                        assert(old_left.contains(i));
                        let r = choose|r: int| 0 <= r < old_left.len() && old_left[r] == i;
                        assert(left[r] == i);
                    } else {
                        assert(left[old_left.len() as int] == i);
                    }
                }
            }
        }
        proof {
            assert forall|x: int| 0 <= x < pn implies #[trigger] merged@[x] == merged_for(ex, pr, x) by {
                assert(merged@[x] == old_merged[x]);
            }
            assert forall|r: int| 0 <= r < left.len() implies #[trigger] left[r] < j + 1 && left_over(ex, pr, left[r])
                && flagged(ex[left[r]], merged@[pn + r]) by {
                if r < old_left.len() {
                    assert(merged@[pn + r] == old_merged[pn + r]);
                }
            }
        }
        j += 1;
    }
    (count, Ghost(left))
}

/// Merge a freshly-generated mapping (from re-diffing updated specs) into an
/// existing, possibly hand-edited mapping file.
///
/// - Entries the user edited (`edited = true`) are kept verbatim.
/// - Entries that still look auto-generated are replaced by the new proposal.
/// - New endpoints found in `proposed` but absent from `existing` are added.
/// - Endpoints present in `existing` but missing from `proposed` are kept,
///   flagged in their note (and, unless edited, left without a target)
///   rather than silently deleted.
/// - Schemas follow the proposal, except that every hand-edited schema is
///   kept as it was, whether or not the proposal still names it.
#[verifier::spinoff_prover]
pub fn merge_mapping_files(existing: MappingFile, proposed: MappingFile) -> (r: (MappingFile, MergeReport))
    ensures
        is_merge(existing, proposed, r.0, r.1),
{
    let ghost ex = existing.endpoints@;
    let ghost pr = proposed.endpoints@;
    let MappingFile { meta: _, settings: ex_settings, endpoints: ex_eps, schemas: ex_schemas } = existing;
    let MappingFile { meta: pr_meta, settings: _, endpoints: pr_eps, schemas: pr_schemas } = proposed;
    let mut slots = kept_by_source(ex_eps);
    let (mut merged, mut report) = take_proposed(&mut slots, pr_eps, Ghost(ex));
    // existing entries no proposed entry took over: kept, flagged
    let (count, Ghost(left)) = flag_left_over(slots, &mut merged, Ghost(ex), Ghost(pr));
    report.removed_flagged = count;
    let ghost unsorted = merged@;
    let endpoints = sort_by_source(merged);
    // schemas: a proposed schema replaces its existing namesake unless that
    // was hand-edited; hand-edited schemas the proposal no longer names stay
    let schemas = merge_schemas(ex_schemas, pr_schemas);
    assert(merged_from(ex, pr, endpoints@, report, unsorted, left));
    (MappingFile { meta: pr_meta, settings: ex_settings, endpoints, schemas }, report)
}


fn merge_schemas(ex_schemas: Vec<SchemaMapping>, pr_schemas: Vec<SchemaMapping>) -> (schemas: Vec<SchemaMapping>)
    ensures
        schemas_merged(ex_schemas@, pr_schemas@, schemas@),
{
    let ghost exs = ex_schemas@;
    let ghost prs = pr_schemas@;
    let sn = ex_schemas.len();
    let mut is_last: Vec<bool> = Vec::new();
    let mut i: usize = 0;
    while i < sn
        invariant
            sn == exs.len(),
            ex_schemas@ == exs,
            i <= sn,
            is_last@.len() == i,
            forall|x: int| 0 <= x < i ==> (#[trigger] is_last@[x] <==> last_of_name(exs, x)),
        decreases sn - i,
    {
        let mut j = i + 1;
        let mut last = true;
        while j < sn
            invariant
                i < j <= sn,
                sn == exs.len(),
                ex_schemas@ == exs,
                last == forall|y: int| i < y < j ==> #[trigger] exs[y].name@ != exs[i as int].name@,
            decreases sn - j,
        {
            if str_eq(ex_schemas[j].name.as_str(), ex_schemas[i].name.as_str()) {
                last = false;
            }
            j += 1;
        }
        is_last.push(last);
        i += 1;
    }
    let mut rest = ex_schemas;
    let mut slots: Vec<Option<SchemaMapping>> = Vec::new();
    let mut i: usize = 0;
    while i < sn
        invariant
            sn == exs.len(),
            is_last@.len() == sn,
            forall|x: int| 0 <= x < sn ==> (#[trigger] is_last@[x] <==> last_of_name(exs, x)),
            i <= sn,
            rest@ == exs.skip(i as int),
            slots@.len() == i,
            forall|x: int| 0 <= x < i ==> (#[trigger] slots@[x]) == (if last_of_name(exs, x) { Some(exs[x]) } else { None }),
        decreases sn - i,
    {
        let e = rest.remove(0);
        assert(e == exs[i as int]);
        assert(rest@ =~= exs.skip(i + 1));
        if is_last[i] {
            slots.push(Some(e));
        } else {
            slots.push(None);
        }
        i += 1;
    }
    let mut out: Vec<SchemaMapping> = Vec::new();
    let pn = pr_schemas.len();
    let mut prest = pr_schemas;
    let mut p: usize = 0;
    while p < pn
        invariant
            pn == prs.len(),
            sn == exs.len(),
            p <= pn,
            prest@ == prs.skip(p as int),
            slots@.len() == sn,
            forall|x: int| 0 <= x < sn ==> (#[trigger] slots@[x]) == (if last_of_name(exs, x)
                && forall|q: int| 0 <= q < p ==> #[trigger] prs[q].name@ != exs[x].name@ { Some(exs[x]) } else { None }),
            out@.len() == p,
            forall|x: int| 0 <= x < p ==> #[trigger] out@[x] == merged_schema_for(exs, prs, x),
        decreases pn - p,
    {
        let ps = prest.remove(0);
        assert(ps == prs[p as int]);
        assert(prest@ =~= prs.skip(p + 1));
        let found = find_schema_slot(&slots, &ps.name);
        let ghost nm = prs[p as int].name@;
        let ghost old_out = out@;
        let ghost old_slots = slots@;
        proof {
            lemma_last_with_name(exs, nm, exs.len() as int);
            match found {
                Some(j) => {
                    assert(slots@[j as int] == Some(exs[j as int]));
                    if let Some(k) = existing_schema_for(exs, nm) {
                        if k < j {
                            assert(exs[j as int].name@ == nm);
                        } else if k > j {
                            assert(exs[k].name@ == exs[j as int].name@);
                        }
                    }
                    assert(first_schema(prs, p as int));
                },
                None => {
                    if first_schema(prs, p as int) {
                        if existing_schema_for(exs, nm) is Some {
                            let j = existing_schema_for(exs, nm)->0;
                            assert(last_of_name(exs, j));
                            assert(slots@[j] == Some(exs[j]));
                            assert(false);
                        }
                    }
                },
            }
        }
        match found {
            Some(j) => {
                let taken = slots.remove(j);
                slots.insert(j, None);
                let e = taken.unwrap();
                if e.edited {
                    out.push(e);
                } else {
                    out.push(ps);
                }
                proof {
                    assert(slots@ =~= old_slots.update(j as int, None));
                    assert forall|x: int| 0 <= x < sn implies (#[trigger] slots@[x]) == (if last_of_name(exs, x)
                        && forall|q: int| 0 <= q < p + 1 ==> #[trigger] prs[q].name@ != exs[x].name@ { Some(exs[x]) } else { None }) by {
                        if x != j && last_of_name(exs, x) && exs[x].name@ == nm {
                            if x < j {
                                assert(exs[j as int].name@ == exs[x].name@);
                            } else {
                                assert(exs[x].name@ == exs[j as int].name@);
                            }
                        }
                        if exs[x].name@ != nm && (forall|q: int| 0 <= q < p ==> #[trigger] prs[q].name@ != exs[x].name@) {
                            assert forall|q: int| 0 <= q < p + 1 implies #[trigger] prs[q].name@ != exs[x].name@ by {
                                if q == p {}
                            }
                        }
                    }
                }
            },
            None => {
                out.push(ps);
                proof {
                    assert forall|x: int| 0 <= x < sn implies (#[trigger] slots@[x]) == (if last_of_name(exs, x)
                        && forall|q: int| 0 <= q < p + 1 ==> #[trigger] prs[q].name@ != exs[x].name@ { Some(exs[x]) } else { None }) by {
                        if exs[x].name@ != nm && (forall|q: int| 0 <= q < p ==> #[trigger] prs[q].name@ != exs[x].name@) {
                            assert forall|q: int| 0 <= q < p + 1 implies #[trigger] prs[q].name@ != exs[x].name@ by {
                                if q == p {}
                            }
                        } else {
                            if slots@[x] is Some {
                                assert(!(slots@[x] matches Some(e) && e.name@ == ps.name@));
                            }
                        }
                    }
                }
            },
        }
        proof {
            assert forall|x: int| 0 <= x < p + 1 implies #[trigger] out@[x] == merged_schema_for(exs, prs, x) by {
                if x < p {
                    assert(out@[x] == old_out[x]);
                }
            }
        }
        p += 1;
    }
    // hand-edited existing schemas that no proposed schema took over stay
    let ghost left_slots = slots@;
    let mut srest = slots;
    let mut x: usize = 0;
    while x < sn
        invariant
            pn == prs.len(),
            sn == exs.len(),
            x <= sn,
            left_slots.len() == sn,
            forall|y: int| 0 <= y < sn ==> (#[trigger] left_slots[y]) == (if last_of_name(exs, y)
                && forall|q: int| 0 <= q < pn ==> #[trigger] prs[q].name@ != exs[y].name@ { Some(exs[y]) } else { None }),
            srest@ == left_slots.skip(x as int),
            out@.len() == pn + kept_schemas(exs, prs, x as int).len(),
            forall|y: int| 0 <= y < pn ==> #[trigger] out@[y] == merged_schema_for(exs, prs, y),
            out@.skip(pn as int) == kept_schemas(exs, prs, x as int),
        decreases sn - x,
    {
        let s = srest.remove(0);
        assert(s == left_slots[x as int]);
        assert(srest@ =~= left_slots.skip(x + 1));
        let ghost before = out@;
        match s {
            Some(e) => {
                if e.edited {
                    out.push(e);
                    assert(out@.skip(pn as int) =~= before.skip(pn as int).push(e));
                    assert forall|y: int| 0 <= y < pn implies #[trigger] out@[y] == merged_schema_for(exs, prs, y) by {
                        assert(out@[y] == before[y]);
                    }
                }
            },
            None => {},
        }
        x += 1;
    }
    out
}

/// The first proposed entry with source `src`, searching from `p` down.
proof fn lemma_first_with_source(pr: Seq<EndpointMapping>, src: Seq<char>, p: int) -> (q: int)
    requires
        0 <= p < pr.len(),
        pr[p].source@ == src,
    ensures
        0 <= q <= p,
        pr[q].source@ == src,
        first_proposed(pr, q),
    decreases p,
{
    if exists|k: int| 0 <= k < p && #[trigger] pr[k].source@ == src {
        let k = choose|k: int| 0 <= k < p && #[trigger] pr[k].source@ == src;
        lemma_first_with_source(pr, src, k)
    } else {
        p
    }
}

/// Where a proposed entry shares the source of an existing entry that the
/// merge keeps (the last with that source), the existing entry stands for
/// it in the merge when hand-edited.
proof fn lemma_claimed(ex: Seq<EndpointMapping>, pr: Seq<EndpointMapping>, i: int, p: int) -> (q: int)
    requires
        last_of_source(ex, i),
        0 <= p < pr.len(),
        pr[p].source@ == ex[i].source@,
    ensures
        0 <= q < pr.len(),
        pr[q].source@ == ex[i].source@,
        merged_for(ex, pr, q) == (if ex[i].edited { ex[i] } else { pr[q] }),
{
    let q = lemma_first_with_source(pr, ex[i].source@, p);
    lemma_existing_for_found(ex, ex[i].source@, i);
    assert(claims(ex, pr, q));
    q
}

/// A merge keeps hand-edited entries: an edited existing entry (the last
/// with its source) whose source is still proposed stands in the merged
/// file exactly as it was.
pub proof fn lemma_sync_keeps_edited(existing: MappingFile, proposed: MappingFile, merged: MappingFile, report: MergeReport, i: int, p: int)
    requires
        is_merge(existing, proposed, merged, report),
        last_of_source(existing.endpoints@, i),
        existing.endpoints@[i].edited,
        0 <= p < proposed.endpoints@.len(),
        proposed.endpoints@[p].source@ == existing.endpoints@[i].source@,
    ensures
        merged.endpoints@.contains(existing.endpoints@[i]),
{
    broadcast use vstd::seq_lib::group_to_multiset_ensures;
    let ex = existing.endpoints@;
    let pr = proposed.endpoints@;
    let (u, left) = choose|u: Seq<EndpointMapping>, left: Seq<int>| #[trigger] merged_from(ex, pr, merged.endpoints@, report, u, left);
    let q = lemma_claimed(ex, pr, i, p);
    assert(u[q] == ex[i]);
    assert(u.contains(ex[i]));
    assert(u.to_multiset().count(ex[i]) > 0);
    assert(merged.endpoints@.to_multiset().count(ex[i]) > 0);
}

/// A merge never deletes: every source the existing file maps is still
/// mapped by some entry of the merged file.
pub proof fn lemma_sync_never_deletes(existing: MappingFile, proposed: MappingFile, merged: MappingFile, report: MergeReport, i: int)
    requires
        is_merge(existing, proposed, merged, report),
        0 <= i < existing.endpoints@.len(),
    ensures
        exists|j: int| 0 <= j < merged.endpoints@.len() && #[trigger] merged.endpoints@[j].source@ == existing.endpoints@[i].source@,
{
    broadcast use vstd::seq_lib::group_to_multiset_ensures;
    let ex = existing.endpoints@;
    let pr = proposed.endpoints@;
    let src = ex[i].source@;
    let (u, left) = choose|u: Seq<EndpointMapping>, left: Seq<int>| #[trigger] merged_from(ex, pr, merged.endpoints@, report, u, left);
    lemma_existing_for_props(ex, src);
    lemma_last_with_source(ex, src, ex.len() as int);
    let k = existing_for(ex, src)->0;
    let x: EndpointMapping = if exists|p: int| 0 <= p < pr.len() && #[trigger] pr[p].source@ == src {
        let p = choose|p: int| 0 <= p < pr.len() && #[trigger] pr[p].source@ == src;
        let q = lemma_claimed(ex, pr, k, p);
        assert(u[q].source@ == src);
        u[q]
    } else {
        assert(left_over(ex, pr, k));
        assert(left.contains(k));
        let r = choose|r: int| 0 <= r < left.len() && left[r] == k;
        assert(flagged(ex[left[r]], u[pr.len() + r]));
        u[pr.len() + r]
    };
    assert(x.source@ == src);
    assert(u.contains(x));
    assert(u.to_multiset().count(x) > 0);
    assert(merged.endpoints@.contains(x));
    let j = choose|j: int| 0 <= j < merged.endpoints@.len() && merged.endpoints@[j] == x;
    assert(merged.endpoints@[j].source@ == src);
}

/// A merge refreshes what was generated: a proposed entry whose source the
/// existing file keeps no hand-edited entry for stands in the merged file
/// as proposed (new endpoints are added, auto-generated ones replaced).
pub proof fn lemma_sync_refreshes_generated(existing: MappingFile, proposed: MappingFile, merged: MappingFile, report: MergeReport, p: int)
    requires
        is_merge(existing, proposed, merged, report),
        0 <= p < proposed.endpoints@.len(),
        forall|i: int| last_of_source(existing.endpoints@, i) && existing.endpoints@[i].source@ == proposed.endpoints@[p].source@
            ==> !(#[trigger] existing.endpoints@[i]).edited,
    ensures
        merged.endpoints@.contains(proposed.endpoints@[p]),
{
    broadcast use vstd::seq_lib::group_to_multiset_ensures;
    let ex = existing.endpoints@;
    let pr = proposed.endpoints@;
    let (u, left) = choose|u: Seq<EndpointMapping>, left: Seq<int>| #[trigger] merged_from(ex, pr, merged.endpoints@, report, u, left);
    lemma_existing_for_props(ex, pr[p].source@);
    if let Some(k) = existing_for(ex, pr[p].source@) {
        assert(!ex[k].edited);
    }
    assert(u[p] == pr[p]);
    assert(u.contains(pr[p]));
    assert(u.to_multiset().count(pr[p]) > 0);
    assert(merged.endpoints@.to_multiset().count(pr[p]) > 0);
}

/// A merge flags what disappeared: an existing entry (the last with its
/// source) whose source is no longer proposed stays in the merged file,
/// marked with a note and, unless hand-edited, with its target cleared.
pub proof fn lemma_sync_flags_removed(existing: MappingFile, proposed: MappingFile, merged: MappingFile, report: MergeReport, i: int)
    requires
        is_merge(existing, proposed, merged, report),
        left_over(existing.endpoints@, proposed.endpoints@, i),
    ensures
        exists|j: int| 0 <= j < merged.endpoints@.len() && flagged(existing.endpoints@[i], #[trigger] merged.endpoints@[j]),
{
    broadcast use vstd::seq_lib::group_to_multiset_ensures;
    let ex = existing.endpoints@;
    let pr = proposed.endpoints@;
    let (u, left) = choose|u: Seq<EndpointMapping>, left: Seq<int>| #[trigger] merged_from(ex, pr, merged.endpoints@, report, u, left);
    assert(left.contains(i));
    let r = choose|r: int| 0 <= r < left.len() && left[r] == i;
    let x = u[pr.len() + r];
    assert(flagged(ex[left[r]], x));
    assert(u.contains(x));
    assert(u.to_multiset().count(x) > 0);
    assert(merged.endpoints@.contains(x));
    let j = choose|j: int| 0 <= j < merged.endpoints@.len() && merged.endpoints@[j] == x;
    assert(flagged(ex[i], merged.endpoints@[j]));
}

proof fn lemma_kept_schemas(ex: Seq<SchemaMapping>, pr: Seq<SchemaMapping>, n: int)
    requires
        0 <= n <= ex.len(),
    ensures
        forall|k: int, q: int| 0 <= k < kept_schemas(ex, pr, n).len() && 0 <= q < pr.len()
            ==> #[trigger] kept_schemas(ex, pr, n)[k].name@ != #[trigger] pr[q].name@,
        forall|x: int| 0 <= x < n && #[trigger] schema_left_edited(ex, pr, x) ==> kept_schemas(ex, pr, n).contains(ex[x]),
        schema_names_distinct(ex) ==> forall|k: int, y: int| 0 <= k < kept_schemas(ex, pr, n).len() && n <= y < ex.len()
            ==> #[trigger] kept_schemas(ex, pr, n)[k].name@ != #[trigger] ex[y].name@,
        schema_names_distinct(ex) ==> schema_names_distinct(kept_schemas(ex, pr, n)),
    decreases n,
{
    if n > 0 {
        lemma_kept_schemas(ex, pr, n - 1);
        let prev = kept_schemas(ex, pr, n - 1);
        let cur = kept_schemas(ex, pr, n);
        if schema_left_edited(ex, pr, n - 1) {
            assert forall|k: int, q: int| 0 <= k < cur.len() && 0 <= q < pr.len() implies #[trigger] cur[k].name@ != #[trigger] pr[q].name@ by {
                if k < prev.len() {
                    assert(cur[k] == prev[k]);
                } else {
                    assert(cur[k] == ex[n - 1]);
                }
            }
            assert forall|x: int| 0 <= x < n && #[trigger] schema_left_edited(ex, pr, x) implies cur.contains(ex[x]) by {
                if x < n - 1 {
                    let k = choose|k: int| 0 <= k < prev.len() && prev[k] == ex[x];
                    assert(cur[k] == ex[x]);
                } else {
                    assert(cur[prev.len() as int] == ex[x]);
                }
            }
            if schema_names_distinct(ex) {
                assert forall|k: int, y: int| 0 <= k < cur.len() && n <= y < ex.len() implies #[trigger] cur[k].name@ != #[trigger] ex[y].name@ by {
                    if k < prev.len() {
                        assert(cur[k] == prev[k]);
                    } else {
                        assert(cur[k] == ex[n - 1]);
                        assert(ex[n - 1].name@ != ex[y].name@);
                    }
                }
                assert forall|a: int, b: int| 0 <= a < b < cur.len() implies #[trigger] cur[a].name@ != #[trigger] cur[b].name@ by {
                    if b < prev.len() {
                        assert(cur[a] == prev[a] && cur[b] == prev[b]);
                    } else {
                        assert(cur[a] == prev[a]);
                        assert(cur[b] == ex[n - 1]);
                        assert(prev[a].name@ != ex[n - 1].name@);
                    }
                }
            }
        } else {
            if schema_names_distinct(ex) {
                assert forall|k: int, y: int| 0 <= k < cur.len() && n <= y < ex.len() implies #[trigger] cur[k].name@ != #[trigger] ex[y].name@ by {
                    assert(cur[k] == prev[k]);
                }
            }
        }
    }
}

/// The merged name of proposed schema `p` is its own.
proof fn lemma_merged_schema_name(ex: Seq<SchemaMapping>, pr: Seq<SchemaMapping>, p: int)
    requires
        0 <= p < pr.len(),
    ensures
        merged_schema_for(ex, pr, p).name@ == pr[p].name@,
{
    lemma_last_with_name(ex, pr[p].name@, ex.len() as int);
}

/// A merge keeps every hand-edited schema: with no name used twice on
/// either side, each edited existing schema stands in the merged file
/// unchanged, as the only entry with its name, whether or not the
/// proposal still names it.
pub proof fn lemma_sync_keeps_edited_schemas(existing: MappingFile, proposed: MappingFile, merged: MappingFile, report: MergeReport, i: int)
    requires
        is_merge(existing, proposed, merged, report),
        schema_names_distinct(existing.schemas@),
        schema_names_distinct(proposed.schemas@),
        0 <= i < existing.schemas@.len(),
        existing.schemas@[i].edited,
    ensures
        exists|j: int| 0 <= j < merged.schemas@.len() && #[trigger] merged.schemas@[j] == existing.schemas@[i]
            && forall|k: int| 0 <= k < merged.schemas@.len() && k != j ==> (#[trigger] merged.schemas@[k]).name@ != existing.schemas@[i].name@,
{
    let ex = existing.schemas@;
    let pr = proposed.schemas@;
    let m = merged.schemas@;
    let kept = kept_schemas(ex, pr, ex.len() as int);
    let nm = ex[i].name@;
    let pn = pr.len() as int;
    lemma_kept_schemas(ex, pr, ex.len() as int);
    assert(last_of_name(ex, i)) by {
        assert forall|j: int| i < j < ex.len() implies #[trigger] ex[j].name@ != ex[i].name@ by {
            assert(ex[i].name@ != ex[j].name@);
        }
    }
    assert forall|k: int| 0 <= k < kept.len() implies m[pn + k] == #[trigger] kept[k] by {
        assert(m.skip(pn)[k] == m[pn + k]);
    }
    if exists|p: int| 0 <= p < pn && #[trigger] pr[p].name@ == nm {
        let p = choose|p: int| 0 <= p < pn && #[trigger] pr[p].name@ == nm;
        lemma_last_with_name(ex, nm, ex.len() as int);
        let e = existing_schema_for(ex, nm)->0;
        if e != i {
            if e < i {
                assert(ex[e].name@ != ex[i].name@);
            } else {
                assert(ex[i].name@ != ex[e].name@);
            }
        }
        assert(first_schema(pr, p)) by {
            assert forall|q: int| 0 <= q < p implies #[trigger] pr[q].name@ != pr[p].name@ by {
                assert(pr[q].name@ != pr[p].name@);
            }
        }
        assert(m[p] == ex[i]);
        assert forall|k: int| 0 <= k < m.len() && k != p implies (#[trigger] m[k]).name@ != nm by {
            if k < pn {
                lemma_merged_schema_name(ex, pr, k);
                if k < p {
                    assert(pr[k].name@ != pr[p].name@);
                } else {
                    assert(pr[p].name@ != pr[k].name@);
                }
            } else {
                assert(m[k] == kept[k - pn]);
                assert(kept[k - pn].name@ != pr[p].name@);
            }
        }
    } else {
        assert(schema_left_edited(ex, pr, i));
        assert(kept.contains(ex[i]));
        let k0 = choose|k0: int| 0 <= k0 < kept.len() && kept[k0] == ex[i];
        let j = pn + k0;
        assert(m[j] == ex[i]);
        assert forall|k: int| 0 <= k < m.len() && k != j implies (#[trigger] m[k]).name@ != nm by {
            if k < pn {
                lemma_merged_schema_name(ex, pr, k);
            } else {
                assert(m[k] == kept[k - pn]);
                if k - pn < k0 {
                    assert(kept[k - pn].name@ != kept[k0].name@);
                } else {
                    assert(kept[k0].name@ != kept[k - pn].name@);
                }
            }
        }
    }
}

} // verus!
