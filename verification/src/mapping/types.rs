//! The mapping file: the editable, reviewable product of a diff.
use vstd::prelude::*;
use crate::json::{JsonValue, KeyedMap};
use crate::search::{first_index, lemma_first_found, lemma_first_none};
use crate::text::{chars_of, string_of, str_eq};

verus! {

#[derive(Debug, Clone)]
pub struct Meta {
    pub source_spec: String,
    pub target_spec: String,
    pub generated_at: String,
    pub shotgun_version: String,
}

impl Default for Meta {
    fn default() -> (m: Self)
        ensures
            m.source_spec@.len() == 0,
            m.target_spec@.len() == 0,
            m.generated_at@.len() == 0,
            m.shotgun_version@.len() == 0,
    {
        Meta {
            source_spec: String::new(),
            target_spec: String::new(),
            generated_at: String::new(),
            shotgun_version: String::new(),
        }
    }
}

#[derive(Debug, Clone, Copy, PartialEq, Eq, Structural)]
pub enum UnmappedEndpointBehavior {
    Reject,
    Passthrough,
}

impl Default for UnmappedEndpointBehavior {
    fn default() -> (b: Self)
        ensures
            b == UnmappedEndpointBehavior::Reject,
    {
        UnmappedEndpointBehavior::Reject
    }
}

#[derive(Debug, Clone, Copy, PartialEq, Eq, Structural)]
pub enum UnmappedFieldBehavior {
    Drop,
    Passthrough,
    DropUnknown,
}

impl Default for UnmappedFieldBehavior {
    fn default() -> (b: Self)
        ensures
            b == UnmappedFieldBehavior::Passthrough,
    {
        UnmappedFieldBehavior::Passthrough
    }
}

pub struct PaginationSettings {
    pub source_style: Option<String>,
    pub target_style: Option<String>,
    pub rewrite_link_urls: bool,
    pub param_map: KeyedMap<String>,
}

impl Default for PaginationSettings {
    fn default() -> (p: Self)
        ensures
            p.source_style is None,
            p.target_style is None,
            !p.rewrite_link_urls,
            p.param_map@.len() == 0,
    {
        PaginationSettings { source_style: None, target_style: None, rewrite_link_urls: false, param_map: KeyedMap::new() }
    }
}

pub struct Settings {
    pub target_base_path: String,
    /// Prefix stripped from the incoming request path before matching it
    /// against `[[endpoints]]` sources, for clients that prepend a fixed
    /// prefix (such as `/api/v3`) that the mapped source paths do not carry.
    pub source_base_path: String,
    pub unmapped_endpoint_behavior: UnmappedEndpointBehavior,
    pub unmapped_field_behavior: UnmappedFieldBehavior,
    pub pagination: PaginationSettings,
    /// Static headers added to every mapped response, overwriting any
    /// same-named upstream header.
    pub synthesized_response_headers: KeyedMap<String>,
}

/// Pagination settings that say nothing (and are left out of a written file).
pub open spec fn pagination_is_default(p: PaginationSettings) -> bool {
    p.source_style is None && p.target_style is None && !p.rewrite_link_urls && p.param_map@.len() == 0
}

pub fn is_default_pagination(p: &PaginationSettings) -> (b: bool)
    ensures
        b == pagination_is_default(*p),
{
    p.source_style.is_none() && p.target_style.is_none() && !p.rewrite_link_urls && p.param_map.is_empty()
}

impl Default for Settings {
    fn default() -> (s: Self)
        ensures
            s.target_base_path@.len() == 0,
            s.source_base_path@.len() == 0,
            s.unmapped_endpoint_behavior == UnmappedEndpointBehavior::Reject,
            s.unmapped_field_behavior == UnmappedFieldBehavior::Passthrough,
            pagination_is_default(s.pagination),
            s.synthesized_response_headers@.len() == 0,
    {
        Settings {
            target_base_path: String::new(),
            source_base_path: String::new(),
            unmapped_endpoint_behavior: UnmappedEndpointBehavior::Reject,
            unmapped_field_behavior: UnmappedFieldBehavior::Passthrough,
            pagination: PaginationSettings::default(),
            synthesized_response_headers: KeyedMap::new(),
        }
    }
}

#[derive(Debug, Clone)]
pub struct NestedMapping {
    pub path: String,
    pub schema_map: String,
}

pub struct FieldMapping {
    pub renames: KeyedMap<String>,
    pub defaults: KeyedMap<JsonValue>,
    pub drops: Vec<String>,
    /// Fields with the same name in both source and target, but
    /// incompatible types: left untouched at runtime, recorded here for a
    /// human to decide.
    pub type_conflicts: KeyedMap<String>,
    pub nested: Vec<NestedMapping>,
}

/// A field mapping with no rule at all.
pub open spec fn field_mapping_empty(f: FieldMapping) -> bool {
    f.renames@.len() == 0 && f.defaults@.len() == 0 && f.drops@.len() == 0
        && f.type_conflicts@.len() == 0 && f.nested@.len() == 0
}

impl Default for FieldMapping {
    fn default() -> (f: Self)
        ensures
            field_mapping_empty(f),
    {
        FieldMapping {
            renames: KeyedMap::new(),
            defaults: KeyedMap::new(),
            drops: Vec::new(),
            type_conflicts: KeyedMap::new(),
            nested: Vec::new(),
        }
    }
}

impl FieldMapping {
    pub fn is_empty(&self) -> (b: bool)
        ensures
            b == field_mapping_empty(*self),
    {
        self.renames.is_empty() && self.defaults.is_empty() && self.drops.len() == 0
            && self.type_conflicts.is_empty() && self.nested.len() == 0
    }
}

pub struct EndpointMapping {
    pub source: String,
    pub target: String,
    pub note: Option<String>,
    /// True once a human has hand-edited this entry; preserved across `sync`.
    pub edited: bool,
    pub path_params: KeyedMap<String>,
    pub query_params: KeyedMap<String>,
    pub headers: KeyedMap<String>,
    pub request: FieldMapping,
    pub response: FieldMapping,
}

impl Default for EndpointMapping {
    fn default() -> (e: Self)
        ensures
            e.source@.len() == 0,
            e.target@.len() == 0,
            e.note is None,
            !e.edited,
            e.path_params@.len() == 0,
            e.query_params@.len() == 0,
            e.headers@.len() == 0,
            field_mapping_empty(e.request),
            field_mapping_empty(e.response),
    {
        EndpointMapping {
            source: String::new(),
            target: String::new(),
            note: None,
            edited: false,
            path_params: KeyedMap::new(),
            query_params: KeyedMap::new(),
            headers: KeyedMap::new(),
            request: FieldMapping::default(),
            response: FieldMapping::default(),
        }
    }
}

/// `s` is `m`, a space, then `p`, where `m` holds no space: `s` split at
/// its first space.
pub open spec fn splits_at_first_space(s: Seq<char>, m: Seq<char>, p: Seq<char>) -> bool {
    s == m + seq![' '] + p && !m.contains(' ')
}

impl EndpointMapping {
    pub fn method_and_path(source_or_target: &str) -> (r: Option<(String, String)>)
        ensures
            r is Some <==> source_or_target@.contains(' '),
            r matches Some((m, p)) ==> splits_at_first_space(source_or_target@, m@, p@),
    {
        let cs = chars_of(source_or_target);
        let mut i: usize = 0;
        while i < cs.len()
            invariant
                i <= cs.len(),
                cs@ == source_or_target@,
                forall|j: int| 0 <= j < i ==> cs@[j] != ' ',
            decreases cs.len() - i,
        {
            if cs[i] == ' ' {
                let m = string_of(&cs, 0, i);
                let p = string_of(&cs, i + 1, cs.len());
                proof {
                    assert(cs@ =~= m@ + seq![' '] + p@);
                    assert(!m@.contains(' '));
                }
                return Some((m, p));
            }
            i += 1;
        }
        None
    }
}

pub struct SchemaMapping {
    pub name: String,
    /// True once a human has hand-edited this entry; preserved across `sync`.
    pub edited: bool,
    pub renames: KeyedMap<String>,
    pub defaults: KeyedMap<JsonValue>,
    pub drops: Vec<String>,
    pub type_conflicts: KeyedMap<String>,
}

pub struct MappingFile {
    pub meta: Meta,
    pub settings: Settings,
    pub endpoints: Vec<EndpointMapping>,
    pub schemas: Vec<SchemaMapping>,
}

impl Default for MappingFile {
    fn default() -> (f: Self)
        ensures
            f.endpoints@.len() == 0,
            f.schemas@.len() == 0,
    {
        MappingFile {
            meta: Meta::default(),
            settings: Settings::default(),
            endpoints: Vec::new(),
            schemas: Vec::new(),
        }
    }
}

/// How many entries have a target.
pub open spec fn mapped_count(s: Seq<EndpointMapping>) -> nat
    decreases s.len(),
{
    if s.len() == 0 {
        0
    } else {
        mapped_count(s.drop_last()) + if s.last().target@.len() > 0 { 1nat } else { 0nat }
    }
}

pub proof fn lemma_mapped_count_bound(s: Seq<EndpointMapping>)
    ensures
        mapped_count(s) <= s.len(),
    decreases s.len(),
{
    if s.len() > 0 {
        lemma_mapped_count_bound(s.drop_last());
    }
}

impl MappingFile {
    #[verifier::loop_isolation(false)]
    pub fn find_endpoint(&self, method: &str, path: &str) -> (r: Option<&EndpointMapping>)
        ensures
            match first_index(self.endpoints@.len() as int, |i: int| self.endpoints@[i].source@ == method@ + seq![' '] + path@) {
                Some(i) => r == Some(&self.endpoints@[i]),
                None => r is None,
            },
    {
        let mut key = crate::text::owned(method);
        crate::text::push_char(&mut key, ' ');
        crate::text::append_str(&mut key, path);
        let ghost p = |i: int| self.endpoints@[i].source@ == method@ + seq![' '] + path@;
        let mut i: usize = 0;
        while i < self.endpoints.len()
            invariant
                i <= self.endpoints@.len(),
                key@ == method@ + seq![' '] + path@,
                forall|j: int| 0 <= j < i ==> !#[trigger] p(j),
            decreases self.endpoints@.len() - i,
        {
            if str_eq(self.endpoints[i].source.as_str(), key.as_str()) {
                proof { lemma_first_found(self.endpoints@.len() as int, p, i as int); }
                return Some(&self.endpoints[i]);
            }
            i += 1;
        }
        proof { lemma_first_none(self.endpoints@.len() as int, p); }
        None
    }

    /// (endpoints with a target, all endpoints)
    pub fn coverage(&self) -> (r: (usize, usize))
        ensures
            r.0 == mapped_count(self.endpoints@),
            r.1 == self.endpoints@.len(),
            r.0 <= r.1,
    {
        let mut n: usize = 0;
        let mut i: usize = 0;
        while i < self.endpoints.len()
            invariant
                i <= self.endpoints@.len(),
                n == mapped_count(self.endpoints@.take(i as int)),
                n <= i,
            decreases self.endpoints@.len() - i,
        {
            assert(self.endpoints@.take(i + 1).drop_last() =~= self.endpoints@.take(i as int));
            if !self.endpoints[i].target.as_str().is_empty() {
                n += 1;
            }
            i += 1;
        }
        assert(self.endpoints@.take(i as int) =~= self.endpoints@);
        (n, self.endpoints.len())
    }

    #[verifier::loop_isolation(false)]
    pub fn schema_by_name(&self, name: &str) -> (r: Option<&SchemaMapping>)
        ensures
            match first_index(self.schemas@.len() as int, |i: int| self.schemas@[i].name@ == name@) {
                Some(i) => r == Some(&self.schemas@[i]),
                None => r is None,
            },
    {
        let ghost p = |i: int| self.schemas@[i].name@ == name@;
        let mut i: usize = 0;
        while i < self.schemas.len()
            invariant
                i <= self.schemas@.len(),
                forall|j: int| 0 <= j < i ==> !#[trigger] p(j),
            decreases self.schemas@.len() - i,
        {
            if str_eq(self.schemas[i].name.as_str(), name) {
                proof { lemma_first_found(self.schemas@.len() as int, p, i as int); }
                return Some(&self.schemas[i]);
            }
            i += 1;
        }
        proof { lemma_first_none(self.schemas@.len() as int, p); }
        None
    }
}


/// Endpoints in non-decreasing order of their `source`.
pub open spec fn sorted_by_source(s: Seq<EndpointMapping>) -> bool {
    forall|i: int, j: int| 0 <= i < j < s.len() ==> !crate::text::lex_lt(#[trigger] s[j].source@, #[trigger] s[i].source@)
}

/// The entries with source `k`, in order.
pub open spec fn with_source(s: Seq<EndpointMapping>, k: Seq<char>) -> Seq<EndpointMapping>
    decreases s.len(),
{
    if s.len() == 0 {
        Seq::empty()
    } else {
        let prev = with_source(s.drop_last(), k);
        if s.last().source@ == k {
            prev.push(s.last())
        } else {
            prev
        }
    }
}

proof fn lemma_with_source_concat(a: Seq<EndpointMapping>, b: Seq<EndpointMapping>, k: Seq<char>)
    ensures
        with_source(a + b, k) == with_source(a, k) + with_source(b, k),
    decreases b.len(),
{
    if b.len() == 0 {
        assert(a + b =~= a);
        assert(with_source(a, k) + with_source(b, k) =~= with_source(a, k));
    } else {
        lemma_with_source_concat(a, b.drop_last(), k);
        assert((a + b).drop_last() =~= a + b.drop_last());
        assert((a + b).last() == b.last());
        if b.last().source@ == k {
            assert(with_source(a, k) + with_source(b, k) =~= (with_source(a, k) + with_source(b.drop_last(), k)).push(b.last()));
        }
    }
}

proof fn lemma_with_source_none(s: Seq<EndpointMapping>, k: Seq<char>)
    requires
        forall|i: int| 0 <= i < s.len() ==> #[trigger] s[i].source@ != k,
    ensures
        with_source(s, k) == Seq::<EndpointMapping>::empty(),
    decreases s.len(),
{
    if s.len() > 0 {
        assert(s.last() == s[s.len() - 1]);
        assert forall|i: int| 0 <= i < s.len() - 1 implies #[trigger] s.drop_last()[i].source@ != k by {
            assert(s.drop_last()[i] == s[i]);
        }
        lemma_with_source_none(s.drop_last(), k);
    }
}

proof fn lemma_with_source_one(x: EndpointMapping, k: Seq<char>)
    ensures
        with_source(seq![x], k) == (if x.source@ == k { seq![x] } else { Seq::<EndpointMapping>::empty() }),
{
    assert(seq![x].drop_last() =~= Seq::<EndpointMapping>::empty());
    assert(seq![x].last() == x);
    assert(with_source(seq![x].drop_last(), k) == Seq::<EndpointMapping>::empty());
    assert(Seq::<EndpointMapping>::empty().push(x) =~= seq![x]);
}

/// Sorts endpoints by `source`, keeping the order of entries with the same
/// source (`sort_by(|a, b| a.source.cmp(&b.source))`, a stable sort).
pub fn sort_by_source(v: Vec<EndpointMapping>) -> (r: Vec<EndpointMapping>)
    ensures
        sorted_by_source(r@),
        r@.to_multiset() == v@.to_multiset(),
        forall|k: Seq<char>| #[trigger] with_source(r@, k) == with_source(v@, k),
{
    broadcast use vstd::seq_lib::group_to_multiset_ensures, vstd::multiset::group_multiset_axioms;
    let ghost v0 = v@;
    let mut rest = v;
    let mut out: Vec<EndpointMapping> = Vec::new();
    assert(out@.to_multiset() =~= vstd::multiset::Multiset::empty());
    proof {
        assert forall|k: Seq<char>| #[trigger] with_source(out@, k) == with_source(v0.skip(rest@.len() as int), k) by {
            assert(v0.skip(rest@.len() as int) =~= Seq::<EndpointMapping>::empty());
        }
    }
    while rest.len() > 0
        invariant
            rest@ == v0.take(rest@.len() as int),
            rest@.len() <= v0.len(),
            sorted_by_source(out@),
            out@.to_multiset().add(rest@.to_multiset()) == v0.to_multiset(),
            forall|k: Seq<char>| #[trigger] with_source(out@, k) == with_source(v0.skip(rest@.len() as int), k),
        decreases rest.len(),
    {
        let ghost r0 = rest@;
        let x = rest.pop().unwrap();
        let ghost n = rest@.len() as int;
        assert(x == v0[n]);
        assert(rest@ =~= v0.take(n));
        let mut p: usize = 0;
        while p < out.len() && crate::text::str_less(out[p].source.as_str(), x.source.as_str())
            invariant
                p <= out.len(),
                forall|j: int| 0 <= j < p ==> crate::text::lex_lt(#[trigger] out@[j].source@, x.source@),
            decreases out.len() - p,
        {
            p += 1;
        }
        let ghost o0 = out@;
        let ghost xs = x.source@;
        assert(p < o0.len() ==> !crate::text::lex_lt(o0[p as int].source@, xs));
        out.insert(p, x);
        proof {
            let w = out@;
            assert(w =~= o0.insert(p as int, w[p as int]));
            assert(w[p as int] == x);
            assert forall|i: int, j: int| 0 <= i < j < w.len() implies !crate::text::lex_lt(#[trigger] w[j].source@, #[trigger] w[i].source@) by {
                if j == p {
                    assert(w[i] == o0[i]);
                    crate::text::lemma_lex_asymmetric(o0[i].source@, xs);
                } else if i == p {
                    assert(w[j] == o0[j - 1]);
                    if crate::text::lex_lt(o0[j - 1].source@, xs) {
                        // xs <= o0[p] <= o0[j - 1] < xs is impossible
                        crate::text::lemma_lex_total(o0[p as int].source@, xs);
                        if j - 1 > p {
                            assert(!crate::text::lex_lt(o0[j - 1].source@, o0[p as int].source@));
                            crate::text::lemma_lex_total(o0[j - 1].source@, o0[p as int].source@);
                            if o0[p as int].source@ == xs {
                                crate::text::lemma_lex_transitive(o0[p as int].source@, o0[j - 1].source@, xs);
                                crate::text::lemma_lex_irreflexive(xs);
                            } else {
                                if o0[j - 1].source@ == o0[p as int].source@ {
                                    crate::text::lemma_lex_asymmetric(xs, o0[p as int].source@);
                                } else {
                                    crate::text::lemma_lex_transitive(xs, o0[p as int].source@, o0[j - 1].source@);
                                    crate::text::lemma_lex_asymmetric(xs, o0[j - 1].source@);
                                }
                            }
                        } else {
                            crate::text::lemma_lex_asymmetric(xs, o0[p as int].source@);
                        }
                    }
                } else if i > p {
                    assert(w[i] == o0[i - 1] && w[j] == o0[j - 1]);
                } else if j > p {
                    assert(w[i] == o0[i] && w[j] == o0[j - 1]);
                } else {
                    assert(w[i] == o0[i] && w[j] == o0[j]);
                }
            }
            vstd::seq_lib::to_multiset_insert(o0, p as int, w[p as int]);
            vstd::seq_lib::to_multiset_build(rest@, w[p as int]);
            assert(r0 =~= rest@.push(w[p as int]));
            assert(out@.to_multiset().add(rest@.to_multiset()) =~= v0.to_multiset());
            // the entries of each source keep their order
            let pre = o0.take(p as int);
            let post = o0.skip(p as int);
            assert(o0 =~= pre + post);
            assert(w =~= pre + seq![x] + post);
            assert(v0.skip(n) =~= seq![x] + v0.skip(n + 1));
            assert forall|k: Seq<char>| #[trigger] with_source(out@, k) == with_source(v0.skip(n), k) by {
                lemma_with_source_concat(pre + seq![x], post, k);
                lemma_with_source_concat(pre, seq![x], k);
                lemma_with_source_concat(pre, post, k);
                lemma_with_source_concat(seq![x], v0.skip(n + 1), k);
                lemma_with_source_one(x, k);
                if k == xs {
                    assert forall|i: int| 0 <= i < pre.len() implies #[trigger] pre[i].source@ != k by {
                        assert(pre[i] == o0[i]);
                        crate::text::lemma_lex_irreflexive(xs);
                    }
                    lemma_with_source_none(pre, k);
                    assert(with_source(pre, k) + with_source(post, k) =~= with_source(post, k));
                    assert(with_source(out@, k) =~= seq![x] + with_source(o0, k));
                } else {
                    assert(with_source(out@, k) =~= with_source(pre, k) + with_source(post, k));
                    assert(with_source(v0.skip(n), k) =~= with_source(v0.skip(n + 1), k));
                }
            }
        }
    }
    assert(rest@ =~= Seq::<EndpointMapping>::empty());
    assert(rest@.to_multiset() =~= vstd::multiset::Multiset::empty());
    assert(out@.to_multiset() =~= out@.to_multiset().add(rest@.to_multiset()));
    assert(v0.skip(0) =~= v0);
    out
}

} // verus!
