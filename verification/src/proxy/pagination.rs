//! Pagination handling: query-param name translation and `Link` header URL
//! rewriting so paginated responses keep pointing back through the proxy
//! instead of leaking the upstream target URL to source-speaking clients.
use vstd::prelude::*;
use crate::diff::schemas::opt_view;
use crate::mapping::types::PaginationSettings;
use crate::proxy::transform::text_entries;
use crate::text::{chars_of, owned, string_of, append_str, split, join, views, split_at_char, join_with};

verus! {

/// Query pairs by their text.
pub open spec fn pair_views(v: Seq<(String, String)>) -> Seq<(Seq<char>, Seq<char>)> {
    v.map_values(|p: (String, String)| (p.0@, p.1@))
}

/// The param map of the settings, source name to target name, in key order.
pub open spec fn param_entries(settings: PaginationSettings) -> Seq<(Seq<char>, Seq<char>)> {
    text_entries(settings.param_map@)
}

/// The target-side name of a source-side param (the name itself when it
/// has none).
pub open spec fn forward_name(es: Seq<(Seq<char>, Seq<char>)>, k: Seq<char>) -> Seq<char> {
    match crate::json::lookup(es, k) {
        Some(t) => t,
        None => k,
    }
}

/// The source name whose target name is `t`: the last such entry.
pub open spec fn reverse_lookup(es: Seq<(Seq<char>, Seq<char>)>, t: Seq<char>) -> Option<Seq<char>>
    decreases es.len(),
{
    if es.len() == 0 {
        None
    } else if es.last().1 == t {
        Some(es.last().0)
    } else {
        reverse_lookup(es.drop_last(), t)
    }
}

/// The source-side name of a target-side param.
pub open spec fn backward_name(es: Seq<(Seq<char>, Seq<char>)>, t: Seq<char>) -> Seq<char> {
    match reverse_lookup(es, t) {
        Some(s) => s,
        None => t,
    }
}

pub open spec fn translated(pairs: Seq<(Seq<char>, Seq<char>)>, es: Seq<(Seq<char>, Seq<char>)>) -> Seq<(Seq<char>, Seq<char>)> {
    pairs.map_values(|p: (Seq<char>, Seq<char>)| (forward_name(es, p.0), p.1))
}

pub open spec fn translated_back(pairs: Seq<(Seq<char>, Seq<char>)>, es: Seq<(Seq<char>, Seq<char>)>) -> Seq<(Seq<char>, Seq<char>)> {
    pairs.map_values(|p: (Seq<char>, Seq<char>)| (backward_name(es, p.0), p.1))
}

proof fn lemma_lookup_text(s: Seq<(Seq<char>, String)>, k: Seq<char>)
    ensures
        crate::json::lookup(text_entries(s), k) == (match crate::json::lookup(s, k) {
            Some(v) => Some(v@),
            None => None,
        }),
    decreases s.len(),
{
    if s.len() > 0 {
        assert(text_entries(s).drop_last() =~= text_entries(s.drop_last()));
        lemma_lookup_text(s.drop_last(), k);
    }
}

/// Renames the keys of query pairs by a name map (a key the map lacks
/// stays), keeping the values and the order.
pub(crate) fn rename_pair_keys(pairs: &mut Vec<(String, String)>, names: &crate::json::KeyedMap<String>)
    ensures
        pair_views(final(pairs)@) == translated(pair_views(old(pairs)@), text_entries(names@)),
{
    let ghost es = text_entries(names@);
    let mut taken: Vec<(String, String)> = Vec::new();
    std::mem::swap(&mut taken, pairs);
    let ghost orig = pair_views(taken@);
    let mut i: usize = 0;
    while i < taken.len()
        invariant
            i <= taken@.len(),
            orig == pair_views(taken@),
            es == text_entries(names@),
            pair_views(pairs@) == translated(orig, es).take(i as int),
        decreases taken@.len() - i,
    {
        let key = &taken[i].0;
        let value = taken[i].1.clone();
        proof {
            lemma_lookup_text(names@, key@);
        }
        let name = match names.get(key.as_str()) {
            Some(target_name) => target_name.clone(),
            None => key.clone(),
        };
        assert(orig[i as int] == (key@, taken@[i as int].1@));
        assert(name@ == forward_name(es, key@));
        let ghost before = pairs@;
        pairs.push((name, value));
        assert(pair_views(pairs@) =~= pair_views(before).push((forward_name(es, key@), value@)));
        assert(pair_views(pairs@) =~= translated(orig, es).take(i + 1));
        i += 1;
    }
    assert(translated(orig, es).take(taken@.len() as int) =~= translated(orig, es));
}

/// Rewrite source-side pagination query params to their target-side names
/// (e.g. `per_page` -> `limit`) before forwarding a request upstream.
pub fn translate_query_params(pairs: &mut Vec<(String, String)>, settings: &PaginationSettings)
    ensures
        pair_views(final(pairs)@) == translated(pair_views(old(pairs)@), param_entries(*settings)),
{
    rename_pair_keys(pairs, &settings.param_map);
}

fn reverse_name(es: &crate::json::KeyedMap<String>, t: &str) -> (r: Option<String>)
    ensures
        opt_view(r) == reverse_lookup(text_entries(es@), t@),
{
    let ghost s = text_entries(es@);
    let mut k: usize = es.len();
    assert(s.take(k as int) =~= s);
    while k > 0
        invariant
            k <= es@.len(),
            s == text_entries(es@),
            reverse_lookup(s, t@) == reverse_lookup(s.take(k as int), t@),
        decreases k,
    {
        let (name, target) = es.entry(k - 1);
        assert(s.take(k as int).drop_last() =~= s.take(k - 1));
        assert(s.take(k as int).last() == (name@, target@));
        if crate::text::str_eq(target.as_str(), t) {
            return Some(name.clone());
        }
        k -= 1;
    }
    None
}

/// Rewrite target-side pagination param names back to source names in the
/// reverse direction (used when reflecting param names back to the client,
/// e.g. in rewritten `Link` headers referencing the proxy).
pub fn translate_query_params_reverse(pairs: &mut Vec<(String, String)>, settings: &PaginationSettings)
    ensures
        pair_views(final(pairs)@) == translated_back(pair_views(old(pairs)@), param_entries(*settings)),
{
    let ghost es = param_entries(*settings);
    let mut taken: Vec<(String, String)> = Vec::new();
    std::mem::swap(&mut taken, pairs);
    let ghost orig = pair_views(taken@);
    let mut i: usize = 0;
    while i < taken.len()
        invariant
            i <= taken@.len(),
            orig == pair_views(taken@),
            es == param_entries(*settings),
            pair_views(pairs@) == translated_back(orig, es).take(i as int),
        decreases taken@.len() - i,
    {
        let key = &taken[i].0;
        let value = taken[i].1.clone();
        let name = match reverse_name(&settings.param_map, key.as_str()) {
            Some(source_name) => source_name,
            None => key.clone(),
        };
        assert(orig[i as int] == (key@, taken@[i as int].1@));
        assert(name@ == backward_name(es, key@));
        let ghost before = pairs@;
        pairs.push((name, value));
        assert(pair_views(pairs@) =~= pair_views(before).push((backward_name(es, key@), value@)));
        assert(pair_views(pairs@) =~= translated_back(orig, es).take(i + 1));
        i += 1;
    }
    assert(translated_back(orig, es).take(taken@.len() as int) =~= translated_back(orig, es));
}

/// A param map that can be read backwards: no target name used twice.
pub open spec fn targets_distinct(es: Seq<(Seq<char>, Seq<char>)>) -> bool {
    forall|i: int, j: int| 0 <= i < es.len() && 0 <= j < es.len() && i != j ==> #[trigger] es[i].1 != #[trigger] es[j].1
}

/// Names that the map neither renames nor produces pass both ways as they
/// are.
pub open spec fn untouched_name(es: Seq<(Seq<char>, Seq<char>)>, k: Seq<char>) -> bool {
    forall|i: int| #![trigger es[i]] 0 <= i < es.len() ==> es[i].0 != k && es[i].1 != k
}

proof fn lemma_reverse_lookup_at(es: Seq<(Seq<char>, Seq<char>)>, i: int)
    requires
        targets_distinct(es),
        0 <= i < es.len(),
    ensures
        reverse_lookup(es, es[i].1) == Some(es[i].0),
    decreases es.len(),
{
    if i < es.len() - 1 {
        let t = es.drop_last();
        assert(es.last() == es[es.len() - 1]);
        assert(t[i] == es[i]);
        assert forall|a: int, b: int| 0 <= a < t.len() && 0 <= b < t.len() && a != b implies #[trigger] t[a].1 != #[trigger] t[b].1 by {
            assert(t[a] == es[a] && t[b] == es[b]);
        }
        lemma_reverse_lookup_at(t, i);
    }
}

proof fn lemma_reverse_lookup_none(es: Seq<(Seq<char>, Seq<char>)>, k: Seq<char>)
    requires
        forall|i: int| 0 <= i < es.len() ==> #[trigger] es[i].1 != k,
    ensures
        reverse_lookup(es, k) is None,
    decreases es.len(),
{
    if es.len() > 0 {
        let t = es.drop_last();
        assert(es.last() == es[es.len() - 1]);
        assert forall|i: int| 0 <= i < t.len() implies #[trigger] t[i].1 != k by {
            assert(t[i] == es[i]);
        }
        lemma_reverse_lookup_none(t, k);
    }
}

/// Translating query params forward and then back gives the params back,
/// for a param map whose target names are distinct, on params whose names
/// the map either renames or neither renames nor produces.
pub proof fn lemma_translate_round_trip(pairs: Seq<(Seq<char>, Seq<char>)>, es: Seq<(Seq<char>, Seq<char>)>)
    requires
        crate::json::keys_sorted(es),
        targets_distinct(es),
        forall|i: int| 0 <= i < pairs.len() ==> crate::json::lookup(es, #[trigger] pairs[i].0) is Some || untouched_name(es, pairs[i].0),
    ensures
        translated_back(translated(pairs, es), es) == pairs,
{
    crate::json::lemma_sorted_distinct(es);
    assert forall|i: int| 0 <= i < pairs.len() implies #[trigger] backward_name(es, forward_name(es, pairs[i].0)) == pairs[i].0 by {
        let k = pairs[i].0;
        if crate::json::lookup(es, k) is Some {
            let j = crate::json::lemma_lookup_witness(es, k);
            crate::json::lemma_lookup_at(es, j);
            lemma_reverse_lookup_at(es, j);
        } else {
            assert(untouched_name(es, k));
            assert forall|j: int| 0 <= j < es.len() implies #[trigger] es[j].1 != k by {
                assert(es[j].0 != k && es[j].1 != k);
            }
            lemma_reverse_lookup_none(es, k);
        }
    }
    assert(translated_back(translated(pairs, es), es) =~= pairs);
}

/// The parts of a URL that decide where a link points.
pub struct UrlParts {
    pub scheme: String,
    pub host: Option<String>,
    pub port: Option<u16>,
}

impl View for UrlParts {
    type V = (Seq<char>, Option<Seq<char>>, Option<u16>);

    open spec fn view(&self) -> (Seq<char>, Option<Seq<char>>, Option<u16>) {
        (self.scheme@, opt_view(self.host), self.port)
    }
}

/// What `url::Url::parse` reads from a URL: its `scheme`, `host_str` and
/// `port`, and its `query_pairs` (`None` where it does not parse).
pub uninterp spec fn url_reading(text: Seq<char>) -> Option<((Seq<char>, Option<Seq<char>>, Option<u16>), Seq<(Seq<char>, Seq<char>)>)>;

/// What `url::Url` makes of a URL whose scheme, host and port are set (a
/// setter's refusal ignored) and whose query is replaced by `pairs`
/// (`query_pairs_mut`, `clear`, `append_pair`): its `as_str` (`None`
/// where the URL does not parse).
pub uninterp spec fn url_moved(text: Seq<char>, to: (Seq<char>, Option<Seq<char>>, Option<u16>), pairs: Seq<(Seq<char>, Seq<char>)>) -> Option<Seq<char>>;

/// `url::Url::parse` with the parts read from the result.
#[verifier::external_body]
pub(crate) fn read_url(text: &str) -> (r: Option<(UrlParts, Vec<(String, String)>)>)
    ensures
        match r {
            Some((p, q)) => url_reading(text@) == Some((p@, pair_views(q@))),
            None => url_reading(text@) is None,
        },
{
    match url::Url::parse(text) {
        Ok(u) => {
            let host = match u.host_str() {
                Some(h) => Some(h.to_string()),
                None => None,
            };
            let mut query = Vec::new();
            for (k, v) in u.query_pairs() {
                query.push((k.to_string(), v.to_string()));
            }
            Some((UrlParts { scheme: u.scheme().to_string(), host, port: u.port() }, query))
        },
        Err(_) => None,
    }
}

/// `url::Url::parse`, then `set_scheme`, `set_host`, `set_port` (their
/// errors ignored) and the query replaced by `pairs`; the URL's text.
#[verifier::external_body]
fn move_url(text: &str, to: &UrlParts, pairs: &Vec<(String, String)>) -> (r: Option<String>)
    ensures
        opt_view(r) == url_moved(text@, to@, pair_views(pairs@)),
{
    match url::Url::parse(text) {
        Ok(mut u) => {
            let _ = u.set_scheme(&to.scheme);
            let _ = u.set_host(to.host.as_deref());
            let _ = u.set_port(to.port);
            u.query_pairs_mut().clear().extend_pairs(pairs);
            Some(u.as_str().to_string())
        },
        Err(_) => None,
    }
}

/// The first position at or after `from` holding `c`.
pub open spec fn index_of(s: Seq<char>, c: char, from: int) -> Option<int>
    decreases s.len() - from,
{
    if from < 0 || from >= s.len() {
        None
    } else if s[from] == c {
        Some(from)
    } else {
        index_of(s, c, from + 1)
    }
}

proof fn lemma_index_of(s: Seq<char>, c: char, from: int)
    ensures
        index_of(s, c, from) matches Some(i) ==> from <= i < s.len() && s[i] == c,
    decreases s.len() - from,
{
    if 0 <= from < s.len() && s[from] != c {
        lemma_index_of(s, c, from + 1);
    }
}

/// One `<url>; rel=...` part of a `Link` header, its URL moved to the proxy
/// when it points at the target (same scheme and host), the query's
/// pagination params named back to the source side. Anything else stays as
/// it is.
pub open spec fn link_segment(seg: Seq<char>, target: (Seq<char>, Option<Seq<char>>, Option<u16>), proxy: (Seq<char>, Option<Seq<char>>, Option<u16>), es: Seq<(Seq<char>, Seq<char>)>) -> Seq<char> {
    match index_of(seg, '<', 0) {
        None => seg,
        Some(start) => match index_of(seg, '>', start) {
            None => seg,
            Some(end) => {
                let url = seg.subrange(start + 1, end);
                match url_reading(url) {
                    None => seg,
                    Some((parts, query)) => if parts.0 != target.0 || parts.1 != target.1 {
                        seg
                    } else {
                        match url_moved(url, proxy, translated_back(query, es)) {
                            Some(u) => seg.take(start) + seq!['<'] + u + seq!['>'] + seg.skip(end + 1),
                            None => seg,
                        }
                    },
                }
            },
        },
    }
}

/// A whole `Link` header: its comma-separated parts, each rewritten.
pub open spec fn link_header(value: Seq<char>, target: (Seq<char>, Option<Seq<char>>, Option<u16>), proxy: (Seq<char>, Option<Seq<char>>, Option<u16>), es: Seq<(Seq<char>, Seq<char>)>) -> Seq<char> {
    join(split(value, ',').map_values(|seg: Seq<char>| link_segment(seg, target, proxy, es)), ',')
}

fn find_char(cs: &Vec<char>, c: char, from: usize) -> (r: Option<usize>)
    requires
        from <= cs@.len(),
    ensures
        match r {
            Some(i) => index_of(cs@, c, from as int) == Some(i as int) && i < cs@.len(),
            None => index_of(cs@, c, from as int) is None,
        },
{
    let mut i = from;
    while i < cs.len()
        invariant
            from <= i <= cs@.len(),
            index_of(cs@, c, from as int) == index_of(cs@, c, i as int),
        decreases cs@.len() - i,
    {
        if cs[i] == c {
            return Some(i);
        }
        i += 1;
    }
    None
}

fn same_text(a: &String, b: &String) -> (r: bool)
    ensures
        r == (a@ == b@),
{
    crate::text::str_eq(a.as_str(), b.as_str())
}

fn rewrite_link_segment(segment: &str, target_base: &UrlParts, proxy_base: &UrlParts, settings: &PaginationSettings) -> (r: String)
    ensures
        r@ == link_segment(segment@, target_base@, proxy_base@, param_entries(*settings)),
{
    let cs = chars_of(segment);
    let start = match find_char(&cs, '<', 0) {
        Some(i) => i,
        None => return owned(segment),
    };
    let end = match find_char(&cs, '>', start) {
        Some(i) => i,
        None => return owned(segment),
    };
    proof {
        lemma_index_of(cs@, '<', 0);
        lemma_index_of(cs@, '>', start as int);
    }
    let url_str = string_of(&cs, start + 1, end);
    let (parts, query) = match read_url(url_str.as_str()) {
        Some(r) => r,
        None => return owned(segment),
    };
    let same_host = match (&parts.host, &target_base.host) {
        (Some(a), Some(b)) => same_text(a, b),
        (None, None) => true,
        _ => false,
    };
    if !same_text(&parts.scheme, &target_base.scheme) || !same_host {
        return owned(segment);
    }
    let mut pairs = query;
    translate_query_params_reverse(&mut pairs, settings);
    let moved = match move_url(url_str.as_str(), proxy_base, &pairs) {
        Some(u) => u,
        None => return owned(segment),
    };
    let mut out = string_of(&cs, 0, start);
    crate::text::push_char(&mut out, '<');
    append_str(&mut out, moved.as_str());
    crate::text::push_char(&mut out, '>');
    let rest = string_of(&cs, end + 1, cs.len());
    append_str(&mut out, rest.as_str());
    assert(out@ =~= segment@.take(start as int) + seq!['<'] + moved@ + seq!['>'] + segment@.skip(end + 1));
    out
}

/// Rewrite every URL found in a `Link` header so it points at `proxy_base`
/// instead of `target_base`, preserving query strings (with pagination
/// param names translated back to source-side names).
pub fn rewrite_link_header(value: &str, target_base: &UrlParts, proxy_base: &UrlParts, settings: &PaginationSettings) -> (r: String)
    ensures
        r@ == link_header(value@, target_base@, proxy_base@, param_entries(*settings)),
{
    // Link header format: <url>; rel="next", <url>; rel="prev", ...
    let parts = split_at_char(value, ',');
    let ghost es = param_entries(*settings);
    let mut out: Vec<String> = Vec::new();
    let mut i: usize = 0;
    while i < parts.len()
        invariant
            i <= parts@.len(),
            es == param_entries(*settings),
            out@.len() == i,
            forall|j: int| 0 <= j < i ==> (#[trigger] out@[j])@ == link_segment(parts@[j]@, target_base@, proxy_base@, es),
        decreases parts@.len() - i,
    {
        out.push(rewrite_link_segment(parts[i].as_str(), target_base, proxy_base, settings));
        i += 1;
    }
    assert(views(out@) =~= split(value@, ',').map_values(|seg: Seq<char>| link_segment(seg, target_base@, proxy_base@, es)));
    join_with(&out, ',')
}

#[verifier::external_type_specification]
#[verifier::external_body]
#[verifier::reject_recursive_types(T)]
pub struct ExHeaderMap<T>(http::HeaderMap<T>);

#[verifier::external_type_specification]
#[verifier::external_body]
pub struct ExHeaderValue(http::HeaderValue);

/// The values an `http::HeaderMap` holds, by lower-case header name, each
/// name's values in order (as bytes).
pub uninterp spec fn header_groups(h: http::HeaderMap) -> Map<Seq<char>, Seq<Seq<u8>>>;

/// The name `http::HeaderName::from_bytes` makes of a header name (its
/// lower-case form), or `None` where it refuses it. `HeaderMap::remove`
/// reads a `&str` key the same way.
pub uninterp spec fn header_key(name: Seq<char>) -> Option<Seq<char>>;

/// The bytes a header value holds (`HeaderValue::as_bytes`).
pub uninterp spec fn header_value_bytes(v: http::HeaderValue) -> Seq<u8>;

/// `HeaderMap::remove` with a `&str` key: takes out all the values under
/// the name and hands back the first; a name `HeaderName` refuses matches
/// nothing.
#[verifier::external_body]
fn take_header(headers: &mut http::HeaderMap, name: &str) -> (r: Option<http::HeaderValue>)
    ensures
        match header_key(name@) {
            Some(k) => (r is Some <==> header_groups(*old(headers)).contains_key(k))
                && header_groups(*final(headers)) == header_groups(*old(headers)).remove(k)
                && (r matches Some(v) ==> header_groups(*old(headers))[k].len() > 0
                    && header_value_bytes(v) == header_groups(*old(headers))[k][0]),
            None => r is None && header_groups(*final(headers)) == header_groups(*old(headers)),
        },
{
    headers.remove(name)
}

/// `HeaderName::from_bytes` and then `HeaderMap::try_insert`: the name now
/// holds this one value in place of any before it. `false` where the name
/// is refused or the map has no room (`insert` would panic there); the map
/// is then as it was. A map holds up to 32768 slots (`MAX_SIZE`) and grows
/// by doubling, so one with fewer than 4096 names always has room.
#[verifier::external_body]
fn put_header(headers: &mut http::HeaderMap, name: &str, value: http::HeaderValue) -> (ok: bool)
    ensures
        ok ==> header_key(name@) is Some
            && header_groups(*final(headers)) == header_groups(*old(headers)).insert(header_key(name@)->0, seq![header_value_bytes(value)]),
        !ok ==> header_groups(*final(headers)) == header_groups(*old(headers)),
        header_key(name@) is Some && header_groups(*old(headers)).dom().len() < 4096 ==> ok,
{
    match http::HeaderName::from_bytes(name.as_bytes()) {
        Ok(n) => headers.try_insert(n, value).is_ok(),
        Err(_) => false,
    }
}

/// One rename on a header map's contents: the values under the target
/// name are taken out and the first of them goes under the source name,
/// in place of any values there. The value is dropped only where the
/// source name is refused, or where the map, with the target taken out,
/// still holds 4096 names or more and has no room left.
pub open spec fn header_rename_step(before: Map<Seq<char>, Seq<Seq<u8>>>, after: Map<Seq<char>, Seq<Seq<u8>>>, source: Seq<char>, target: Seq<char>) -> bool {
    match header_key(target) {
        Some(tk) => if before.contains_key(tk) {
            let mid = before.remove(tk);
            match header_key(source) {
                Some(sk) => after == mid.insert(sk, seq![before[tk][0]]) || (mid.dom().len() >= 4096 && after == mid),
                None => after == mid,
            }
        } else {
            after == before
        },
        None => after == before,
    }
}

/// `states` walks a header map's contents through the renames `rs`, one
/// step each.
pub open spec fn rename_walk(states: Seq<Map<Seq<char>, Seq<Seq<u8>>>>, rs: Seq<(Seq<char>, Seq<char>)>) -> bool {
    &&& states.len() == rs.len() + 1
    &&& forall|i: int| 0 <= i < rs.len() ==> #[trigger] header_rename_step(states[i], states[i + 1], rs[i].0, rs[i].1)
}

/// A header map's contents after the renames `rs`, one step at a time.
pub open spec fn headers_renamed(before: Map<Seq<char>, Seq<Seq<u8>>>, after: Map<Seq<char>, Seq<Seq<u8>>>, rs: Seq<(Seq<char>, Seq<char>)>) -> bool {
    exists|states: Seq<Map<Seq<char>, Seq<Seq<u8>>>>| #[trigger] rename_walk(states, rs) && states[0] == before && states.last() == after
}

/// A header map's contents after one rename that finds room: the first
/// value under the target name goes under the source name.
pub open spec fn rename_applied(before: Map<Seq<char>, Seq<Seq<u8>>>, source: Seq<char>, target: Seq<char>) -> Map<Seq<char>, Seq<Seq<u8>>> {
    match header_key(target) {
        Some(tk) => if before.contains_key(tk) {
            let mid = before.remove(tk);
            match header_key(source) {
                Some(sk) => mid.insert(sk, seq![before[tk][0]]),
                None => mid,
            }
        } else {
            before
        },
        None => before,
    }
}

/// A header map's contents after the renames `rs`, in order, each finding room.
pub open spec fn renames_applied(before: Map<Seq<char>, Seq<Seq<u8>>>, rs: Seq<(Seq<char>, Seq<char>)>) -> Map<Seq<char>, Seq<Seq<u8>>>
    decreases rs.len(),
{
    if rs.len() == 0 {
        before
    } else {
        rename_applied(renames_applied(before, rs.drop_last()), rs.last().0, rs.last().1)
    }
}

proof fn lemma_rename_step_room(before: Map<Seq<char>, Seq<Seq<u8>>>, after: Map<Seq<char>, Seq<Seq<u8>>>, source: Seq<char>, target: Seq<char>)
    requires
        header_rename_step(before, after, source, target),
        before.dom().finite(),
        before.dom().len() < 4096,
    ensures
        after == rename_applied(before, source, target),
        after.dom().finite(),
        after.dom().len() <= before.dom().len(),
{
    if let Some(tk) = header_key(target) {
        if before.contains_key(tk) {
            let mid = before.remove(tk);
            assert(mid.dom() =~= before.dom().remove(tk));
            assert(mid.dom().len() == before.dom().len() - 1);
            if let Some(sk) = header_key(source) {
                let out = mid.insert(sk, seq![before[tk][0]]);
                assert(out.dom() =~= mid.dom().insert(sk));
            }
        }
    }
}

proof fn lemma_rename_walk_room(states: Seq<Map<Seq<char>, Seq<Seq<u8>>>>, rs: Seq<(Seq<char>, Seq<char>)>, i: int)
    requires
        rename_walk(states, rs),
        0 <= i <= rs.len(),
        states[0].dom().finite(),
        states[0].dom().len() < 4096,
    ensures
        states[i] == renames_applied(states[0], rs.take(i)),
        states[i].dom().finite(),
        states[i].dom().len() <= states[0].dom().len(),
    decreases i,
{
    if i == 0 {
        assert(rs.take(0) =~= Seq::<(Seq<char>, Seq<char>)>::empty());
    } else {
        lemma_rename_walk_room(states, rs, i - 1);
        let j = i - 1;
        assert(header_rename_step(states[j], states[j + 1], rs[j].0, rs[j].1));
        assert(j + 1 == i);
        lemma_rename_step_room(states[i - 1], states[i], rs[i - 1].0, rs[i - 1].1);
        assert(rs.take(i).drop_last() =~= rs.take(i - 1));
        assert(rs.take(i).last() == rs[i - 1]);
    }
}

/// Apply header renames from the endpoint mapping to a response header map:
/// for each (source, target) in key order, the first value under the
/// target name moves to the source name.
pub fn apply_header_renames(headers: &mut http::HeaderMap, renames: &crate::json::KeyedMap<String>)
    ensures
        headers_renamed(header_groups(*old(headers)), header_groups(*final(headers)), text_entries(renames@)),
        header_groups(*old(headers)).dom().finite() && header_groups(*old(headers)).dom().len() < 4096
            ==> header_groups(*final(headers)) == renames_applied(header_groups(*old(headers)), text_entries(renames@)),
{
    let ghost rs = text_entries(renames@);
    let ghost mut states: Seq<Map<Seq<char>, Seq<Seq<u8>>>> = seq![header_groups(*headers)];
    let mut i: usize = 0;
    while i < renames.len()
        invariant
            i <= renames@.len(),
            rs == text_entries(renames@),
            rename_walk(states, rs.take(i as int)),
            states[0] == header_groups(*old(headers)),
            states.last() == header_groups(*headers),
        decreases renames@.len() - i,
    {
        let (source_name, target_name) = renames.entry(i);
        let ghost before = header_groups(*headers);
        let taken = take_header(headers, target_name.as_str());
        let ghost mid = header_groups(*headers);
        if let Some(val) = taken {
            let ghost moved = header_value_bytes(val);
            let ok = put_header(headers, source_name.as_str(), val);
            assert(header_key(target_name@) is Some);
            assert(mid == before.remove(header_key(target_name@)->0));
            assert(moved == before[header_key(target_name@)->0][0]);
            if !ok {
                assert(header_groups(*headers) == mid);
            }
        } else {
            assert(header_groups(*headers) == before);
        }
        assert(rs[i as int] == (source_name@, target_name@));
        assert(header_rename_step(before, header_groups(*headers), source_name@, target_name@));
        proof {
            let old_states = states;
            states = states.push(header_groups(*headers));
            assert forall|j: int| 0 <= j < i + 1 implies #[trigger] header_rename_step(states[j], states[j + 1], rs.take(i + 1)[j].0, rs.take(i + 1)[j].1) by {
                if j < i {
                    assert(states[j] == old_states[j] && states[j + 1] == old_states[j + 1]);
                    assert(rs.take(i + 1)[j] == rs.take(i as int)[j]);
                    assert(header_rename_step(old_states[j], old_states[j + 1], rs.take(i as int)[j].0, rs.take(i as int)[j].1));
                }
            }
        }
        i += 1;
    }
    assert(rs.take(renames@.len() as int) =~= rs);
    proof {
        if states[0].dom().finite() && states[0].dom().len() < 4096 {
            lemma_rename_walk_room(states, rs, rs.len() as int);
            assert(rs.take(rs.len() as int) =~= rs);
        }
    }
}

} // verus!
