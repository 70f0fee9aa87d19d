//! JSON-shaped data. `KeyedMap` is an ordered map from string keys to values:
//! its entries are kept sorted by key in the order of `String`'s `Ord`, each
//! key at most once, so it is walked in key order like a `BTreeMap<String, _>`.
//! `JsonValue` is a JSON document whose objects are such maps; its meaning is
//! the mathematical tree `JsonTree`.
use vstd::prelude::*;
use crate::text::{lex_lt, lemma_lex_asymmetric, lemma_lex_transitive, lemma_lex_total, str_eq, str_less};

verus! {

/// Entry keys strictly increasing.
pub open spec fn keys_sorted<V>(s: Seq<(Seq<char>, V)>) -> bool {
    forall|i: int, j: int| 0 <= i < j < s.len() ==> lex_lt(#[trigger] s[i].0, #[trigger] s[j].0)
}

/// No key occurs twice.
pub open spec fn keys_distinct<V>(s: Seq<(Seq<char>, V)>) -> bool {
    forall|i: int, j: int| 0 <= i < s.len() && 0 <= j < s.len() && i != j ==> #[trigger] s[i].0 != #[trigger] s[j].0
}

/// The value stored under `k` (the last entry with that key).
pub open spec fn lookup<V>(s: Seq<(Seq<char>, V)>, k: Seq<char>) -> Option<V>
    decreases s.len(),
{
    if s.len() == 0 {
        None
    } else if s.last().0 == k {
        Some(s.last().1)
    } else {
        lookup(s.drop_last(), k)
    }
}

/// The finite map that a sequence of entries stands for.
pub open spec fn entries_map<V>(s: Seq<(Seq<char>, V)>) -> Map<Seq<char>, V> {
    Map::new(|k: Seq<char>| lookup(s, k) is Some, |k: Seq<char>| lookup(s, k)->0)
}

pub proof fn lemma_sorted_distinct<V>(s: Seq<(Seq<char>, V)>)
    requires
        keys_sorted(s),
    ensures
        keys_distinct(s),
{
    assert forall|i: int, j: int| 0 <= i < s.len() && 0 <= j < s.len() && i != j implies #[trigger] s[i].0 != #[trigger] s[j].0 by {
        if i < j {
            lemma_lex_asymmetric(s[i].0, s[j].0);
        } else {
            lemma_lex_asymmetric(s[j].0, s[i].0);
        }
    }
}

pub proof fn lemma_lookup_at<V>(s: Seq<(Seq<char>, V)>, i: int)
    requires
        keys_distinct(s),
        0 <= i < s.len(),
    ensures
        lookup(s, s[i].0) == Some(s[i].1),
    decreases s.len(),
{
    if i == s.len() - 1 {
    } else {
        assert(s.last().0 != s[i].0);
        let t = s.drop_last();
        assert(t[i] == s[i]);
        lemma_lookup_at(t, i);
    }
}

pub proof fn lemma_lookup_none<V>(s: Seq<(Seq<char>, V)>, k: Seq<char>)
    requires
        forall|i: int| 0 <= i < s.len() ==> #[trigger] s[i].0 != k,
    ensures
        lookup(s, k) is None,
    decreases s.len(),
{
    if s.len() > 0 {
        let t = s.drop_last();
        assert(s.last() == s[s.len() - 1]);
        assert forall|i: int| 0 <= i < t.len() implies #[trigger] t[i].0 != k by {
            assert(t[i] == s[i]);
        }
        lemma_lookup_none(t, k);
    }
}

pub proof fn lemma_lookup_witness<V>(s: Seq<(Seq<char>, V)>, k: Seq<char>) -> (i: int)
    requires
        lookup(s, k) is Some,
    ensures
        0 <= i < s.len(),
        s[i].0 == k,
        s[i].1 == lookup(s, k)->0,
    decreases s.len(),
{
    if s.last().0 == k {
        s.len() - 1
    } else {
        let t = s.drop_last();
        let j = lemma_lookup_witness(t, k);
        assert(t[j] == s[j]);
        j
    }
}

/// Where a sorted, duplicate-free entry sequence is concerned, the map says
/// everything: a key is present exactly when some entry carries it.
pub proof fn lemma_map_has_key<V>(s: Seq<(Seq<char>, V)>, k: Seq<char>)
    requires
        keys_distinct(s),
    ensures
        entries_map(s).contains_key(k) <==> exists|i: int| 0 <= i < s.len() && #[trigger] s[i].0 == k,
{
    if lookup(s, k) is Some {
        let i = lemma_lookup_witness(s, k);
        assert(s[i].0 == k);
    } else {
        if exists|i: int| 0 <= i < s.len() && #[trigger] s[i].0 == k {
            let i = choose|i: int| 0 <= i < s.len() && #[trigger] s[i].0 == k;
            lemma_lookup_at(s, i);
        }
    }
}

/// Two descriptions of the same finite map agree key by key.
pub proof fn lemma_entries_map_eq<V>(t: Seq<(Seq<char>, V)>, m: Map<Seq<char>, V>)
    requires
        forall|k: Seq<char>| #[trigger] m.contains_key(k) <==> lookup(t, k) is Some,
        forall|k: Seq<char>| #[trigger] m.contains_key(k) ==> lookup(t, k)->0 == m[k],
    ensures
        entries_map(t) == m,
{
    assert(entries_map(t) =~= m);
}

pub proof fn lemma_map_at<V>(s: Seq<(Seq<char>, V)>, i: int)
    requires
        keys_distinct(s),
        0 <= i < s.len(),
    ensures
        entries_map(s).contains_key(s[i].0),
        entries_map(s)[s[i].0] == s[i].1,
{
    lemma_lookup_at(s, i);
}

spec fn entries_view<V>(v: Seq<(String, V)>) -> Seq<(Seq<char>, V)> {
    v.map_values(|p: (String, V)| (p.0@, p.1))
}

/// A string-keyed map that walks its entries in key order.
pub struct KeyedMap<V> {
    pub(crate) entries: Vec<(String, V)>,
}

impl<V> View for KeyedMap<V> {
    type V = Seq<(Seq<char>, V)>;

    closed spec fn view(&self) -> Seq<(Seq<char>, V)> {
        entries_view(self.entries@)
    }
}

impl<V> KeyedMap<V> {
    #[verifier::type_invariant]
    pub open spec fn sorted(self) -> bool {
        keys_sorted(self@)
    }

    /// The map view.
    pub open spec fn as_map(self) -> Map<Seq<char>, V> {
        entries_map(self@)
    }

    pub fn new() -> (m: Self)
        ensures
            m@ == Seq::<(Seq<char>, V)>::empty(),
            m.as_map() == Map::<Seq<char>, V>::empty(),
    {
        let m = KeyedMap { entries: Vec::new() };
        assert(m@ =~= Seq::<(Seq<char>, V)>::empty());
        assert(m.as_map() =~= Map::<Seq<char>, V>::empty());
        m
    }

    pub fn len(&self) -> (n: usize)
        ensures
            n == self@.len(),
    {
        self.entries.len()
    }

    pub fn is_empty(&self) -> (b: bool)
        ensures
            b == (self@.len() == 0),
            b == (self.as_map() == Map::<Seq<char>, V>::empty()),
    {
        proof {
            use_type_invariant(self);
            lemma_sorted_distinct(self@);
            if self@.len() > 0 {
                lemma_map_at(self@, 0);
            } else {
                assert(self.as_map() =~= Map::<Seq<char>, V>::empty());
            }
        }
        self.entries.len() == 0
    }

    /// The `i`-th entry in key order.
    pub fn entry(&self, i: usize) -> (e: (&String, &V))
        requires
            i < self@.len(),
        ensures
            e.0@ == self@[i as int].0,
            *e.1 == self@[i as int].1,
    {
        let p = &self.entries[i];
        (&p.0, &p.1)
    }

    /// The index of the entry whose key is `key`, if any.
    pub fn find(&self, key: &str) -> (r: Option<usize>)
        ensures
            r matches Some(i) ==> i < self@.len() && self@[i as int].0 == key@
                && self.as_map()[key@] == self@[i as int].1,
            r is None ==> forall|i: int| 0 <= i < self@.len() ==> #[trigger] self@[i].0 != key@,
            r is Some <==> self.as_map().contains_key(key@),
    {
        proof {
            use_type_invariant(self);
            lemma_sorted_distinct(self@);
        }
        let mut i: usize = 0;
        while i < self.entries.len()
            invariant
                i <= self.entries.len(),
                keys_distinct(self@),
                self@.len() == self.entries.len(),
                forall|j: int| 0 <= j < self@.len() ==> #[trigger] self@[j] == (self.entries@[j].0@, self.entries@[j].1),
                forall|j: int| 0 <= j < i ==> #[trigger] self@[j].0 != key@,
            decreases self.entries.len() - i,
        {
            if str_eq(self.entries[i].0.as_str(), key) {
                proof { lemma_map_at(self@, i as int); }
                return Some(i);
            }
            i += 1;
        }
        proof { lemma_lookup_none(self@, key@); }
        None
    }

    pub fn contains_key(&self, key: &str) -> (b: bool)
        ensures
            b == self.as_map().contains_key(key@),
    {
        self.find(key).is_some()
    }

    pub fn get(&self, key: &str) -> (r: Option<&V>)
        ensures
            r is Some <==> self.as_map().contains_key(key@),
            r matches Some(v) ==> *v == self.as_map()[key@],
    {
        proof {
            use_type_invariant(self);
            lemma_sorted_distinct(self@);
        }
        match self.find(key) {
            Some(i) => {
                proof { lemma_map_at(self@, i as int); }
                Some(&self.entries[i].1)
            },
            None => None,
        }
    }

    /// Inserts `value` under `key`, returning the value it replaces.
    pub fn insert(&mut self, key: String, value: V) -> (old_value: Option<V>)
        ensures
            final(self).as_map() == old(self).as_map().insert(key@, value),
            old_value is Some <==> old(self).as_map().contains_key(key@),
            old_value matches Some(v) ==> v == old(self).as_map()[key@],
    {
        proof {
            use_type_invariant(&*self);
            lemma_sorted_distinct(self@);
        }
        let ghost s = self@;
        let mut v: Vec<(String, V)> = Vec::new();
        std::mem::swap(&mut v, &mut self.entries);
        assert(entries_view(v@) == s);
        let mut i: usize = 0;
        while i < v.len() && str_less(v[i].0.as_str(), key.as_str())
            invariant
                i <= v.len(),
                entries_view(v@) == s,
                keys_sorted(s),
                forall|j: int| 0 <= j < i ==> lex_lt(#[trigger] s[j].0, key@),
            decreases v.len() - i,
        {
            i += 1;
        }
        if i < v.len() && str_eq(v[i].0.as_str(), key.as_str()) {
            assert(s[i as int].0 == key@);
            let old_entry = v.remove(i);
            v.insert(i, (key, value));
            proof {
                let t = entries_view(v@);
                assert(t =~= s.update(i as int, (key@, value)));
                assert forall|a: int, b: int| 0 <= a < b < t.len() implies lex_lt(#[trigger] t[a].0, #[trigger] t[b].0) by {
                    assert(t[a].0 == s[a].0 && t[b].0 == s[b].0);
                }
                assert(keys_sorted(t));
                lemma_sorted_distinct(t);
                lemma_map_at(s, i as int);
                let m = entries_map(s).insert(key@, value);
                assert forall|k: Seq<char>| #[trigger] m.contains_key(k) <==> lookup(t, k) is Some
                    && (m.contains_key(k) ==> lookup(t, k)->0 == m[k]) by {
                    if k == key@ {
                        lemma_map_at(t, i as int);
                    } else if lookup(s, k) is Some {
                        let j = lemma_lookup_witness(s, k);
                        lemma_map_at(t, j);
                    } else {
                        assert forall|j: int| 0 <= j < t.len() implies #[trigger] t[j].0 != k by {
                            if j != i && t[j].0 == k {
                                lemma_map_at(s, j);
                            }
                        }
                        lemma_lookup_none(t, k);
                    }
                }
                lemma_entries_map_eq(t, m);
            }
            self.entries = v;
            Some(old_entry.1)
        } else {
            proof {
                if i < s.len() {
                    lemma_lex_total(s[i as int].0, key@);
                }
            }
            v.insert(i, (key, value));
            proof {
                let t = entries_view(v@);
                assert(t =~= s.insert(i as int, (key@, value)));
                assert forall|a: int, b: int| 0 <= a < b < t.len() implies lex_lt(#[trigger] t[a].0, #[trigger] t[b].0) by {
                    if b == i {
                        assert(lex_lt(s[a].0, key@));
                    } else if a == i {
                        assert(lex_lt(key@, s[i as int].0));
                        if b - 1 > i {
                            lemma_lex_transitive(key@, s[i as int].0, s[b - 1].0);
                        }
                    } else if a > i {
                        assert(t[a] == s[a - 1] && t[b] == s[b - 1]);
                    } else if b > i {
                        assert(t[a] == s[a] && t[b] == s[b - 1]);
                    }
                }
                assert(keys_sorted(t));
                lemma_sorted_distinct(t);
                assert forall|j: int| 0 <= j < s.len() implies #[trigger] s[j].0 != key@ by {
                    if j >= i {
                        if j > i {
                            lemma_lex_transitive(key@, s[i as int].0, s[j].0);
                        }
                        lemma_lex_asymmetric(key@, s[j].0);
                    } else {
                        lemma_lex_asymmetric(s[j].0, key@);
                    }
                }
                lemma_lookup_none(s, key@);
                let m = entries_map(s).insert(key@, value);
                assert forall|k: Seq<char>| #[trigger] m.contains_key(k) <==> lookup(t, k) is Some
                    && (m.contains_key(k) ==> lookup(t, k)->0 == m[k]) by {
                    if k == key@ {
                        lemma_map_at(t, i as int);
                    } else if lookup(s, k) is Some {
                        let j = lemma_lookup_witness(s, k);
                        if j < i {
                            lemma_map_at(t, j);
                        } else {
                            assert(t[j + 1] == s[j]);
                            lemma_map_at(t, j + 1);
                        }
                    } else {
                        assert forall|j: int| 0 <= j < t.len() implies #[trigger] t[j].0 != k by {
                            if j < i && t[j].0 == k {
                                lemma_map_at(s, j);
                            } else if j > i && t[j].0 == k {
                                assert(t[j] == s[j - 1]);
                                lemma_map_at(s, j - 1);
                            }
                        }
                        lemma_lookup_none(t, k);
                    }
                }
                lemma_entries_map_eq(t, m);
            }
            self.entries = v;
            None
        }
    }

    /// Removes the entry under `key`, returning its value.
    pub fn remove(&mut self, key: &str) -> (old_value: Option<V>)
        ensures
            final(self).as_map() == old(self).as_map().remove(key@),
            old_value is Some <==> old(self).as_map().contains_key(key@),
            old_value matches Some(v) ==> v == old(self).as_map()[key@],
            final(self)@ == (match old_value { Some(_) => old(self)@.remove(choose|i: int| 0 <= i < old(self)@.len() && old(self)@[i].0 == key@), None => old(self)@ }),
    {
        proof {
            use_type_invariant(&*self);
            lemma_sorted_distinct(self@);
        }
        let ghost s = self@;
        match self.find(key) {
            None => {
                proof {
                    lemma_lookup_none(s, key@);
                    assert(entries_map(s) =~= entries_map(s).remove(key@));
                }
                None
            },
            Some(i) => {
                let mut v: Vec<(String, V)> = Vec::new();
                std::mem::swap(&mut v, &mut self.entries);
                let old_entry = v.remove(i);
                proof {
                    let t = entries_view(v@);
                    assert(t =~= s.remove(i as int));
                    let c = choose|j: int| 0 <= j < s.len() && s[j].0 == key@;
                    assert(c == i);
                    assert(keys_sorted(t));
                    lemma_sorted_distinct(t);
                    lemma_map_at(s, i as int);
                    let m = entries_map(s).remove(key@);
                    assert forall|k: Seq<char>| #[trigger] m.contains_key(k) <==> lookup(t, k) is Some
                        && (m.contains_key(k) ==> lookup(t, k)->0 == m[k]) by {
                        if k == key@ {
                            assert forall|j: int| 0 <= j < t.len() implies #[trigger] t[j].0 != k by {
                                if j < i { assert(t[j] == s[j]); } else { assert(t[j] == s[j + 1]); }
                            }
                            lemma_lookup_none(t, k);
                        } else if lookup(s, k) is Some {
                            let j = lemma_lookup_witness(s, k);
                            if j < i {
                                assert(t[j] == s[j]);
                                lemma_map_at(t, j);
                            } else {
                                assert(t[j - 1] == s[j]);
                                lemma_map_at(t, j - 1);
                            }
                        } else {
                            assert forall|j: int| 0 <= j < t.len() implies #[trigger] t[j].0 != k by {
                                if j < i && t[j].0 == k {
                                    assert(t[j] == s[j]);
                                    lemma_map_at(s, j);
                                } else if j >= i && t[j].0 == k {
                                    assert(t[j] == s[j + 1]);
                                    lemma_map_at(s, j + 1);
                                }
                            }
                            lemma_lookup_none(t, k);
                        }
                    }
                    lemma_entries_map_eq(t, m);
                    assert(t =~= s.remove(i as int));
                }
                self.entries = v;
                Some(old_entry.1)
            },
        }
    }
}


/// The meaning of a JSON value: objects are finite maps, arrays sequences.
pub enum JsonTree {
    Null,
    Bool(bool),
    Number(Seq<char>),
    Text(Seq<char>),
    List(Seq<JsonTree>),
    Record(Map<Seq<char>, JsonTree>),
}

/// A JSON value. A number is kept as its decimal text.
pub enum JsonValue {
    Null,
    Bool(bool),
    Number(String),
    String(String),
    Array(Vec<JsonValue>),
    Object(KeyedMap<JsonValue>),
}

/// The trees of a sequence of values.
pub closed spec fn trees(s: Seq<JsonValue>) -> Seq<JsonTree>
    decreases s,
{
    if s.len() == 0 {
        Seq::empty()
    } else {
        trees(s.drop_last()).push(s.last().tree())
    }
}

/// The record that a sequence of object entries stands for.
closed spec fn record_of(s: Seq<(String, JsonValue)>) -> Map<Seq<char>, JsonTree>
    decreases s,
{
    if s.len() == 0 {
        Map::empty()
    } else {
        record_of(s.drop_last()).insert(s.last().0@, s.last().1.tree())
    }
}

impl JsonValue {
    /// The tree this value stands for.
    pub closed spec fn tree(self) -> JsonTree
        decreases self,
    {
        match self {
            JsonValue::Null => JsonTree::Null,
            JsonValue::Bool(b) => JsonTree::Bool(b),
            JsonValue::Number(n) => JsonTree::Number(n@),
            JsonValue::String(s) => JsonTree::Text(s@),
            JsonValue::Array(a) => JsonTree::List(trees(a@)),
            JsonValue::Object(m) => JsonTree::Record(record_of(m.entries@)),
        }
    }
}


/// The record an ordered map of values stands for.
pub open spec fn record(m: Map<Seq<char>, JsonValue>) -> Map<Seq<char>, JsonTree> {
    m.map_values(|v: JsonValue| v.tree())
}

proof fn lemma_record_of(v: Seq<(String, JsonValue)>)
    ensures
        record_of(v) == record(entries_map(entries_view(v))),
    decreases v.len(),
{
    let s = entries_view(v);
    if v.len() == 0 {
        assert(record(entries_map(s)) =~= Map::empty());
    } else {
        let w = v.drop_last();
        lemma_record_of(w);
        assert(entries_view(w) =~= s.drop_last());
        assert(s.last() == (v.last().0@, v.last().1));
        assert(record_of(v) =~= record(entries_map(s)));
    }
}

/// The tree of each kind of value.
pub broadcast proof fn lemma_tree(v: JsonValue)
    ensures
        #[trigger] v.tree() == match v {
            JsonValue::Null => JsonTree::Null,
            JsonValue::Bool(b) => JsonTree::Bool(b),
            JsonValue::Number(n) => JsonTree::Number(n@),
            JsonValue::String(s) => JsonTree::Text(s@),
            JsonValue::Array(a) => JsonTree::List(trees(a@)),
            JsonValue::Object(m) => JsonTree::Record(record(m.as_map())),
        },
{
    if let JsonValue::Object(m) = v {
        lemma_record_of(m.entries@);
    }
}

/// The trees of a sequence, element by element.
pub broadcast proof fn lemma_trees(s: Seq<JsonValue>)
    ensures
        #[trigger] trees(s).len() == s.len(),
        forall|i: int| 0 <= i < s.len() ==> #[trigger] trees(s)[i] == s[i].tree(),
    decreases s.len(),
{
    if s.len() > 0 {
        lemma_trees(s.drop_last());
        assert forall|i: int| 0 <= i < s.len() implies #[trigger] trees(s)[i] == s[i].tree() by {
            if i < s.len() - 1 {
                assert(s.drop_last()[i] == s[i]);
            }
        }
    }
}

pub broadcast group group_json_tree {
    lemma_tree,
    lemma_trees,
}


impl Clone for JsonValue {
    /// A deep copy: the same tree.
    fn clone(&self) -> (r: Self)
        ensures
            r.tree() == self.tree(),
        decreases self,
    {
        match self {
            JsonValue::Null => JsonValue::Null,
            JsonValue::Bool(b) => JsonValue::Bool(*b),
            JsonValue::Number(n) => JsonValue::Number(n.clone()),
            JsonValue::String(t) => JsonValue::String(t.clone()),
            JsonValue::Array(a) => {
                let mut out: Vec<JsonValue> = Vec::new();
                let mut i: usize = 0;
                while i < a.len()
                    invariant
                        i <= a.len(),
                        *self == JsonValue::Array(*a),
                        out@.len() == i,
                        forall|j: int| 0 <= j < i ==> #[trigger] out@[j].tree() == a@[j].tree(),
                    decreases a.len() - i,
                {
                    proof {
                        let x = *self;
                        assert(decreases_to!(x => x->Array_0));
                        assert(decreases_to!(x->Array_0 => (x->Array_0)@));
                        assert(decreases_to!((x->Array_0)@ => (x->Array_0)@[i as int]));
                        assert(decreases_to!(x => a@[i as int]));
                    }
                    out.push(a[i].clone());
                    i += 1;
                }
                proof {
                    lemma_trees(out@);
                    lemma_trees(a@);
                    assert(trees(out@) =~= trees(a@));
                }
                JsonValue::Array(out)
            },
            JsonValue::Object(m) => {
                let mut out: Vec<(String, JsonValue)> = Vec::new();
                let mut i: usize = 0;
                while i < m.entries.len()
                    invariant
                        i <= m.entries.len(),
                        *self == JsonValue::Object(*m),
                        out@.len() == i,
                        forall|j: int| 0 <= j < i ==> (#[trigger] out@[j]).0@ == m.entries@[j].0@
                            && out@[j].1.tree() == m.entries@[j].1.tree(),
                    decreases m.entries.len() - i,
                {
                    proof {
                        let x = *self;
                        let y = x->Object_0;
                        assert(decreases_to!(x => y));
                        assert(decreases_to!(y => y.entries));
                        assert(decreases_to!(y.entries => y.entries@));
                        assert(decreases_to!(y.entries@ => y.entries@[i as int]));
                        assert(decreases_to!(y.entries@[i as int] => y.entries@[i as int].1));
                        assert(decreases_to!(x => m.entries@[i as int].1));
                    }
                    let k = m.entries[i].0.clone();
                    let v = m.entries[i].1.clone();
                    out.push((k, v));
                    i += 1;
                }
                proof {
                    use_type_invariant(m);
                    assert(entries_view(out@).len() == m@.len());
                    assert forall|j: int| 0 <= j < m@.len() implies #[trigger] entries_view(out@)[j].0 == m@[j].0 by {
                        assert(out@[j].0@ == m.entries@[j].0@);
                    }
                    assert(keys_sorted(entries_view(out@)));
                    lemma_record_of_same(out@, m.entries@);
                }
                JsonValue::Object(KeyedMap { entries: out })
            },
        }
    }
}

proof fn lemma_record_of_same(a: Seq<(String, JsonValue)>, b: Seq<(String, JsonValue)>)
    requires
        a.len() == b.len(),
        forall|j: int| 0 <= j < a.len() ==> (#[trigger] a[j]).0@ == b[j].0@ && a[j].1.tree() == b[j].1.tree(),
    ensures
        record_of(a) == record_of(b),
    decreases a.len(),
{
    if a.len() > 0 {
        assert forall|j: int| 0 <= j < a.len() - 1 implies (#[trigger] a.drop_last()[j]).0@ == b.drop_last()[j].0@
            && a.drop_last()[j].1.tree() == b.drop_last()[j].1.tree() by {
            assert(a.drop_last()[j] == a[j]);
            assert(b.drop_last()[j] == b[j]);
        }
        lemma_record_of_same(a.drop_last(), b.drop_last());
        assert(a.last() == a[a.len() - 1]);
    }
}


/// A map with no entries has no key.
pub proof fn lemma_empty_map_has_no_key<V>(m: KeyedMap<V>, k: Seq<char>)
    requires
        m@.len() == 0,
    ensures
        !m.as_map().contains_key(k),
{
}

/// An optional borrowed value, as a value.
pub open spec fn opt_val(r: Option<&JsonValue>) -> Option<JsonValue> {
    match r {
        Some(x) => Some(*x),
        None => None,
    }
}

impl JsonValue {
    /// The member `key` of an object; nothing for any other value.
    pub open spec fn member(self, key: Seq<char>) -> Option<JsonValue> {
        match self {
            JsonValue::Object(m) => if m.as_map().contains_key(key) { Some(m.as_map()[key]) } else { None },
            _ => None,
        }
    }

    /// The text of a string value.
    pub open spec fn text(self) -> Option<Seq<char>> {
        match self {
            JsonValue::String(s) => Some(s@),
            _ => None,
        }
    }

    /// The truth value of a boolean value.
    pub open spec fn flag(self) -> Option<bool> {
        match self {
            JsonValue::Bool(b) => Some(b),
            _ => None,
        }
    }

    /// The entries of an object, in key order.
    pub open spec fn entries(self) -> Option<Seq<(Seq<char>, JsonValue)>> {
        match self {
            JsonValue::Object(m) => Some(m@),
            _ => None,
        }
    }

    /// The elements of an array.
    pub open spec fn items(self) -> Option<Seq<JsonValue>> {
        match self {
            JsonValue::Array(a) => Some(a@),
            _ => None,
        }
    }

    pub fn get(&self, key: &str) -> (r: Option<&JsonValue>)
        ensures
            opt_val(r) == self.member(key@),
    {
        match self {
            JsonValue::Object(m) => m.get(key),
            _ => None,
        }
    }

    pub fn as_str(&self) -> (r: Option<&str>)
        ensures
            r matches Some(t) ==> self.text() == Some(t@),
            r is None ==> self.text() is None,
    {
        match self {
            JsonValue::String(s) => Some(s.as_str()),
            _ => None,
        }
    }

    pub fn as_bool(&self) -> (r: Option<bool>)
        ensures
            r == self.flag(),
    {
        match self {
            JsonValue::Bool(b) => Some(*b),
            _ => None,
        }
    }

    pub fn as_array(&self) -> (r: Option<&Vec<JsonValue>>)
        ensures
            r matches Some(a) ==> self.items() == Some(a@),
            r is None ==> self.items() is None,
    {
        match self {
            JsonValue::Array(a) => Some(a),
            _ => None,
        }
    }

    pub fn as_object(&self) -> (r: Option<&KeyedMap<JsonValue>>)
        ensures
            r matches Some(m) ==> self.entries() == Some(m@) && *self == JsonValue::Object(*m),
            r is None ==> self.entries() is None,
    {
        match self {
            JsonValue::Object(m) => Some(m),
            _ => None,
        }
    }
}

/// Entries of a sorted sequence without its last one stand for the map
/// without the last key.
proof fn lemma_drop_last_map<V>(a: Seq<(Seq<char>, V)>)
    requires
        keys_sorted(a),
        a.len() > 0,
    ensures
        entries_map(a.drop_last()) == entries_map(a).remove(a.last().0),
        keys_sorted(a.drop_last()),
{
    lemma_sorted_distinct(a);
    let t = a.drop_last();
    let k = a.last().0;
    assert forall|i: int| 0 <= i < t.len() implies #[trigger] t[i].0 != k by {
        assert(t[i] == a[i]);
        assert(a[a.len() - 1] == a.last());
    }
    lemma_lookup_none(t, k);
    assert(entries_map(t) =~= entries_map(a).remove(k));
}

/// A key-sorted entry sequence is the only one that stands for its map.
pub proof fn lemma_sorted_entries_unique<V>(a: Seq<(Seq<char>, V)>, b: Seq<(Seq<char>, V)>)
    requires
        keys_sorted(a),
        keys_sorted(b),
        entries_map(a) == entries_map(b),
    ensures
        a == b,
    decreases a.len(),
{
    lemma_sorted_distinct(a);
    lemma_sorted_distinct(b);
    if a.len() == 0 {
        if b.len() > 0 {
            lemma_map_at(b, 0);
        }
        assert(a =~= b);
    } else if b.len() == 0 {
        lemma_map_at(a, 0);
    } else {
        let ka = a.last().0;
        let kb = b.last().0;
        let la = a.len() - 1;
        let lb = b.len() - 1;
        assert(a[la] == a.last());
        assert(b[lb] == b.last());
        lemma_map_at(a, la);
        lemma_map_at(b, lb);
        lemma_map_has_key(a, kb);
        lemma_map_has_key(b, ka);
        let j = choose|j: int| 0 <= j < b.len() && #[trigger] b[j].0 == ka;
        let i = choose|i: int| 0 <= i < a.len() && #[trigger] a[i].0 == kb;
        if ka != kb {
            if j < lb {
                assert(lex_lt(b[j].0, b[lb].0));
            }
            if i < la {
                assert(lex_lt(a[i].0, a[la].0));
            }
            lemma_lex_asymmetric(ka, kb);
        }
        lemma_drop_last_map(a);
        lemma_drop_last_map(b);
        lemma_sorted_entries_unique(a.drop_last(), b.drop_last());
        assert(a.last() == b.last());
        assert(a =~= a.drop_last().push(a.last()));
        assert(b =~= b.drop_last().push(b.last()));
    }
}

/// The entries of a record in key order: the one key-sorted entry sequence
/// that stands for it.
pub open spec fn record_entries(m: Map<Seq<char>, JsonTree>) -> Seq<(Seq<char>, JsonTree)> {
    choose|s: Seq<(Seq<char>, JsonTree)>| keys_sorted(s) && entries_map(s) == m
}

/// Entries with each value taken by its tree.
pub open spec fn tree_entries(s: Seq<(Seq<char>, JsonValue)>) -> Seq<(Seq<char>, JsonTree)> {
    s.map_values(|p: (Seq<char>, JsonValue)| (p.0, p.1.tree()))
}

proof fn lemma_lookup_trees(s: Seq<(Seq<char>, JsonValue)>, k: Seq<char>)
    ensures
        lookup(tree_entries(s), k) == (match lookup(s, k) {
            Some(v) => Some(v.tree()),
            None => None,
        }),
    decreases s.len(),
{
    if s.len() > 0 {
        assert(tree_entries(s).drop_last() =~= tree_entries(s.drop_last()));
        lemma_lookup_trees(s.drop_last(), k);
    }
}

/// The entries of an object's record are its own entries, in order.
pub proof fn lemma_record_entries(m: KeyedMap<JsonValue>)
    requires
        keys_sorted(m@),
    ensures
        record_entries(record(m.as_map())) == tree_entries(m@),
{
    let t = tree_entries(m@);
    assert(keys_sorted(t)) by {
        assert forall|i: int, j: int| 0 <= i < j < t.len() implies lex_lt(#[trigger] t[i].0, #[trigger] t[j].0) by {
            assert(t[i].0 == m@[i].0 && t[j].0 == m@[j].0);
        }
    }
    assert forall|k: Seq<char>| true implies lookup(t, k) == (match lookup(m@, k) {
        Some(v) => Some(v.tree()),
        None => None,
    }) by {
        lemma_lookup_trees(m@, k);
    }
    assert(entries_map(t) =~= record(m.as_map()));
    let s = record_entries(record(m.as_map()));
    lemma_sorted_entries_unique(s, t);
}

} // verus!
