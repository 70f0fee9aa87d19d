//! Character-level helpers on strings: equality, the byte-wise (code point)
//! order that `String`'s `Ord` uses, ASCII case folding, splitting and
//! joining. Every string is modelled by its sequence of `char`s.
use vstd::prelude::*;

verus! {

/// Length of the longest common prefix of `a` and `b`.
pub open spec fn common_prefix_len(a: Seq<char>, b: Seq<char>) -> nat
    decreases a.len(),
{
    if a.len() == 0 || b.len() == 0 || a[0] != b[0] {
        0
    } else {
        1 + common_prefix_len(a.drop_first(), b.drop_first())
    }
}

/// `a` sorts strictly before `b` in the order of `String`'s `Ord`
/// (lexicographic by code point, a proper prefix first).
pub open spec fn lex_lt(a: Seq<char>, b: Seq<char>) -> bool {
    let k = common_prefix_len(a, b);
    ||| (k == a.len() && k < b.len())
    ||| (k < a.len() && k < b.len() && (a[k as int] as int) < (b[k as int] as int))
}

pub proof fn lemma_common_prefix(a: Seq<char>, b: Seq<char>)
    ensures
        common_prefix_len(a, b) <= a.len(),
        common_prefix_len(a, b) <= b.len(),
        forall|j: int| 0 <= j < common_prefix_len(a, b) ==> a[j] == b[j],
        common_prefix_len(a, b) < a.len() && common_prefix_len(a, b) < b.len()
            ==> a[common_prefix_len(a, b) as int] != b[common_prefix_len(a, b) as int],
        common_prefix_len(a, b) == common_prefix_len(b, a),
    decreases a.len(),
{
    if a.len() == 0 || b.len() == 0 || a[0] != b[0] {
    } else {
        lemma_common_prefix(a.drop_first(), b.drop_first());
        assert forall|j: int| 0 <= j < common_prefix_len(a, b) implies a[j] == b[j] by {
            if j > 0 {
                assert(a[j] == a.drop_first()[j - 1]);
                assert(b[j] == b.drop_first()[j - 1]);
            }
        }
    }
}

/// The common prefix length is pinned down by where the two sequences first differ.
pub proof fn lemma_common_prefix_exact(a: Seq<char>, b: Seq<char>, m: nat)
    requires
        m <= a.len(),
        m <= b.len(),
        forall|j: int| 0 <= j < m ==> a[j] == b[j],
        m == a.len() || m == b.len() || a[m as int] != b[m as int],
    ensures
        common_prefix_len(a, b) == m,
    decreases m,
{
    if m == 0 {
    } else {
        assert(a[0] == b[0]);
        assert forall|j: int| 0 <= j < m - 1 implies a.drop_first()[j] == b.drop_first()[j] by {
            assert(a[j + 1] == b[j + 1]);
        }
        lemma_common_prefix_exact(a.drop_first(), b.drop_first(), (m - 1) as nat);
    }
}

pub proof fn lemma_lex_irreflexive(a: Seq<char>)
    ensures
        !lex_lt(a, a),
{
    lemma_common_prefix(a, a);
    lemma_common_prefix_exact(a, a, a.len());
}

pub proof fn lemma_lex_asymmetric(a: Seq<char>, b: Seq<char>)
    requires
        lex_lt(a, b),
    ensures
        !lex_lt(b, a),
        a != b,
{
    lemma_common_prefix(a, b);
    lemma_lex_irreflexive(a);
}

pub proof fn lemma_lex_total(a: Seq<char>, b: Seq<char>)
    requires
        a != b,
    ensures
        lex_lt(a, b) || lex_lt(b, a),
{
    lemma_common_prefix(a, b);
    let k = common_prefix_len(a, b);
    if k == a.len() && k == b.len() {
        assert(a =~= b);
    } else if k < a.len() && k < b.len() {
        assert(a[k as int] != b[k as int]);
        assert((a[k as int] as int) != (b[k as int] as int));
    }
}

pub proof fn lemma_lex_transitive(a: Seq<char>, b: Seq<char>, c: Seq<char>)
    requires
        lex_lt(a, b),
        lex_lt(b, c),
    ensures
        lex_lt(a, c),
{
    lemma_common_prefix(a, b);
    lemma_common_prefix(b, c);
    lemma_common_prefix(a, c);
    let kab = common_prefix_len(a, b);
    let kbc = common_prefix_len(b, c);
    if kab < kbc {
        // a and c agree below kab and differ exactly at kab
        if kab == a.len() {
            lemma_common_prefix_exact(a, c, kab);
        } else {
            assert(a[kab as int] != c[kab as int]);
            lemma_common_prefix_exact(a, c, kab);
        }
    } else if kbc < kab {
        assert(a[kbc as int] == b[kbc as int]);
        lemma_common_prefix_exact(a, c, kbc);
    } else {
        // kab == kbc == k: a[k] < b[k] < c[k] or a ends at k
        lemma_common_prefix_exact(a, c, kab);
    }
}

/// Appends one character (std's `String::push`).
#[verifier::external_body]
pub(crate) fn push_char(s: &mut String, c: char)
    ensures
        final(s)@ == old(s)@.push(c),
{
    s.push(c);
}

/// The characters of `s`, in order.
pub fn chars_of(s: &str) -> (res: Vec<char>)
    ensures
        res@ == s@,
{
    let mut res: Vec<char> = Vec::new();
    for c in it: s.chars()
        invariant
            res@ == it.seq().take(it.index() as int),
    {
        res.push(c);
    }
    res
}

/// The string made of the characters `cs[from..to]`.
pub fn string_of(cs: &Vec<char>, from: usize, to: usize) -> (res: String)
    requires
        from <= to <= cs.len(),
    ensures
        res@ == cs@.subrange(from as int, to as int),
{
    let mut res = String::new();
    let mut i = from;
    while i < to
        invariant
            from <= i <= to <= cs.len(),
            res@ == cs@.subrange(from as int, i as int),
        decreases to - i,
    {
        push_char(&mut res, cs[i]);
        i += 1;
        assert(res@ =~= cs@.subrange(from as int, i as int));
    }
    res
}

/// A fresh copy of `s`.
pub fn owned(s: &str) -> (res: String)
    ensures
        res@ == s@,
{
    let cs = chars_of(s);
    string_of(&cs, 0, cs.len())
}

/// Whether `a[..]` equals `b[..]` as character sequences.
pub fn chars_equal(a: &Vec<char>, b: &Vec<char>) -> (res: bool)
    ensures
        res == (a@ == b@),
{
    if a.len() != b.len() {
        return false;
    }
    let mut i: usize = 0;
    while i < a.len()
        invariant
            a.len() == b.len(),
            i <= a.len(),
            forall|j: int| 0 <= j < i ==> a@[j] == b@[j],
        decreases a.len() - i,
    {
        if a[i] != b[i] {
            return false;
        }
        i += 1;
    }
    assert(a@ =~= b@);
    true
}

/// String equality.
pub fn str_eq(a: &str, b: &str) -> (res: bool)
    ensures
        res == (a@ == b@),
{
    let ca = chars_of(a);
    let cb = chars_of(b);
    chars_equal(&ca, &cb)
}

/// Whether `a` sorts strictly before `b` (the order of `String`'s `Ord`).
pub fn chars_less(a: &Vec<char>, b: &Vec<char>) -> (res: bool)
    ensures
        res == lex_lt(a@, b@),
{
    let mut i: usize = 0;
    while i < a.len() && i < b.len() && a[i] == b[i]
        invariant
            i <= a.len(),
            i <= b.len(),
            forall|j: int| 0 <= j < i ==> a@[j] == b@[j],
        decreases a.len() - i,
    {
        i += 1;
    }
    proof {
        lemma_common_prefix_exact(a@, b@, i as nat);
    }
    if i == a.len() {
        i < b.len()
    } else if i == b.len() {
        false
    } else {
        a[i] < b[i]
    }
}

/// Whether `a` sorts strictly before `b` (the order of `String`'s `Ord`).
pub fn str_less(a: &str, b: &str) -> (res: bool)
    ensures
        res == lex_lt(a@, b@),
{
    let ca = chars_of(a);
    let cb = chars_of(b);
    chars_less(&ca, &cb)
}


/// ASCII lower-casing of one character (`char::to_ascii_lowercase`).
pub open spec fn lower_char(c: char) -> char {
    if 'A' <= c <= 'Z' {
        ((c as u32) + 32) as char
    } else {
        c
    }
}

/// ASCII lower-casing of a string (`str::to_ascii_lowercase`).
pub open spec fn lower(s: Seq<char>) -> Seq<char> {
    s.map_values(|c: char| lower_char(c))
}

pub fn lower_char_exec(c: char) -> (r: char)
    ensures
        r == lower_char(c),
{
    if 'A' <= c && c <= 'Z' {
        let b: u8 = (c as u8) + 32;
        b as char
    } else {
        c
    }
}

/// `str::to_ascii_lowercase`, as characters.
pub fn lower_chars(s: &str) -> (r: Vec<char>)
    ensures
        r@ == lower(s@),
{
    let cs = chars_of(s);
    let mut out: Vec<char> = Vec::new();
    let mut i: usize = 0;
    while i < cs.len()
        invariant
            i <= cs.len(),
            cs@ == s@,
            out@ == lower(s@).take(i as int),
        decreases cs.len() - i,
    {
        out.push(lower_char_exec(cs[i]));
        i += 1;
        assert(out@ =~= lower(s@).take(i as int));
    }
    assert(lower(s@).take(cs.len() as int) =~= lower(s@));
    out
}

/// Appends the characters of `t` to `s`.
pub fn append_str(s: &mut String, t: &str)
    ensures
        final(s)@ == old(s)@ + t@,
{
    let cs = chars_of(t);
    let mut i: usize = 0;
    while i < cs.len()
        invariant
            i <= cs.len(),
            cs@ == t@,
            s@ == old(s)@ + t@.take(i as int),
        decreases cs.len() - i,
    {
        push_char(s, cs[i]);
        i += 1;
        assert(s@ =~= old(s)@ + t@.take(i as int));
    }
    assert(t@.take(cs.len() as int) =~= t@);
}

/// `a` followed by `b`.
pub fn concat(a: &str, b: &str) -> (r: String)
    ensures
        r@ == a@ + b@,
{
    let mut r = owned(a);
    append_str(&mut r, b);
    r
}


/// The views of a sequence of strings.
pub open spec fn views(v: Seq<String>) -> Seq<Seq<char>> {
    v.map_values(|x: String| x@)
}

/// `p` is a prefix of `s`.
pub open spec fn is_prefix(p: Seq<char>, s: Seq<char>) -> bool {
    p.len() <= s.len() && s.take(p.len() as int) == p
}

/// `p` is a suffix of `s`.
pub open spec fn is_suffix(p: Seq<char>, s: Seq<char>) -> bool {
    p.len() <= s.len() && s.skip(s.len() - p.len()) == p
}

/// The pieces of `s` between occurrences of `c` (`str::split` with a char):
/// always at least one piece, empty pieces kept.
pub open spec fn split(s: Seq<char>, c: char) -> Seq<Seq<char>>
    decreases s.len(),
{
    if s.len() == 0 {
        seq![Seq::empty()]
    } else {
        let prev = split(s.drop_last(), c);
        if s.last() == c {
            prev.push(Seq::empty())
        } else {
            prev.update(prev.len() - 1, prev.last().push(s.last()))
        }
    }
}

/// The pieces joined with `c` between them (`[..].join`).
pub open spec fn join(parts: Seq<Seq<char>>, c: char) -> Seq<char>
    decreases parts.len(),
{
    if parts.len() == 0 {
        Seq::empty()
    } else if parts.len() == 1 {
        parts[0]
    } else {
        join(parts.drop_last(), c).push(c) + parts.last()
    }
}

pub proof fn lemma_split_nonempty(s: Seq<char>, c: char)
    ensures
        split(s, c).len() >= 1,
    decreases s.len(),
{
    if s.len() > 0 {
        lemma_split_nonempty(s.drop_last(), c);
    }
}

/// Joining the pieces of a split gives the string back.
pub proof fn lemma_join_split(s: Seq<char>, c: char)
    ensures
        join(split(s, c), c) == s,
    decreases s.len(),
{
    if s.len() > 0 {
        let t = s.drop_last();
        lemma_join_split(t, c);
        lemma_split_nonempty(t, c);
        let prev = split(t, c);
        if s.last() == c {
            assert(prev.push(Seq::empty()).drop_last() =~= prev);
            assert(s =~= t.push(c) + Seq::empty());
        } else {
            let q = prev.update(prev.len() - 1, prev.last().push(s.last()));
            if prev.len() == 1 {
                assert(s =~= prev[0].push(s.last()));
            } else {
                assert(q.drop_last() =~= prev.drop_last());
                assert(q.last() == prev.last().push(s.last()));
                let a = join(prev.drop_last(), c).push(c);
                assert(t == a + prev.last());
                assert(s =~= (a + prev.last()).push(s.last()));
                assert((a + prev.last()).push(s.last()) =~= a + prev.last().push(s.last()));
                assert(join(q, c) == join(q.drop_last(), c).push(c) + q.last());
            }
        }
    }
}

/// How many times `c` occurs in `s`.
pub open spec fn count_char(s: Seq<char>, c: char) -> nat
    decreases s.len(),
{
    if s.len() == 0 {
        0
    } else {
        count_char(s.drop_last(), c) + if s.last() == c { 1nat } else { 0nat }
    }
}

/// A split has one piece more than the separators it splits at.
pub proof fn lemma_split_count(s: Seq<char>, c: char)
    ensures
        split(s, c).len() == count_char(s, c) + 1,
    decreases s.len(),
{
    if s.len() > 0 {
        lemma_split_count(s.drop_last(), c);
        lemma_split_nonempty(s.drop_last(), c);
    }
}

/// No piece of a split holds the separator.
pub proof fn lemma_split_pieces(s: Seq<char>, c: char)
    ensures
        forall|i: int| 0 <= i < split(s, c).len() ==> !(#[trigger] split(s, c)[i]).contains(c),
    decreases s.len(),
{
    if s.len() > 0 {
        let t = s.drop_last();
        lemma_split_pieces(t, c);
        lemma_split_nonempty(t, c);
        let prev = split(t, c);
        if s.last() == c {
            assert forall|i: int| 0 <= i < split(s, c).len() implies !(#[trigger] split(s, c)[i]).contains(c) by {
                if i < prev.len() {
                    assert(split(s, c)[i] == prev[i]);
                } else {
                    assert(split(s, c)[i] =~= Seq::<char>::empty());
                }
            }
        } else {
            assert forall|i: int| 0 <= i < split(s, c).len() implies !(#[trigger] split(s, c)[i]).contains(c) by {
                if i < prev.len() - 1 {
                    assert(split(s, c)[i] == prev[i]);
                } else {
                    let p = prev.last();
                    assert(!p.contains(c));
                    assert(split(s, c)[i] == p.push(s.last()));
                    if p.push(s.last()).contains(c) {
                        let k = choose|k: int| 0 <= k < p.push(s.last()).len() && p.push(s.last())[k] == c;
                        if k < p.len() {
                            assert(p[k] == c);
                        }
                    }
                }
            }
        }
    }
}

/// A string without the separator is one piece.
proof fn lemma_split_single(s: Seq<char>, c: char)
    requires
        !s.contains(c),
    ensures
        split(s, c) == seq![s],
    decreases s.len(),
{
    if s.len() > 0 {
        let t = s.drop_last();
        assert(!t.contains(c)) by {
            if t.contains(c) {
                let k = choose|k: int| 0 <= k < t.len() && t[k] == c;
                assert(s[k] == c);
            }
        }
        lemma_split_single(t, c);
        assert(s[s.len() - 1] != c);
        assert(t.push(s.last()) =~= s);
        assert(seq![t].update(0, t.push(s.last())) =~= seq![s]);
    } else {
        assert(s =~= Seq::<char>::empty());
    }
}

/// Splitting at a separator between two strings splits each of them.
proof fn lemma_split_concat(a: Seq<char>, b: Seq<char>, c: char)
    ensures
        split(a.push(c) + b, c) == split(a, c) + split(b, c),
    decreases b.len(),
{
    lemma_split_nonempty(b, c);
    if b.len() == 0 {
        assert(a.push(c) + b =~= a.push(c));
        assert(a.push(c).drop_last() =~= a);
        assert(split(a, c).push(Seq::empty()) =~= split(a, c) + seq![Seq::<char>::empty()]);
    } else {
        let bd = b.drop_last();
        lemma_split_concat(a, bd, c);
        lemma_split_nonempty(bd, c);
        let s = a.push(c) + b;
        assert(s.drop_last() =~= a.push(c) + bd);
        assert(s.last() == b.last());
        let l = split(a, c);
        let r = split(bd, c);
        if b.last() == c {
            assert((l + r).push(Seq::empty()) =~= l + r.push(Seq::empty()));
        } else {
            let lr = l + r;
            assert(lr.last() == r.last());
            assert(lr.update(lr.len() - 1, lr.last().push(b.last())) =~= l + r.update(r.len() - 1, r.last().push(b.last())));
        }
    }
}

/// Splitting pieces joined with a separator none of them holds gives the
/// pieces back.
pub proof fn lemma_split_join(parts: Seq<Seq<char>>, c: char)
    requires
        parts.len() >= 1,
        forall|i: int| 0 <= i < parts.len() ==> !(#[trigger] parts[i]).contains(c),
    ensures
        split(join(parts, c), c) == parts,
    decreases parts.len(),
{
    if parts.len() == 1 {
        lemma_split_single(parts[0], c);
        assert(seq![parts[0]] =~= parts);
    } else {
        let pd = parts.drop_last();
        assert forall|i: int| 0 <= i < pd.len() implies !(#[trigger] pd[i]).contains(c) by {
            assert(pd[i] == parts[i]);
        }
        lemma_split_join(pd, c);
        assert(!parts[parts.len() - 1].contains(c));
        lemma_split_single(parts.last(), c);
        lemma_split_concat(join(pd, c), parts.last(), c);
        assert(pd + seq![parts.last()] =~= parts);
    }
}

/// Splits `s` at every `c` (`str::split`).
pub fn split_at_char(s: &str, c: char) -> (parts: Vec<String>)
    ensures
        views(parts@) == split(s@, c),
{
    let cs = chars_of(s);
    let mut parts: Vec<String> = Vec::new();
    let mut start: usize = 0;
    let mut i: usize = 0;
    assert(cs@.take(0) =~= Seq::<char>::empty());
    assert(views(parts@).push(cs@.subrange(0, 0)) =~= seq![Seq::<char>::empty()]);
    while i < cs.len()
        invariant
            start <= i <= cs.len(),
            cs@ == s@,
            views(parts@).push(cs@.subrange(start as int, i as int)) == split(cs@.take(i as int), c),
        decreases cs.len() - i,
    {
        proof {
            assert(cs@.take(i + 1).drop_last() =~= cs@.take(i as int));
            assert(cs@.take(i + 1).last() == cs@[i as int]);
        }
        let ghost old_parts = parts@;
        let ghost old_start = start;
        if cs[i] == c {
            let piece = string_of(&cs, start, i);
            parts.push(piece);
            assert(views(parts@) =~= views(old_parts).push(cs@.subrange(old_start as int, i as int)));
            i += 1;
            start = i;
            proof {
                let pre = cs@.take(i - 1);
                assert(cs@.take(i as int).drop_last() =~= pre);
                assert(cs@.take(i as int).last() == c);
                assert(split(cs@.take(i as int), c) == split(pre, c).push(Seq::empty()));
                assert(split(pre, c) == views(old_parts).push(cs@.subrange(old_start as int, i - 1)));
                assert(cs@.subrange(start as int, i as int) =~= Seq::<char>::empty());
                assert(views(parts@).push(cs@.subrange(start as int, i as int)) =~= split(cs@.take(i as int), c));
            }
        } else {
            i += 1;
            proof {
                let prev = split(cs@.take(i - 1), c);
                assert(cs@.subrange(start as int, i as int) =~= cs@.subrange(start as int, i - 1).push(cs@[i - 1]));
                assert(views(parts@).push(cs@.subrange(start as int, i as int)) =~= prev.update(prev.len() - 1, prev.last().push(cs@[i - 1])));
            }
        }
    }
    let last = string_of(&cs, start, cs.len());
    parts.push(last);
    proof {
        assert(cs@.take(cs.len() as int) =~= cs@);
        assert(views(parts@) =~= split(s@, c));
    }
    parts
}

/// The pieces joined with `c` (`[..].join`).
pub fn join_with(parts: &Vec<String>, c: char) -> (r: String)
    ensures
        r@ == join(views(parts@), c),
{
    let mut r = String::new();
    let mut i: usize = 0;
    while i < parts.len()
        invariant
            i <= parts.len(),
            r@ == join(views(parts@).take(i as int), c),
        decreases parts.len() - i,
    {
        proof {
            assert(views(parts@).take(i + 1).drop_last() =~= views(parts@).take(i as int));
        }
        if i > 0 {
            push_char(&mut r, c);
        }
        append_str(&mut r, parts[i].as_str());
        i += 1;
        proof {
            if i == 1 {
                assert(r@ =~= join(views(parts@).take(i as int), c));
            } else {
                assert(r@ =~= join(views(parts@).take(i as int), c));
            }
        }
    }
    assert(views(parts@).take(parts.len() as int) =~= views(parts@));
    r
}

/// Whether `p` is a prefix of `s` (`str::starts_with`).
pub fn starts_with(s: &str, p: &str) -> (b: bool)
    ensures
        b == is_prefix(p@, s@),
{
    let cs = chars_of(s);
    let cp = chars_of(p);
    if cp.len() > cs.len() {
        return false;
    }
    let mut i: usize = 0;
    while i < cp.len()
        invariant
            i <= cp.len() <= cs.len(),
            cs@ == s@,
            cp@ == p@,
            forall|j: int| 0 <= j < i ==> cs@[j] == cp@[j],
        decreases cp.len() - i,
    {
        if cs[i] != cp[i] {
            assert(s@.take(p@.len() as int)[i as int] != p@[i as int]);
            return false;
        }
        i += 1;
    }
    assert(s@.take(p@.len() as int) =~= p@);
    true
}


/// Whether `p` is a suffix of `s` (`str::ends_with`).
pub fn ends_with(s: &str, p: &str) -> (b: bool)
    ensures
        b == is_suffix(p@, s@),
{
    let cs = chars_of(s);
    let cp = chars_of(p);
    if cp.len() > cs.len() {
        return false;
    }
    let off = cs.len() - cp.len();
    let mut i: usize = 0;
    while i < cp.len()
        invariant
            i <= cp.len() <= cs.len(),
            off == cs.len() - cp.len(),
            cs@ == s@,
            cp@ == p@,
            forall|j: int| 0 <= j < i ==> cs@[off + j] == cp@[j],
        decreases cp.len() - i,
    {
        if cs[off + i] != cp[i] {
            assert(s@.skip(s@.len() - p@.len())[i as int] != p@[i as int]);
            return false;
        }
        i += 1;
    }
    assert(s@.skip(s@.len() - p@.len()) =~= p@);
    true
}

/// `s` without the prefix `p`, if it starts with it.
pub open spec fn strip_prefix(p: Seq<char>, s: Seq<char>) -> Option<Seq<char>> {
    if is_prefix(p, s) {
        Some(s.skip(p.len() as int))
    } else {
        None
    }
}

/// `str::strip_prefix`, owned.
pub fn strip_prefix_owned(s: &str, p: &str) -> (r: Option<String>)
    ensures
        match r {
            Some(t) => strip_prefix(p@, s@) == Some(t@),
            None => strip_prefix(p@, s@) is None,
        },
{
    if starts_with(s, p) {
        let cs = chars_of(s);
        let n = chars_of(p).len();
        let t = string_of(&cs, n, cs.len());
        assert(t@ =~= s@.skip(p@.len() as int));
        Some(t)
    } else {
        None
    }
}

/// In non-decreasing order.
pub open spec fn lex_sorted(s: Seq<Seq<char>>) -> bool {
    forall|i: int, j: int| 0 <= i < j < s.len() ==> !lex_lt(#[trigger] s[j], #[trigger] s[i])
}

/// Sorts strings in the order of `String`'s `Ord` (`slice::sort`).
pub fn sort_strings(v: Vec<String>) -> (r: Vec<String>)
    ensures
        lex_sorted(views(r@)),
        views(r@).to_multiset() == views(v@).to_multiset(),
{
    broadcast use vstd::seq_lib::group_to_multiset_ensures, vstd::multiset::group_multiset_axioms;
    let mut rest = v;
    let mut out: Vec<String> = Vec::new();
    assert(views(out@).to_multiset() =~= vstd::multiset::Multiset::empty()) by {
        assert(views(out@) =~= Seq::<Seq<char>>::empty());
    }
    while rest.len() > 0
        invariant
            lex_sorted(views(out@)),
            views(out@).to_multiset().add(views(rest@).to_multiset()) == views(v@).to_multiset(),
        decreases rest.len(),
    {
        let ghost r0 = rest@;
        let x = rest.pop().unwrap();
        assert(views(r0) =~= views(rest@).push(x@));
        let mut p: usize = 0;
        while p < out.len() && !str_less(x.as_str(), out[p].as_str())
            invariant
                p <= out.len(),
                forall|j: int| 0 <= j < p ==> !lex_lt(x@, #[trigger] views(out@)[j]),
            decreases out.len() - p,
        {
            p += 1;
        }
        let ghost o0 = out@;
        out.insert(p, x);
        proof {
            assert(views(out@) =~= views(o0).insert(p as int, x@));
            let w = views(out@);
            let w0 = views(o0);
            assert forall|i: int, j: int| 0 <= i < j < w.len() implies !lex_lt(#[trigger] w[j], #[trigger] w[i]) by {
                if j == p {
                    assert(w[i] == w0[i]);
                } else if i == p {
                    assert(w[j] == w0[j - 1]);
                    assert(lex_lt(x@, w0[p as int]));
                    if lex_lt(w0[j - 1], x@) {
                        lemma_lex_transitive(w0[j - 1], x@, w0[p as int]);
                        if j - 1 > p {
                            assert(!lex_lt(w0[j - 1], w0[p as int]));
                        }
                        lemma_lex_irreflexive(w0[p as int]);
                    }
                } else if i > p {
                    assert(w[i] == w0[i - 1] && w[j] == w0[j - 1]);
                } else if j > p {
                    assert(w[i] == w0[i] && w[j] == w0[j - 1]);
                } else {
                    assert(w[i] == w0[i] && w[j] == w0[j]);
                }
            }
            vstd::seq_lib::to_multiset_insert(views(o0), p as int, x@);
            vstd::seq_lib::to_multiset_build(views(rest@), x@);
            assert(views(out@).to_multiset() == views(o0).to_multiset().insert(x@));
            assert(views(r0).to_multiset() == views(rest@).to_multiset().insert(x@));
            assert(views(out@).to_multiset().add(views(rest@).to_multiset()) =~= views(v@).to_multiset());
        }
    }
    assert(views(rest@) =~= Seq::<Seq<char>>::empty());
    assert(views(rest@).to_multiset() =~= vstd::multiset::Multiset::empty());
    assert(views(out@).to_multiset() =~= views(out@).to_multiset().add(views(rest@).to_multiset()));
    out
}

} // verus!
