//! First and last positions in `0..n` where a predicate holds: the meaning of
//! "the first match wins" and "a later entry overwrites an earlier one".
use vstd::prelude::*;

verus! {

pub open spec fn first_from(n: int, k: int, p: spec_fn(int) -> bool) -> Option<int>
    decreases n - k,
{
    if k >= n {
        None
    } else if p(k) {
        Some(k)
    } else {
        first_from(n, k + 1, p)
    }
}

/// The least `i` in `0..n` with `p(i)`.
pub open spec fn first_index(n: int, p: spec_fn(int) -> bool) -> Option<int> {
    first_from(n, 0, p)
}

/// The greatest `i` in `0..n` with `p(i)`.
pub open spec fn last_index(n: int, p: spec_fn(int) -> bool) -> Option<int>
    decreases n,
{
    if n <= 0 {
        None
    } else if p(n - 1) {
        Some(n - 1)
    } else {
        last_index(n - 1, p)
    }
}

proof fn lemma_first_from(n: int, k: int, p: spec_fn(int) -> bool, i: int)
    requires
        0 <= k <= i < n,
        p(i),
        forall|j: int| k <= j < i ==> !#[trigger] p(j),
    ensures
        first_from(n, k, p) == Some(i),
    decreases i - k,
{
    if k < i {
        lemma_first_from(n, k + 1, p, i);
    }
}

proof fn lemma_first_from_none(n: int, k: int, p: spec_fn(int) -> bool)
    requires
        0 <= k,
        forall|j: int| k <= j < n ==> !#[trigger] p(j),
    ensures
        first_from(n, k, p) is None,
    decreases n - k,
{
    if k < n {
        lemma_first_from_none(n, k + 1, p);
    }
}

pub proof fn lemma_first_found(n: int, p: spec_fn(int) -> bool, i: int)
    requires
        0 <= i < n,
        p(i),
        forall|j: int| 0 <= j < i ==> !#[trigger] p(j),
    ensures
        first_index(n, p) == Some(i),
{
    lemma_first_from(n, 0, p, i);
}

pub proof fn lemma_first_none(n: int, p: spec_fn(int) -> bool)
    requires
        forall|j: int| 0 <= j < n ==> !#[trigger] p(j),
    ensures
        first_index(n, p) is None,
{
    lemma_first_from_none(n, 0, p);
}

pub proof fn lemma_last_found(n: int, p: spec_fn(int) -> bool, i: int)
    requires
        0 <= i < n,
        p(i),
        forall|j: int| i < j < n ==> !#[trigger] p(j),
    ensures
        last_index(n, p) == Some(i),
    decreases n,
{
    if i < n - 1 {
        lemma_last_found(n - 1, p, i);
    }
}

pub proof fn lemma_last_none(n: int, p: spec_fn(int) -> bool)
    requires
        forall|j: int| 0 <= j < n ==> !#[trigger] p(j),
    ensures
        last_index(n, p) is None,
    decreases n,
{
    if n > 0 {
        lemma_last_none(n - 1, p);
    }
}

/// What `last_index` finds: a match with none after it, or no match at all.
pub proof fn lemma_last_index(n: int, p: spec_fn(int) -> bool)
    ensures
        last_index(n, p) matches Some(i) ==> 0 <= i < n && p(i) && forall|j: int| i < j < n ==> !#[trigger] p(j),
        last_index(n, p) is None ==> forall|j: int| 0 <= j < n ==> !#[trigger] p(j),
    decreases n,
{
    if n > 0 && !p(n - 1) {
        lemma_last_index(n - 1, p);
    }
}

} // verus!
