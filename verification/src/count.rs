//! Counting the indices below a bound at which a predicate holds.
use vstd::prelude::*;

verus! {

/// Number of indices `i` with `0 <= i < n` at which `pred` holds.
pub open spec fn count_where(n: int, pred: spec_fn(int) -> bool) -> nat
    decreases n,
{
    if n <= 0 {
        0
    } else {
        count_where(n - 1, pred) + if pred(n - 1) {
            1nat
        } else {
            0nat
        }
    }
}

/// The count never exceeds the number of indices and never decreases.
pub proof fn lemma_count_where_monotone(pred: spec_fn(int) -> bool, i: int, j: int)
    requires
        0 <= i <= j,
    ensures
        count_where(i, pred) <= count_where(j, pred),
        count_where(j, pred) - count_where(i, pred) <= j - i,
    decreases j - i,
{
    if i < j {
        lemma_count_where_monotone(pred, i, j - 1);
    }
}

/// Between two indices that both satisfy `pred`, the count strictly grows.
pub proof fn lemma_count_where_strict(pred: spec_fn(int) -> bool, i: int, j: int)
    requires
        0 <= i < j,
        pred(i),
    ensures
        count_where(i, pred) < count_where(j, pred),
{
    lemma_count_where_monotone(pred, i + 1, j);
}

/// At most one satisfying index has a given number of satisfying
/// indices before it.
pub proof fn lemma_count_where_unique(pred: spec_fn(int) -> bool, i: int, j: int)
    requires
        0 <= i,
        0 <= j,
        pred(i),
        pred(j),
        count_where(i, pred) == count_where(j, pred),
    ensures
        i == j,
{
    if i < j {
        lemma_count_where_strict(pred, i, j);
    } else if j < i {
        lemma_count_where_strict(pred, j, i);
    }
}

/// Predicates that agree below `n` count the same below `n`.
pub proof fn lemma_count_where_ext(p: spec_fn(int) -> bool, q: spec_fn(int) -> bool, n: int)
    requires
        forall|i: int| 0 <= i < n ==> #[trigger] p(i) == q(i),
    ensures
        count_where(n, p) == count_where(n, q),
    decreases n,
{
    if n > 0 {
        lemma_count_where_ext(p, q, n - 1);
    }
}

/// If the count grows past `k` somewhere below `n`, some satisfying
/// index has exactly `k` satisfying indices before it.
pub proof fn lemma_count_where_witness(pred: spec_fn(int) -> bool, n: int, k: nat) -> (i: int)
    requires
        k < count_where(n, pred),
    ensures
        0 <= i < n,
        pred(i),
        count_where(i, pred) == k,
    decreases n,
{
    if count_where(n - 1, pred) > k {
        lemma_count_where_witness(pred, n - 1, k)
    } else {
        n - 1
    }
}

/// A predicate that holds everywhere below `n` counts `n`; one that
/// holds nowhere counts zero.
pub proof fn lemma_count_where_all_none(pred: spec_fn(int) -> bool, n: int)
    requires
        n >= 0,
    ensures
        (forall|i: int| 0 <= i < n ==> #[trigger] pred(i)) ==> count_where(n, pred) == n,
        (forall|i: int| 0 <= i < n ==> !#[trigger] pred(i)) ==> count_where(n, pred) == 0,
    decreases n,
{
    if n > 0 {
        lemma_count_where_all_none(pred, n - 1);
    }
}

/// Splitting a predicate by a second one splits its count.
pub proof fn lemma_count_where_split(p: spec_fn(int) -> bool, q: spec_fn(int) -> bool, n: int)
    ensures
        count_where(n, p) == count_where(n, |i: int| p(i) && q(i)) + count_where(n, |i: int| p(i) && !q(i)),
    decreases n,
{
    if n > 0 {
        lemma_count_where_split(p, q, n - 1);
    }
}

/// Two predicates that differ only at `i`, where the first holds and the
/// second does not, count one apart past `i`.
pub proof fn lemma_count_where_drop_one(p: spec_fn(int) -> bool, q: spec_fn(int) -> bool, n: int, i: int)
    requires
        0 <= i < n,
        p(i),
        !q(i),
        forall|j: int| 0 <= j < n && j != i ==> #[trigger] p(j) == q(j),
    ensures
        count_where(n, q) + 1 == count_where(n, p),
    decreases n,
{
    if n - 1 > i {
        lemma_count_where_drop_one(p, q, n - 1, i);
    } else {
        lemma_count_where_ext(p, q, n - 1);
    }
}

/// A predicate and its negation together count every index below `n`.
pub proof fn lemma_count_where_complement(p: spec_fn(int) -> bool, n: int)
    requires
        n >= 0,
    ensures
        count_where(n, p) + count_where(n, |i: int| !p(i)) == n,
{
    let t = |i: int| true;
    lemma_count_where_split(t, p, n);
    lemma_count_where_ext(|i: int| t(i) && p(i), p, n);
    lemma_count_where_ext(|i: int| t(i) && !p(i), |i: int| !p(i), n);
    lemma_count_where_all_none(t, n);
}

/// A predicate that implies another below `n` counts no more there.
pub proof fn lemma_count_where_subset(p: spec_fn(int) -> bool, q: spec_fn(int) -> bool, n: int)
    requires
        forall|i: int| 0 <= i < n && #[trigger] p(i) ==> q(i),
    ensures
        count_where(n, p) <= count_where(n, q),
    decreases n,
{
    if n > 0 {
        lemma_count_where_subset(p, q, n - 1);
    }
}

} // verus!
