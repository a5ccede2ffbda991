//! Stepping through every length-`n` sequence over `0..k` in
//! lexicographic order, like an odometer.
use vstd::prelude::*;
use crate::lex::{is_first, is_last, is_successor, lemma_lex_asymmetric, lex_less, lex_less_at};

verus! {

/// `w` has length `n` and every entry below `k`.
pub open spec fn in_box(w: Seq<u64>, n: nat, k: u64) -> bool {
    &&& w.len() == n
    &&& forall|j: int| 0 <= j < w.len() ==> #[trigger] w[j] < k
}

/// The family of all length-`n` sequences over `0..k`.
pub open spec fn box_family(n: nat, k: u64) -> spec_fn(Seq<u64>) -> bool {
    |w: Seq<u64>| in_box(w, n, k)
}

/// The all-zero sequence is the least member of a non-empty box.
pub proof fn lemma_zeros_first(n: nat, k: u64)
    requires
        k > 0,
    ensures
        is_first(Seq::new(n, |j: int| 0u64), box_family(n, k)),
{
    let z = Seq::new(n, |j: int| 0u64);
    assert forall|w: Seq<u64>| #[trigger] box_family(n, k)(w) implies !lex_less(w, z) by {
        if lex_less(w, z) {
            let q = choose|q: int| lex_less_at(w, z, q);
            assert(w[q] < z[q]);
        }
    }
}

/// Raising digit `i` by one and zeroing the maxed-out digits after it
/// gives the next sequence of the box.
proof fn lemma_odometer_step(d: Seq<u64>, r: Seq<u64>, i: int, k: u64)
    requires
        in_box(d, d.len(), k),
        0 <= i < d.len(),
        d[i] + 1 < k,
        forall|j: int| i < j < d.len() ==> #[trigger] d[j] == k - 1,
        r.len() == d.len(),
        forall|j: int| 0 <= j < i ==> #[trigger] r[j] == d[j],
        r[i] == d[i] + 1,
        forall|j: int| i < j < r.len() ==> #[trigger] r[j] == 0,
    ensures
        is_successor(d, r, box_family(d.len(), k)),
{
    let fam = box_family(d.len(), k);
    assert(lex_less_at(d, r, i));
    assert forall|w: Seq<u64>| #[trigger] fam(w) && lex_less(d, w) implies !lex_less(w, r) by {
        let p = choose|p: int| lex_less_at(d, w, p);
        if p > i {
            assert(d[p] == k - 1);
            assert(w[p] < k);
        }
        if p < i {
            assert(lex_less_at(r, w, p));
            lemma_lex_asymmetric(r, w);
        }
        if lex_less(w, r) {
            let q = choose|q: int| lex_less_at(w, r, q);
            if q < i {
                assert(w[q] == d[q]);
            } else if q > i {
                assert(r[q] == 0);
            }
        }
    }
}

/// The sequence of all largest digits is the last of the box.
proof fn lemma_odometer_last(d: Seq<u64>, k: u64)
    requires
        in_box(d, d.len(), k),
        forall|j: int| 0 <= j < d.len() ==> #[trigger] d[j] == k - 1,
    ensures
        is_last(d, box_family(d.len(), k)),
{
    assert forall|w: Seq<u64>| #[trigger] box_family(d.len(), k)(w) implies !lex_less(d, w) by {
        if lex_less(d, w) {
            let p = choose|p: int| lex_less_at(d, w, p);
            assert(w[p] < k);
        }
    }
}

/// Advances `v` to the next sequence over `0..k` of the same length,
/// in lexicographic order. Returns `false`, leaving `v` unchanged, when
/// `v` was the last one.
pub fn next_cartesian(v: &mut Vec<u64>, k: u64) -> (advanced: bool)
    requires
        in_box(old(v)@, old(v)@.len(), k),
    ensures
        final(v)@.len() == old(v)@.len(),
        advanced ==> is_successor(old(v)@, final(v)@, box_family(old(v)@.len(), k)),
        !advanced ==> final(v)@ == old(v)@ && is_last(old(v)@, box_family(old(v)@.len(), k)),
{
    let ghost d = v@;
    if k == 0 {
        proof {
            assert forall|w: Seq<u64>| #[trigger] box_family(d.len(), k)(w) implies !lex_less(d, w) by {
                if lex_less(d, w) {
                    let p = choose|p: int| lex_less_at(d, w, p);
                    assert(w[p] < k);
                }
            }
        }
        return false;
    }
    let last = k - 1;
    let mut i: usize = v.len();
    while i > 0
        invariant
            d == old(v)@,
            v@ == d,
            in_box(d, d.len(), k),
            last == k - 1,
            i <= d.len(),
            forall|j: int| i <= j < d.len() ==> #[trigger] d[j] == last,
        decreases i,
    {
        i = i - 1;
        if v[i] != last {
            v.set(i, v[i] + 1);
            let mut j: usize = i + 1;
            while j < v.len()
                invariant
                    d == old(v)@,
                    in_box(d, d.len(), k),
                    forall|t: int| i < t < d.len() ==> #[trigger] d[t] == k - 1,
                    d[i as int] + 1 < k,
                    v@.len() == d.len(),
                    i < j <= d.len(),
                    forall|t: int| 0 <= t < i ==> #[trigger] v@[t] == d[t],
                    v@[i as int] == d[i as int] + 1,
                    forall|t: int| i < t < j ==> #[trigger] v@[t] == 0,
                decreases d.len() - j,
            {
                v.set(j, 0);
                j = j + 1;
            }
            proof {
                lemma_odometer_step(d, v@, i as int, k);
            }
            return true;
        }
    }
    proof {
        lemma_odometer_last(d, k);
    }
    false
}

} // verus!
