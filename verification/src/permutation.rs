//! Stepping through the distinct rearrangements of a sequence in
//! lexicographic order (the classic next-permutation algorithm).
use vstd::multiset::Multiset;
use vstd::prelude::*;
use vstd::seq_lib::{lemma_multiset_commutative, to_multiset_contains, to_multiset_remove, to_multiset_update};
use crate::lex::{is_first, is_last, is_successor, lemma_lex_asymmetric, lex_less, lex_less_at};

verus! {

broadcast use vstd::multiset::group_multiset_axioms;

/// Every entry is at least as large as every later entry.
pub open spec fn non_increasing(s: Seq<u64>) -> bool {
    forall|a: int, b: int| 0 <= a < b < s.len() ==> #[trigger] s[a] >= #[trigger] s[b]
}

/// Every entry is at most as large as every later entry.
pub open spec fn non_decreasing(s: Seq<u64>) -> bool {
    forall|a: int, b: int| 0 <= a < b < s.len() ==> #[trigger] s[a] <= #[trigger] s[b]
}

/// The family of rearrangements of the multiset `m`.
pub open spec fn perm_family(m: Multiset<u64>) -> spec_fn(Seq<u64>) -> bool {
    |w: Seq<u64>| w.to_multiset() == m
}

/// Every entry of a rearrangement of `s` is an entry of `s`.
proof fn lemma_contains_of_perm(s: Seq<u64>, w: Seq<u64>, k: int) -> (t: int)
    requires
        w.to_multiset() == s.to_multiset(),
        0 <= k < w.len(),
    ensures
        0 <= t < s.len(),
        s[t] == w[k],
{
    assert(w.contains(w[k]));
    to_multiset_contains(w, w[k]);
    to_multiset_contains(s, w[k]);
    choose|t: int| 0 <= t < s.len() && s[t] == w[k]
}

/// Rearrangements with the same first entry stay rearrangements
/// without it.
proof fn lemma_drop_first_perm(s: Seq<u64>, w: Seq<u64>)
    requires
        w.to_multiset() == s.to_multiset(),
        s.len() > 0,
        w.len() > 0,
        s[0] == w[0],
    ensures
        w.drop_first().to_multiset() == s.drop_first().to_multiset(),
{
    to_multiset_remove(s, 0);
    to_multiset_remove(w, 0);
    assert(s.remove(0) =~= s.drop_first());
    assert(w.remove(0) =~= w.drop_first());
}

/// A non-increasing sequence comes last among its rearrangements.
pub proof fn lemma_non_increasing_is_last(s: Seq<u64>, w: Seq<u64>)
    requires
        non_increasing(s),
        w.to_multiset() == s.to_multiset(),
    ensures
        !lex_less(s, w),
    decreases s.len(),
{
    if lex_less(s, w) {
        let p = choose|p: int| lex_less_at(s, w, p);
        let t = lemma_contains_of_perm(s, w, 0);
        if p == 0 {
            if t > 0 {
                assert(s[0] >= s[t]);
            }
        } else {
            assert(w[0] == s[0]);
            lemma_drop_first_perm(s, w);
            let s1 = s.drop_first();
            let w1 = w.drop_first();
            assert(lex_less_at(s1, w1, p - 1));
            assert forall|a: int, b: int| 0 <= a < b < s1.len() implies #[trigger] s1[a] >= #[trigger] s1[b] by {
                assert(s[a + 1] >= s[b + 1]);
            }
            lemma_non_increasing_is_last(s1, w1);
        }
    }
}

/// A non-decreasing sequence comes first among its rearrangements.
pub proof fn lemma_non_decreasing_is_first(s: Seq<u64>, w: Seq<u64>)
    requires
        non_decreasing(s),
        w.to_multiset() == s.to_multiset(),
    ensures
        !lex_less(w, s),
    decreases s.len(),
{
    if lex_less(w, s) {
        let p = choose|p: int| lex_less_at(w, s, p);
        let t = lemma_contains_of_perm(s, w, 0);
        if p == 0 {
            if t > 0 {
                assert(s[0] <= s[t]);
            }
        } else {
            assert(w[0] == s[0]);
            lemma_drop_first_perm(s, w);
            let s1 = s.drop_first();
            let w1 = w.drop_first();
            assert(lex_less_at(w1, s1, p - 1));
            assert forall|a: int, b: int| 0 <= a < b < s1.len() implies #[trigger] s1[a] <= #[trigger] s1[b] by {
                assert(s[a + 1] <= s[b + 1]);
            }
            lemma_non_decreasing_is_first(s1, w1);
        }
    }
}

/// A sorted sequence is the first of its rearrangements.
pub proof fn lemma_sorted_is_first(s: Seq<u64>)
    requires
        non_decreasing(s),
    ensures
        is_first(s, perm_family(s.to_multiset())),
{
    assert forall|w: Seq<u64>| #[trigger] perm_family(s.to_multiset())(w) implies !lex_less(w, s) by {
        lemma_non_decreasing_is_first(s, w);
    }
}

/// Sequences with equal multisets and equal prefixes have suffixes with
/// equal multisets.
proof fn lemma_suffix_perm(v: Seq<u64>, w: Seq<u64>, i: int)
    requires
        v.len() == w.len(),
        0 <= i <= v.len(),
        v.to_multiset() == w.to_multiset(),
        forall|t: int| 0 <= t < i ==> #[trigger] v[t] == w[t],
    ensures
        v.subrange(i, v.len() as int).to_multiset() == w.subrange(i, w.len() as int).to_multiset(),
{
    let n = v.len() as int;
    let vp = v.subrange(0, i);
    let vs = v.subrange(i, n);
    let wp = w.subrange(0, i);
    let ws = w.subrange(i, n);
    assert(vp =~= wp);
    assert(vp + vs =~= v);
    assert(wp + ws =~= w);
    lemma_multiset_commutative(vp, vs);
    lemma_multiset_commutative(wp, ws);
    assert forall|x: u64| vs.to_multiset().count(x) == ws.to_multiset().count(x) by {
        assert(vp.to_multiset().add(vs.to_multiset()).count(x) == wp.to_multiset().add(ws.to_multiset()).count(x));
    }
    assert(vs.to_multiset() =~= ws.to_multiset());
}

/// Exchanging two entries keeps the multiset.
pub proof fn lemma_swap_perm(s: Seq<u64>, a: int, b: int)
    requires
        0 <= a < s.len(),
        0 <= b < s.len(),
    ensures
        s.update(a, s[b]).update(b, s[a]).to_multiset() == s.to_multiset(),
{
    broadcast use vstd::multiset::group_multiset_properties;

    let s1 = s.update(a, s[b]);
    to_multiset_update(s, a, s[b]);
    to_multiset_update(s1, b, s[a]);
    assert(s.contains(s[a]));
    to_multiset_contains(s, s[a]);
    assert(s1.contains(s1[b]));
    to_multiset_contains(s1, s1[b]);
    if a == b {
        assert(s.update(a, s[b]).update(b, s[a]) =~= s);
    } else {
        assert(s1[b] == s[b]);
        assert(s1.update(b, s[a]).to_multiset() =~= s.to_multiset());
    }
}

/// Reversing a suffix keeps the multiset.
proof fn lemma_reverse_suffix_perm(s: Seq<u64>, i: int)
    requires
        0 <= i <= s.len(),
    ensures
        (s.subrange(0, i) + s.subrange(i, s.len() as int).reverse()).to_multiset() == s.to_multiset(),
{
    let p = s.subrange(0, i);
    let q = s.subrange(i, s.len() as int);
    assert(p + q =~= s);
    lemma_multiset_commutative(p, q);
    lemma_multiset_commutative(p, q.reverse());
    q.lemma_reverse_to_multiset();
}

/// The sequence built by next-permutation from pivot `i - 1` and swap
/// partner `j` is the successor of `v` among its rearrangements.
proof fn lemma_next_permutation_step(v: Seq<u64>, r: Seq<u64>, i: int, j: int)
    requires
        1 <= i < v.len(),
        v[i - 1] < v[i],
        forall|a: int, b: int| i <= a < b < v.len() ==> #[trigger] v[a] >= #[trigger] v[b],
        i <= j < v.len(),
        v[j] > v[i - 1],
        forall|t: int| j < t < v.len() ==> #[trigger] v[t] <= v[i - 1],
        r.len() == v.len(),
        forall|t: int| 0 <= t < i - 1 ==> #[trigger] r[t] == v[t],
        r[i - 1] == v[j],
        forall|a: int, b: int| i <= a < b < r.len() ==> #[trigger] r[a] <= #[trigger] r[b],
        r.to_multiset() == v.to_multiset(),
    ensures
        is_successor(v, r, perm_family(v.to_multiset())),
{
    let n = v.len() as int;
    let fam = perm_family(v.to_multiset());
    assert(lex_less_at(v, r, i - 1));
    assert forall|w: Seq<u64>| #[trigger] fam(w) && lex_less(v, w) implies !lex_less(w, r) by {
        let p = choose|p: int| lex_less_at(v, w, p);
        if p < i - 1 {
            assert(lex_less_at(r, w, p));
            lemma_lex_asymmetric(r, w);
        } else if p >= i {
            // the suffix of v from i is the largest arrangement of its values
            lemma_suffix_perm(v, w, i);
            let vs = v.subrange(i, n);
            let ws = w.subrange(i, n);
            assert(lex_less_at(vs, ws, p - i));
            assert forall|a: int, b: int| 0 <= a < b < vs.len() implies #[trigger] vs[a] >= #[trigger] vs[b] by {
                assert(v[a + i] >= v[b + i]);
            }
            lemma_non_increasing_is_last(vs, ws);
        } else {
            if lex_less(w, r) {
                let q = choose|q: int| lex_less_at(w, r, q);
                if q == i - 1 {
                    // w[i - 1] is one of v[i - 1..], larger than v[i - 1], hence at least v[j]
                    lemma_suffix_perm(v, w, i - 1);
                    let vs = v.subrange(i - 1, n);
                    let ws = w.subrange(i - 1, n);
                    let t = lemma_contains_of_perm(vs, ws, 0);
                    assert(vs[t] == v[t + i - 1]);
                    assert(t != 0);
                    if t + i - 1 > j {
                        assert(v[t + i - 1] <= v[i - 1]);
                    } else if t + i - 1 < j {
                        assert(v[t + i - 1] >= v[j]);
                    }
                } else if q >= i {
                    assert forall|t: int| 0 <= t < i implies #[trigger] r[t] == w[t] by {}
                    lemma_suffix_perm(r, w, i);
                    let rs = r.subrange(i, n);
                    let ws = w.subrange(i, n);
                    assert(lex_less_at(ws, rs, q - i));
                    assert forall|a: int, b: int| 0 <= a < b < rs.len() implies #[trigger] rs[a] <= #[trigger] rs[b] by {
                        assert(r[a + i] <= r[b + i]);
                    }
                    lemma_non_decreasing_is_first(rs, ws);
                }
            }
        }
    }
}

/// Exchanges two entries of `v`.
fn swap_entries(v: &mut Vec<u64>, a: usize, b: usize)
    requires
        a < old(v)@.len(),
        b < old(v)@.len(),
    ensures
        final(v)@ == old(v)@.update(a as int, old(v)@[b as int]).update(b as int, old(v)@[a as int]),
        final(v)@.to_multiset() == old(v)@.to_multiset(),
{
    proof {
        lemma_swap_perm(v@, a as int, b as int);
    }
    let x = v[a];
    let y = v[b];
    v.set(a, y);
    v.set(b, x);
}

/// Reverses `v[from..]` in place.
fn reverse_from(v: &mut Vec<u64>, from: usize)
    requires
        from <= old(v)@.len(),
    ensures
        final(v)@ == old(v)@.subrange(0, from as int) + old(v)@.subrange(from as int, old(v)@.len() as int).reverse(),
        final(v)@.to_multiset() == old(v)@.to_multiset(),
{
    let ghost u = v@;
    let ghost n = v@.len() as int;
    proof {
        lemma_reverse_suffix_perm(u, from as int);
    }
    if v.len() == 0 {
        proof {
            assert(u.subrange(0, from as int) + u.subrange(from as int, n).reverse() =~= u);
        }
        return;
    }
    let mut lo: usize = from;
    let mut hi: usize = v.len() - 1;
    while lo < hi
        invariant
            u == old(v)@,
            n == u.len(),
            v@.len() == n,
            from <= lo,
            lo <= n,
            hi < n,
            lo + hi == from + n - 1,
            forall|t: int| 0 <= t < from ==> #[trigger] v@[t] == u[t],
            forall|t: int| from <= t < lo ==> #[trigger] v@[t] == u[from + n - 1 - t],
            forall|t: int| hi < t < n ==> #[trigger] v@[t] == u[from + n - 1 - t],
            forall|t: int| lo <= t <= hi ==> #[trigger] v@[t] == u[t],
        decreases n - lo,
    {
        let x = v[lo];
        let y = v[hi];
        v.set(lo, y);
        v.set(hi, x);
        lo = lo + 1;
        hi = hi - 1;
    }
    proof {
        let target = u.subrange(0, from as int) + u.subrange(from as int, n).reverse();
        assert forall|t: int| 0 <= t < n implies #[trigger] v@[t] == target[t] by {
            if t >= from {
                assert(target[t] == u.subrange(from as int, n).reverse()[t - from]);
            }
        }
        assert(v@ =~= target);
    }
}

/// Advances `v` to the next of its distinct rearrangements in
/// lexicographic order. Returns `false`, leaving `v` unchanged, when
/// `v` was the last one.
pub fn next_permutation(v: &mut Vec<u64>) -> (advanced: bool)
    ensures
        final(v)@.to_multiset() == old(v)@.to_multiset(),
        advanced ==> is_successor(old(v)@, final(v)@, perm_family(old(v)@.to_multiset())),
        !advanced ==> final(v)@ == old(v)@ && is_last(old(v)@, perm_family(old(v)@.to_multiset())),
{
    let ghost u = v@;
    let n = v.len();
    if n < 2 {
        proof {
            assert forall|w: Seq<u64>| #[trigger] perm_family(u.to_multiset())(w) implies !lex_less(u, w) by {
                lemma_non_increasing_is_last(u, w);
            }
        }
        return false;
    }
    // Find the largest i such that v[i - 1] < v[i].
    let mut i: usize = n - 1;
    while i > 0 && v[i - 1] >= v[i]
        invariant
            u == v@,
            n == u.len(),
            n >= 2,
            i < n,
            forall|a: int, b: int| i <= a < b < n ==> #[trigger] u[a] >= #[trigger] u[b],
        decreases i,
    {
        proof {
            assert forall|a: int, b: int| i - 1 <= a < b < n implies #[trigger] u[a] >= #[trigger] u[b] by {
                if a == i - 1 && b > i {
                    assert(u[i as int] >= u[b]);
                }
            }
        }
        i = i - 1;
    }
    if i == 0 {
        proof {
            assert forall|w: Seq<u64>| #[trigger] perm_family(u.to_multiset())(w) implies !lex_less(u, w) by {
                lemma_non_increasing_is_last(u, w);
            }
        }
        return false;
    }
    // Find the largest j >= i such that v[j] > v[i - 1].
    let mut j: usize = n - 1;
    while v[j] <= v[i - 1]
        invariant
            u == v@,
            n == u.len(),
            1 <= i < n,
            u[i - 1] < u[i as int],
            i <= j < n,
            forall|t: int| j < t < n ==> #[trigger] u[t] <= u[i - 1],
        decreases j,
    {
        j = j - 1;
    }
    swap_entries(v, i - 1, j);
    let ghost swapped = v@;
    reverse_from(v, i);
    proof {
        let r = v@;
        assert forall|a: int, b: int| i <= a < b < n implies #[trigger] swapped[a] >= #[trigger] swapped[b] by {
            if a == j {
                assert(u[b] <= u[i - 1]);
            } else if b == j {
                assert(u[a] >= u[j as int]);
            }
        }
        assert forall|a: int, b: int| i <= a < b < n implies #[trigger] r[a] <= #[trigger] r[b] by {
            let tail = swapped.subrange(i as int, n as int);
            assert(r[a] == tail.reverse()[a - i]);
            assert(r[b] == tail.reverse()[b - i]);
            assert(swapped[(n - 1 - (a - i)) + 0] == tail[n - i - 1 - (a - i)]);
        }
        lemma_next_permutation_step(u, r, i as int, j as int);
    }
    true
}

} // verus!
