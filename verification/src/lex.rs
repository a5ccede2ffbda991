//! Lexicographic order on key sequences, successor relations within a
//! family of sequences, and sorted listings.
use vstd::prelude::*;

verus! {

/// `a` and `b` have equal length, agree before `k`, and `a[k] < b[k]`.
pub open spec fn lex_less_at(a: Seq<u64>, b: Seq<u64>, k: int) -> bool {
    &&& a.len() == b.len()
    &&& 0 <= k < a.len()
    &&& forall|j: int| 0 <= j < k ==> #[trigger] a[j] == b[j]
    &&& a[k] < b[k]
}

/// Strict lexicographic order on sequences of equal length.
pub open spec fn lex_less(a: Seq<u64>, b: Seq<u64>) -> bool {
    exists|k: int| lex_less_at(a, b, k)
}

/// `next` is the lexicographic successor of `cur` among the sequences
/// that satisfy `fam`: it belongs to the family, comes after `cur`, and
/// no member of the family lies strictly between them.
pub open spec fn is_successor(cur: Seq<u64>, next: Seq<u64>, fam: spec_fn(Seq<u64>) -> bool) -> bool {
    &&& fam(next)
    &&& lex_less(cur, next)
    &&& forall|w: Seq<u64>| #[trigger] fam(w) && lex_less(cur, w) ==> !lex_less(w, next)
}

/// No member of the family comes after `cur`.
pub open spec fn is_last(cur: Seq<u64>, fam: spec_fn(Seq<u64>) -> bool) -> bool {
    forall|w: Seq<u64>| #[trigger] fam(w) ==> !lex_less(cur, w)
}

/// `first` is the least member of the family.
pub open spec fn is_first(first: Seq<u64>, fam: spec_fn(Seq<u64>) -> bool) -> bool {
    &&& fam(first)
    &&& forall|w: Seq<u64>| #[trigger] fam(w) ==> !lex_less(w, first)
}

/// No sequence comes before itself.
pub proof fn lemma_lex_irreflexive(a: Seq<u64>)
    ensures
        !lex_less(a, a),
{
}

/// The lexicographic order is transitive.
pub proof fn lemma_lex_transitive(a: Seq<u64>, b: Seq<u64>, c: Seq<u64>)
    requires
        lex_less(a, b),
        lex_less(b, c),
    ensures
        lex_less(a, c),
{
    let k1 = choose|k: int| lex_less_at(a, b, k);
    let k2 = choose|k: int| lex_less_at(b, c, k);
    let k = if k1 <= k2 { k1 } else { k2 };
    assert(lex_less_at(a, c, k));
}

/// Of two sequences, at most one comes before the other.
pub proof fn lemma_lex_asymmetric(a: Seq<u64>, b: Seq<u64>)
    requires
        lex_less(a, b),
    ensures
        !lex_less(b, a),
{
    if lex_less(b, a) {
        lemma_lex_transitive(a, b, a);
    }
}

/// The first index at which two different sequences of equal length
/// disagree.
pub proof fn lemma_first_difference(a: Seq<u64>, b: Seq<u64>) -> (k: int)
    requires
        a.len() == b.len(),
        a != b,
    ensures
        0 <= k < a.len(),
        a[k] != b[k],
        forall|j: int| 0 <= j < k ==> #[trigger] a[j] == b[j],
{
    if forall|j: int| 0 <= j < a.len() ==> #[trigger] a[j] == b[j] {
        assert(a =~= b);
        0
    } else {
        let w = choose|j: int| 0 <= j < a.len() && a[j] != b[j];
        lemma_first_difference_below(a, b, w)
    }
}

/// Below a known difference there is a first one.
proof fn lemma_first_difference_below(a: Seq<u64>, b: Seq<u64>, w: int) -> (k: int)
    requires
        a.len() == b.len(),
        0 <= w < a.len(),
        a[w] != b[w],
    ensures
        0 <= k <= w,
        a[k] != b[k],
        forall|j: int| 0 <= j < k ==> #[trigger] a[j] == b[j],
    decreases w,
{
    if forall|j: int| 0 <= j < w ==> #[trigger] a[j] == b[j] {
        w
    } else {
        let v = choose|j: int| 0 <= j < w && a[j] != b[j];
        lemma_first_difference_below(a, b, v)
    }
}

/// Lexicographic order is total on sequences of equal length.
pub proof fn lemma_lex_total(a: Seq<u64>, b: Seq<u64>)
    requires
        a.len() == b.len(),
    ensures
        a == b || lex_less(a, b) || lex_less(b, a),
{
    if a != b {
        let k = lemma_first_difference(a, b);
        if a[k] < b[k] {
            assert(lex_less_at(a, b, k));
        } else {
            assert(lex_less_at(b, a, k));
        }
    }
}

/// `e` is strictly increasing under `lt`.
pub open spec fn strictly_sorted<A>(e: Seq<A>, lt: spec_fn(A, A) -> bool) -> bool {
    forall|i: int, j: int| 0 <= i < j < e.len() ==> #[trigger] lt(e[i], e[j])
}

/// `lt` is a strict total order on the members of `e`.
pub open spec fn strict_total_on<A>(e: Seq<A>, lt: spec_fn(A, A) -> bool) -> bool {
    &&& forall|x: A| e.contains(x) ==> !#[trigger] lt(x, x)
    &&& forall|x: A, y: A, z: A|
        e.contains(x) && e.contains(y) && e.contains(z) && #[trigger] lt(x, y) && #[trigger] lt(y, z)
            ==> lt(x, z)
    &&& forall|x: A, y: A| e.contains(x) && e.contains(y) && x != y ==> #[trigger] lt(x, y) || #[trigger] lt(y, x)
}

/// Two strictly sorted sequences with the same members are equal.
pub proof fn lemma_sorted_listing_unique<A>(e1: Seq<A>, e2: Seq<A>, lt: spec_fn(A, A) -> bool)
    requires
        strictly_sorted(e1, lt),
        strictly_sorted(e2, lt),
        strict_total_on(e1, lt),
        forall|x: A| e1.contains(x) <==> e2.contains(x),
    ensures
        e1 == e2,
    decreases e1.len(),
{
    if e1.len() == 0 {
        if e2.len() > 0 {
            assert(e2.contains(e2[0]));
        }
        assert(e1 =~= e2);
    } else {
        assert(e1.contains(e1[0]));
        assert(e2.len() > 0);
        assert(e2.contains(e2[0]));
        let a = e1[0];
        let b = e2[0];
        if a != b {
            // a is in e2 after b, b is in e1 after a
            let i = choose|i: int| 0 <= i < e2.len() && e2[i] == a;
            let j = choose|j: int| 0 <= j < e1.len() && e1[j] == b;
            assert(i > 0);
            assert(j > 0);
            assert(lt(e2[0], e2[i]));
            assert(lt(e1[0], e1[j]));
            assert(lt(a, a));
        }
        let t1 = e1.drop_first();
        let t2 = e2.drop_first();
        assert forall|x: A| t1.contains(x) <==> t2.contains(x) by {
            if t1.contains(x) {
                let i = choose|i: int| 0 <= i < t1.len() && t1[i] == x;
                assert(e1[i + 1] == x);
                assert(lt(e1[0], e1[i + 1]));
                assert(e1.contains(x));
                let j = choose|j: int| 0 <= j < e2.len() && e2[j] == x;
                if j == 0 {
                    assert(lt(a, a));
                }
                assert(t2[j - 1] == x);
            }
            if t2.contains(x) {
                let i = choose|i: int| 0 <= i < t2.len() && t2[i] == x;
                assert(e2[i + 1] == x);
                assert(lt(e2[0], e2[i + 1]));
                assert(e2.contains(x));
                let j = choose|j: int| 0 <= j < e1.len() && e1[j] == x;
                if j == 0 {
                    assert(lt(b, b));
                }
                assert(t1[j - 1] == x);
            }
        }
        assert forall|i: int, j: int| 0 <= i < j < t1.len() implies #[trigger] lt(t1[i], t1[j]) by {
            assert(lt(e1[i + 1], e1[j + 1]));
        }
        assert forall|i: int, j: int| 0 <= i < j < t2.len() implies #[trigger] lt(t2[i], t2[j]) by {
            assert(lt(e2[i + 1], e2[j + 1]));
        }
        assert forall|x: A| t1.contains(x) implies e1.contains(x) by {
            let i = choose|i: int| 0 <= i < t1.len() && t1[i] == x;
            assert(e1[i + 1] == x);
        }
        lemma_sorted_listing_unique(t1, t2, lt);
        assert(e1 =~= e2) by {
            assert forall|i: int| 0 <= i < e1.len() implies e1[i] == e2[i] by {
                if i > 0 {
                    assert(t1[i - 1] == t2[i - 1]);
                }
            }
        }
    }
}


/// One more than the largest `u64`: the radix in which a key sequence
/// is read as a number.
pub open spec fn radix() -> nat {
    0x1_0000_0000_0000_0000nat
}

/// `radix()` to the power `n`.
pub open spec fn radix_pow(n: nat) -> nat
    decreases n,
{
    if n == 0 {
        1
    } else {
        radix_pow((n - 1) as nat) * radix()
    }
}

/// The key sequence read as a number in base `radix()`, most
/// significant entry first.
pub open spec fn seq_value(s: Seq<u64>) -> nat
    decreases s.len(),
{
    if s.len() == 0 {
        0
    } else {
        seq_value(s.drop_last()) * radix() + (s.last() as nat)
    }
}

/// A sequence of length `n` reads as a number below `radix_pow(n)`.
pub proof fn lemma_seq_value_bound(s: Seq<u64>)
    ensures
        seq_value(s) < radix_pow(s.len()),
    decreases s.len(),
{
    if s.len() > 0 {
        lemma_seq_value_bound(s.drop_last());
        let x = seq_value(s.drop_last());
        let p = radix_pow((s.len() - 1) as nat);
        let l = s.last() as nat;
        assert(x * radix() + l < p * radix()) by (nonlinear_arith)
            requires
                x < p,
                l < radix(),
        ;
    }
}

/// Lexicographic order agrees with the order of the numbers read.
pub proof fn lemma_seq_value_monotone(a: Seq<u64>, b: Seq<u64>)
    requires
        lex_less(a, b),
    ensures
        seq_value(a) < seq_value(b),
    decreases a.len(),
{
    let k = choose|k: int| lex_less_at(a, b, k);
    let n = a.len() as int;
    let a1 = a.drop_last();
    let b1 = b.drop_last();
    if k == n - 1 {
        assert(a1 =~= b1) by {
            assert forall|j: int| 0 <= j < a1.len() implies a1[j] == b1[j] by {
                assert(a[j] == b[j]);
            }
        }
    } else {
        assert(lex_less_at(a1, b1, k));
        lemma_seq_value_monotone(a1, b1);
        let x = seq_value(a1);
        let y = seq_value(b1);
        let la = a.last() as nat;
        let lb = b.last() as nat;
        assert(x * radix() + la < y * radix() + lb) by (nonlinear_arith)
            requires
                x < y,
                la < radix(),
        ;
    }
}

} // verus!
