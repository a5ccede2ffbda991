//! [`Problem`]: the constraint-satisfaction specification and its
//! count / index / enumerate / sample entry points.
use vstd::multiset::Multiset;
use vstd::prelude::*;
use crate::constraint::{count_of, formulas_upto, kind_pred, lemma_all_any, lemma_formulas_upto, Constraint, CountOp, Formula, SquareColor};
use crate::lex::{
    lemma_lex_irreflexive, lemma_lex_total, lemma_lex_transitive, lemma_sorted_listing_unique, lex_less,
    strict_total_on, strictly_sorted,
};
use crate::count::count_where;
use crate::odometer::in_box;
use crate::solver::{copy_vec, ProblemIter};
use crate::rng::{draw_below, fastrand_draw, fastrand_next_state};
use crate::{ColorKind, PieceKind};

verus! {

broadcast use vstd::multiset::group_multiset_axioms;

/// Reasons a [`Problem`] can fail [`validate`](Problem::validate).
#[derive(Clone, Copy, Debug, PartialEq, Eq, Hash)]
#[non_exhaustive]
pub enum ValidationError {
    /// `square_colors` is non-empty but its length is not `num_squares`.
    ColorLengthMismatch {
        /// `num_squares`.
        expected: usize,
        /// `square_colors.len()`.
        actual: usize,
    },
    /// A constraint references a piece kind that is not in `pieces`.
    UnknownPiece,
    /// A `CountOnColor` constraint references a colour that does not
    /// appear in `square_colors`.
    UnknownColor,
    /// An `At` / `NotAt` constraint references a square index
    /// `>= num_squares`.
    SquareOutOfRange {
        /// The offending square index.
        square: usize,
        /// `num_squares`.
        num_squares: usize,
    },
    /// An `Order` or `Relative` constraint references a piece instance
    /// at or beyond the count declared for that piece by a top-level
    /// `Count { op: Eq, .. }`.
    InstanceOutOfRange {
        /// The offending instance index.
        instance: usize,
        /// The declared count of that piece.
        declared: usize,
    },
}

/// A constraint-satisfaction problem: a board of `num_squares` squares
/// with optional per-square colours, an alphabet of piece kinds, and a
/// constraint to satisfy.
///
/// `square_colors` is either empty (no colouring declared; colour-keyed
/// constraints see no matches) or one colour per square; any other length
/// leaves the problem without solutions. So does an empty alphabet or a
/// board of no squares.
#[derive(Clone, Debug)]
pub struct Problem<P: PieceKind, C: ColorKind = SquareColor> {
    /// Number of squares.
    pub num_squares: usize,
    /// Colour of each square; empty when no colouring is declared.
    pub square_colors: Vec<C>,
    /// Alphabet of available piece kinds; duplicates are ignored.
    pub pieces: Vec<P>,
    /// Root constraint.
    pub constraint: Constraint<P, C>,
}

/// Some entry of `s` has code `c`.
pub open spec fn has_code<P: PieceKind>(s: Seq<P>, c: u64) -> bool {
    exists|i: int| 0 <= i < s.len() && (#[trigger] s[i]).code() == c
}

/// `s` without the entries whose code already appeared earlier.
pub open spec fn dedup_by_code<P: PieceKind>(s: Seq<P>) -> Seq<P>
    decreases s.len(),
{
    if s.len() == 0 {
        s
    } else {
        let d = dedup_by_code(s.drop_last());
        if has_code(d, s.last().code()) {
            d
        } else {
            d.push(s.last())
        }
    }
}

/// No two entries of `s` share a code.
pub open spec fn distinct_codes<P: PieceKind>(s: Seq<P>) -> bool {
    forall|i: int, j: int| 0 <= i < s.len() && 0 <= j < s.len() && i != j ==> (#[trigger] s[i]).code() != (#[trigger] s[j]).code()
}

/// The codes of the entries of `s`.
pub open spec fn codes<P: PieceKind>(s: Seq<P>) -> Seq<u64> {
    s.map_values(|p: P| p.code())
}

/// The first count declared for code `c` in `counts`.
pub open spec fn first_count<P: PieceKind>(counts: Seq<(P, usize)>, c: u64) -> Option<usize>
    decreases counts.len(),
{
    if counts.len() == 0 {
        None
    } else if counts[0].0.code() == c {
        Some(counts[0].1)
    } else {
        first_count(counts.drop_first(), c)
    }
}

/// The first declared count for code `c`, zero when there is none.
pub open spec fn count_or_zero<P: PieceKind>(counts: Seq<(P, usize)>, c: u64) -> nat {
    match first_count(counts, c) {
        Some(n) => n as nat,
        None => 0,
    }
}

/// Total of the declared counts of the first `k` alphabet kinds.
pub open spec fn declared_sum<P: PieceKind>(alpha: Seq<P>, counts: Seq<(P, usize)>, k: int) -> nat
    decreases k,
{
    if k <= 0 {
        0
    } else {
        declared_sum(alpha, counts, k - 1) + count_or_zero(counts, alpha[k - 1].code())
    }
}

/// `n` copies of `x`.
pub open spec fn repeat_ms(x: u64, n: nat) -> Multiset<u64>
    decreases n,
{
    if n == 0 {
        Multiset::empty()
    } else {
        repeat_ms(x, (n - 1) as nat).insert(x)
    }
}

/// The multiset holding the code of each of the first `k` alphabet
/// kinds as often as its declared count.
pub open spec fn declared_multiset<P: PieceKind>(alpha: Seq<P>, counts: Seq<(P, usize)>, k: int) -> Multiset<u64>
    decreases k,
{
    if k <= 0 {
        Multiset::empty()
    } else {
        declared_multiset(alpha, counts, k - 1).add(repeat_ms(alpha[k - 1].code(), count_or_zero(counts, alpha[k - 1].code())))
    }
}

/// The `Count { op: Eq, .. }` declarations among the first `k` formulas
/// of `fs`, in order.
pub open spec fn eq_counts_upto<P: PieceKind, C: ColorKind>(fs: Seq<Formula<P, C>>, k: int) -> Seq<(P, usize)>
    decreases fs, k,
{
    if k <= 0 || k > fs.len() {
        Seq::empty()
    } else {
        eq_counts_upto(fs, k - 1) + fs[k - 1].eq_counts()
    }
}

impl<P: PieceKind, C: ColorKind> Formula<P, C> {
    /// The `(piece, n)` pairs of the `Count { piece, op: Eq, value: n }`
    /// formulas that must hold whenever this one holds because they
    /// sit at the root or inside nested `And`s, in pre-order.
    pub open spec fn eq_counts(self) -> Seq<(P, usize)>
        decreases self, 0int,
    {
        match self {
            Formula::Count { piece, op: CountOp::Eq, value } => seq![(piece, value)],
            Formula::And(fs) => eq_counts_upto(fs, fs.len() as int),
            _ => Seq::empty(),
        }
    }
}


/// Properties of `dedup_by_code`: codes become distinct, the codes
/// present are unchanged, every entry kept is an entry of `s`, and the
/// result is no longer than `s`.
pub proof fn lemma_dedup_by_code<P: PieceKind>(s: Seq<P>)
    ensures
        distinct_codes(dedup_by_code(s)),
        forall|c: u64| has_code(dedup_by_code(s), c) <==> has_code(s, c),
        forall|i: int| 0 <= i < dedup_by_code(s).len() ==> s.contains(#[trigger] dedup_by_code(s)[i]),
        dedup_by_code(s).len() <= s.len(),
    decreases s.len(),
{
    if s.len() > 0 {
        let t = s.drop_last();
        lemma_dedup_by_code(t);
        let d = dedup_by_code(t);
        assert forall|c: u64| has_code(dedup_by_code(s), c) <==> has_code(s, c) by {
            if has_code(s, c) {
                let i = choose|i: int| 0 <= i < s.len() && (#[trigger] s[i]).code() == c;
                if i < s.len() - 1 {
                    assert(t[i] == s[i]);
                    assert(has_code(t, c));
                    let j = choose|j: int| 0 <= j < d.len() && (#[trigger] d[j]).code() == c;
                    if !has_code(d, s.last().code()) {
                        assert(d.push(s.last())[j] == d[j]);
                    }
                } else if !has_code(d, s.last().code()) {
                    assert(d.push(s.last())[d.len() as int] == s.last());
                }
            }
            if has_code(dedup_by_code(s), c) {
                let e = dedup_by_code(s);
                let i = choose|i: int| 0 <= i < e.len() && (#[trigger] e[i]).code() == c;
                if i < d.len() {
                    assert(e[i] == d[i]);
                    assert(has_code(d, c));
                    let j = choose|j: int| 0 <= j < t.len() && (#[trigger] t[j]).code() == c;
                    assert(s[j] == t[j]);
                } else {
                    assert(s[s.len() - 1].code() == c);
                }
            }
        }
        assert forall|i: int| 0 <= i < dedup_by_code(s).len() implies s.contains(#[trigger] dedup_by_code(s)[i]) by {
            let e = dedup_by_code(s);
            if i < d.len() {
                assert(e[i] == d[i]);
                assert(t.contains(d[i]));
                let j = choose|j: int| 0 <= j < t.len() && t[j] == d[i];
                assert(s[j] == t[j]);
            } else {
                assert(s[s.len() - 1] == e[i]);
            }
        }
    }
}

/// The declared total only grows as more kinds are added.
pub proof fn lemma_declared_sum_monotone<P: PieceKind>(alpha: Seq<P>, counts: Seq<(P, usize)>, j: int, k: int)
    requires
        0 <= j <= k,
    ensures
        declared_sum(alpha, counts, j) <= declared_sum(alpha, counts, k),
    decreases k - j,
{
    if j < k {
        lemma_declared_sum_monotone(alpha, counts, j, k - 1);
    }
}

/// Counting `x` in `n` copies of `y`.
pub proof fn lemma_repeat_ms(x: u64, y: u64, n: nat)
    ensures
        repeat_ms(y, n).count(x) == if x == y { n } else { 0 },
        repeat_ms(y, n).len() == n,
    decreases n,
{
    if n > 0 {
        lemma_repeat_ms(x, y, (n - 1) as nat);
    }
}

/// The declared multiset holds only codes of alphabet kinds, and holds
/// as many codes as the declared total.
pub proof fn lemma_declared_multiset<P: PieceKind>(alpha: Seq<P>, counts: Seq<(P, usize)>, k: int)
    requires
        0 <= k <= alpha.len(),
    ensures
        forall|x: u64| #[trigger] declared_multiset(alpha, counts, k).count(x) > 0 ==> exists|i: int| 0 <= i < k && (#[trigger] alpha[i]).code() == x,
        declared_multiset(alpha, counts, k).len() == declared_sum(alpha, counts, k),
    decreases k,
{
    if k > 0 {
        lemma_declared_multiset(alpha, counts, k - 1);
        let y = alpha[k - 1].code();
        let n = count_or_zero(counts, y);
        assert forall|x: u64| #[trigger] declared_multiset(alpha, counts, k).count(x) > 0 implies exists|i: int| 0 <= i < k && (#[trigger] alpha[i]).code() == x by {
            lemma_repeat_ms(x, y, n);
            if declared_multiset(alpha, counts, k - 1).count(x) > 0 {
                let i = choose|i: int| 0 <= i < k - 1 && (#[trigger] alpha[i]).code() == x;
                assert(alpha[i].code() == x);
            } else {
                assert(alpha[k - 1].code() == x);
            }
        }
        lemma_repeat_ms(y, y, n);
    }
}

/// The first count for `c` in `a + b` is the first in `a`, or failing
/// that the first in `b`.
pub proof fn lemma_first_count_append<P: PieceKind>(a: Seq<(P, usize)>, b: Seq<(P, usize)>, c: u64)
    ensures
        first_count(a + b, c) == match first_count(a, c) {
            Some(n) => Some(n),
            None => first_count(b, c),
        },
    decreases a.len(),
{
    if a.len() > 0 {
        assert((a + b).drop_first() =~= a.drop_first() + b);
        lemma_first_count_append(a.drop_first(), b, c);
    } else {
        assert(a + b =~= b);
    }
}

/// Declared totals and multisets depend only on the first counts of the
/// alphabet kinds.
pub proof fn lemma_declared_agree<P: PieceKind>(alpha: Seq<P>, c1: Seq<(P, usize)>, c2: Seq<(P, usize)>, k: int)
    requires
        forall|i: int| 0 <= i < k ==> first_count(c1, (#[trigger] alpha[i]).code()) == first_count(c2, alpha[i].code()),
    ensures
        declared_sum(alpha, c1, k) == declared_sum(alpha, c2, k),
        declared_multiset(alpha, c1, k) == declared_multiset(alpha, c2, k),
    decreases k,
{
    if k > 0 {
        lemma_declared_agree(alpha, c1, c2, k - 1);
    }
}

/// The `Count { Eq }` declarations of the first `k` formulas do not change
/// when a formula is appended.
pub proof fn lemma_eq_counts_push<P: PieceKind, C: ColorKind>(fs: Seq<Formula<P, C>>, c: Formula<P, C>, k: int)
    requires
        0 <= k <= fs.len(),
    ensures
        eq_counts_upto(fs.push(c), k) == eq_counts_upto(fs, k),
    decreases k,
{
    if k > 0 {
        lemma_eq_counts_push(fs, c, k - 1);
        assert(fs.push(c)[k - 1] == fs[k - 1]);
    }
}

/// The entries of `w` equal to `x`.
pub open spec fn occurs(w: Seq<u64>, x: u64) -> spec_fn(int) -> bool {
    |i: int| w[i] == x
}

/// How often `x` occurs in a sequence, as a multiset and as a count.
pub proof fn lemma_multiset_count(w: Seq<u64>, x: u64)
    ensures
        w.to_multiset().count(x) == count_where(w.len() as int, occurs(w, x)),
    decreases w.len(),
{
    broadcast use vstd::seq_lib::group_to_multiset_ensures;

    if w.len() > 0 {
        let t = w.drop_last();
        lemma_multiset_count(t, x);
        assert(t.push(w.last()) =~= w);
        crate::count::lemma_count_where_ext(occurs(t, x), occurs(w, x), t.len() as int);
    }
}

/// Where `first_count` finds a count, some declaration gives it.
pub proof fn lemma_first_count_found<P: PieceKind>(counts: Seq<(P, usize)>, c: u64)
    ensures
        match first_count(counts, c) {
            Some(n) => exists|j: int| 0 <= j < counts.len() && (#[trigger] counts[j]).0.code() == c && counts[j].1 == n,
            None => true,
        },
    decreases counts.len(),
{
    if counts.len() > 0 && counts[0].0.code() != c {
        lemma_first_count_found(counts.drop_first(), c);
        if let Some(n) = first_count(counts, c) {
            let j = choose|j: int| 0 <= j < counts.drop_first().len() && (#[trigger] counts.drop_first()[j]).0.code() == c
                && counts.drop_first()[j].1 == n;
            assert(counts[j + 1] == counts.drop_first()[j]);
        }
    }
}

/// With an alphabet of distinct codes, the declared multiset holds each
/// of its first `k` kinds as often as the kind's first declared count.
pub proof fn lemma_declared_count<P: PieceKind>(alpha: Seq<P>, counts: Seq<(P, usize)>, k: int, i: int)
    requires
        distinct_codes(alpha),
        0 <= i < k <= alpha.len(),
    ensures
        declared_multiset(alpha, counts, k).count(alpha[i].code()) == count_or_zero(counts, alpha[i].code()),
    decreases k,
{
    let c = alpha[i].code();
    lemma_repeat_ms(c, alpha[k - 1].code(), count_or_zero(counts, alpha[k - 1].code()));
    if i < k - 1 {
        lemma_declared_count(alpha, counts, k - 1, i);
    } else {
        lemma_declared_multiset(alpha, counts, k - 1);
        if declared_multiset(alpha, counts, k - 1).count(c) > 0 {
            let j = choose|j: int| 0 <= j < k - 1 && (#[trigger] alpha[j]).code() == c;
        }
    }
}

/// The range `0..k` of the `k`-th draw of reservoir sampling, its end
/// held at `u64::MAX`.
pub open spec fn draw_bound(k: int) -> u64 {
    if k <= u64::MAX {
        k as u64
    } else {
        u64::MAX
    }
}

/// Reservoir sampling over the first `k` entries of `e` with a generator
/// started in state `seed`: the `k`-th entry replaces the choice when the
/// draw from `0..k` comes out `0`. Gives the choice and the state the
/// generator is left in.
pub open spec fn reservoir<T>(e: Seq<T>, seed: u64, k: int) -> (Option<T>, u64)
    decreases k,
{
    if k <= 0 {
        (None, seed)
    } else {
        let (chosen, state) = reservoir(e, seed, k - 1);
        let bound = draw_bound(k);
        (
            if fastrand_draw(state, bound) == 0 {
                Some(e[k - 1])
            } else {
                chosen
            },
            fastrand_next_state(state, bound),
        )
    }
}

/// The `k`-th step of reservoir sampling, for every `k` that a `u64`
/// holds: the generator draws from `0..k`, and the `k`-th entry replaces
/// the choice exactly when that draw is `0`.
pub proof fn lemma_reservoir_step<T>(e: Seq<T>, seed: u64, k: int)
    requires
        1 <= k <= u64::MAX,
    ensures
        reservoir(e, seed, k) == (
            if fastrand_draw(reservoir(e, seed, k - 1).1, k as u64) == 0 {
                Some(e[k - 1])
            } else {
                reservoir(e, seed, k - 1).0
            },
            fastrand_next_state(reservoir(e, seed, k - 1).1, k as u64),
        ),
{
}

/// Reservoir sampling over `n` entries (`n` a `u64`) chooses entry `j`
/// when the draw from `0..j + 1` is `0` and every later draw from `0..m`,
/// `j + 1 < m <= n`, is not: the draws are made from the generator states
/// the earlier steps leave.
pub proof fn lemma_reservoir_choice<T>(e: Seq<T>, seed: u64, n: int, j: int)
    requires
        0 <= j < n <= u64::MAX,
        fastrand_draw(reservoir(e, seed, j).1, (j + 1) as u64) == 0,
        forall|m: int| j + 1 < m <= n ==> fastrand_draw(#[trigger] reservoir(e, seed, m - 1).1, m as u64) != 0,
    ensures
        reservoir(e, seed, n).0 == Some(e[j]),
    decreases n,
{
    lemma_reservoir_step(e, seed, n);
    if n > j + 1 {
        lemma_reservoir_choice(e, seed, n - 1, j);
    }
}

/// Reservoir sampling over a prefix does not look past it.
pub proof fn lemma_reservoir_prefix<T>(e: Seq<T>, x: T, seed: u64, k: int)
    requires
        0 <= k <= e.len(),
    ensures
        reservoir(e.push(x), seed, k) == reservoir(e, seed, k),
    decreases k,
{
    if k > 0 {
        lemma_reservoir_prefix(e, x, seed, k - 1);
        assert(e.push(x)[k - 1] == e[k - 1]);
    }
}

impl<P: PieceKind, C: ColorKind> Problem<P, C> {
    /// The alphabet: `pieces` with later entries of an already-seen
    /// kind dropped, in first-appearance order.
    pub open spec fn alphabet(self) -> Seq<P> {
        dedup_by_code(self.pieces@)
    }

    /// Whether the declared counts fix a single multiset of pieces:
    /// the alphabet is non-empty, some `Count { op: Eq }` sits at the
    /// root or in nested `And`s, every alphabet kind has such a count
    /// (the first one found is taken), and these counts add up to
    /// `num_squares`. The solver then walks the rearrangements of that
    /// multiset; otherwise it walks every sequence over the alphabet.
    pub open spec fn fixed_applies(self) -> bool {
        let a = self.alphabet();
        let cs = self.constraint@.eq_counts();
        &&& a.len() > 0
        &&& cs.len() > 0
        &&& forall|i: int| 0 <= i < a.len() ==> first_count(cs, (#[trigger] a[i]).code()) is Some
        &&& declared_sum(a, cs, a.len() as int) == self.num_squares
    }

    /// The codes of the fixed multiset: each alphabet kind as often as
    /// its first declared count.
    pub open spec fn declared_ms(self) -> Multiset<u64> {
        declared_multiset(self.alphabet(), self.constraint@.eq_counts(), self.alphabet().len() as int)
    }

    /// The position in the alphabet of the kind with code `c`.
    pub open spec fn alphabet_index(self, c: u64) -> int {
        choose|i: int| 0 <= i < self.alphabet().len() && (#[trigger] self.alphabet()[i]).code() == c
    }

    /// The sort key of a piece: its code when the declared counts fix
    /// the multiset, otherwise its position in the alphabet.
    pub open spec fn key_of(self, p: P) -> u64 {
        if self.fixed_applies() {
            p.code()
        } else {
            self.alphabet_index(p.code()) as u64
        }
    }

    /// The sort keys of an arrangement.
    pub open spec fn keys(self, s: Seq<P>) -> Seq<u64> {
        s.map_values(|p: P| self.key_of(p))
    }

    /// Every square of `s` holds an alphabet entry.
    pub open spec fn over_alphabet(self, s: Seq<P>) -> bool {
        forall|t: int| 0 <= t < s.len() ==> self.alphabet().contains(#[trigger] s[t])
    }

    /// The arrangements the solver examines: `num_squares` alphabet
    /// entries, which when the declared counts fix the multiset must be
    /// a rearrangement of it, and otherwise only need `num_squares > 0`.
    pub open spec fn admits(self, s: Seq<P>) -> bool {
        &&& s.len() == self.num_squares
        &&& self.over_alphabet(s)
        &&& if self.fixed_applies() {
            codes(s).to_multiset() == self.declared_ms()
        } else {
            self.num_squares > 0
        }
    }

    /// The board can hold arrangements: it has at least one square, and
    /// its colour list is either empty (no colouring declared) or one
    /// colour per square. Otherwise the problem has no solution.
    pub open spec fn board_ok(self) -> bool {
        &&& self.num_squares > 0
        &&& (self.square_colors@.len() == 0 || self.square_colors@.len() == self.num_squares)
    }

    /// A solution: an examined arrangement, on a board that can hold
    /// arrangements, that satisfies the constraint. See
    /// [`lemma_solution_meaning`] for the same set without the solver's
    /// regimes.
    pub open spec fn is_solution(self, s: Seq<P>) -> bool {
        self.board_ok() && self.admits(s) && self.constraint@.holds(s, self.square_colors@)
    }

    /// `a` comes before `b`: their keys are in lexicographic order.
    pub open spec fn precedes(self, a: Seq<P>, b: Seq<P>) -> bool {
        lex_less(self.keys(a), self.keys(b))
    }

    /// [`precedes`](Self::precedes) as a relation.
    pub open spec fn precedes_rel(self) -> spec_fn(Seq<P>, Seq<P>) -> bool {
        |a: Seq<P>, b: Seq<P>| self.precedes(a, b)
    }

    /// `e` holds every solution exactly once, in increasing order.
    pub open spec fn lists(self, e: Seq<Seq<P>>) -> bool {
        &&& strictly_sorted(e, self.precedes_rel())
        &&& forall|s: Seq<P>| e.contains(s) <==> #[trigger] self.is_solution(s)
    }

    /// The solutions in canonical order.
    pub open spec fn listing(self) -> Seq<Seq<P>> {
        choose|e: Seq<Seq<P>>| self.lists(e)
    }

    /// The key sequences of the examined arrangements.
    pub open spec fn key_family(self) -> spec_fn(Seq<u64>) -> bool {
        |w: Seq<u64>|
            if self.fixed_applies() {
                w.to_multiset() == self.declared_ms()
            } else {
                self.num_squares > 0 && in_box(w, self.num_squares as nat, self.alphabet().len() as u64)
            }
    }

    /// The arrangement whose keys are `ks`.
    pub open spec fn decode(self, ks: Seq<u64>) -> Seq<P> {
        if self.fixed_applies() {
            ks.map_values(|c: u64| self.alphabet()[self.alphabet_index(c)])
        } else {
            ks.map_values(|d: u64| self.alphabet()[d as int])
        }
    }

    /// The alphabet is no longer than `pieces`, so its length fits a `usize`.
    pub proof fn lemma_alphabet_len(self)
        ensures
            self.alphabet().len() <= self.pieces@.len() <= usize::MAX,
    {
        lemma_dedup_by_code(self.pieces@);
        assert(self.pieces.len() == self.pieces@.len());
    }

    /// Alphabet codes are distinct, so a code locates its entry.
    pub proof fn lemma_alphabet_index(self, i: int)
        requires
            0 <= i < self.alphabet().len(),
        ensures
            self.alphabet_index(self.alphabet()[i].code()) == i,
    {
        lemma_dedup_by_code(self.pieces@);
        let a = self.alphabet();
        let j = self.alphabet_index(a[i].code());
        assert(0 <= j < a.len() && a[j].code() == a[i].code());
    }

    /// An alphabet entry is found again from its code.
    pub proof fn lemma_alphabet_member(self, p: P)
        requires
            self.alphabet().contains(p),
        ensures
            0 <= self.alphabet_index(p.code()) < self.alphabet().len(),
            self.alphabet()[self.alphabet_index(p.code())] == p,
    {
        let i = choose|i: int| 0 <= i < self.alphabet().len() && self.alphabet()[i] == p;
        self.lemma_alphabet_index(i);
    }

    /// Every member of the key family has `num_squares` entries.
    pub proof fn lemma_family_len(self, w: Seq<u64>)
        requires
            (self.key_family())(w),
        ensures
            w.len() == self.num_squares,
    {
        if self.fixed_applies() {
            vstd::seq_lib::to_multiset_len(w);
            lemma_declared_multiset(self.alphabet(), self.constraint@.eq_counts(), self.alphabet().len() as int);
        }
    }

    /// Decoding a member of the key family gives an examined
    /// arrangement with those keys.
    pub proof fn lemma_decode(self, ks: Seq<u64>)
        requires
            (self.key_family())(ks),
        ensures
            self.admits(self.decode(ks)),
            self.keys(self.decode(ks)) == ks,
            forall|t: int| 0 <= t < ks.len() ==> has_code(self.alphabet(), #[trigger] ks[t]) || !self.fixed_applies(),
    {
        let a = self.alphabet();
        let s = self.decode(ks);
        self.lemma_family_len(ks);
        if self.fixed_applies() {
            lemma_declared_multiset(a, self.constraint@.eq_counts(), a.len() as int);
            assert forall|t: int| 0 <= t < ks.len() implies (#[trigger] s[t]).code() == ks[t] && a.contains(s[t]) && has_code(a, ks[t]) by {
                assert(ks.contains(ks[t]));
                vstd::seq_lib::to_multiset_contains(ks, ks[t]);
                assert(self.declared_ms().count(ks[t]) > 0);
                let i = choose|i: int| 0 <= i < a.len() && (#[trigger] a[i]).code() == ks[t];
                assert(a[i].code() == ks[t]);
                let j = self.alphabet_index(ks[t]);
                assert(0 <= j < a.len() && a[j].code() == ks[t]);
            }
            assert(codes(s) =~= ks);
            assert(self.keys(s) =~= ks);
        } else {
            assert forall|t: int| 0 <= t < ks.len() implies a.contains(#[trigger] s[t]) && self.key_of(s[t]) == ks[t] by {
                self.lemma_alphabet_index(ks[t] as int);
            }
            assert(self.keys(s) =~= ks);
        }
    }

    /// The keys of an examined arrangement belong to the key family and
    /// decode back to it.
    pub proof fn lemma_keys(self, s: Seq<P>)
        requires
            self.admits(s),
        ensures
            (self.key_family())(self.keys(s)),
            self.decode(self.keys(s)) == s,
    {
        let a = self.alphabet();
        let ks = self.keys(s);
        self.lemma_alphabet_len();
        assert forall|t: int| 0 <= t < s.len() implies 0 <= self.alphabet_index((#[trigger] s[t]).code()) < a.len() && a[self.alphabet_index(s[t].code())] == s[t] by {
            self.lemma_alphabet_member(s[t]);
        }
        if self.fixed_applies() {
            assert(ks =~= codes(s));
            assert forall|t: int| 0 <= t < s.len() implies #[trigger] self.decode(ks)[t] == s[t] by {
                assert(ks[t] == s[t].code());
            }
        } else {
            assert forall|t: int| 0 <= t < s.len() implies #[trigger] ks[t] < a.len() && ks[t] as int == self.alphabet_index(s[t].code()) by {
                assert(ks[t] == self.key_of(s[t]));
            }
            assert(in_box(ks, self.num_squares as nat, a.len() as u64));
            assert forall|t: int| 0 <= t < s.len() implies #[trigger] self.decode(ks)[t] == s[t] by {
                assert(ks[t] as int == self.alphabet_index(s[t].code()));
            }
        }
        assert(self.decode(ks) =~= s);
    }

    /// Distinct examined arrangements have distinct keys of equal length.
    pub proof fn lemma_keys_injective(self, s: Seq<P>, t: Seq<P>)
        requires
            self.admits(s),
            self.admits(t),
            s != t,
        ensures
            self.keys(s) != self.keys(t),
            self.keys(s).len() == self.keys(t).len(),
    {
        self.lemma_keys(s);
        self.lemma_keys(t);
    }

    /// `precedes` is a strict total order on examined arrangements.
    pub proof fn lemma_precedes_total_order(self, e: Seq<Seq<P>>)
        requires
            forall|i: int| 0 <= i < e.len() ==> self.admits(#[trigger] e[i]),
        ensures
            strict_total_on(e, self.precedes_rel()),
    {
        let lt = self.precedes_rel();
        assert forall|x: Seq<P>| e.contains(x) implies !#[trigger] lt(x, x) by {
            lemma_lex_irreflexive(self.keys(x));
        }
        assert forall|x: Seq<P>, y: Seq<P>, z: Seq<P>|
            e.contains(x) && e.contains(y) && e.contains(z) && #[trigger] lt(x, y) && #[trigger] lt(y, z) implies lt(x, z) by {
            lemma_lex_transitive(self.keys(x), self.keys(y), self.keys(z));
        }
        assert forall|x: Seq<P>, y: Seq<P>| e.contains(x) && e.contains(y) && x != y implies #[trigger] lt(x, y) || #[trigger] lt(y, x) by {
            let i = choose|i: int| 0 <= i < e.len() && e[i] == x;
            let j = choose|j: int| 0 <= j < e.len() && e[j] == y;
            self.lemma_keys_injective(x, y);
            lemma_lex_total(self.keys(x), self.keys(y));
        }
    }

    /// A listing of the solutions is unique: any sequence that lists
    /// them is the canonical listing.
    pub proof fn lemma_listing_unique(self, e: Seq<Seq<P>>)
        requires
            self.lists(e),
        ensures
            self.listing() == e,
    {
        let l = self.listing();
        assert(self.lists(l));
        assert forall|i: int| 0 <= i < e.len() implies self.admits(#[trigger] e[i]) by {
            assert(e.contains(e[i]));
            assert(self.is_solution(e[i]));
        }
        assert forall|x: Seq<P>| e.contains(x) <==> l.contains(x) by {
            if self.is_solution(x) {
            }
        }
        self.lemma_precedes_total_order(e);
        lemma_sorted_listing_unique(e, l, self.precedes_rel());
    }
}

impl<P: PieceKind, C: ColorKind> Problem<P, C> {
    /// Number of distinct arrangements satisfying the constraint
    /// (saturating at `u64::MAX`).
    pub fn count(&self) -> (r: u64)
        ensures
            self.lists(self.listing()),
            r as int == if self.listing().len() <= u64::MAX {
                self.listing().len() as int
            } else {
                u64::MAX as int
            },
    {
        let mut it = ProblemIter::new(self);
        let mut n: u64 = 0;
        loop
            invariant
                it.inv(),
                it.problem == self,
                n as int == if it.emitted@.len() <= u64::MAX {
                    it.emitted@.len() as int
                } else {
                    u64::MAX as int
                },
            decreases it.remaining(),
        {
            match it.next() {
                Some(_) => {
                    if n < u64::MAX {
                        n = n + 1;
                    }
                },
                None => {
                    proof {
                        self.lemma_listing_unique(it.emitted@);
                    }
                    return n;
                },
            }
        }
    }

    /// All distinct arrangements satisfying the constraint, in
    /// canonical lexicographic order.
    pub fn iter(&self) -> (r: Vec<Vec<P>>)
        ensures
            self.lists(self.listing()),
            r@.len() == self.listing().len(),
            forall|i: int| 0 <= i < r@.len() ==> (#[trigger] r@[i])@ == self.listing()[i],
    {
        let mut it = ProblemIter::new(self);
        let mut all: Vec<Vec<P>> = Vec::new();
        loop
            invariant
                it.inv(),
                it.problem == self,
                all@.len() == it.emitted@.len(),
                forall|i: int| 0 <= i < all@.len() ==> (#[trigger] all@[i])@ == it.emitted@[i],
            decreases it.remaining(),
        {
            match it.next() {
                Some(a) => {
                    all.push(a);
                },
                None => {
                    proof {
                        self.lemma_listing_unique(it.emitted@);
                    }
                    return all;
                },
            }
        }
    }

    /// Returns the `index`-th satisfying arrangement in canonical
    /// lexicographic order, or `None` if there are not that many.
    pub fn at(&self, index: u64) -> (r: Option<Vec<P>>)
        ensures
            self.lists(self.listing()),
            match r {
                Some(a) => index < self.listing().len() && a@ == self.listing()[index as int],
                None => self.listing().len() <= index,
            },
    {
        let mut it = ProblemIter::new(self);
        let mut seen: u64 = 0;
        let mut found: Option<Vec<P>> = None;
        loop
            invariant
                it.inv(),
                it.problem == self,
                seen <= index,
                match found {
                    Some(a) => index < it.emitted@.len() && a@ == it.emitted@[index as int],
                    None => seen as int == it.emitted@.len(),
                },
            decreases it.remaining(),
        {
            let ghost before = it.emitted@;
            match it.next() {
                Some(a) => {
                    if found.is_none() {
                        if seen == index {
                            found = Some(a);
                        } else {
                            seen = seen + 1;
                        }
                    }
                },
                None => {
                    proof {
                        self.lemma_listing_unique(it.emitted@);
                    }
                    return found;
                },
            }
        }
    }

    /// Returns a uniformly random satisfying arrangement drawn with a
    /// generator seeded by `seed`, or `None` when nothing satisfies the
    /// constraint.
    ///
    /// One pass of reservoir sampling: the `k`-th solution replaces the
    /// choice when a draw from `0..k` comes out `0`. The result is the
    /// same for the same seed: it is [`reservoir`] over the listing.
    pub fn sample(&self, seed: u64) -> (r: Option<Vec<P>>)
        ensures
            self.lists(self.listing()),
            match r {
                Some(a) => {
                    &&& self.listing().contains(a@)
                    &&& reservoir(self.listing(), seed, self.listing().len() as int).0 == Some(a@)
                },
                None => {
                    &&& self.listing().len() == 0
                    &&& reservoir(self.listing(), seed, self.listing().len() as int).0 is None
                },
            },
    {
        let mut state: u64 = seed;
        let mut it = ProblemIter::new(self);
        let mut chosen: Option<Vec<P>> = None;
        let mut seen: u64 = 0;
        loop
            invariant
                it.inv(),
                it.problem == self,
                match chosen {
                    Some(a) => {
                        &&& it.emitted@.contains(a@)
                        &&& reservoir(it.emitted@, seed, it.emitted@.len() as int).0 == Some(a@)
                    },
                    None => {
                        &&& it.emitted@.len() == 0
                        &&& reservoir(it.emitted@, seed, it.emitted@.len() as int).0 is None
                    },
                },
                reservoir(it.emitted@, seed, it.emitted@.len() as int).1 == state,
                seen == draw_bound(it.emitted@.len() as int),
            decreases it.remaining(),
        {
            let ghost before = it.emitted@;
            match it.next() {
                Some(a) => {
                    seen = seen.saturating_add(1);
                    let (draw, next_state) = draw_below(state, seen);
                    proof {
                        lemma_reservoir_prefix(before, a@, seed, before.len() as int);
                        assert(it.emitted@.drop_last() =~= before);
                    }
                    state = next_state;
                    if draw == 0 {
                        chosen = Some(a);
                        proof {
                            assert(it.emitted@[before.len() as int] == a@);
                        }
                    } else {
                        proof {
                            let x = chosen->0;
                            let j = choose|j: int| 0 <= j < before.len() && before[j] == x@;
                            assert(it.emitted@[j] == before[j]);
                        }
                    }
                },
                None => {
                    proof {
                        self.lemma_listing_unique(it.emitted@);
                    }
                    return chosen;
                },
            }
        }
    }

    /// Returns a copy of `self` with `c` added by AND-composition: an
    /// `And` root gains `c` as its last child, any other root `r`
    /// becomes `And([r, c])`.
    pub fn with_constraint(&self, c: Constraint<P, C>) -> (r: Self)
        ensures
            r.num_squares == self.num_squares,
            r.square_colors@ == self.square_colors@,
            r.pieces@ == self.pieces@,
            r.constraint@ == match self.constraint@ {
                Formula::And(fs) => Formula::And(fs.push(c@)),
                f => Formula::And(seq![f, c@]),
            },
    {
        let square_colors = copy_vec(&self.square_colors);
        let pieces = copy_vec(&self.pieces);
        let existing = self.constraint.duplicate();
        let constraint = match existing {
            Constraint::And(mut cs) => {
                let ghost old_cs = cs@;
                cs.push(c);
                proof {
                    lemma_formulas_upto(old_cs, old_cs.len() as int);
                    lemma_formulas_upto(cs@, cs@.len() as int);
                    assert(formulas_upto(cs@, cs@.len() as int) =~= formulas_upto(old_cs, old_cs.len() as int).push(c@));
                }
                Constraint::And(cs)
            },
            other => {
                let cs = vec![other, c];
                proof {
                    lemma_formulas_upto(cs@, cs@.len() as int);
                    assert(formulas_upto(cs@, cs@.len() as int) =~= seq![cs@[0]@, cs@[1]@]);
                }
                Constraint::And(cs)
            },
        };
        Problem { num_squares: self.num_squares, square_colors, pieces, constraint }
    }

    /// Returns a fresh empty [`ProblemBuilder`](crate::ProblemBuilder).
    pub fn builder() -> (b: crate::builder::ProblemBuilder<P, C>)
        ensures
            b.spec_num_squares() == 0,
            b.spec_square_colors() == Seq::<C>::empty(),
            b.spec_pieces() == Seq::<P>::empty(),
            b.spec_constraints() == Seq::<Formula<P, C>>::empty(),
    {
        crate::builder::ProblemBuilder::new()
    }
}

/// Adding a constraint with [`Problem::with_constraint`] keeps exactly the
/// old solutions that satisfy it: `s` solves the narrowed problem `r` if
/// and only if it solves `p` and satisfies `c`.
pub proof fn lemma_with_constraint_narrows<P: PieceKind, C: ColorKind>(
    p: Problem<P, C>,
    r: Problem<P, C>,
    c: Formula<P, C>,
    s: Seq<P>,
)
    requires
        r.num_squares == p.num_squares,
        r.square_colors@ == p.square_colors@,
        r.pieces@ == p.pieces@,
        r.constraint@ == match p.constraint@ {
            Formula::And(fs) => Formula::And(fs.push(c)),
            f => Formula::And(seq![f, c]),
        },
    ensures
        r.is_solution(s) <==> p.is_solution(s) && c.holds(s, p.square_colors@),
{
    let colors = p.square_colors@;
    lemma_solution_meaning(p, s);
    lemma_solution_meaning(r, s);
    assert(r.alphabet() == p.alphabet());
    let gs = match p.constraint@ {
        Formula::And(fs) => fs.push(c),
        f => seq![f, c],
    };
    lemma_all_any(gs, gs.len() as int, s, colors);
    match p.constraint@ {
        Formula::And(fs) => {
            lemma_all_any(fs, fs.len() as int, s, colors);
            assert forall|i: int| 0 <= i < fs.len() implies #[trigger] gs[i] == fs[i] by {}
            assert(gs[fs.len() as int] == c);
            if p.constraint@.holds(s, colors) && c.holds(s, colors) {
                assert forall|i: int| 0 <= i < gs.len() implies (#[trigger] gs[i]).holds(s, colors) by {
                    if i < fs.len() {
                        assert(gs[i] == fs[i]);
                    }
                }
            }
            if r.constraint@.holds(s, colors) {
                assert forall|i: int| 0 <= i < fs.len() implies (#[trigger] fs[i]).holds(s, colors) by {
                    assert(gs[i] == fs[i]);
                }
                assert(gs[fs.len() as int].holds(s, colors));
            }
        },
        f => {
            assert(gs[0] == f && gs[1] == c);
            if f.holds(s, colors) && c.holds(s, colors) {
                assert forall|i: int| 0 <= i < gs.len() implies (#[trigger] gs[i]).holds(s, colors) by {}
            }
            if r.constraint@.holds(s, colors) {
                assert(gs[0].holds(s, colors) && gs[1].holds(s, colors));
            }
        },
    }
}

/// A listing of the solutions holds each of them once.
pub proof fn lemma_listing_no_duplicates<P: PieceKind, C: ColorKind>(p: Problem<P, C>, e: Seq<Seq<P>>)
    requires
        p.lists(e),
    ensures
        e.no_duplicates(),
        e.len() == e.to_set().len(),
{
    assert forall|i: int, j: int| 0 <= i < e.len() && 0 <= j < e.len() && i != j implies e[i] != e[j] by {
        if i < j {
            assert(p.precedes_rel()(e[i], e[j]));
            lemma_lex_irreflexive(p.keys(e[i]));
        } else {
            assert(p.precedes_rel()(e[j], e[i]));
            lemma_lex_irreflexive(p.keys(e[j]));
        }
    }
    e.unique_seq_to_set();
}

/// Narrowing with [`Problem::with_constraint`] never raises the number of
/// solutions.
pub proof fn lemma_with_constraint_count<P: PieceKind, C: ColorKind>(
    p: Problem<P, C>,
    r: Problem<P, C>,
    c: Formula<P, C>,
    ep: Seq<Seq<P>>,
    er: Seq<Seq<P>>,
)
    requires
        r.num_squares == p.num_squares,
        r.square_colors@ == p.square_colors@,
        r.pieces@ == p.pieces@,
        r.constraint@ == match p.constraint@ {
            Formula::And(fs) => Formula::And(fs.push(c)),
            f => Formula::And(seq![f, c]),
        },
        p.lists(ep),
        r.lists(er),
    ensures
        er.len() <= ep.len(),
{
    lemma_listing_no_duplicates(p, ep);
    lemma_listing_no_duplicates(r, er);
    assert forall|s: Seq<P>| er.to_set().contains(s) implies ep.to_set().contains(s) by {
        assert(er.contains(s));
        lemma_with_constraint_narrows(p, r, c, s);
    }
    vstd::set_lib::lemma_len_subset(er.to_set(), ep.to_set());
}

/// A problem with no pieces, or with no squares, has no solution.
pub proof fn lemma_empty_problem<P: PieceKind, C: ColorKind>(p: Problem<P, C>, e: Seq<Seq<P>>)
    requires
        p.pieces@.len() == 0 || p.num_squares == 0,
        p.lists(e),
    ensures
        forall|s: Seq<P>| !#[trigger] p.is_solution(s),
        e.len() == 0,
{
    assert(p.pieces@.len() == 0 ==> p.alphabet().len() == 0) by {
        lemma_dedup_by_code(p.pieces@);
    }
    assert forall|s: Seq<P>| !#[trigger] p.is_solution(s) by {
        if p.is_solution(s) && s.len() > 0 {
            assert(p.alphabet().contains(s[0]));
        }
    }
    if e.len() > 0 {
        assert(e.contains(e[0]));
        assert(p.is_solution(e[0]));
    }
}

/// Each `Count { Eq }` declaration of a formula that holds is met.
pub proof fn lemma_eq_counts_hold<P: PieceKind, C: ColorKind>(f: Formula<P, C>, s: Seq<P>, colors: Seq<C>)
    requires
        f.holds(s, colors),
    ensures
        forall|j: int|
            0 <= j < f.eq_counts().len() ==> count_of(s, (#[trigger] f.eq_counts()[j]).0) == f.eq_counts()[j].1,
    decreases f, 0int,
{
    match f {
        Formula::And(fs) => {
            lemma_all_any(fs, fs.len() as int, s, colors);
            lemma_eq_counts_upto_hold(fs, fs.len() as int, s, colors);
            assert(f.eq_counts() == eq_counts_upto(fs, fs.len() as int));
        },
        _ => {},
    }
}

/// Each `Count { Eq }` declaration among the first `k` formulas, all of
/// which hold, is met.
pub proof fn lemma_eq_counts_upto_hold<P: PieceKind, C: ColorKind>(
    fs: Seq<Formula<P, C>>,
    k: int,
    s: Seq<P>,
    colors: Seq<C>,
)
    requires
        0 <= k <= fs.len(),
        forall|i: int| 0 <= i < k ==> (#[trigger] fs[i]).holds(s, colors),
    ensures
        forall|j: int|
            0 <= j < eq_counts_upto(fs, k).len() ==> count_of(s, (#[trigger] eq_counts_upto(fs, k)[j]).0)
                == eq_counts_upto(fs, k)[j].1,
    decreases fs, k,
{
    if k > 0 {
        lemma_eq_counts_upto_hold(fs, k - 1, s, colors);
        lemma_eq_counts_hold(fs[k - 1], s, colors);
        let a = eq_counts_upto(fs, k - 1);
        let b = fs[k - 1].eq_counts();
        assert forall|j: int| 0 <= j < eq_counts_upto(fs, k).len() implies count_of(
            s,
            (#[trigger] eq_counts_upto(fs, k)[j]).0,
        ) == eq_counts_upto(fs, k)[j].1 by {
            if j < a.len() {
                assert(eq_counts_upto(fs, k)[j] == a[j]);
            } else {
                assert(eq_counts_upto(fs, k)[j] == b[j - a.len()]);
            }
        }
    }
}

/// Solutions mean what the documentation says, whichever way the solver
/// walks: arrangements of `num_squares` alphabet kinds, on a board with at
/// least one square and either no colours or one per square, that satisfy
/// the constraint. The declared counts only select a faster walk.
pub proof fn lemma_solution_meaning<P: PieceKind, C: ColorKind>(p: Problem<P, C>, s: Seq<P>)
    ensures
        p.is_solution(s) <==> {
            &&& s.len() == p.num_squares
            &&& p.board_ok()
            &&& p.over_alphabet(s)
            &&& p.constraint@.holds(s, p.square_colors@)
        },
{
    if s.len() == p.num_squares && p.board_ok() && p.over_alphabet(s) && p.constraint@.holds(s, p.square_colors@)
        && p.fixed_applies() {
        let a = p.alphabet();
        let cs = p.constraint@.eq_counts();
        let w = codes(s);
        lemma_dedup_by_code(p.pieces@);
        lemma_eq_counts_hold(p.constraint@, s, p.square_colors@);
        lemma_declared_multiset(a, cs, a.len() as int);
        assert forall|c: u64| #[trigger] w.to_multiset().count(c) == p.declared_ms().count(c) by {
            lemma_multiset_count(w, c);
            if exists|i: int| 0 <= i < a.len() && (#[trigger] a[i]).code() == c {
                let i = choose|i: int| 0 <= i < a.len() && (#[trigger] a[i]).code() == c;
                lemma_declared_count(a, cs, a.len() as int, i);
                lemma_first_count_found(cs, c);
                assert(first_count(cs, a[i].code()) is Some);
                let n = first_count(cs, c)->0;
                let j = choose|j: int| 0 <= j < cs.len() && (#[trigger] cs[j]).0.code() == c && cs[j].1 == n;
                assert(count_of(s, cs[j].0) == n);
                assert forall|t: int| 0 <= t < s.len() implies #[trigger] occurs(w, c)(t) == kind_pred(s, cs[j].0)(t) by {
                    assert(w[t] == s[t].code());
                }
                crate::count::lemma_count_where_ext(occurs(w, c), kind_pred(s, cs[j].0), s.len() as int);
            } else {
                assert forall|t: int| 0 <= t < s.len() implies !#[trigger] occurs(w, c)(t) by {
                    assert(w[t] == s[t].code());
                    assert(a.contains(s[t]));
                }
                crate::count::lemma_count_where_all_none(occurs(w, c), s.len() as int);
            }
        }
        assert(w.to_multiset() =~= p.declared_ms());
    }
}

} // verus!
