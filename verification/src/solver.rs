//! The enumeration behind [`Problem`]'s entry points: the alphabet, the
//! fixed multiset, and the walk over candidate arrangements in order.
use vstd::prelude::*;
use crate::constraint::{formulas_upto, lemma_formulas_upto, Constraint, CountOp, Formula};
use crate::lex::{
    is_last, is_successor, lemma_lex_irreflexive, lemma_lex_total, lemma_lex_transitive, lemma_seq_value_bound,
    lemma_seq_value_monotone, lex_less, radix_pow, seq_value, strictly_sorted,
};
use crate::odometer::{box_family, lemma_zeros_first, next_cartesian};
use crate::permutation::{lemma_sorted_is_first, lemma_swap_perm, next_permutation, non_decreasing, perm_family};
use crate::problem::{
    codes, count_or_zero, declared_multiset, declared_sum, dedup_by_code, eq_counts_upto, first_count,
    has_code, lemma_declared_sum_monotone, repeat_ms, Problem,
};
use crate::{ColorKind, PieceKind};

verus! {

broadcast use vstd::multiset::group_multiset_axioms;

/// Whether some entry of `s` has code `code`.
pub(crate) fn contains_code<P: PieceKind>(s: &Vec<P>, code: u64) -> (r: bool)
    ensures
        r == has_code(s@, code),
{
    let mut i: usize = 0;
    while i < s.len()
        invariant
            i <= s@.len(),
            forall|j: int| 0 <= j < i ==> (#[trigger] s@[j]).code() != code,
        decreases s.len() - i,
    {
        if s[i].to_code() == code {
            return true;
        }
        i = i + 1;
    }
    false
}

/// Returns the first count declared for `code` in `counts`.
fn find_first_count<P: PieceKind>(counts: &Vec<(P, usize)>, code: u64) -> (r: Option<usize>)
    ensures
        r == first_count(counts@, code),
{
    let mut i: usize = 0;
    assert(counts@.skip(0) =~= counts@);
    while i < counts.len()
        invariant
            i <= counts@.len(),
            first_count(counts@, code) == first_count(counts@.skip(i as int), code),
        decreases counts.len() - i,
    {
        let ghost rest = counts@.skip(i as int);
        assert(rest[0] == counts@[i as int]);
        assert(rest.drop_first() =~= counts@.skip(i + 1));
        if counts[i].0.to_code() == code {
            return Some(counts[i].1);
        }
        i = i + 1;
    }
    proof {
        assert(counts@.skip(i as int).len() == 0);
    }
    None
}

/// Stable insertion sort by code.
fn sort_by_code<P: PieceKind>(v: &mut Vec<P>)
    ensures
        final(v)@.len() == old(v)@.len(),
        non_decreasing(codes(final(v)@)),
        codes(final(v)@).to_multiset() == codes(old(v)@).to_multiset(),
        forall|t: int| 0 <= t < final(v)@.len() ==> old(v)@.contains(#[trigger] final(v)@[t]),
{
    let ghost orig = v@;
    let n = v.len();
    let mut i: usize = 1;
    if n == 0 {
        return;
    }
    while i < n
        invariant
            orig == old(v)@,
            v@.len() == n,
            1 <= i <= n,
            forall|a: int, b: int| 0 <= a < b < i ==> (#[trigger] v@[a]).code() <= (#[trigger] v@[b]).code(),
            codes(v@).to_multiset() == codes(orig).to_multiset(),
            forall|t: int| 0 <= t < n ==> orig.contains(#[trigger] v@[t]),
        decreases n - i,
    {
        let mut j: usize = i;
        while j > 0 && v[j - 1].to_code() > v[j].to_code()
            invariant
                orig == old(v)@,
                v@.len() == n,
                1 <= i < n,
                j <= i,
                forall|a: int, b: int| 0 <= a < b <= i && b != j ==> (#[trigger] v@[a]).code() <= (#[trigger] v@[b]).code(),
                forall|a: int, b: int| 0 <= a < j && j < b <= i ==> (#[trigger] v@[a]).code() <= (#[trigger] v@[b]).code(),
                codes(v@).to_multiset() == codes(orig).to_multiset(),
                forall|t: int| 0 <= t < n ==> orig.contains(#[trigger] v@[t]),
            decreases j,
        {
            let ghost before = v@;
            let x = v[j - 1];
            let y = v[j];
            v.set(j - 1, y);
            v.set(j, x);
            proof {
                let cb = codes(before);
                lemma_swap_perm(cb, j - 1, j as int);
                assert(codes(v@) =~= cb.update(j - 1, cb[j as int]).update(j as int, cb[j - 1]));
                assert forall|t: int| 0 <= t < n implies orig.contains(#[trigger] v@[t]) by {
                    if t == j - 1 {
                        assert(v@[t] == before[j as int]);
                    } else if t == j {
                        assert(v@[t] == before[j - 1]);
                    } else {
                        assert(v@[t] == before[t]);
                    }
                }
            }
            j = j - 1;
        }
        i = i + 1;
    }
    proof {
        assert forall|a: int, b: int| 0 <= a < b < codes(v@).len() implies #[trigger] codes(v@)[a] <= #[trigger] codes(v@)[b] by {
            assert(v@[a].code() <= v@[b].code());
        }
    }
}

impl<P: PieceKind, C: ColorKind> Constraint<P, C> {
    /// Returns the `(piece, n)` of every `Count { op: Eq }` at the root
    /// or inside nested `And`s, in pre-order.
    #[verifier::loop_isolation(false)]
    pub(crate) fn collect_eq_counts(&self) -> (r: Vec<(P, usize)>)
        ensures
            r@ == self@.eq_counts(),
        decreases self,
    {
        match self {
            Constraint::Count { piece, op: CountOp::Eq, value } => {
                let mut r = Vec::new();
                r.push((*piece, *value));
                proof {
                    assert(r@ =~= seq![(*piece, *value)]);
                }
                r
            },
            Constraint::And(children) => {
                proof {
                    lemma_formulas_upto(children@, children@.len() as int);
                }
                let ghost fs = formulas_upto(children@, children@.len() as int);
                let mut r: Vec<(P, usize)> = Vec::new();
                let mut i: usize = 0;
                while i < children.len()
                    invariant
                        i <= children@.len(),
                        r@ == eq_counts_upto(fs, i as int),
                    decreases children.len() - i,
                {
                    let sub = children[i].collect_eq_counts();
                    let mut k: usize = 0;
                    let ghost base = r@;
                    while k < sub.len()
                        invariant
                            k <= sub@.len(),
                            r@ == base + sub@.take(k as int),
                        decreases sub.len() - k,
                    {
                        r.push(sub[k]);
                        proof {
                            assert(sub@.take(k + 1) =~= sub@.take(k as int).push(sub@[k as int]));
                        }
                        k = k + 1;
                    }
                    proof {
                        assert(sub@.take(sub@.len() as int) =~= sub@);
                    }
                    i = i + 1;
                }
                r
            },
            _ => Vec::new(),
        }
    }
}

impl<P: PieceKind, C: ColorKind> Problem<P, C> {
    /// Returns the alphabet: `pieces` without repeated kinds, in
    /// first-appearance order.
    pub(crate) fn dedup_alphabet(&self) -> (r: Vec<P>)
        ensures
            r@ == self.alphabet(),
    {
        let mut seen: Vec<P> = Vec::new();
        let mut i: usize = 0;
        while i < self.pieces.len()
            invariant
                i <= self.pieces@.len(),
                seen@ == dedup_by_code(self.pieces@.take(i as int)),
            decreases self.pieces.len() - i,
        {
            let p = self.pieces[i];
            proof {
                let t = self.pieces@.take(i + 1);
                assert(t.drop_last() =~= self.pieces@.take(i as int));
                assert(t.last() == p);
            }
            if !contains_code(&seen, p.to_code()) {
                seen.push(p);
            }
            i = i + 1;
        }
        proof {
            assert(self.pieces@.take(i as int) =~= self.pieces@);
        }
        seen
    }

    /// When the declared counts fix the multiset of pieces (see
    /// [`fixed_applies`](Self::fixed_applies)), returns that multiset
    /// as an arrangement sorted by code: the first arrangement in
    /// lexicographic order.
    pub(crate) fn fixed_count_arrangement(&self) -> (r: Option<Vec<P>>)
        ensures
            match r {
                Some(a) => {
                    &&& self.fixed_applies()
                    &&& non_decreasing(codes(a@))
                    &&& codes(a@).to_multiset() == self.declared_ms()
                    &&& forall|t: int| 0 <= t < a@.len() ==> self.alphabet().contains(#[trigger] a@[t])
                },
                None => !self.fixed_applies(),
            },
    {
        let alphabet = self.dedup_alphabet();
        if alphabet.len() == 0 {
            return None;
        }
        let counts = self.constraint.collect_eq_counts();
        if counts.len() == 0 {
            return None;
        }
        let ghost a = alphabet@;
        let ghost cs = counts@;
        let mut total: usize = 0;
        let mut k: usize = 0;
        while k < alphabet.len()
            invariant
                a == alphabet@,
                cs == counts@,
                a == self.alphabet(),
                cs == self.constraint@.eq_counts(),
                k <= a.len(),
                total == declared_sum(a, cs, k as int),
                forall|i: int| 0 <= i < k ==> first_count(cs, (#[trigger] a[i]).code()) is Some,
            decreases alphabet.len() - k,
        {
            match find_first_count(&counts, alphabet[k].to_code()) {
                None => {
                    return None;
                },
                Some(c) => {
                    if c > usize::MAX - total {
                        proof {
                            lemma_declared_sum_monotone(a, cs, k + 1, a.len() as int);
                        }
                        return None;
                    }
                    total = total + c;
                },
            }
            k = k + 1;
        }
        if total != self.num_squares {
            return None;
        }
        let mut arrangement: Vec<P> = Vec::new();
        proof {
            assert(codes(arrangement@) =~= Seq::<u64>::empty());
            vstd::seq_lib::to_multiset_len(Seq::<u64>::empty());
            vstd::multiset::lemma_multiset_empty_len(Seq::<u64>::empty().to_multiset());
        }
        let mut k: usize = 0;
        while k < alphabet.len()
            invariant
                a == alphabet@,
                cs == counts@,
                a == self.alphabet(),
                cs == self.constraint@.eq_counts(),
                k <= a.len(),
                forall|i: int| 0 <= i < a.len() ==> first_count(cs, (#[trigger] a[i]).code()) is Some,
                codes(arrangement@).to_multiset() == declared_multiset(a, cs, k as int),
                forall|t: int| 0 <= t < arrangement@.len() ==> a.contains(#[trigger] arrangement@[t]),
            decreases alphabet.len() - k,
        {
            let kind = alphabet[k];
            let c = match find_first_count(&counts, kind.to_code()) {
                Some(c) => c,
                None => 0,
            };
            assert(c as nat == count_or_zero(cs, kind.code()));
            let mut j: usize = 0;
            while j < c
                invariant
                    a == alphabet@,
                    k < a.len(),
                    kind == a[k as int],
                    j <= c,
                    codes(arrangement@).to_multiset() == declared_multiset(a, cs, k as int).add(repeat_ms(kind.code(), j as nat)),
                    forall|t: int| 0 <= t < arrangement@.len() ==> a.contains(#[trigger] arrangement@[t]),
                decreases c - j,
            {
                let ghost before = arrangement@;
                arrangement.push(kind);
                proof {
                    assert(codes(arrangement@) =~= codes(before).push(kind.code()));
                    vstd::seq_lib::to_multiset_build(codes(before), kind.code());
                    assert(codes(arrangement@).to_multiset() =~= declared_multiset(a, cs, k as int).add(repeat_ms(kind.code(), (j + 1) as nat)));
                    assert forall|t: int| 0 <= t < arrangement@.len() implies a.contains(#[trigger] arrangement@[t]) by {
                        if t < before.len() {
                            assert(arrangement@[t] == before[t]);
                        } else {
                            assert(a[k as int] == kind);
                        }
                    }
                }
                j = j + 1;
            }
            k = k + 1;
        }
        let ghost unsorted = arrangement@;
        sort_by_code(&mut arrangement);
        proof {
            assert forall|t: int| 0 <= t < arrangement@.len() implies a.contains(#[trigger] arrangement@[t]) by {
                assert(unsorted.contains(arrangement@[t]));
                let u = choose|u: int| 0 <= u < unsorted.len() && unsorted[u] == arrangement@[t];
                assert(a.contains(unsorted[u]));
            }
        }
        Some(arrangement)
    }
}

/// Returns the codes of the entries of `v`.
fn codes_of<P: PieceKind>(v: &Vec<P>) -> (r: Vec<u64>)
    ensures
        r@ == codes(v@),
{
    let mut r: Vec<u64> = Vec::new();
    let mut i: usize = 0;
    while i < v.len()
        invariant
            i <= v@.len(),
            r@ == codes(v@.take(i as int)),
        decreases v.len() - i,
    {
        r.push(v[i].to_code());
        proof {
            assert(codes(v@.take(i + 1)) =~= codes(v@.take(i as int)).push(v@[i as int].code()));
        }
        i = i + 1;
    }
    proof {
        assert(v@.take(i as int) =~= v@);
    }
    r
}

/// Returns `n` zeros.
fn zeros(n: usize) -> (r: Vec<u64>)
    ensures
        r@ == Seq::new(n as nat, |j: int| 0u64),
{
    let mut r: Vec<u64> = Vec::new();
    let mut i: usize = 0;
    while i < n
        invariant
            i <= n,
            r@ == Seq::new(i as nat, |j: int| 0u64),
        decreases n - i,
    {
        r.push(0);
        proof {
            assert(r@ =~= Seq::new((i + 1) as nat, |j: int| 0u64));
        }
        i = i + 1;
    }
    r
}

/// Returns a copy of `v`.
pub(crate) fn copy_vec<T: Copy>(v: &Vec<T>) -> (r: Vec<T>)
    ensures
        r@ == v@,
{
    let mut r: Vec<T> = Vec::new();
    let mut i: usize = 0;
    while i < v.len()
        invariant
            i <= v@.len(),
            r@ == v@.take(i as int),
        decreases v.len() - i,
    {
        r.push(v[i]);
        proof {
            assert(v@.take(i + 1) =~= v@.take(i as int).push(v@[i as int]));
        }
        i = i + 1;
    }
    proof {
        assert(v@.take(i as int) =~= v@);
    }
    r
}

/// Returns the position of an entry of `alphabet` with code `code`.
fn index_of_code<P: PieceKind>(alphabet: &Vec<P>, code: u64) -> (r: usize)
    requires
        has_code(alphabet@, code),
    ensures
        r < alphabet@.len(),
        alphabet@[r as int].code() == code,
{
    let mut i: usize = 0;
    while i < alphabet.len()
        invariant
            i <= alphabet@.len(),
            has_code(alphabet@, code),
            forall|j: int| 0 <= j < i ==> (#[trigger] alphabet@[j]).code() != code,
        decreases alphabet.len() - i,
    {
        if alphabet[i].to_code() == code {
            return i;
        }
        i = i + 1;
    }
    proof {
        let j = choose|j: int| 0 <= j < alphabet@.len() && (#[trigger] alphabet@[j]).code() == code;
        assert(alphabet@[j].code() == code);
    }
    0
}

/// Returns the arrangement whose keys are `keys`.
fn decode_keys<P: PieceKind, C: ColorKind>(
    problem: &Problem<P, C>,
    alphabet: &Vec<P>,
    fixed: bool,
    keys: &Vec<u64>,
) -> (r: Vec<P>)
    requires
        alphabet@ == problem.alphabet(),
        fixed == problem.fixed_applies(),
        (problem.key_family())(keys@),
    ensures
        r@ == problem.decode(keys@),
{
    proof {
        problem.lemma_decode(keys@);
        problem.lemma_alphabet_len();
    }
    let mut r: Vec<P> = Vec::new();
    let mut i: usize = 0;
    while i < keys.len()
        invariant
            alphabet@ == problem.alphabet(),
            fixed == problem.fixed_applies(),
            (problem.key_family())(keys@),
            forall|t: int| 0 <= t < keys@.len() ==> has_code(problem.alphabet(), #[trigger] keys@[t]) || !problem.fixed_applies(),
            i <= keys@.len(),
            r@ == problem.decode(keys@).take(i as int),
        decreases keys.len() - i,
    {
        let k = keys[i];
        let p = if fixed {
            let j = index_of_code(alphabet, k);
            proof {
                problem.lemma_alphabet_index(j as int);
            }
            alphabet[j]
        } else {
            assert(k < alphabet@.len());
            assert(alphabet.len() == alphabet@.len());
            assert((k as usize) as int == k as int);
            alphabet[k as usize]
        };
        assert(p == problem.decode(keys@)[i as int]);
        r.push(p);
        proof {
            assert(problem.decode(keys@).take(i + 1) =~= problem.decode(keys@).take(i as int).push(p));
        }
        i = i + 1;
    }
    proof {
        assert(problem.decode(keys@).take(i as int) =~= problem.decode(keys@));
    }
    r
}

/// One step of the enumeration: the candidate with keys `c` is examined
/// and the walk moves on to `next`.
proof fn lemma_step<P: PieceKind, C: ColorKind>(
    p: Problem<P, C>,
    e: Seq<Seq<P>>,
    e2: Seq<Seq<P>>,
    c: Seq<u64>,
    next: Option<Seq<u64>>,
    ok: bool,
)
    requires
        p.board_ok(),
        strictly_sorted(e, p.precedes_rel()),
        forall|i: int| 0 <= i < e.len() ==> p.is_solution(#[trigger] e[i]),
        (p.key_family())(c),
        forall|i: int| 0 <= i < e.len() ==> lex_less(p.keys(#[trigger] e[i]), c),
        forall|s: Seq<P>| #[trigger] p.is_solution(s) && lex_less(p.keys(s), c) ==> e.contains(s),
        ok == p.constraint@.holds(p.decode(c), p.square_colors@),
        e2 == if ok { e.push(p.decode(c)) } else { e },
        match next {
            Some(n) => is_successor(c, n, p.key_family()),
            None => is_last(c, p.key_family()),
        },
    ensures
        strictly_sorted(e2, p.precedes_rel()),
        forall|i: int| 0 <= i < e2.len() ==> p.is_solution(#[trigger] e2[i]),
        match next {
            Some(n) => {
                &&& (p.key_family())(n)
                &&& forall|i: int| 0 <= i < e2.len() ==> lex_less(p.keys(#[trigger] e2[i]), n)
                &&& forall|s: Seq<P>| #[trigger] p.is_solution(s) && lex_less(p.keys(s), n) ==> e2.contains(s)
            },
            None => forall|s: Seq<P>| #[trigger] p.is_solution(s) ==> e2.contains(s),
        },
{
    let a = p.decode(c);
    p.lemma_decode(c);
    p.lemma_family_len(c);
    let lt = p.precedes_rel();
    assert forall|i: int, j: int| 0 <= i < j < e2.len() implies #[trigger] lt(e2[i], e2[j]) by {
        if j == e.len() {
            assert(e2[j] == a);
            assert(e2[i] == e[i]);
            assert(lex_less(p.keys(e[i]), c));
        } else {
            assert(e2[i] == e[i] && e2[j] == e[j]);
        }
    }
    assert forall|i: int| 0 <= i < e2.len() implies p.is_solution(#[trigger] e2[i]) by {
        if i == e.len() {
            assert(e2[i] == a);
        } else {
            assert(e2[i] == e[i]);
        }
    }
    assert forall|s: Seq<P>| #[trigger] p.is_solution(s) && !lex_less(p.keys(s), c) && s != a implies lex_less(c, p.keys(s)) by {
        p.lemma_keys(s);
        p.lemma_family_len(p.keys(s));
        lemma_lex_total(c, p.keys(s));
    }
    if ok {
        assert(e2[e.len() as int] == a);
        assert(e2.contains(a));
    }
    assert forall|s: Seq<P>| #[trigger] e.contains(s) implies e2.contains(s) by {
        let i = choose|i: int| 0 <= i < e.len() && e[i] == s;
        assert(e2[i] == s);
    }
    match next {
        Some(n) => {
            assert forall|i: int| 0 <= i < e2.len() implies lex_less(p.keys(#[trigger] e2[i]), n) by {
                if i == e.len() {
                    assert(e2[i] == a);
                } else {
                    assert(e2[i] == e[i]);
                    lemma_lex_transitive(p.keys(e[i]), c, n);
                }
            }
            assert forall|s: Seq<P>| #[trigger] p.is_solution(s) && lex_less(p.keys(s), n) implies e2.contains(s) by {
                p.lemma_keys(s);
                if !lex_less(p.keys(s), c) && s != a {
                    assert((p.key_family())(p.keys(s)));
                }
            }
        },
        None => {
            assert forall|s: Seq<P>| #[trigger] p.is_solution(s) implies e2.contains(s) by {
                p.lemma_keys(s);
                if !lex_less(p.keys(s), c) && s != a {
                    assert((p.key_family())(p.keys(s)));
                }
            }
        },
    }
}

/// Walks the solutions of a problem in canonical order.
pub(crate) struct ProblemIter<'a, P: PieceKind, C: ColorKind> {
    pub(crate) problem: &'a Problem<P, C>,
    pub(crate) alphabet: Vec<P>,
    pub(crate) fixed: bool,
    pub(crate) current: Option<Vec<u64>>,
    pub(crate) emitted: Ghost<Seq<Seq<P>>>,
}

impl<'a, P: PieceKind, C: ColorKind> ProblemIter<'a, P, C> {
    /// The solutions returned so far are exactly those before the next
    /// candidate, in order; with no candidate left they are all of them.
    pub(crate) closed spec fn inv(self) -> bool {
        let p = *self.problem;
        let e = self.emitted@;
        &&& self.alphabet@ == p.alphabet()
        &&& self.fixed == p.fixed_applies()
        &&& strictly_sorted(e, p.precedes_rel())
        &&& forall|i: int| 0 <= i < e.len() ==> p.is_solution(#[trigger] e[i])
        &&& match self.current {
            Some(c) => {
                &&& p.board_ok()
                &&& (p.key_family())(c@)
                &&& forall|i: int| 0 <= i < e.len() ==> lex_less(p.keys(#[trigger] e[i]), c@)
                &&& forall|s: Seq<P>| #[trigger] p.is_solution(s) && lex_less(p.keys(s), c@) ==> e.contains(s)
            },
            None => forall|s: Seq<P>| #[trigger] p.is_solution(s) ==> e.contains(s),
        }
    }

    /// A bound on the candidates still to examine.
    pub(crate) closed spec fn remaining(self) -> nat {
        match self.current {
            Some(c) => (radix_pow(c@.len()) - seq_value(c@)) as nat,
            None => 0,
        }
    }

    /// Starts the walk at the first candidate.
    pub(crate) fn new(problem: &'a Problem<P, C>) -> (it: Self)
        ensures
            it.inv(),
            it.problem == problem,
            it.emitted@ == Seq::<Seq<P>>::empty(),
    {
        let alphabet = problem.dedup_alphabet();
        let start = problem.fixed_count_arrangement();
        let colors_len = problem.square_colors.len();
        if problem.num_squares == 0 || (colors_len != 0 && colors_len != problem.num_squares) {
            // No board to lay pieces on: nothing is a solution.
            let fixed = start.is_some();
            return ProblemIter { problem, alphabet, fixed, current: None, emitted: Ghost(Seq::empty()) };
        }
        match start {
            Some(start) => {
                let first = codes_of(&start);
                proof {
                    lemma_sorted_is_first(first@);
                    assert(perm_family(first@.to_multiset()) =~= problem.key_family());
                    assert forall|s: Seq<P>| #[trigger] problem.is_solution(s) && lex_less(problem.keys(s), first@) implies false by {
                        problem.lemma_keys(s);
                    }
                }
                ProblemIter { problem, alphabet, fixed: true, current: Some(first), emitted: Ghost(Seq::empty()) }
            },
            None => {
                if alphabet.len() == 0 || problem.num_squares == 0 {
                    proof {
                        assert forall|s: Seq<P>| #[trigger] problem.is_solution(s) implies false by {
                            problem.lemma_keys(s);
                            if problem.num_squares > 0 {
                                assert(problem.keys(s)[0] < alphabet@.len());
                            }
                        }
                    }
                    ProblemIter { problem, alphabet, fixed: false, current: None, emitted: Ghost(Seq::empty()) }
                } else {
                    let first = zeros(problem.num_squares);
                    proof {
                        problem.lemma_alphabet_len();
                        lemma_zeros_first(problem.num_squares as nat, alphabet.len() as u64);
                        assert(box_family(problem.num_squares as nat, alphabet.len() as u64) =~= problem.key_family());
                        assert forall|s: Seq<P>| #[trigger] problem.is_solution(s) && lex_less(problem.keys(s), first@) implies false by {
                            problem.lemma_keys(s);
                        }
                    }
                    ProblemIter { problem, alphabet, fixed: false, current: Some(first), emitted: Ghost(Seq::empty()) }
                }
            },
        }
    }

    /// Returns the next solution, or `None` once all have been returned.
    pub(crate) fn next(&mut self) -> (r: Option<Vec<P>>)
        requires
            old(self).inv(),
        ensures
            final(self).inv(),
            final(self).problem == old(self).problem,
            match r {
                Some(a) => {
                    &&& final(self).emitted@ == old(self).emitted@.push(a@)
                    &&& final(self).remaining() < old(self).remaining()
                    &&& final(self).problem.is_solution(a@)
                    &&& a@.len() == final(self).problem.num_squares
                    &&& final(self).problem.constraint@.holds(a@, final(self).problem.square_colors@)
                    &&& !old(self).emitted@.contains(a@)
                    &&& forall|i: int|
                        0 <= i < old(self).emitted@.len() ==> final(self).problem.precedes(
                            #[trigger] old(self).emitted@[i],
                            a@,
                        )
                },
                None => {
                    &&& final(self).emitted@ == old(self).emitted@
                    &&& final(self).problem.lists(final(self).emitted@)
                    &&& final(self).current is None
                },
            },
            old(self).current is None ==> r is None,
    {
        loop
            invariant
                self.inv(),
                self.problem == old(self).problem,
                self.emitted@ == old(self).emitted@,
                self.remaining() <= old(self).remaining(),
            decreases self.remaining(),
        {
            let cur = self.current.take();
            match cur {
                None => {
                    return None;
                },
                Some(c) => {
                    let ghost p = *self.problem;
                    proof {
                        p.lemma_alphabet_len();
                        p.lemma_family_len(c@);
                        lemma_seq_value_bound(c@);
                    }
                    let mut nxt = copy_vec(&c);
                    let advanced = if self.fixed {
                        let adv = next_permutation(&mut nxt);
                        proof {
                            assert(perm_family(c@.to_multiset()) =~= p.key_family());
                        }
                        adv
                    } else {
                        let adv = next_cartesian(&mut nxt, self.alphabet.len() as u64);
                        proof {
                            assert(box_family(c@.len(), self.alphabet@.len() as u64) =~= p.key_family());
                        }
                        adv
                    };
                    let arrangement = decode_keys(self.problem, &self.alphabet, self.fixed, &c);
                    let ok = self.problem.constraint.evaluate(arrangement.as_slice(), self.problem.square_colors.as_slice());
                    let ghost e2 = if ok { self.emitted@.push(arrangement@) } else { self.emitted@ };
                    proof {
                        let next_keys = if advanced { Some(nxt@) } else { None };
                        lemma_step(p, self.emitted@, e2, c@, next_keys, ok);
                        if advanced {
                            lemma_seq_value_monotone(c@, nxt@);
                            lemma_seq_value_bound(nxt@);
                        }
                    }
                    if advanced {
                        self.current = Some(nxt);
                    }
                    if ok {
                        let ghost before = self.emitted@;
                        self.emitted = Ghost(e2);
                        proof {
                            let n = before.len() as int;
                            assert(e2[n] == arrangement@);
                            assert(p.is_solution(e2[n]));
                            assert forall|i: int| 0 <= i < n implies p.precedes(#[trigger] before[i], arrangement@) by {
                                assert(e2[i] == before[i]);
                                assert(p.precedes_rel()(e2[i], e2[n]));
                            }
                            if before.contains(arrangement@) {
                                let i = choose|i: int| 0 <= i < n && before[i] == arrangement@;
                                assert(p.precedes(before[i], arrangement@));
                                lemma_lex_irreflexive(p.keys(arrangement@));
                            }
                        }
                        return Some(arrangement);
                    }
                },
            }
        }
    }
}

} // verus!
