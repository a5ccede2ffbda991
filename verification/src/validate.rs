//! [`Problem::validate`]: checking that a problem is internally
//! consistent.
use std::collections::HashMap;
use vstd::prelude::*;
use crate::constraint::{formulas_upto, lemma_formulas_upto, Constraint, CountOp, Formula};
use crate::problem::{has_code, Problem, ValidationError};
use crate::solver::contains_code;
use crate::{ColorKind, PieceKind};

verus! {

broadcast use vstd::std_specs::hash::group_hash_axioms;

/// The map from each code to the last count declared for it.
pub open spec fn last_counts<P: PieceKind>(counts: Seq<(P, usize)>) -> Map<u64, usize>
    decreases counts.len(),
{
    if counts.len() == 0 {
        Map::empty()
    } else {
        last_counts(counts.drop_last()).insert(counts.last().0.code(), counts.last().1)
    }
}

/// The map of last declared counts has a key exactly for the codes that
/// some entry declares.
pub proof fn lemma_last_counts_keys<P: PieceKind>(counts: Seq<(P, usize)>, c: u64)
    ensures
        last_counts(counts).contains_key(c) == exists|i: int| 0 <= i < counts.len() && (#[trigger] counts[i]).0.code() == c,
    decreases counts.len(),
{
    if counts.len() > 0 {
        let d = counts.drop_last();
        lemma_last_counts_keys(d, c);
        if exists|i: int| 0 <= i < counts.len() && (#[trigger] counts[i]).0.code() == c {
            let i = choose|i: int| 0 <= i < counts.len() && (#[trigger] counts[i]).0.code() == c;
            if i < counts.len() - 1 {
                assert(d[i] == counts[i]);
            }
        }
        if exists|i: int| 0 <= i < d.len() && (#[trigger] d[i]).0.code() == c {
            let i = choose|i: int| 0 <= i < d.len() && (#[trigger] d[i]).0.code() == c;
            assert(d[i] == counts[i]);
        }
    }
}

/// The map of last declared counts maps a code to the count of the last
/// entry that declares it.
pub proof fn lemma_last_counts_value<P: PieceKind>(counts: Seq<(P, usize)>, i: int)
    requires
        0 <= i < counts.len(),
        forall|j: int| i < j < counts.len() ==> (#[trigger] counts[j]).0.code() != counts[i].0.code(),
    ensures
        last_counts(counts).contains_key(counts[i].0.code()),
        last_counts(counts)[counts[i].0.code()] == counts[i].1,
    decreases counts.len(),
{
    let n = counts.len() - 1;
    let d = counts.drop_last();
    if i < n {
        assert(counts[n].0.code() != counts[i].0.code());
        assert forall|j: int| i < j < d.len() implies (#[trigger] d[j]).0.code() != d[i].0.code() by {
            assert(d[j] == counts[j]);
        }
        assert(d[i] == counts[i]);
        lemma_last_counts_value(d, i);
    }
}

impl<P: PieceKind, C: ColorKind> Problem<P, C> {
    /// For each code, the last count declared for it by a
    /// `Count { op: Eq }` at the root or in nested `And`s.
    pub open spec fn declared_counts(self) -> Map<u64, usize> {
        last_counts(self.constraint@.eq_counts())
    }

    /// `p` is of a kind in the alphabet.
    pub open spec fn knows_piece(self, p: P) -> bool {
        has_code(self.pieces@, p.code())
    }

    /// Some square has the colour of `c`.
    pub open spec fn knows_color(self, c: C) -> bool {
        exists|i: int| 0 <= i < self.square_colors@.len() && (#[trigger] self.square_colors@[i]).code() == c.code()
    }

    /// Instance `idx` of the kind of `p` lies at or beyond the count
    /// declared for that kind (when one is declared).
    pub open spec fn instance_error(self, p: P, idx: usize) -> Option<ValidationError> {
        let m = self.declared_counts();
        if m.contains_key(p.code()) && idx >= m[p.code()] {
            Some(ValidationError::InstanceOutOfRange { instance: idx, declared: m[p.code()] })
        } else {
            None
        }
    }

    /// The first problem among the first `k` entries of an `Order` chain.
    pub open spec fn chain_error(self, chain: Seq<(P, usize)>, k: int) -> Option<ValidationError>
        decreases k,
    {
        if k <= 0 {
            None
        } else {
            match self.chain_error(chain, k - 1) {
                Some(e) => Some(e),
                None => if !self.knows_piece(chain[k - 1].0) {
                    Some(ValidationError::UnknownPiece)
                } else {
                    self.instance_error(chain[k - 1].0, chain[k - 1].1)
                },
            }
        }
    }

    /// Once an error is found in a chain prefix, it stays the first one.
    pub proof fn lemma_chain_error_stable(self, chain: Seq<(P, usize)>, k: int, j: int)
        requires
            0 <= k <= j,
            self.chain_error(chain, k) is Some,
        ensures
            self.chain_error(chain, j) == self.chain_error(chain, k),
        decreases j - k,
    {
        if k < j {
            self.lemma_chain_error_stable(chain, k, j - 1);
        }
    }

    /// Once an error is found among the first formulas, it stays the first one.
    pub proof fn lemma_list_error_stable(self, fs: Seq<Formula<P, C>>, k: int, j: int)
        requires
            0 <= k <= j <= fs.len(),
            self.list_error(fs, k) is Some,
        ensures
            self.list_error(fs, j) == self.list_error(fs, k),
        decreases j - k,
    {
        if k < j {
            self.lemma_list_error_stable(fs, k, j - 1);
        }
    }

    /// Two problems with the same views are inconsistent in the same way.
    pub proof fn lemma_validation_views(self, q: Problem<P, C>)
        requires
            q.num_squares == self.num_squares,
            q.square_colors@ == self.square_colors@,
            q.pieces@ == self.pieces@,
            q.constraint@ == self.constraint@,
        ensures
            q.validation() == self.validation(),
    {
        self.lemma_formula_error_views(q, self.constraint@);
    }

    /// [`formula_error`](Self::formula_error) reads only the views.
    proof fn lemma_formula_error_views(self, q: Problem<P, C>, f: Formula<P, C>)
        requires
            q.num_squares == self.num_squares,
            q.square_colors@ == self.square_colors@,
            q.pieces@ == self.pieces@,
            q.constraint@ == self.constraint@,
        ensures
            q.formula_error(f) == self.formula_error(f),
        decreases f, 0int,
    {
        if let Formula::Order(chain) = f {
            self.lemma_chain_error_views(q, chain, chain.len() as int);
        }
        assert(q.node_error(f) == self.node_error(f));
        match f {
            Formula::And(fs) => self.lemma_list_error_views(q, fs, fs.len() as int),
            Formula::Or(fs) => self.lemma_list_error_views(q, fs, fs.len() as int),
            Formula::Not(inner) => self.lemma_formula_error_views(q, *inner),
            _ => {},
        }
    }

    /// [`list_error`](Self::list_error) reads only the views.
    proof fn lemma_list_error_views(self, q: Problem<P, C>, fs: Seq<Formula<P, C>>, k: int)
        requires
            q.num_squares == self.num_squares,
            q.square_colors@ == self.square_colors@,
            q.pieces@ == self.pieces@,
            q.constraint@ == self.constraint@,
        ensures
            q.list_error(fs, k) == self.list_error(fs, k),
        decreases fs, k,
    {
        if 0 < k <= fs.len() {
            self.lemma_list_error_views(q, fs, k - 1);
            self.lemma_formula_error_views(q, fs[k - 1]);
        }
    }

    /// [`chain_error`](Self::chain_error) reads only the views.
    proof fn lemma_chain_error_views(self, q: Problem<P, C>, chain: Seq<(P, usize)>, k: int)
        requires
            q.pieces@ == self.pieces@,
            q.constraint@ == self.constraint@,
        ensures
            q.chain_error(chain, k) == self.chain_error(chain, k),
        decreases k,
    {
        if k > 0 {
            self.lemma_chain_error_views(q, chain, k - 1);
        }
    }

    /// The problem with a single formula node, not looking at its children.
    pub open spec fn node_error(self, f: Formula<P, C>) -> Option<ValidationError> {
        match f {
            Formula::Count { piece, .. } => if !self.knows_piece(piece) {
                Some(ValidationError::UnknownPiece)
            } else {
                None
            },
            Formula::CountOnColor { piece, color, .. } => if !self.knows_piece(piece) {
                Some(ValidationError::UnknownPiece)
            } else if !self.knows_color(color) {
                Some(ValidationError::UnknownColor)
            } else {
                None
            },
            Formula::At { piece, square } => if !self.knows_piece(piece) {
                Some(ValidationError::UnknownPiece)
            } else if square >= self.num_squares {
                Some(ValidationError::SquareOutOfRange { square, num_squares: self.num_squares })
            } else {
                None
            },
            Formula::NotAt { piece, square } => if !self.knows_piece(piece) {
                Some(ValidationError::UnknownPiece)
            } else if square >= self.num_squares {
                Some(ValidationError::SquareOutOfRange { square, num_squares: self.num_squares })
            } else {
                None
            },
            Formula::Order(chain) => self.chain_error(chain, chain.len() as int),
            Formula::Relative { lhs, rhs, .. } => if !self.knows_piece(lhs.0) || !self.knows_piece(rhs.0) {
                Some(ValidationError::UnknownPiece)
            } else {
                match self.instance_error(lhs.0, lhs.1) {
                    Some(e) => Some(e),
                    None => self.instance_error(rhs.0, rhs.1),
                }
            },
            _ => None,
        }
    }

    /// The first problem in `f`, visiting nodes in pre-order.
    pub open spec fn formula_error(self, f: Formula<P, C>) -> Option<ValidationError>
        decreases f, 0int,
    {
        match self.node_error(f) {
            Some(e) => Some(e),
            None => match f {
                Formula::And(fs) => self.list_error(fs, fs.len() as int),
                Formula::Or(fs) => self.list_error(fs, fs.len() as int),
                Formula::Not(inner) => self.formula_error(*inner),
                _ => None,
            },
        }
    }

    /// The first problem among the first `k` formulas of `fs`.
    pub open spec fn list_error(self, fs: Seq<Formula<P, C>>, k: int) -> Option<ValidationError>
        decreases fs, k,
    {
        if k <= 0 || k > fs.len() {
            None
        } else {
            match self.list_error(fs, k - 1) {
                Some(e) => Some(e),
                None => self.formula_error(fs[k - 1]),
            }
        }
    }

    /// The first inconsistency of the problem: a colour list whose length
    /// is neither 0 nor `num_squares`, then the first problem in the
    /// constraint in pre-order.
    pub open spec fn validation(self) -> Option<ValidationError> {
        if self.square_colors@.len() != 0 && self.square_colors@.len() != self.num_squares {
            Some(ValidationError::ColorLengthMismatch {
                expected: self.num_squares,
                actual: self.square_colors@.len() as usize,
            })
        } else {
            self.formula_error(self.constraint@)
        }
    }

    /// Checks that the problem is internally consistent: `square_colors`
    /// is empty or `num_squares` long; every piece a constraint names is
    /// in the alphabet; every colour a `CountOnColor` names is among
    /// `square_colors`; every `At` / `NotAt` square is below
    /// `num_squares`; and every `Order` / `Relative` instance is below
    /// the count declared for its kind, where one is declared. Returns
    /// the first inconsistency found.
    pub fn validate(&self) -> (r: Result<(), ValidationError>)
        ensures
            r == match self.validation() {
                Some(e) => Err(e),
                None => Ok(()),
            },
    {
        if self.square_colors.len() != 0 && self.square_colors.len() != self.num_squares {
            return Err(ValidationError::ColorLengthMismatch {
                expected: self.num_squares,
                actual: self.square_colors.len(),
            });
        }
        let counts = self.constraint.collect_eq_counts();
        let declared = last_count_map(&counts);
        match self.first_error(&self.constraint, &declared) {
            Some(e) => Err(e),
            None => Ok(()),
        }
    }

    /// Whether `p` is of a kind in the alphabet.
    fn knows_piece_exec(&self, p: &P) -> (r: bool)
        ensures
            r == self.knows_piece(*p),
    {
        contains_code(&self.pieces, p.to_code())
    }

    /// Whether some square has the colour of `c`.
    fn knows_color_exec(&self, c: &C) -> (r: bool)
        ensures
            r == self.knows_color(*c),
    {
        let code = c.to_code();
        let mut i: usize = 0;
        while i < self.square_colors.len()
            invariant
                code == c.code(),
                i <= self.square_colors@.len(),
                forall|j: int| 0 <= j < i ==> (#[trigger] self.square_colors@[j]).code() != code,
            decreases self.square_colors.len() - i,
        {
            if self.square_colors[i].to_code() == code {
                return true;
            }
            i = i + 1;
        }
        false
    }

    /// The instance check of an `Order` / `Relative` entry.
    fn instance_error_exec(&self, p: &P, idx: usize, declared: &HashMap<u64, usize>) -> (r: Option<ValidationError>)
        requires
            declared@ == self.declared_counts(),
        ensures
            r == self.instance_error(*p, idx),
    {
        match declared.get(&p.to_code()) {
            Some(n) => {
                if idx >= *n {
                    Some(ValidationError::InstanceOutOfRange { instance: idx, declared: *n })
                } else {
                    None
                }
            },
            None => None,
        }
    }

    /// The first problem in `c`, visiting nodes in pre-order.
    #[verifier::loop_isolation(false)]
    fn first_error(&self, c: &Constraint<P, C>, declared: &HashMap<u64, usize>) -> (r: Option<ValidationError>)
        requires
            declared@ == self.declared_counts(),
        ensures
            r == self.formula_error(c@),
        decreases c,
    {
        match c {
            Constraint::Count { piece, .. } => {
                if !self.knows_piece_exec(piece) {
                    Some(ValidationError::UnknownPiece)
                } else {
                    None
                }
            },
            Constraint::CountOnColor { piece, color, .. } => {
                if !self.knows_piece_exec(piece) {
                    Some(ValidationError::UnknownPiece)
                } else if !self.knows_color_exec(color) {
                    Some(ValidationError::UnknownColor)
                } else {
                    None
                }
            },
            Constraint::At { piece, square } | Constraint::NotAt { piece, square } => {
                if !self.knows_piece_exec(piece) {
                    Some(ValidationError::UnknownPiece)
                } else if *square >= self.num_squares {
                    Some(ValidationError::SquareOutOfRange { square: *square, num_squares: self.num_squares })
                } else {
                    None
                }
            },
            Constraint::Order(chain) => {
                let mut k: usize = 0;
                while k < chain.len()
                    invariant
                        k <= chain@.len(),
                        self.chain_error(chain@, k as int) is None,
                    decreases chain.len() - k,
                {
                    let (p, idx) = chain[k];
                    if !self.knows_piece_exec(&p) {
                        proof {
                            self.lemma_chain_error_stable(chain@, k + 1, chain@.len() as int);
                        }
                        return Some(ValidationError::UnknownPiece);
                    }
                    let e = self.instance_error_exec(&p, idx, declared);
                    if e.is_some() {
                        proof {
                            self.lemma_chain_error_stable(chain@, k + 1, chain@.len() as int);
                        }
                        return e;
                    }
                    k = k + 1;
                }
                None
            },
            Constraint::Relative { lhs, rhs, .. } => {
                if !self.knows_piece_exec(&lhs.0) || !self.knows_piece_exec(&rhs.0) {
                    Some(ValidationError::UnknownPiece)
                } else {
                    match self.instance_error_exec(&lhs.0, lhs.1, declared) {
                        Some(e) => Some(e),
                        None => self.instance_error_exec(&rhs.0, rhs.1, declared),
                    }
                }
            },
            Constraint::And(children) | Constraint::Or(children) => {
                proof {
                    lemma_formulas_upto(children@, children@.len() as int);
                }
                let ghost fs = formulas_upto(children@, children@.len() as int);
                let mut i: usize = 0;
                while i < children.len()
                    invariant
                        i <= children@.len(),
                        self.list_error(fs, i as int) is None,
                    decreases children.len() - i,
                {
                    let e = self.first_error(&children[i], declared);
                    if e.is_some() {
                        proof {
                            assert(fs[i as int] == children@[i as int]@);
                            self.lemma_list_error_stable(fs, i + 1, fs.len() as int);
                        }
                        return e;
                    }
                    i = i + 1;
                }
                None
            },
            Constraint::Not(inner) => self.first_error(inner, declared),
        }
    }
}

/// Builds the map from each code to the last count declared for it.
fn last_count_map<P: PieceKind>(counts: &Vec<(P, usize)>) -> (m: HashMap<u64, usize>)
    ensures
        m@ == last_counts(counts@),
{
    let mut m: HashMap<u64, usize> = HashMap::new();
    let mut i: usize = 0;
    while i < counts.len()
        invariant
            i <= counts@.len(),
            m@ == last_counts(counts@.take(i as int)),
        decreases counts.len() - i,
    {
        let (p, n) = counts[i];
        m.insert(p.to_code(), n);
        proof {
            let t = counts@.take(i + 1);
            assert(t.drop_last() =~= counts@.take(i as int));
            assert(t.last() == counts@[i as int]);
        }
        i = i + 1;
    }
    proof {
        assert(counts@.take(i as int) =~= counts@);
    }
    m
}

/// `g` is `f` itself or a formula nested in it.
pub open spec fn subformula<P, C>(g: Formula<P, C>, f: Formula<P, C>) -> bool
    decreases f, 0int,
{
    g == f || match f {
        Formula::And(fs) => subformula_in(g, fs, fs.len() as int),
        Formula::Or(fs) => subformula_in(g, fs, fs.len() as int),
        Formula::Not(inner) => subformula(g, *inner),
        _ => false,
    }
}

/// `g` is one of the first `k` formulas of `fs` or nested in one.
pub open spec fn subformula_in<P, C>(g: Formula<P, C>, fs: Seq<Formula<P, C>>, k: int) -> bool
    decreases fs, k,
{
    if k <= 0 || k > fs.len() {
        false
    } else {
        subformula_in(g, fs, k - 1) || subformula(g, fs[k - 1])
    }
}

/// The node `g` itself (not its children) names a piece with code `code`.
pub open spec fn names_code<P: PieceKind, C>(g: Formula<P, C>, code: u64) -> bool {
    match g {
        Formula::Count { piece, .. } => piece.code() == code,
        Formula::CountOnColor { piece, .. } => piece.code() == code,
        Formula::At { piece, .. } => piece.code() == code,
        Formula::NotAt { piece, .. } => piece.code() == code,
        Formula::Order(chain) => exists|k: int| 0 <= k < chain.len() && (#[trigger] chain[k]).0.code() == code,
        Formula::Relative { lhs, rhs, .. } => lhs.0.code() == code || rhs.0.code() == code,
        _ => false,
    }
}

/// The node `g` itself names instance `idx` of a piece with code `code`
/// (in an `Order` chain or a side of a `Relative`).
pub open spec fn names_instance<P: PieceKind, C>(g: Formula<P, C>, code: u64, idx: usize) -> bool {
    match g {
        Formula::Order(chain) => exists|k: int|
            0 <= k < chain.len() && (#[trigger] chain[k]).0.code() == code && chain[k].1 == idx,
        Formula::Relative { lhs, rhs, .. } => (lhs.0.code() == code && lhs.1 == idx) || (rhs.0.code() == code
            && rhs.1 == idx),
        _ => false,
    }
}

impl<P: PieceKind, C: ColorKind> Problem<P, C> {
    /// The node `g` is consistent with the problem: each piece it names
    /// has its code among `pieces`; a `CountOnColor` colour has its code
    /// on some square; an `At` / `NotAt` square is on the board; each
    /// instance it names lies below the count declared for its kind.
    pub open spec fn node_consistent(self, g: Formula<P, C>) -> bool {
        &&& forall|code: u64| #[trigger] names_code(g, code) ==> exists|i: int|
            0 <= i < self.pieces@.len() && (#[trigger] self.pieces@[i]).code() == code
        &&& forall|code: u64, idx: usize| #[trigger] names_instance(g, code, idx) ==> !(self.declared_counts().contains_key(code)
            && idx >= self.declared_counts()[code])
        &&& match g {
            Formula::CountOnColor { color, .. } => exists|i: int|
                0 <= i < self.square_colors@.len() && (#[trigger] self.square_colors@[i]).code() == color.code(),
            Formula::At { square, .. } => square < self.num_squares,
            Formula::NotAt { square, .. } => square < self.num_squares,
            _ => true,
        }
    }

    /// The error `e` truly describes the node `g`.
    pub open spec fn node_fault(self, g: Formula<P, C>, e: ValidationError) -> bool {
        match e {
            ValidationError::UnknownPiece => exists|code: u64|
                #[trigger] names_code(g, code) && forall|i: int|
                    0 <= i < self.pieces@.len() ==> (#[trigger] self.pieces@[i]).code() != code,
            ValidationError::UnknownColor => match g {
                Formula::CountOnColor { color, .. } => forall|i: int|
                    0 <= i < self.square_colors@.len() ==> (#[trigger] self.square_colors@[i]).code() != color.code(),
                _ => false,
            },
            ValidationError::SquareOutOfRange { square, num_squares } => {
                &&& num_squares == self.num_squares
                &&& square >= num_squares
                &&& (g == Formula::<P, C>::At { piece: g->At_piece, square } || g == Formula::<P, C>::NotAt {
                    piece: g->NotAt_piece,
                    square,
                })
            },
            ValidationError::InstanceOutOfRange { instance, declared } => exists|code: u64|
                #[trigger] names_instance(g, code, instance) && self.declared_counts().contains_key(code)
                    && self.declared_counts()[code] == declared && instance >= declared,
            ValidationError::ColorLengthMismatch { .. } => false,
        }
    }

    /// With no error in the first `k` entries of a chain, each of them
    /// names a known piece and an instance in range.
    proof fn lemma_chain_none(self, chain: Seq<(P, usize)>, k: int)
        requires
            0 <= k <= chain.len(),
            self.chain_error(chain, k) is None,
        ensures
            forall|j: int| 0 <= j < k ==> self.knows_piece(#[trigger] chain[j].0) && self.instance_error(
                chain[j].0,
                chain[j].1,
            ) is None,
        decreases k,
    {
        if k > 0 {
            self.lemma_chain_none(chain, k - 1);
        }
    }

    /// An error in the first `k` entries of a chain comes from one entry:
    /// its piece is unknown, or its instance is out of range.
    proof fn lemma_chain_some(self, chain: Seq<(P, usize)>, k: int, e: ValidationError)
        requires
            0 <= k <= chain.len(),
            self.chain_error(chain, k) == Some(e),
        ensures
            exists|j: int|
                0 <= j < k && ((e == ValidationError::UnknownPiece && !self.knows_piece(#[trigger] chain[j].0))
                    || self.instance_error(chain[j].0, chain[j].1) == Some(e)),
        decreases k,
    {
        if self.chain_error(chain, k - 1) is Some {
            self.lemma_chain_some(chain, k - 1, e);
            let j = choose|j: int|
                0 <= j < k - 1 && ((e == ValidationError::UnknownPiece && !self.knows_piece(#[trigger] chain[j].0))
                    || self.instance_error(chain[j].0, chain[j].1) == Some(e));
            assert(0 <= j < k);
        }
    }

    /// A node that `node_error` passes is consistent with the problem.
    proof fn lemma_node_none(self, g: Formula<P, C>)
        requires
            self.node_error(g) is None,
        ensures
            self.node_consistent(g),
    {
        match g {
            Formula::Order(chain) => {
                self.lemma_chain_none(chain, chain.len() as int);
                assert forall|code: u64| #[trigger] names_code(g, code) implies exists|i: int|
                    0 <= i < self.pieces@.len() && (#[trigger] self.pieces@[i]).code() == code by {
                    let k = choose|k: int| 0 <= k < chain.len() && (#[trigger] chain[k]).0.code() == code;
                    assert(self.knows_piece(chain[k].0));
                }
                assert forall|code: u64, idx: usize| #[trigger] names_instance(g, code, idx) implies !(
                self.declared_counts().contains_key(code) && idx >= self.declared_counts()[code]) by {
                    let k = choose|k: int| 0 <= k < chain.len() && (#[trigger] chain[k]).0.code() == code && chain[k].1 == idx;
                    assert(self.instance_error(chain[k].0, chain[k].1) is None);
                }
            },
            _ => {},
        }
    }

    /// An instance error of an instance that the node names truly
    /// describes the node.
    proof fn lemma_instance_fault(self, g: Formula<P, C>, p: P, idx: usize, e: ValidationError)
        requires
            names_instance(g, p.code(), idx),
            self.instance_error(p, idx) == Some(e),
        ensures
            self.node_fault(g, e),
    {
        let m = self.declared_counts();
        assert(e == ValidationError::InstanceOutOfRange { instance: idx, declared: m[p.code()] });
        assert(m.contains_key(p.code()) && m[p.code()] == e->declared && idx == e->instance);
    }

    /// An error that `node_error` reports truly describes the node.
    proof fn lemma_node_some(self, g: Formula<P, C>, e: ValidationError)
        requires
            self.node_error(g) == Some(e),
        ensures
            self.node_fault(g, e),
    {
        match g {
            Formula::Count { piece, .. } => {
                assert(names_code(g, piece.code()));
            },
            Formula::CountOnColor { piece, .. } => {
                assert(names_code(g, piece.code()));
            },
            Formula::At { piece, .. } => {
                assert(names_code(g, piece.code()));
            },
            Formula::NotAt { piece, .. } => {
                assert(names_code(g, piece.code()));
            },
            Formula::Order(chain) => {
                self.lemma_chain_some(chain, chain.len() as int, e);
                let j = choose|j: int|
                    0 <= j < chain.len() && ((e == ValidationError::UnknownPiece && !self.knows_piece(#[trigger] chain[j].0))
                        || self.instance_error(chain[j].0, chain[j].1) == Some(e));
                assert(names_code(g, chain[j].0.code()));
                if e == ValidationError::UnknownPiece && !self.knows_piece(chain[j].0) {
                    assert(!has_code(self.pieces@, chain[j].0.code()));
                    assert(self.node_fault(g, e));
                } else {
                    self.lemma_instance_fault(g, chain[j].0, chain[j].1, e);
                }
            },
            Formula::Relative { lhs, rhs, .. } => {
                if !self.knows_piece(lhs.0) {
                    assert(!has_code(self.pieces@, lhs.0.code()));
                    assert(names_code(g, lhs.0.code()));
                    assert(self.node_fault(g, e));
                } else if !self.knows_piece(rhs.0) {
                    assert(!has_code(self.pieces@, rhs.0.code()));
                    assert(names_code(g, rhs.0.code()));
                    assert(self.node_fault(g, e));
                } else if self.instance_error(lhs.0, lhs.1) is Some {
                    self.lemma_instance_fault(g, lhs.0, lhs.1, e);
                } else {
                    self.lemma_instance_fault(g, rhs.0, rhs.1, e);
                }
            },
            _ => {},
        }
    }
    /// With no error in `f`, `node_error` passes every node of `f`.
    proof fn lemma_formula_error_none(self, f: Formula<P, C>)
        requires
            self.formula_error(f) is None,
        ensures
            forall|g: Formula<P, C>| #[trigger] subformula(g, f) ==> self.node_error(g) is None,
        decreases f, 0int,
    {
        match f {
            Formula::And(fs) => self.lemma_list_error_none(fs, fs.len() as int),
            Formula::Or(fs) => self.lemma_list_error_none(fs, fs.len() as int),
            Formula::Not(inner) => self.lemma_formula_error_none(*inner),
            _ => {},
        }
        assert forall|g: Formula<P, C>| #[trigger] subformula(g, f) implies self.node_error(g) is None by {
            if g != f {
                match f {
                    Formula::And(fs) => assert(subformula_in(g, fs, fs.len() as int)),
                    Formula::Or(fs) => assert(subformula_in(g, fs, fs.len() as int)),
                    Formula::Not(inner) => assert(subformula(g, *inner)),
                    _ => {},
                }
            }
        }
    }

    /// With no error among the first `k` formulas of `fs`, `node_error`
    /// passes every node in them.
    proof fn lemma_list_error_none(self, fs: Seq<Formula<P, C>>, k: int)
        requires
            0 <= k <= fs.len(),
            self.list_error(fs, k) is None,
        ensures
            forall|g: Formula<P, C>| #[trigger] subformula_in(g, fs, k) ==> self.node_error(g) is None,
        decreases fs, k,
    {
        if k > 0 {
            self.lemma_list_error_none(fs, k - 1);
            self.lemma_formula_error_none(fs[k - 1]);
            assert forall|g: Formula<P, C>| #[trigger] subformula_in(g, fs, k) implies self.node_error(g) is None by {
                if !subformula_in(g, fs, k - 1) {
                    assert(subformula(g, fs[k - 1]));
                }
            }
        }
    }

    /// An error in `f` is the error of some node of `f`.
    proof fn lemma_formula_error_some(self, f: Formula<P, C>, e: ValidationError)
        requires
            self.formula_error(f) == Some(e),
        ensures
            exists|g: Formula<P, C>| #[trigger] subformula(g, f) && self.node_error(g) == Some(e),
        decreases f, 0int,
    {
        if self.node_error(f) is Some {
            assert(subformula(f, f));
        } else {
            match f {
                Formula::And(fs) => {
                    self.lemma_list_error_some(fs, fs.len() as int, e);
                    let g = choose|g: Formula<P, C>| #[trigger] subformula_in(g, fs, fs.len() as int) && self.node_error(g) == Some(e);
                    assert(subformula(g, f));
                },
                Formula::Or(fs) => {
                    self.lemma_list_error_some(fs, fs.len() as int, e);
                    let g = choose|g: Formula<P, C>| #[trigger] subformula_in(g, fs, fs.len() as int) && self.node_error(g) == Some(e);
                    assert(subformula(g, f));
                },
                Formula::Not(inner) => {
                    self.lemma_formula_error_some(*inner, e);
                    let g = choose|g: Formula<P, C>| #[trigger] subformula(g, *inner) && self.node_error(g) == Some(e);
                    assert(subformula(g, f));
                },
                _ => {},
            }
        }
    }

    /// An error among the first `k` formulas of `fs` is the error of some
    /// node in them.
    proof fn lemma_list_error_some(self, fs: Seq<Formula<P, C>>, k: int, e: ValidationError)
        requires
            0 <= k <= fs.len(),
            self.list_error(fs, k) == Some(e),
        ensures
            exists|g: Formula<P, C>| #[trigger] subformula_in(g, fs, k) && self.node_error(g) == Some(e),
        decreases fs, k,
    {
        if self.list_error(fs, k - 1) is Some {
            self.lemma_list_error_some(fs, k - 1, e);
            let g = choose|g: Formula<P, C>| #[trigger] subformula_in(g, fs, k - 1) && self.node_error(g) == Some(e);
            assert(subformula_in(g, fs, k));
        } else {
            self.lemma_formula_error_some(fs[k - 1], e);
            let g = choose|g: Formula<P, C>| #[trigger] subformula(g, fs[k - 1]) && self.node_error(g) == Some(e);
            assert(subformula_in(g, fs, k));
        }
    }

    /// A problem that validates is consistent: its colour list is empty or
    /// one colour per square, and every node of its constraint is
    /// consistent with it (each piece named is in `pieces`, each
    /// `CountOnColor` colour is on some square, each `At` / `NotAt` square
    /// is on the board, each instance named is below its declared count).
    pub proof fn lemma_validation_sound(self)
        requires
            self.validation() is None,
        ensures
            self.square_colors@.len() == 0 || self.square_colors@.len() == self.num_squares,
            forall|g: Formula<P, C>| #[trigger] subformula(g, self.constraint@) ==> self.node_consistent(g),
    {
        self.lemma_formula_error_none(self.constraint@);
        assert forall|g: Formula<P, C>| #[trigger] subformula(g, self.constraint@) implies self.node_consistent(g) by {
            self.lemma_node_none(g);
        }
    }

    /// Each error that validation reports is true of the problem: a colour
    /// list length mismatch carries `num_squares` and the list's length,
    /// which is neither 0 nor `num_squares`, and comes whenever that is so;
    /// any other error truly describes some node of the constraint.
    pub proof fn lemma_validation_errors(self)
        ensures
            self.square_colors@.len() != 0 && self.square_colors@.len() != self.num_squares ==> self.validation()
                == Some(
                ValidationError::ColorLengthMismatch {
                    expected: self.num_squares,
                    actual: self.square_colors@.len() as usize,
                },
            ),
            match self.validation() {
                Some(ValidationError::ColorLengthMismatch { expected, actual }) => {
                    &&& expected == self.num_squares
                    &&& actual == self.square_colors@.len()
                    &&& actual != 0
                    &&& actual != expected
                },
                Some(e) => exists|g: Formula<P, C>| #[trigger] subformula(g, self.constraint@) && self.node_fault(g, e),
                None => true,
            },
    {
        assert(self.square_colors.len() == self.square_colors@.len());
        if self.validation() is Some && !(self.square_colors@.len() != 0 && self.square_colors@.len() != self.num_squares) {
            let e = self.validation()->0;
            self.lemma_formula_error_some(self.constraint@, e);
            let g = choose|g: Formula<P, C>| #[trigger] subformula(g, self.constraint@) && self.node_error(g) == Some(e);
            self.lemma_node_some(g, e);
        }
    }
}

} // verus!
