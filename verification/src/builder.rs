//! [`ProblemBuilder`]: fluent construction of a [`Problem`].
use vstd::prelude::*;
use crate::constraint::{formulas_upto, lemma_formulas_upto, Constraint, Formula, SquareColor};
use crate::problem::{Problem, ValidationError};
use crate::{ColorKind, PieceKind};

verus! {

/// Fluent builder for [`Problem`]. Every method consumes the builder and
/// returns the updated one; finish with [`build`](Self::build).
#[derive(Clone, Debug)]
pub struct ProblemBuilder<P: PieceKind, C: ColorKind = SquareColor> {
    num_squares: usize,
    square_colors: Vec<C>,
    pieces: Vec<P>,
    constraints: Vec<Constraint<P, C>>,
}

impl<P: PieceKind, C: ColorKind> ProblemBuilder<P, C> {
    /// The board size set so far.
    pub closed spec fn spec_num_squares(self) -> usize {
        self.num_squares
    }

    /// The square colours set so far.
    pub closed spec fn spec_square_colors(self) -> Seq<C> {
        self.square_colors@
    }

    /// The alphabet set so far.
    pub closed spec fn spec_pieces(self) -> Seq<P> {
        self.pieces@
    }

    /// The formulas of the constraints added so far.
    pub closed spec fn spec_constraints(self) -> Seq<Formula<P, C>> {
        formulas_upto(self.constraints@, self.constraints@.len() as int)
    }

    /// Returns a fresh empty builder.
    pub fn new() -> (b: Self)
        ensures
            b.spec_num_squares() == 0,
            b.spec_square_colors() == Seq::<C>::empty(),
            b.spec_pieces() == Seq::<P>::empty(),
            b.spec_constraints() == Seq::<Formula<P, C>>::empty(),
    {
        ProblemBuilder { num_squares: 0, square_colors: Vec::new(), pieces: Vec::new(), constraints: Vec::new() }
    }
}


impl<P: PieceKind, C: ColorKind> ProblemBuilder<P, C> {
    /// Sets the board size.
    pub fn squares(self, n: usize) -> (b: Self)
        ensures
            b.spec_num_squares() == n,
            b.spec_square_colors() == self.spec_square_colors(),
            b.spec_pieces() == self.spec_pieces(),
            b.spec_constraints() == self.spec_constraints(),
    {
        ProblemBuilder { num_squares: n, ..self }
    }

    /// Sets the square colours. A list whose length is neither 0 nor the
    /// board size is no build error, but the problem then has no solution.
    pub fn colors(self, colors: Vec<C>) -> (b: Self)
        ensures
            b.spec_num_squares() == self.spec_num_squares(),
            b.spec_square_colors() == colors@,
            b.spec_pieces() == self.spec_pieces(),
            b.spec_constraints() == self.spec_constraints(),
    {
        ProblemBuilder { square_colors: colors, ..self }
    }

    /// Colours the board (of the size set so far) alternately with
    /// `first` (even squares) and `second` (odd squares).
    pub fn alternating_colors(self, first: C, second: C) -> (b: Self)
        ensures
            b.spec_num_squares() == self.spec_num_squares(),
            b.spec_square_colors().len() == self.spec_num_squares(),
            forall|i: int| 0 <= i < self.spec_num_squares() ==> #[trigger] b.spec_square_colors()[i] == (if i % 2 == 0 { first } else { second }),
            b.spec_pieces() == self.spec_pieces(),
            b.spec_constraints() == self.spec_constraints(),
    {
        let colors = crate::alternating(self.num_squares, first, second);
        ProblemBuilder { square_colors: colors, ..self }
    }

    /// Colours every square of the board (of the size set so far) `c`.
    pub fn uniform_colors(self, c: C) -> (b: Self)
        ensures
            b.spec_num_squares() == self.spec_num_squares(),
            b.spec_square_colors().len() == self.spec_num_squares(),
            forall|i: int| 0 <= i < self.spec_num_squares() ==> #[trigger] b.spec_square_colors()[i] == c,
            b.spec_pieces() == self.spec_pieces(),
            b.spec_constraints() == self.spec_constraints(),
    {
        let colors = crate::uniform(self.num_squares, c);
        ProblemBuilder { square_colors: colors, ..self }
    }

    /// Colours square `i` of the board (of the size set so far) `f(i)`.
    pub fn colors_fn<F: Fn(usize) -> C>(self, f: F) -> (b: Self)
        requires
            forall|i: usize| i < self.spec_num_squares() ==> #[trigger] f.requires((i,)),
        ensures
            b.spec_num_squares() == self.spec_num_squares(),
            b.spec_square_colors().len() == self.spec_num_squares(),
            forall|i: int| 0 <= i < self.spec_num_squares() ==> f.ensures((i as usize,), #[trigger] b.spec_square_colors()[i]),
            b.spec_pieces() == self.spec_pieces(),
            b.spec_constraints() == self.spec_constraints(),
    {
        let n = self.num_squares;
        let mut colors: Vec<C> = Vec::new();
        let mut i: usize = 0;
        while i < n
            invariant
                n == self.spec_num_squares(),
                forall|j: usize| j < n ==> #[trigger] f.requires((j,)),
                i <= n,
                colors@.len() == i,
                forall|j: int| 0 <= j < i ==> f.ensures((j as usize,), #[trigger] colors@[j]),
            decreases n - i,
        {
            let c = f(i);
            colors.push(c);
            i = i + 1;
        }
        ProblemBuilder { square_colors: colors, ..self }
    }

    /// Replaces the alphabet.
    pub fn pieces<const N: usize>(self, alphabet: [P; N]) -> (b: Self)
        ensures
            b.spec_num_squares() == self.spec_num_squares(),
            b.spec_square_colors() == self.spec_square_colors(),
            b.spec_pieces() == alphabet@,
            b.spec_constraints() == self.spec_constraints(),
    {
        let mut pieces: Vec<P> = Vec::new();
        let mut i: usize = 0;
        while i < N
            invariant
                i <= N,
                alphabet@.len() == N,
                pieces@ == alphabet@.take(i as int),
            decreases N - i,
        {
            pieces.push(alphabet[i]);
            proof {
                assert(alphabet@.take(i + 1) =~= alphabet@.take(i as int).push(alphabet@[i as int]));
            }
            i = i + 1;
        }
        proof {
            assert(alphabet@.take(i as int) =~= alphabet@);
        }
        ProblemBuilder { pieces, ..self }
    }

    /// Appends `p` to the alphabet.
    pub fn piece(self, p: P) -> (b: Self)
        ensures
            b.spec_num_squares() == self.spec_num_squares(),
            b.spec_square_colors() == self.spec_square_colors(),
            b.spec_pieces() == self.spec_pieces().push(p),
            b.spec_constraints() == self.spec_constraints(),
    {
        let mut b = self;
        b.pieces.push(p);
        b
    }

    /// Appends a constraint; [`build`](Self::build) AND-composes them.
    pub fn constraint(self, c: Constraint<P, C>) -> (b: Self)
        ensures
            b.spec_num_squares() == self.spec_num_squares(),
            b.spec_square_colors() == self.spec_square_colors(),
            b.spec_pieces() == self.spec_pieces(),
            b.spec_constraints() == self.spec_constraints().push(c@),
    {
        let mut b = self;
        let ghost before = b.constraints@;
        b.constraints.push(c);
        proof {
            lemma_formulas_upto(before, before.len() as int);
            lemma_formulas_upto(b.constraints@, b.constraints@.len() as int);
            assert(formulas_upto(b.constraints@, b.constraints@.len() as int) =~= formulas_upto(before, before.len() as int).push(c@));
        }
        b
    }

    /// `p` is what [`build`](Self::build) makes of this builder.
    pub open spec fn builds(self, p: Problem<P, C>) -> bool {
        &&& p.num_squares == self.spec_num_squares()
        &&& p.square_colors@ == self.spec_square_colors()
        &&& p.pieces@ == self.spec_pieces()
        &&& p.constraint@ == if self.spec_constraints().len() == 1 {
            self.spec_constraints()[0]
        } else {
            Formula::And(self.spec_constraints())
        }
    }

    /// Finishes into a [`Problem`] without validating it. No constraint
    /// gives `And(vec![])`, a single one is stored bare, several are
    /// wrapped in `And`.
    pub fn build(self) -> (p: Problem<P, C>)
        ensures
            self.builds(p),
    {
        proof {
            lemma_formulas_upto(self.constraints@, self.constraints@.len() as int);
        }
        let mut constraints = self.constraints;
        let constraint = if constraints.len() == 1 {
            constraints.pop().unwrap()
        } else {
            Constraint::And(constraints)
        };
        Problem { num_squares: self.num_squares, square_colors: self.square_colors, pieces: self.pieces, constraint }
    }
}


impl<P: PieceKind, C: ColorKind> ProblemBuilder<P, C> {
    /// Like [`build`](Self::build), but returns the first inconsistency
    /// [`Problem::validate`] finds instead of an inconsistent problem.
    pub fn try_build(self) -> (r: Result<Problem<P, C>, ValidationError>)
        ensures
            match r {
                Ok(p) => self.builds(p) && p.validation() is None,
                Err(e) => {
                    &&& exists|p: Problem<P, C>| self.builds(p) && p.validation() == Some(e)
                    &&& forall|p: Problem<P, C>| #[trigger] self.builds(p) ==> p.validation() == Some(e)
                },
            },
    {
        let problem = self.build();
        match problem.validate() {
            Ok(()) => Ok(problem),
            Err(e) => {
                proof {
                    // What `build` makes is fixed up to the views, which
                    // are all that validation reads.
                    assert forall|q: Problem<P, C>| #[trigger] self.builds(q) implies q.validation() == Some(e) by {
                        problem.lemma_validation_views(q);
                    }
                }
                Err(e)
            },
        }
    }
}

impl<P: PieceKind, C: ColorKind> Default for ProblemBuilder<P, C> {
    fn default() -> (b: Self)
        ensures
            b.spec_num_squares() == 0,
            b.spec_square_colors() == Seq::<C>::empty(),
            b.spec_pieces() == Seq::<P>::empty(),
            b.spec_constraints() == Seq::<Formula<P, C>>::empty(),
    {
        Self::new()
    }
}

} // verus!
