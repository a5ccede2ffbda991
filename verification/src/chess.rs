//! Ready-made presets for the canonical 8-square back-rank shuffles
//! (standard, full shuffle, Chess2880, Chess960), and the Chess960
//! starting-position numbering.
use vstd::prelude::*;
use crate::constraint::{formulas_upto, lemma_formulas_upto, Constraint, CountOp, Formula, SquareColor};
use crate::problem::{reservoir, Problem};
use crate::{alternating, PieceKind};

pub mod file;
pub mod numbering;
pub mod positions;
pub mod layouts;

use positions::lemma_chess960_count;

verus! {

/// The five back-rank piece kinds. Pawns never stand on the back rank.
#[derive(Clone, Copy, Debug, PartialEq, Eq, Structural, Hash, PartialOrd, Ord)]
pub enum Piece {
    /// King.
    King,
    /// Queen.
    Queen,
    /// Rook.
    Rook,
    /// Bishop.
    Bishop,
    /// Knight.
    Knight,
}

impl PieceKind for Piece {
    open spec fn code(&self) -> u64 {
        match self {
            Piece::King => 0,
            Piece::Queen => 1,
            Piece::Rook => 2,
            Piece::Bishop => 3,
            Piece::Knight => 4,
        }
    }

    fn to_code(&self) -> (r: u64) {
        match self {
            Piece::King => 0,
            Piece::Queen => 1,
            Piece::Rook => 2,
            Piece::Bishop => 3,
            Piece::Knight => 4,
        }
    }
}

impl Piece {
    /// The piece's letter in algebraic notation, white-side upper case.
    pub fn letter(&self) -> (c: char)
        ensures
            c == match self {
                Piece::King => 'K',
                Piece::Queen => 'Q',
                Piece::Rook => 'R',
                Piece::Bishop => 'B',
                Piece::Knight => 'N',
            },
    {
        match self {
            Piece::King => 'K',
            Piece::Queen => 'Q',
            Piece::Rook => 'R',
            Piece::Bishop => 'B',
            Piece::Knight => 'N',
        }
    }
}

/// The FIDE standard back rank, a1 to h1.
pub const STANDARD_BACK_RANK: [Piece; 8] = [
    Piece::Rook,
    Piece::Knight,
    Piece::Bishop,
    Piece::Queen,
    Piece::King,
    Piece::Bishop,
    Piece::Knight,
    Piece::Rook,
];

/// The FIDE standard back rank as a sequence.
pub open spec fn standard_rank() -> Seq<Piece> {
    seq![
        Piece::Rook,
        Piece::Knight,
        Piece::Bishop,
        Piece::Queen,
        Piece::King,
        Piece::Bishop,
        Piece::Knight,
        Piece::Rook,
    ]
}

/// The colour of back-rank square `i`: a1 is dark, then alternating.
pub open spec fn back_rank_color(i: int) -> SquareColor {
    if i % 2 == 0 {
        SquareColor::Dark
    } else {
        SquareColor::Light
    }
}

/// Returns the 8-square back-rank colouring: a1 dark, then alternating.
pub fn back_rank_colors() -> (r: Vec<SquareColor>)
    ensures
        r@.len() == 8,
        forall|i: int| 0 <= i < 8 ==> #[trigger] r@[i] == back_rank_color(i),
{
    alternating(8, SquareColor::Dark, SquareColor::Light)
}

/// The alphabet of back-rank piece kinds.
pub open spec fn back_rank_alphabet() -> Seq<Piece> {
    seq![Piece::King, Piece::Queen, Piece::Rook, Piece::Bishop, Piece::Knight]
}

/// Returns the alphabet of back-rank piece kinds.
fn alphabet() -> (r: Vec<Piece>)
    ensures
        r@ == back_rank_alphabet(),
{
    let r = vec![Piece::King, Piece::Queen, Piece::Rook, Piece::Bishop, Piece::Knight];
    assert(r@ =~= back_rank_alphabet());
    r
}

/// The count formulas of the back-rank multiset KQRRBBNN.
pub open spec fn count_formulas() -> Seq<Formula<Piece, SquareColor>> {
    seq![
        Formula::Count { piece: Piece::King, op: CountOp::Eq, value: 1 },
        Formula::Count { piece: Piece::Queen, op: CountOp::Eq, value: 1 },
        Formula::Count { piece: Piece::Rook, op: CountOp::Eq, value: 2 },
        Formula::Count { piece: Piece::Bishop, op: CountOp::Eq, value: 2 },
        Formula::Count { piece: Piece::Knight, op: CountOp::Eq, value: 2 },
    ]
}

/// One bishop on a light square and one on a dark square.
pub open spec fn bishop_color_formulas() -> Seq<Formula<Piece, SquareColor>> {
    seq![
        Formula::CountOnColor { piece: Piece::Bishop, color: SquareColor::Light, op: CountOp::Eq, value: 1 },
        Formula::CountOnColor { piece: Piece::Bishop, color: SquareColor::Dark, op: CountOp::Eq, value: 1 },
    ]
}

/// The king strictly between the two rooks.
pub open spec fn king_between_rooks() -> Formula<Piece, SquareColor> {
    Formula::Order(seq![(Piece::Rook, 0usize), (Piece::King, 0usize), (Piece::Rook, 1usize)])
}

/// Every piece of the standard back rank pinned to its square.
pub open spec fn standard_formulas() -> Seq<Formula<Piece, SquareColor>> {
    Seq::new(8, |i: int| Formula::At { piece: standard_rank()[i], square: i as usize })
}

/// Returns the five `Count { op: Eq }` constraints fixing the
/// back-rank multiset KQRRBBNN.
fn back_rank_counts() -> (r: Vec<Constraint<Piece>>)
    ensures
        formulas_upto(r@, r@.len() as int) == count_formulas(),
{
    let r = vec![
        Constraint::Count { piece: Piece::King, op: CountOp::Eq, value: 1 },
        Constraint::Count { piece: Piece::Queen, op: CountOp::Eq, value: 1 },
        Constraint::Count { piece: Piece::Rook, op: CountOp::Eq, value: 2 },
        Constraint::Count { piece: Piece::Bishop, op: CountOp::Eq, value: 2 },
        Constraint::Count { piece: Piece::Knight, op: CountOp::Eq, value: 2 },
    ];
    proof {
        lemma_formulas_upto(r@, r@.len() as int);
        assert(formulas_upto(r@, r@.len() as int) =~= count_formulas());
    }
    r
}

/// A back-rank problem: 8 squares, the back-rank colouring and
/// alphabet, and the given root formula.
pub open spec fn is_back_rank_problem(p: Problem<Piece>, f: Formula<Piece, SquareColor>) -> bool {
    &&& p.num_squares == 8
    &&& p.square_colors@.len() == 8
    &&& forall|i: int| 0 <= i < 8 ==> #[trigger] p.square_colors@[i] == back_rank_color(i)
    &&& p.pieces@ == back_rank_alphabet()
    &&& p.constraint@ == f
}

/// Appends `c` to `v`, keeping track of the formulas.
fn push_constraint(v: &mut Vec<Constraint<Piece>>, c: Constraint<Piece>)
    ensures
        formulas_upto(final(v)@, final(v)@.len() as int) == formulas_upto(old(v)@, old(v)@.len() as int).push(c@),
{
    let ghost before = v@;
    v.push(c);
    proof {
        lemma_formulas_upto(before, before.len() as int);
        lemma_formulas_upto(v@, v@.len() as int);
        assert(formulas_upto(v@, v@.len() as int) =~= formulas_upto(before, before.len() as int).push(c@));
    }
}

/// Preset: only the FIDE standard back rank (one arrangement).
pub fn standard() -> (p: Problem<Piece>)
    ensures
        is_back_rank_problem(p, Formula::And(count_formulas() + standard_formulas())),
        forall|e: Seq<Seq<Piece>>| #[trigger] p.lists(e) ==> e == seq![standard_rank()],
{
    let mut constraints = back_rank_counts();
    let mut i: usize = 0;
    while i < 8
        invariant
            i <= 8,
            formulas_upto(constraints@, constraints@.len() as int) == count_formulas() + standard_formulas().take(i as int),
        decreases 8 - i,
    {
        let piece = STANDARD_BACK_RANK[i];
        proof {
            assert(STANDARD_BACK_RANK@ =~= standard_rank());
        }
        push_constraint(&mut constraints, Constraint::At { piece, square: i });
        proof {
            assert(standard_formulas().take(i + 1) =~= standard_formulas().take(i as int).push(Formula::At { piece, square: i }));
        }
        i = i + 1;
    }
    proof {
        assert(standard_formulas().take(8) =~= standard_formulas());
    }
    let p = Problem {
        num_squares: 8,
        square_colors: back_rank_colors(),
        pieces: alphabet(),
        constraint: Constraint::And(constraints),
    };
    proof {
        assert forall|e: Seq<Seq<Piece>>| #[trigger] p.lists(e) implies e == seq![standard_rank()] by {
            positions::lemma_standard_listing(p, e);
        }
    }
    p
}

/// Preset: any arrangement of KQRRBBNN (5040 arrangements).
pub fn shuffle() -> (p: Problem<Piece>)
    ensures
        is_back_rank_problem(p, Formula::And(count_formulas())),
        forall|e: Seq<Seq<Piece>>| #[trigger] p.lists(e) ==> e.len() == 5040,
{
    let p = Problem {
        num_squares: 8,
        square_colors: back_rank_colors(),
        pieces: alphabet(),
        constraint: Constraint::And(back_rank_counts()),
    };
    proof {
        assert forall|e: Seq<Seq<Piece>>| #[trigger] p.lists(e) implies e.len() == 5040 by {
            layouts::lemma_shuffle_count(p, e);
        }
    }
    p
}

/// Returns the back-rank counts followed by the bishops-on-opposite-colours
/// constraints.
fn counts_and_bishop_colors() -> (r: Vec<Constraint<Piece>>)
    ensures
        formulas_upto(r@, r@.len() as int) == count_formulas() + bishop_color_formulas(),
{
    let mut constraints = back_rank_counts();
    push_constraint(
        &mut constraints,
        Constraint::CountOnColor { piece: Piece::Bishop, color: SquareColor::Light, op: CountOp::Eq, value: 1 },
    );
    push_constraint(
        &mut constraints,
        Constraint::CountOnColor { piece: Piece::Bishop, color: SquareColor::Dark, op: CountOp::Eq, value: 1 },
    );
    proof {
        assert(count_formulas().push(bishop_color_formulas()[0]).push(bishop_color_formulas()[1]) =~= count_formulas()
            + bishop_color_formulas());
    }
    constraints
}

/// Preset: KQRRBBNN with the bishops on opposite colours (2880
/// arrangements).
pub fn chess_2880() -> (p: Problem<Piece>)
    ensures
        is_back_rank_problem(p, Formula::And(count_formulas() + bishop_color_formulas())),
        forall|e: Seq<Seq<Piece>>| #[trigger] p.lists(e) ==> e.len() == 2880,
{
    let p = Problem {
        num_squares: 8,
        square_colors: back_rank_colors(),
        pieces: alphabet(),
        constraint: Constraint::And(counts_and_bishop_colors()),
    };
    proof {
        assert forall|e: Seq<Seq<Piece>>| #[trigger] p.lists(e) implies e.len() == 2880 by {
            layouts::lemma_chess2880_count(p, e);
        }
    }
    p
}

/// The root formula of the Chess960 preset.
pub open spec fn chess960_formula() -> Formula<Piece, SquareColor> {
    Formula::And(count_formulas() + bishop_color_formulas() + seq![king_between_rooks()])
}

/// Preset: KQRRBBNN with the bishops on opposite colours and the king
/// strictly between the rooks: the 960 Chess960 starting positions.
pub fn chess_960() -> (p: Chess960Problem)
    ensures
        is_back_rank_problem(p.problem(), chess960_formula()),
{
    let mut constraints = counts_and_bishop_colors();
    let chain = vec![(Piece::Rook, 0usize), (Piece::King, 0usize), (Piece::Rook, 1usize)];
    let order = Constraint::Order(chain);
    proof {
        assert(chain@ =~= seq![(Piece::Rook, 0usize), (Piece::King, 0usize), (Piece::Rook, 1usize)]);
    }
    push_constraint(&mut constraints, order);
    proof {
        assert((count_formulas() + bishop_color_formulas()).push(king_between_rooks()) =~= count_formulas()
            + bishop_color_formulas() + seq![king_between_rooks()]);
    }
    Chess960Problem {
        inner: Problem {
            num_squares: 8,
            square_colors: back_rank_colors(),
            pieces: alphabet(),
            constraint: Constraint::And(constraints),
        },
    }
}

/// The Chess960 preset, returned by [`chess_960`]: the generic problem
/// plus the official starting-position numbering (SP-ID).
#[derive(Debug)]
pub struct Chess960Problem {
    inner: Problem<Piece>,
}

impl Chess960Problem {
    /// Number of Chess960 starting positions.
    pub const COUNT: u32 = 960;

    /// The underlying generic problem.
    pub closed spec fn problem(self) -> Problem<Piece> {
        self.inner
    }

    /// The wrapped problem is always the Chess960 back-rank problem.
    #[verifier::type_invariant]
    spec fn wraps_chess960(self) -> bool {
        is_back_rank_problem(self.inner, chess960_formula())
    }

    /// Number of arrangements satisfying the constraint: always 960.
    pub fn count(&self) -> (r: u64)
        ensures
            is_back_rank_problem(self.problem(), chess960_formula()),
            self.problem().lists(self.problem().listing()),
            self.problem().listing().len() == 960,
            r == 960,
    {
        proof {
            use_type_invariant(self);
        }
        let r = self.inner.count();
        proof {
            lemma_chess960_count(self.inner, self.inner.listing());
        }
        r
    }

    /// All 960 arrangements in canonical lexicographic order.
    pub fn iter(&self) -> (r: Vec<Vec<Piece>>)
        ensures
            is_back_rank_problem(self.problem(), chess960_formula()),
            self.problem().lists(self.problem().listing()),
            r@.len() == 960,
            forall|i: int| 0 <= i < r@.len() ==> (#[trigger] r@[i])@ == self.problem().listing()[i],
    {
        proof {
            use_type_invariant(self);
        }
        let r = self.inner.iter();
        proof {
            lemma_chess960_count(self.inner, self.inner.listing());
        }
        r
    }

    /// The `index`-th arrangement in canonical lexicographic order (not
    /// the SP-ID order), or `None` when `index >= 960`.
    pub fn at(&self, index: u64) -> (r: Option<Vec<Piece>>)
        ensures
            is_back_rank_problem(self.problem(), chess960_formula()),
            self.problem().lists(self.problem().listing()),
            match r {
                Some(a) => index < 960 && a@ == self.problem().listing()[index as int],
                None => index >= 960,
            },
    {
        proof {
            use_type_invariant(self);
        }
        let r = self.inner.at(index);
        proof {
            lemma_chess960_count(self.inner, self.inner.listing());
        }
        r
    }

    /// A uniformly random starting position, drawn with a generator
    /// seeded by `seed` as [`Problem::sample`] draws it. Never fails: the
    /// preset is not empty.
    pub fn sample(&self, seed: u64) -> (r: Vec<Piece>)
        ensures
            is_back_rank_problem(self.problem(), chess960_formula()),
            self.problem().lists(self.problem().listing()),
            self.problem().listing().contains(r@),
            reservoir(self.problem().listing(), seed, 960).0 == Some(r@),
    {
        proof {
            use_type_invariant(self);
        }
        let r = self.inner.sample(seed);
        proof {
            lemma_chess960_count(self.inner, self.inner.listing());
        }
        match r {
            Some(a) => a,
            // Unreachable: the listing has 960 entries.
            None => vec![],
        }
    }

    /// The generic problem with `c` added by AND-composition. The SP-ID
    /// numbering no longer applies to it.
    pub fn with_constraint(&self, c: Constraint<Piece>) -> (r: Problem<Piece>)
        ensures
            is_back_rank_problem(self.problem(), chess960_formula()),
            r.num_squares == self.problem().num_squares,
            r.square_colors@ == self.problem().square_colors@,
            r.pieces@ == self.problem().pieces@,
            r.constraint@ == match self.problem().constraint@ {
                Formula::And(fs) => Formula::And(fs.push(c@)),
                f => Formula::And(seq![f, c@]),
            },
    {
        proof {
            use_type_invariant(self);
        }
        self.inner.with_constraint(c)
    }

    /// Returns the underlying generic problem.
    pub fn into_problem(self) -> (r: Problem<Piece>)
        ensures
            r == self.problem(),
            is_back_rank_problem(r, chess960_formula()),
    {
        proof {
            use_type_invariant(&self);
        }
        self.inner
    }
}

impl Clone for Chess960Problem {
    /// Another Chess960 preset. Every value of this type wraps the same
    /// problem, so a fresh one is a copy.
    fn clone(&self) -> (r: Self)
        ensures
            is_back_rank_problem(r.problem(), chess960_formula()),
            is_back_rank_problem(self.problem(), chess960_formula()),
    {
        proof {
            use_type_invariant(self);
        }
        chess_960()
    }
}

} // verus!
