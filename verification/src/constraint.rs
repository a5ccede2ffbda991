//! Constraint primitives and combinators, and what it means for an
//! arrangement to satisfy them.
use vstd::prelude::*;
use crate::count::{
    count_where, lemma_count_where_monotone, lemma_count_where_strict, lemma_count_where_unique,
    lemma_count_where_witness,
};
use crate::{ColorKind, PieceKind};

verus! {

/// Colour of a square, used by colour-keyed count constraints.
#[derive(Clone, Copy, Debug, PartialEq, Eq, Hash)]
pub enum SquareColor {
    /// Light-coloured square.
    Light,
    /// Dark-coloured square.
    Dark,
}

impl ColorKind for SquareColor {
    open spec fn code(&self) -> u64 {
        match self {
            SquareColor::Light => 0,
            SquareColor::Dark => 1,
        }
    }

    fn to_code(&self) -> (r: u64) {
        match self {
            SquareColor::Light => 0,
            SquareColor::Dark => 1,
        }
    }
}

/// Comparison operator for count and offset constraints.
#[derive(Clone, Copy, Debug, PartialEq, Eq, Hash)]
pub enum CountOp {
    /// Equal.
    Eq,
    /// Not equal.
    NotEq,
    /// Less than or equal.
    Le,
    /// Less than.
    Lt,
    /// Greater than or equal.
    Ge,
    /// Greater than.
    Gt,
}

impl CountOp {
    /// Whether `lhs op rhs` holds.
    pub open spec fn compares(self, lhs: int, rhs: int) -> bool {
        match self {
            CountOp::Eq => lhs == rhs,
            CountOp::NotEq => lhs != rhs,
            CountOp::Le => lhs <= rhs,
            CountOp::Lt => lhs < rhs,
            CountOp::Ge => lhs >= rhs,
            CountOp::Gt => lhs > rhs,
        }
    }

    /// Returns whether `lhs` and `rhs` satisfy this comparison. Counts
    /// (`usize`) and signed offsets (`i32`) both fit in `i128`.
    pub fn check(self, lhs: i128, rhs: i128) -> (r: bool)
        ensures
            r == self.compares(lhs as int, rhs as int),
    {
        match self {
            CountOp::Eq => lhs == rhs,
            CountOp::NotEq => lhs != rhs,
            CountOp::Le => lhs <= rhs,
            CountOp::Lt => lhs < rhs,
            CountOp::Ge => lhs >= rhs,
            CountOp::Gt => lhs > rhs,
        }
    }
}

/// A single constraint over an arrangement of pieces.
///
/// Primitive constraints test a property of the arrangement;
/// combinator constraints (`And` / `Or` / `Not`) compose them.
#[derive(Debug)]
pub enum Constraint<P, C = SquareColor> {
    /// The number of occurrences of `piece` satisfies `op value`.
    Count {
        /// Piece kind to count.
        piece: P,
        /// Comparison operator.
        op: CountOp,
        /// Right-hand value.
        value: usize,
    },
    /// The number of occurrences of `piece` on squares of colour
    /// `color` satisfies `op value`.
    CountOnColor {
        /// Piece kind to count.
        piece: P,
        /// Square colour to count on.
        color: C,
        /// Comparison operator.
        op: CountOp,
        /// Right-hand value.
        value: usize,
    },
    /// `piece` occupies `square`.
    At {
        /// Piece kind.
        piece: P,
        /// Square index.
        square: usize,
    },
    /// `piece` does not occupy `square`.
    NotAt {
        /// Piece kind.
        piece: P,
        /// Square index.
        square: usize,
    },
    /// The listed piece instances appear in strictly increasing square
    /// order; `(Rook, 0), (King, 0), (Rook, 1)` reads as
    /// `rook[0] < king[0] < rook[1]`. An instance that does not exist
    /// makes the constraint unsatisfied.
    Order(Vec<(P, usize)>),
    /// `(square of lhs) - (square of rhs) op offset`, for two piece
    /// instances. Unsatisfied when either instance does not exist.
    Relative {
        /// Left-hand piece instance.
        lhs: (P, usize),
        /// Right-hand piece instance.
        rhs: (P, usize),
        /// Comparison operator applied to `(lhs - rhs) op offset`.
        op: CountOp,
        /// Signed offset on the right-hand side.
        offset: i32,
    },
    /// All children hold (`And(vec![])` always holds).
    And(Vec<Constraint<P, C>>),
    /// At least one child holds (`Or(vec![])` never holds).
    Or(Vec<Constraint<P, C>>),
    /// The child does not hold.
    Not(Box<Constraint<P, C>>),
}

/// The content of a [`Constraint`] as a mathematical value: the same
/// shape, with sequences in place of vectors.
pub enum Formula<P, C> {
    /// See [`Constraint::Count`].
    Count { piece: P, op: CountOp, value: usize },
    /// See [`Constraint::CountOnColor`].
    CountOnColor { piece: P, color: C, op: CountOp, value: usize },
    /// See [`Constraint::At`].
    At { piece: P, square: usize },
    /// See [`Constraint::NotAt`].
    NotAt { piece: P, square: usize },
    /// See [`Constraint::Order`].
    Order(Seq<(P, usize)>),
    /// See [`Constraint::Relative`].
    Relative { lhs: (P, usize), rhs: (P, usize), op: CountOp, offset: i32 },
    /// See [`Constraint::And`].
    And(Seq<Formula<P, C>>),
    /// See [`Constraint::Or`].
    Or(Seq<Formula<P, C>>),
    /// See [`Constraint::Not`].
    Not(Box<Formula<P, C>>),
}

/// The formulas of the first `k` constraints of `cs`.
pub open spec fn formulas_upto<P, C>(cs: Seq<Constraint<P, C>>, k: int) -> Seq<Formula<P, C>>
    decreases cs, k,
{
    if k <= 0 || k > cs.len() {
        Seq::empty()
    } else {
        formulas_upto(cs, k - 1).push(cs[k - 1].formula())
    }
}

impl<P, C> Constraint<P, C> {
    /// The formula of this constraint.
    pub open spec fn formula(self) -> Formula<P, C>
        decreases self, 0int,
    {
        match self {
            Constraint::Count { piece, op, value } => Formula::Count { piece, op, value },
            Constraint::CountOnColor { piece, color, op, value } => Formula::CountOnColor { piece, color, op, value },
            Constraint::At { piece, square } => Formula::At { piece, square },
            Constraint::NotAt { piece, square } => Formula::NotAt { piece, square },
            Constraint::Order(chain) => Formula::Order(chain@),
            Constraint::Relative { lhs, rhs, op, offset } => Formula::Relative { lhs, rhs, op, offset },
            Constraint::And(cs) => Formula::And(formulas_upto(cs@, cs@.len() as int)),
            Constraint::Or(cs) => Formula::Or(formulas_upto(cs@, cs@.len() as int)),
            Constraint::Not(inner) => Formula::Not(Box::new(inner.formula())),
        }
    }
}

impl<P, C> View for Constraint<P, C> {
    type V = Formula<P, C>;

    open spec fn view(&self) -> Formula<P, C> {
        self.formula()
    }
}

/// `formulas_upto` has one formula per constraint, in order.
pub proof fn lemma_formulas_upto<P, C>(cs: Seq<Constraint<P, C>>, k: int)
    requires
        0 <= k <= cs.len(),
    ensures
        formulas_upto(cs, k).len() == k,
        forall|i: int| 0 <= i < k ==> #[trigger] formulas_upto(cs, k)[i] == cs[i]@,
    decreases k,
{
    if k > 0 {
        lemma_formulas_upto(cs, k - 1);
    }
}

/// Whether square `i` of `arr` holds a piece of the same kind as `piece`.
pub open spec fn is_kind_at<P: PieceKind>(arr: Seq<P>, piece: P, i: int) -> bool {
    arr[i].code() == piece.code()
}

/// The squares of `arr` that hold a piece of the kind of `piece`.
pub open spec fn kind_pred<P: PieceKind>(arr: Seq<P>, piece: P) -> spec_fn(int) -> bool {
    |i: int| is_kind_at(arr, piece, i)
}

/// Number of pieces of the kind of `piece` in `arr`.
pub open spec fn count_of<P: PieceKind>(arr: Seq<P>, piece: P) -> nat {
    count_where(arr.len() as int, kind_pred(arr, piece))
}

/// The squares below both lengths holding the kind of `piece` on the
/// colour of `color`.
pub open spec fn kind_color_pred<P: PieceKind, C: ColorKind>(
    arr: Seq<P>,
    colors: Seq<C>,
    piece: P,
    color: C,
) -> spec_fn(int) -> bool {
    |i: int| is_kind_at(arr, piece, i) && colors[i].code() == color.code()
}

/// Number of pieces of the kind of `piece` standing on squares of the
/// colour of `color`; squares without a declared colour never count.
pub open spec fn count_on_color<P: PieceKind, C: ColorKind>(
    arr: Seq<P>,
    colors: Seq<C>,
    piece: P,
    color: C,
) -> nat {
    count_where(
        if arr.len() <= colors.len() { arr.len() as int } else { colors.len() as int },
        kind_color_pred(arr, colors, piece, color),
    )
}

/// The square of the `n`-th (0-based) piece of the kind of `piece`,
/// if there are more than `n` of them.
pub open spec fn nth_square<P: PieceKind>(arr: Seq<P>, piece: P, n: nat) -> Option<int> {
    let pred = kind_pred(arr, piece);
    if n < count_where(arr.len() as int, pred) {
        Some(choose|i: int| 0 <= i < arr.len() && pred(i) && count_where(i, pred) == n)
    } else {
        None
    }
}

/// The square of the `k`-th instance named by `chain`, if it exists.
pub open spec fn chain_square<P: PieceKind>(arr: Seq<P>, chain: Seq<(P, usize)>, k: int) -> Option<int> {
    nth_square(arr, chain[k].0, chain[k].1 as nat)
}

/// Every instance of the chain exists and they stand in strictly
/// increasing square order.
pub open spec fn chain_holds<P: PieceKind>(arr: Seq<P>, chain: Seq<(P, usize)>) -> bool {
    &&& forall|k: int| 0 <= k < chain.len() ==> #[trigger] chain_square(arr, chain, k) is Some
    &&& forall|j: int, k: int|
        0 <= j < k < chain.len() ==> #[trigger] chain_square(arr, chain, j)->0 < #[trigger] chain_square(
            arr,
            chain,
            k,
        )->0
}

/// Each of the first `k` formulas of `fs` holds.
pub open spec fn all_hold<P: PieceKind, C: ColorKind>(fs: Seq<Formula<P, C>>, k: int, arr: Seq<P>, colors: Seq<C>) -> bool
    decreases fs, k,
{
    if k <= 0 || k > fs.len() {
        true
    } else {
        all_hold(fs, k - 1, arr, colors) && fs[k - 1].holds(arr, colors)
    }
}

/// Some one of the first `k` formulas of `fs` holds.
pub open spec fn any_holds<P: PieceKind, C: ColorKind>(fs: Seq<Formula<P, C>>, k: int, arr: Seq<P>, colors: Seq<C>) -> bool
    decreases fs, k,
{
    if k <= 0 || k > fs.len() {
        false
    } else {
        any_holds(fs, k - 1, arr, colors) || fs[k - 1].holds(arr, colors)
    }
}

/// `all_hold` and `any_holds` say what their names say.
pub proof fn lemma_all_any<P: PieceKind, C: ColorKind>(fs: Seq<Formula<P, C>>, k: int, arr: Seq<P>, colors: Seq<C>)
    requires
        0 <= k <= fs.len(),
    ensures
        all_hold(fs, k, arr, colors) <==> forall|i: int| 0 <= i < k ==> (#[trigger] fs[i]).holds(arr, colors),
        any_holds(fs, k, arr, colors) <==> exists|i: int| 0 <= i < k && (#[trigger] fs[i]).holds(arr, colors),
    decreases k,
{
    if k > 0 {
        lemma_all_any(fs, k - 1, arr, colors);
    }
}

/// `And` of no constraints always holds; `Or` of none never does.
pub proof fn lemma_empty_and_or<P: PieceKind, C: ColorKind>(arr: Seq<P>, colors: Seq<C>)
    ensures
        Formula::<P, C>::And(Seq::empty()).holds(arr, colors),
        !Formula::<P, C>::Or(Seq::empty()).holds(arr, colors),
{
    let none = Seq::<Formula<P, C>>::empty();
    assert(all_hold(none, 0, arr, colors));
    assert(!any_holds(none, 0, arr, colors));
}

impl<P: PieceKind, C: ColorKind> Formula<P, C> {
    /// Whether `arr` (with square colours `colors`) satisfies the formula.
    pub open spec fn holds(self, arr: Seq<P>, colors: Seq<C>) -> bool
        decreases self, 0int,
    {
        match self {
            Formula::Count { piece, op, value } => op.compares(
                count_of(arr, piece) as int,
                value as int,
            ),
            Formula::CountOnColor { piece, color, op, value } => op.compares(
                count_on_color(arr, colors, piece, color) as int,
                value as int,
            ),
            Formula::At { piece, square } => square < arr.len() && is_kind_at(
                arr,
                piece,
                square as int,
            ),
            Formula::NotAt { piece, square } => !(square < arr.len() && is_kind_at(
                arr,
                piece,
                square as int,
            )),
            Formula::Order(chain) => chain_holds(arr, chain),
            Formula::Relative { lhs, rhs, op, offset } => match (
                nth_square(arr, lhs.0, lhs.1 as nat),
                nth_square(arr, rhs.0, rhs.1 as nat),
            ) {
                (Some(l), Some(r)) => op.compares(l - r, offset as int),
                _ => false,
            },
            Formula::And(cs) => all_hold(cs, cs.len() as int, arr, colors),
            Formula::Or(cs) => any_holds(cs, cs.len() as int, arr, colors),
            Formula::Not(inner) => !inner.holds(arr, colors),
        }
    }
}


/// The `n`-th piece of the kind of `piece` stands on square `i` exactly
/// when square `i` holds that kind and exactly `n` squares before it do;
/// there is no `n`-th piece exactly when no square is such.
pub proof fn lemma_nth_square<P: PieceKind>(arr: Seq<P>, piece: P, n: nat, i: int)
    ensures
        (nth_square(arr, piece, n) == Some(i)) == (0 <= i < arr.len() && arr[i].code() == piece.code()
            && count_where(i, kind_pred(arr, piece)) == n),
        (nth_square(arr, piece, n) is None) == (forall|j: int|
            0 <= j < arr.len() && (#[trigger] arr[j]).code() == piece.code() ==> count_where(j, kind_pred(arr, piece)) != n),
{
    let pred = kind_pred(arr, piece);
    let len = arr.len() as int;
    if n < count_where(len, pred) {
        let w = lemma_count_where_witness(pred, len, n);
        let c = choose|c: int| 0 <= c < len && pred(c) && count_where(c, pred) == n;
        assert(0 <= c < len && pred(c) && count_where(c, pred) == n);
        if 0 <= i < len && pred(i) && count_where(i, pred) == n {
            lemma_count_where_unique(pred, c, i);
        }
        assert(pred(w));
    } else {
        assert forall|j: int| 0 <= j < len && arr[j].code() == piece.code() implies count_where(j, pred) != n by {
            assert(pred(j));
            lemma_count_where_strict(pred, j, len);
        }
    }
}

/// A `Relative` constraint holds exactly when there are squares `l` and
/// `r` such that `l` holds the `lhs.1`-th piece of kind `lhs.0`, `r`
/// holds the `rhs.1`-th piece of kind `rhs.0`, and `l - r op offset`.
pub proof fn lemma_relative_meaning<P: PieceKind, C: ColorKind>(
    arr: Seq<P>,
    colors: Seq<C>,
    lhs: (P, usize),
    rhs: (P, usize),
    op: CountOp,
    offset: i32,
)
    ensures
        (Formula::<P, C>::Relative { lhs, rhs, op, offset }).holds(arr, colors) == (exists|l: int, r: int|
            0 <= l < arr.len() && (#[trigger] arr[l]).code() == lhs.0.code()
                && count_where(l, |j: int| arr[j].code() == lhs.0.code()) == lhs.1
                && 0 <= r < arr.len() && (#[trigger] arr[r]).code() == rhs.0.code()
                && count_where(r, |j: int| arr[j].code() == rhs.0.code()) == rhs.1
                && op.compares(l - r, offset as int)),
{
    let pl = |j: int| arr[j].code() == lhs.0.code();
    let pr = |j: int| arr[j].code() == rhs.0.code();
    assert(kind_pred(arr, lhs.0) =~= pl);
    assert(kind_pred(arr, rhs.0) =~= pr);
    match (nth_square(arr, lhs.0, lhs.1 as nat), nth_square(arr, rhs.0, rhs.1 as nat)) {
        (Some(l), Some(r)) => {
            lemma_nth_square(arr, lhs.0, lhs.1 as nat, l);
            lemma_nth_square(arr, rhs.0, rhs.1 as nat, r);
            assert forall|l2: int, r2: int|
                {
                    &&& 0 <= l2 < arr.len() && arr[l2].code() == lhs.0.code()
                    &&& count_where(l2, pl) == lhs.1
                    &&& 0 <= r2 < arr.len() && arr[r2].code() == rhs.0.code()
                    &&& count_where(r2, pr) == rhs.1
                } implies l2 == l && r2 == r by {
                lemma_nth_square(arr, lhs.0, lhs.1 as nat, l2);
                lemma_nth_square(arr, rhs.0, rhs.1 as nat, r2);
            }
            if op.compares(l - r, offset as int) {
                assert(count_where(l, pl) == lhs.1 && count_where(r, pr) == rhs.1);
            }
        },
        (None, _) => {
            lemma_nth_square(arr, lhs.0, lhs.1 as nat, 0);
        },
        (_, None) => {
            lemma_nth_square(arr, rhs.0, rhs.1 as nat, 0);
        },
    }
}

/// What the single-piece constraints say of an arrangement: `Count`
/// compares the number of squares holding the kind with `value`;
/// `CountOnColor` compares the number of squares, among those with a
/// declared colour, holding the kind on that colour; `At` holds when the
/// square is on the board and holds the kind; `NotAt` when it does not.
pub proof fn lemma_piece_constraints_meaning<P: PieceKind, C: ColorKind>(
    arr: Seq<P>,
    colors: Seq<C>,
    piece: P,
    color: C,
    op: CountOp,
    value: usize,
    square: usize,
)
    ensures
        (Formula::<P, C>::Count { piece, op, value }).holds(arr, colors) == op.compares(
            count_where(arr.len() as int, |j: int| arr[j].code() == piece.code()) as int,
            value as int,
        ),
        (Formula::<P, C>::CountOnColor { piece, color, op, value }).holds(arr, colors) == op.compares(
            count_where(
                if arr.len() <= colors.len() { arr.len() as int } else { colors.len() as int },
                |j: int| arr[j].code() == piece.code() && colors[j].code() == color.code(),
            ) as int,
            value as int,
        ),
        (Formula::<P, C>::At { piece, square }).holds(arr, colors) == (square < arr.len() && arr[square as int].code()
            == piece.code()),
        (Formula::<P, C>::NotAt { piece, square }).holds(arr, colors) == !(square < arr.len()
            && arr[square as int].code() == piece.code()),
{
    assert(kind_pred(arr, piece) =~= |j: int| arr[j].code() == piece.code());
    assert(kind_color_pred(arr, colors, piece, color) =~= |j: int|
        arr[j].code() == piece.code() && colors[j].code() == color.code());
}

/// An `Order` chain holds exactly when there are squares, one per entry,
/// each holding the named instance of its kind (the square holds the kind
/// and exactly that many squares before it do), in strictly increasing
/// order.
pub proof fn lemma_order_meaning<P: PieceKind, C: ColorKind>(arr: Seq<P>, colors: Seq<C>, chain: Seq<(P, usize)>)
    ensures
        (Formula::<P, C>::Order(chain)).holds(arr, colors) == (exists|sq: Seq<int>|
            sq.len() == chain.len() && (forall|k: int|
                0 <= k < chain.len() ==> 0 <= #[trigger] sq[k] < arr.len() && arr[sq[k]].code() == chain[k].0.code()
                    && count_where(sq[k], |j: int| arr[j].code() == chain[k].0.code()) == chain[k].1) && (forall|
                a: int,
                b: int,
            | 0 <= a < b < chain.len() ==> #[trigger] sq[a] < #[trigger] sq[b])),
{
    assert forall|k: int| 0 <= k < chain.len() implies kind_pred(arr, (#[trigger] chain[k]).0) =~= (|j: int|
        arr[j].code() == chain[k].0.code()) by {}
    if chain_holds(arr, chain) {
        let sq = Seq::new(chain.len(), |k: int| chain_square(arr, chain, k)->0);
        assert forall|k: int| 0 <= k < chain.len() implies 0 <= #[trigger] sq[k] < arr.len() && arr[sq[k]].code()
            == chain[k].0.code() && count_where(sq[k], |j: int| arr[j].code() == chain[k].0.code()) == chain[k].1 by {
            assert(chain_square(arr, chain, k) is Some);
            lemma_nth_square(arr, chain[k].0, chain[k].1 as nat, sq[k]);
            assert(kind_pred(arr, chain[k].0) =~= (|j: int| arr[j].code() == chain[k].0.code()));
        }
        assert forall|a: int, b: int| 0 <= a < b < chain.len() implies #[trigger] sq[a] < #[trigger] sq[b] by {
            assert(chain_square(arr, chain, a)->0 < chain_square(arr, chain, b)->0);
        }
        assert(sq.len() == chain.len() && (forall|k: int|
            0 <= k < chain.len() ==> 0 <= #[trigger] sq[k] < arr.len() && arr[sq[k]].code() == chain[k].0.code()
                && count_where(sq[k], |j: int| arr[j].code() == chain[k].0.code()) == chain[k].1) && (forall|
            a: int,
            b: int,
        | 0 <= a < b < chain.len() ==> #[trigger] sq[a] < #[trigger] sq[b]));
    }
    if exists|sq: Seq<int>|
        sq.len() == chain.len() && (forall|k: int|
            0 <= k < chain.len() ==> 0 <= #[trigger] sq[k] < arr.len() && arr[sq[k]].code() == chain[k].0.code()
                && count_where(sq[k], |j: int| arr[j].code() == chain[k].0.code()) == chain[k].1) && (forall|
            a: int,
            b: int,
        | 0 <= a < b < chain.len() ==> #[trigger] sq[a] < #[trigger] sq[b]) {
        let sq = choose|sq: Seq<int>|
            sq.len() == chain.len() && (forall|k: int|
                0 <= k < chain.len() ==> 0 <= #[trigger] sq[k] < arr.len() && arr[sq[k]].code() == chain[k].0.code()
                    && count_where(sq[k], |j: int| arr[j].code() == chain[k].0.code()) == chain[k].1) && (forall|
                a: int,
                b: int,
            | 0 <= a < b < chain.len() ==> #[trigger] sq[a] < #[trigger] sq[b]);
        assert forall|k: int| 0 <= k < chain.len() implies #[trigger] chain_square(arr, chain, k) == Some(sq[k]) by {
            assert(kind_pred(arr, chain[k].0) =~= (|j: int| arr[j].code() == chain[k].0.code()));
            lemma_nth_square(arr, chain[k].0, chain[k].1 as nat, sq[k]);
        }
        assert forall|a: int, b: int| 0 <= a < b < chain.len() implies #[trigger] chain_square(arr, chain, a)->0
            < #[trigger] chain_square(arr, chain, b)->0 by {
            assert(chain_square(arr, chain, a) == Some(sq[a]));
            assert(chain_square(arr, chain, b) == Some(sq[b]));
        }
        assert(chain_holds(arr, chain));
    }
}

/// Returns the square of the `instance_idx`-th piece of the kind of
/// `piece`, or `None` if there are not that many.
pub fn nth_position<P: PieceKind>(arrangement: &[P], piece: &P, instance_idx: usize) -> (r: Option<usize>)
    ensures
        match r {
            Some(i) => nth_square(arrangement@, *piece, instance_idx as nat) == Some(i as int),
            None => nth_square(arrangement@, *piece, instance_idx as nat) is None,
        },
{
    let ghost arr = arrangement@;
    let ghost pred = kind_pred(arr, *piece);
    let code = piece.to_code();
    let mut seen: usize = 0;
    let mut i: usize = 0;
    while i < arrangement.len()
        invariant
            arr == arrangement@,
            pred == kind_pred(arr, *piece),
            code == piece.code(),
            i <= arr.len(),
            seen == count_where(i as int, pred),
            seen <= instance_idx,
        decreases arr.len() - i,
    {
        if arrangement[i].to_code() == code {
            if seen == instance_idx {
                proof {
                    lemma_count_where_monotone(pred, i + 1, arr.len() as int);
                    let w = choose|w: int| 0 <= w < arr.len() && pred(w) && count_where(w, pred) == instance_idx as nat;
                    assert(pred(i as int));
                    lemma_count_where_unique(pred, w, i as int);
                }
                return Some(i);
            }
            seen = seen + 1;
        }
        i = i + 1;
    }
    None
}

impl<P: PieceKind, C: ColorKind> Constraint<P, C> {
    /// Returns whether `arrangement`, with square colours `colors`,
    /// satisfies this constraint.
    #[verifier::loop_isolation(false)]
    pub fn evaluate(&self, arrangement: &[P], colors: &[C]) -> (r: bool)
        ensures
            r == self@.holds(arrangement@, colors@),
        decreases self,
    {
        match self {
            Constraint::Count { piece, op, value } => {
                let n = count_kind(arrangement, piece);
                op.check(n as i128, *value as i128)
            },
            Constraint::CountOnColor { piece, color, op, value } => {
                let n = count_kind_on_color(arrangement, colors, piece, color);
                op.check(n as i128, *value as i128)
            },
            Constraint::At { piece, square } => {
                *square < arrangement.len() && arrangement[*square].to_code() == piece.to_code()
            },
            Constraint::NotAt { piece, square } => {
                !(*square < arrangement.len() && arrangement[*square].to_code() == piece.to_code())
            },
            Constraint::Relative { lhs, rhs, op, offset } => {
                let lhs_pos = nth_position(arrangement, &lhs.0, lhs.1);
                let rhs_pos = nth_position(arrangement, &rhs.0, rhs.1);
                match (lhs_pos, rhs_pos) {
                    (Some(l), Some(r)) => {
                        let diff = (l as i128) - (r as i128);
                        op.check(diff, *offset as i128)
                    },
                    _ => false,
                }
            },
            Constraint::Order(chain) => order_satisfied(arrangement, chain),
            Constraint::And(children) => {
                proof {
                    lemma_formulas_upto(children@, children@.len() as int);
                    lemma_all_any(formulas_upto(children@, children@.len() as int), children@.len() as int, arrangement@, colors@);
                }
                let mut i: usize = 0;
                while i < children.len()
                    invariant
                        i <= children.len(),
                        forall|j: int| 0 <= j < i ==> (#[trigger] children@[j])@.holds(arrangement@, colors@),
                    decreases children.len() - i,
                {
                    if !children[i].evaluate(arrangement, colors) {
                        assert(formulas_upto(children@, children@.len() as int)[i as int] == children@[i as int]@);
                        return false;
                    }
                    i = i + 1;
                }
                true
            },
            Constraint::Or(children) => {
                proof {
                    lemma_formulas_upto(children@, children@.len() as int);
                    lemma_all_any(formulas_upto(children@, children@.len() as int), children@.len() as int, arrangement@, colors@);
                }
                let mut i: usize = 0;
                while i < children.len()
                    invariant
                        i <= children.len(),
                        forall|j: int| 0 <= j < i ==> !(#[trigger] children@[j])@.holds(arrangement@, colors@),
                    decreases children.len() - i,
                {
                    if children[i].evaluate(arrangement, colors) {
                        assert(formulas_upto(children@, children@.len() as int)[i as int] == children@[i as int]@);
                        return true;
                    }
                    i = i + 1;
                }
                false
            },
            Constraint::Not(inner) => !inner.evaluate(arrangement, colors),
        }
    }
}

/// Number of pieces of the kind of `piece` in `arrangement`.
fn count_kind<P: PieceKind>(arrangement: &[P], piece: &P) -> (n: usize)
    ensures
        n == count_of(arrangement@, *piece),
{
    let ghost pred = kind_pred(arrangement@, *piece);
    let code = piece.to_code();
    let mut n: usize = 0;
    let mut i: usize = 0;
    while i < arrangement.len()
        invariant
            pred == kind_pred(arrangement@, *piece),
            code == piece.code(),
            i <= arrangement.len(),
            n == count_where(i as int, pred),
            n <= i,
        decreases arrangement.len() - i,
    {
        proof {
            lemma_count_where_monotone(pred, i as int, i + 1);
        }
        if arrangement[i].to_code() == code {
            n = n + 1;
        }
        i = i + 1;
    }
    n
}

/// Number of pieces of the kind of `piece` on squares of the colour of
/// `color`.
fn count_kind_on_color<P: PieceKind, C: ColorKind>(
    arrangement: &[P],
    colors: &[C],
    piece: &P,
    color: &C,
) -> (n: usize)
    ensures
        n == count_on_color(arrangement@, colors@, *piece, *color),
{
    let ghost pred = kind_color_pred(arrangement@, colors@, *piece, *color);
    let code = piece.to_code();
    let color_code = color.to_code();
    let len = if arrangement.len() <= colors.len() {
        arrangement.len()
    } else {
        colors.len()
    };
    let mut n: usize = 0;
    let mut i: usize = 0;
    while i < len
        invariant
            pred == kind_color_pred(arrangement@, colors@, *piece, *color),
            code == piece.code(),
            color_code == color.code(),
            len <= arrangement.len(),
            len <= colors.len(),
            i <= len,
            n == count_where(i as int, pred),
            n <= i,
        decreases len - i,
    {
        if arrangement[i].to_code() == code && colors[i].to_code() == color_code {
            n = n + 1;
        }
        i = i + 1;
    }
    n
}

/// Whether every instance named by `chain` exists and they stand in
/// strictly increasing square order.
fn order_satisfied<P: PieceKind>(arrangement: &[P], chain: &Vec<(P, usize)>) -> (r: bool)
    ensures
        r == chain_holds(arrangement@, chain@),
{
    let ghost arr = arrangement@;
    let mut positions: Vec<usize> = Vec::new();
    let mut k: usize = 0;
    while k < chain.len()
        invariant
            arr == arrangement@,
            k <= chain.len(),
            positions@.len() == k,
            forall|j: int| 0 <= j < k ==> #[trigger] chain_square(arr, chain@, j) == Some(positions@[j] as int),
        decreases chain.len() - k,
    {
        let (piece_kind, instance_idx) = chain[k];
        match nth_position(arrangement, &piece_kind, instance_idx) {
            Some(pos) => {
                positions.push(pos);
            },
            None => {
                assert(chain_square(arr, chain@, k as int) is None);
                return false;
            },
        }
        k = k + 1;
    }
    let mut w: usize = 1;
    while w < positions.len()
        invariant
            arr == arrangement@,
            positions@.len() == chain@.len(),
            1 <= w || positions@.len() == 0,
            w <= positions@.len() || positions@.len() == 0,
            forall|j: int| 0 <= j < chain@.len() ==> #[trigger] chain_square(arr, chain@, j) == Some(positions@[j] as int),
            forall|a: int, b: int| 0 <= a < b < w && b < positions@.len() ==> positions@[a] < positions@[b],
        decreases positions.len() - w,
    {
        if positions[w - 1] >= positions[w] {
            assert(!(chain_square(arr, chain@, w - 1)->0 < chain_square(arr, chain@, w as int)->0));
            return false;
        }
        w = w + 1;
    }
    assert forall|a: int, b: int| 0 <= a < b < chain@.len() implies #[trigger] chain_square(arr, chain@, a)->0 < #[trigger] chain_square(arr, chain@, b)->0 by {
        assert(positions@[a] < positions@[b]);
    }
    true
}


/// Returns a copy of `v`.
fn copy_vec<T: Copy>(v: &Vec<T>) -> (r: Vec<T>)
    ensures
        r@ == v@,
{
    let mut r: Vec<T> = Vec::new();
    let mut i: usize = 0;
    while i < v.len()
        invariant
            i <= v@.len(),
            r@ == v@.take(i as int),
        decreases v.len() - i,
    {
        r.push(v[i]);
        proof {
            assert(v@.take(i + 1) =~= v@.take(i as int).push(v@[i as int]));
        }
        i = i + 1;
    }
    proof {
        assert(v@.take(i as int) =~= v@);
    }
    r
}

/// Returns a deep copy of `children`, formula for formula.
fn copy_children<P: PieceKind, C: ColorKind>(children: &Vec<Constraint<P, C>>) -> (r: Vec<Constraint<P, C>>)
    ensures
        formulas_upto(r@, r@.len() as int) == formulas_upto(children@, children@.len() as int),
        r@.len() == children@.len(),
    decreases children@,
{
    let mut r: Vec<Constraint<P, C>> = Vec::new();
    let mut i: usize = 0;
    while i < children.len()
        invariant
            i <= children@.len(),
            r@.len() == i,
            forall|j: int| 0 <= j < i ==> (#[trigger] r@[j])@ == children@[j]@,
        decreases children.len() - i,
    {
        let d = children[i].duplicate();
        r.push(d);
        proof {
            assert(r@[i as int] == d);
        }
        i = i + 1;
    }
    proof {
        lemma_formulas_upto(r@, r@.len() as int);
        lemma_formulas_upto(children@, children@.len() as int);
        assert(formulas_upto(r@, r@.len() as int) =~= formulas_upto(children@, children@.len() as int));
    }
    r
}

impl<P: PieceKind, C: ColorKind> Constraint<P, C> {
    /// Returns a deep copy with the same formula.
    pub fn duplicate(&self) -> (r: Self)
        ensures
            r@ == self@,
        decreases self,
    {
        match self {
            Constraint::Count { piece, op, value } => Constraint::Count { piece: *piece, op: *op, value: *value },
            Constraint::CountOnColor { piece, color, op, value } => Constraint::CountOnColor {
                piece: *piece,
                color: *color,
                op: *op,
                value: *value,
            },
            Constraint::At { piece, square } => Constraint::At { piece: *piece, square: *square },
            Constraint::NotAt { piece, square } => Constraint::NotAt { piece: *piece, square: *square },
            Constraint::Order(chain) => Constraint::Order(copy_vec(chain)),
            Constraint::Relative { lhs, rhs, op, offset } => Constraint::Relative {
                lhs: *lhs,
                rhs: *rhs,
                op: *op,
                offset: *offset,
            },
            Constraint::And(children) => Constraint::And(copy_children(children)),
            Constraint::Or(children) => Constraint::Or(copy_children(children)),
            Constraint::Not(inner) => Constraint::Not(Box::new(inner.duplicate())),
        }
    }
}

impl<P: PieceKind, C: ColorKind> Clone for Constraint<P, C> {
    /// A deep copy with the same formula.
    fn clone(&self) -> (r: Self)
        ensures
            r@ == self@,
    {
        self.duplicate()
    }
}

} // verus!
