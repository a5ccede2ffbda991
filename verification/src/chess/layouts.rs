//! Every rearrangement of KQRRBBNN, described by where its pieces go, and
//! the counts of the full-shuffle and Chess2880 presets that follow.
use vstd::prelude::*;
use crate::chess::numbering::{knight_pair, lemma_knight_pair, of_kind, outside};
use crate::chess::positions::{lemma_back_rank_setup, lemma_kind_pred_piece};
use crate::chess::{
    back_rank_alphabet, back_rank_color, bishop_color_formulas, count_formulas, is_back_rank_problem, Piece,
};
use crate::constraint::{kind_color_pred, kind_pred, lemma_all_any, Formula, SquareColor};
use crate::problem::{lemma_listing_no_duplicates, lemma_solution_meaning, Problem};
use vstd::relations::injective_on;
use vstd::set_lib::{lemma_int_range, lemma_map_size, set_int_range};
use crate::PieceKind;
use crate::count::{
    count_where, lemma_count_where_all_none, lemma_count_where_complement, lemma_count_where_drop_one,
    lemma_count_where_ext,
    lemma_count_where_split, lemma_count_where_strict, lemma_count_where_unique, lemma_count_where_witness,
};

verus! {

/// Where the pieces of a back rank go: the bishops on squares `l.0` and
/// `l.1`; the queen on the `l.2`-th square they leave; the knights on the
/// `l.3`-th and `l.4`-th of the five squares left then; and of the last
/// three squares the king on the `l.5`-th, rooks on the other two.
pub type Layout = (int, int, int, int, int, int);

/// The layout describes a rearrangement of KQRRBBNN.
pub open spec fn lay_valid(l: Layout) -> bool {
    &&& 0 <= l.0 < l.1 < 8
    &&& 0 <= l.2 < 6
    &&& 0 <= l.3 < l.4 < 5
    &&& 0 <= l.5 < 3
}

/// The bishop squares.
pub open spec fn lay_bishop(l: Layout) -> spec_fn(int) -> bool {
    |i: int| i == l.0 || i == l.1
}

/// The squares left by the bishops.
pub open spec fn lay_open1(l: Layout) -> spec_fn(int) -> bool {
    |i: int| !lay_bishop(l)(i)
}

/// The queen square.
pub open spec fn lay_queen(l: Layout) -> spec_fn(int) -> bool {
    |i: int| lay_open1(l)(i) && count_where(i, lay_open1(l)) == l.2
}

/// The squares left by the bishops and the queen.
pub open spec fn lay_open2(l: Layout) -> spec_fn(int) -> bool {
    |i: int| lay_open1(l)(i) && !lay_queen(l)(i)
}

/// The knight squares.
pub open spec fn lay_knight(l: Layout) -> spec_fn(int) -> bool {
    |i: int| lay_open2(l)(i) && (count_where(i, lay_open2(l)) == l.3 || count_where(i, lay_open2(l)) == l.4)
}

/// The three squares left for the rooks and the king.
pub open spec fn lay_open3(l: Layout) -> spec_fn(int) -> bool {
    |i: int| lay_open2(l)(i) && !lay_knight(l)(i)
}

/// The piece on square `i`.
pub open spec fn lay_piece(l: Layout, i: int) -> Piece {
    if lay_bishop(l)(i) {
        Piece::Bishop
    } else if lay_queen(l)(i) {
        Piece::Queen
    } else if lay_knight(l)(i) {
        Piece::Knight
    } else if count_where(i, lay_open3(l)) == l.5 {
        Piece::King
    } else {
        Piece::Rook
    }
}

/// The back rank the layout describes.
pub open spec fn layout(l: Layout) -> Seq<Piece> {
    Seq::new(8, |i: int| lay_piece(l, i))
}

/// How many pieces of each kind a back rank has.
pub open spec fn back_rank_number(q: Piece) -> nat {
    match q {
        Piece::King => 1,
        Piece::Queen => 1,
        _ => 2,
    }
}

/// The back rank of a layout has its pieces where the layout says, and
/// one king, one queen and two each of the others.
pub proof fn lemma_layout_facts(l: Layout)
    requires
        lay_valid(l),
    ensures
        layout(l).len() == 8,
        forall|i: int|
            0 <= i < 8 ==> {
                let s = layout(l);
                &&& (s[i] == Piece::Bishop <==> #[trigger] lay_bishop(l)(i))
                &&& (s[i] == Piece::Queen <==> lay_queen(l)(i))
                &&& (s[i] == Piece::Knight <==> lay_knight(l)(i))
                &&& (s[i] == Piece::King <==> lay_open3(l)(i) && count_where(i, lay_open3(l)) == l.5)
                &&& (s[i] == Piece::Rook <==> lay_open3(l)(i) && count_where(i, lay_open3(l)) != l.5)
            },
        forall|q: Piece| #[trigger] count_where(8, of_kind(layout(l), q)) == back_rank_number(q),
        count_where(8, lay_open1(l)) == 6,
        count_where(8, lay_open2(l)) == 5,
        count_where(8, lay_open3(l)) == 3,
{
    let s = layout(l);
    let f = |i: int| false;
    lemma_count_where_all_none(f, 8);
    // Bishops.
    let only0 = |i: int| i == l.0;
    lemma_count_where_drop_one(only0, f, 8, l.0);
    lemma_count_where_drop_one(lay_bishop(l), only0, 8, l.1);
    lemma_count_where_complement(lay_bishop(l), 8);
    lemma_count_where_ext(|i: int| !lay_bishop(l)(i), lay_open1(l), 8);
    // Queen.
    let qs = lemma_count_where_witness(lay_open1(l), 8, l.2 as nat);
    assert forall|j: int| 0 <= j < 8 && j != qs implies !#[trigger] lay_queen(l)(j) by {
        if lay_queen(l)(j) {
            lemma_count_where_unique(lay_open1(l), j, qs);
        }
    }
    lemma_count_where_drop_one(lay_queen(l), f, 8, qs);
    lemma_count_where_drop_one(lay_open1(l), lay_open2(l), 8, qs);
    // Knights.
    let na = lemma_count_where_witness(lay_open2(l), 8, l.3 as nat);
    let nb = lemma_count_where_witness(lay_open2(l), 8, l.4 as nat);
    assert forall|j: int| 0 <= j < 8 && j != na && j != nb implies !#[trigger] lay_knight(l)(j) by {
        if lay_knight(l)(j) {
            if count_where(j, lay_open2(l)) == l.3 {
                lemma_count_where_unique(lay_open2(l), j, na);
            } else {
                lemma_count_where_unique(lay_open2(l), j, nb);
            }
        }
    }
    let only_na = |i: int| i == na;
    lemma_count_where_drop_one(only_na, f, 8, na);
    lemma_count_where_drop_one(lay_knight(l), only_na, 8, nb);
    let o2_but_na = |i: int| lay_open2(l)(i) && i != na;
    lemma_count_where_drop_one(lay_open2(l), o2_but_na, 8, na);
    lemma_count_where_drop_one(o2_but_na, lay_open3(l), 8, nb);
    // King and rooks.
    let o3 = lay_open3(l);
    let king = of_kind(s, Piece::King);
    let rook = of_kind(s, Piece::Rook);
    assert forall|i: int| 0 <= i < 8 implies (#[trigger] king(i) <==> o3(i) && count_where(i, o3) == l.5) && (rook(i)
        <==> o3(i) && count_where(i, o3) != l.5) by {}
    let k = lemma_count_where_witness(o3, 8, l.5 as nat);
    assert forall|j: int| 0 <= j < 8 && j != k implies !#[trigger] king(j) by {
        if king(j) {
            lemma_count_where_unique(o3, j, k);
        }
    }
    lemma_count_where_drop_one(king, f, 8, k);
    lemma_count_where_split(o3, king, 8);
    lemma_count_where_ext(|i: int| o3(i) && king(i), king, 8);
    lemma_count_where_ext(|i: int| o3(i) && !king(i), rook, 8);
    // The other kinds.
    lemma_count_where_ext(of_kind(s, Piece::Bishop), lay_bishop(l), 8);
    lemma_count_where_ext(of_kind(s, Piece::Queen), lay_queen(l), 8);
    lemma_count_where_ext(of_kind(s, Piece::Knight), lay_knight(l), 8);
    assert forall|q: Piece| #[trigger] count_where(8, of_kind(s, q)) == back_rank_number(q) by {
        match q {
            Piece::King => {},
            Piece::Queen => {},
            Piece::Rook => {},
            Piece::Bishop => {},
            Piece::Knight => {},
        }
    }
}

/// Of two squares that satisfy a predicate, the one with fewer satisfying
/// squares before it comes first.
proof fn lemma_rank_before(pred: spec_fn(int) -> bool, i: int, j: int)
    requires
        0 <= i,
        0 <= j,
        pred(i),
        pred(j),
        count_where(i, pred) < count_where(j, pred),
    ensures
        i < j,
{
    if j < i {
        lemma_count_where_strict(pred, j, i);
    }
}

/// Every rearrangement of KQRRBBNN is the back rank of a layout.
pub proof fn lemma_layout_read_back(a: Seq<Piece>) -> (l: Layout)
    requires
        a.len() == 8,
        forall|q: Piece| #[trigger] count_where(8, of_kind(a, q)) == back_rank_number(q),
    ensures
        lay_valid(l),
        a == layout(l),
{
    let bishop = of_kind(a, Piece::Bishop);
    let queen = of_kind(a, Piece::Queen);
    let knight = of_kind(a, Piece::Knight);
    let king = of_kind(a, Piece::King);
    assert(count_where(8, bishop) == 2 && count_where(8, queen) == 1 && count_where(8, knight) == 2 && count_where(
        8,
        king,
    ) == 1) by {
        assert(count_where(8, bishop) == back_rank_number(Piece::Bishop));
        assert(count_where(8, queen) == back_rank_number(Piece::Queen));
        assert(count_where(8, knight) == back_rank_number(Piece::Knight));
        assert(count_where(8, king) == back_rank_number(Piece::King));
    }
    let o1 = outside(a, 1);
    let o2 = outside(a, 2);
    let o3 = outside(a, 3);
    // The bishops.
    let b1 = lemma_count_where_witness(bishop, 8, 0);
    let b2 = lemma_count_where_witness(bishop, 8, 1);
    lemma_rank_before(bishop, b1, b2);
    assert forall|i: int| 0 <= i < 8 && a[i] == Piece::Bishop implies i == b1 || i == b2 by {
        assert(bishop(i));
        lemma_count_where_strict(bishop, i, 8);
        if count_where(i, bishop) == 0 {
            lemma_count_where_unique(bishop, i, b1);
        } else {
            lemma_count_where_unique(bishop, i, b2);
        }
    }
    // The queen.
    let qp = lemma_count_where_witness(queen, 8, 0);
    assert forall|i: int| 0 <= i < 8 && a[i] == Piece::Queen implies i == qp by {
        assert(queen(i));
        lemma_count_where_strict(queen, i, 8);
        lemma_count_where_unique(queen, i, qp);
    }
    lemma_count_where_complement(bishop, 8);
    lemma_count_where_ext(|i: int| !bishop(i), o1, 8);
    lemma_count_where_strict(o1, qp, 8);
    let q = count_where(qp, o1) as int;
    // The knights.
    let n0 = lemma_count_where_witness(knight, 8, 0);
    let n1 = lemma_count_where_witness(knight, 8, 1);
    lemma_rank_before(knight, n0, n1);
    assert forall|i: int| 0 <= i < 8 && a[i] == Piece::Knight implies i == n0 || i == n1 by {
        assert(knight(i));
        lemma_count_where_strict(knight, i, 8);
        if count_where(i, knight) == 0 {
            lemma_count_where_unique(knight, i, n0);
        } else {
            lemma_count_where_unique(knight, i, n1);
        }
    }
    lemma_count_where_split(o1, queen, 8);
    lemma_count_where_ext(|i: int| o1(i) && queen(i), queen, 8);
    lemma_count_where_ext(|i: int| o1(i) && !queen(i), o2, 8);
    lemma_count_where_strict(o2, n0, n1);
    lemma_count_where_strict(o2, n1, 8);
    let ka = count_where(n0, o2) as int;
    let kb = count_where(n1, o2) as int;
    // The king.
    lemma_count_where_split(o2, knight, 8);
    lemma_count_where_ext(|i: int| o2(i) && knight(i), knight, 8);
    lemma_count_where_ext(|i: int| o2(i) && !knight(i), o3, 8);
    let kp = lemma_count_where_witness(king, 8, 0);
    assert forall|i: int| 0 <= i < 8 && a[i] == Piece::King implies i == kp by {
        assert(king(i));
        lemma_count_where_strict(king, i, 8);
        lemma_count_where_unique(king, i, kp);
    }
    assert(o3(kp));
    lemma_count_where_strict(o3, kp, 8);
    let kr = count_where(kp, o3) as int;
    let l: Layout = (b1, b2, q, ka, kb, kr);
    // The layout's squares are those of `a`.
    assert forall|i: int| 0 <= i < 8 implies #[trigger] lay_open1(l)(i) == o1(i) by {}
    lemma_count_where_ext(lay_open1(l), o1, qp);
    assert forall|i: int| 0 <= i < 8 implies #[trigger] lay_queen(l)(i) == (a[i] == Piece::Queen) by {
        if lay_queen(l)(i) {
            lemma_count_where_unique(lay_open1(l), i, qp);
        }
    }
    assert forall|i: int| 0 <= i < 8 implies #[trigger] lay_open2(l)(i) == o2(i) by {}
    lemma_count_where_ext(lay_open2(l), o2, n0);
    lemma_count_where_ext(lay_open2(l), o2, n1);
    assert forall|i: int| 0 <= i < 8 implies #[trigger] lay_knight(l)(i) == (a[i] == Piece::Knight) by {
        if lay_knight(l)(i) {
            if count_where(i, lay_open2(l)) == ka {
                lemma_count_where_unique(lay_open2(l), i, n0);
            } else {
                lemma_count_where_unique(lay_open2(l), i, n1);
            }
        }
    }
    assert forall|i: int| 0 <= i < 8 implies #[trigger] lay_open3(l)(i) == o3(i) by {}
    lemma_count_where_ext(lay_open3(l), o3, kp);
    assert forall|i: int| 0 <= i < 8 implies a[i] == #[trigger] lay_piece(l, i) by {
        if o3(i) {
            lemma_count_where_ext(lay_open3(l), o3, i);
            if a[i] != Piece::King && count_where(i, o3) == kr {
                lemma_count_where_unique(o3, i, kp);
            }
        }
    }
    assert(a =~= layout(l));
    l
}

/// Different layouts give different back ranks.
pub proof fn lemma_layout_injective(l1: Layout, l2: Layout)
    requires
        lay_valid(l1),
        lay_valid(l2),
        layout(l1) == layout(l2),
    ensures
        l1 == l2,
{
    lemma_layout_facts(l1);
    lemma_layout_facts(l2);
    // Bishops.
    assert(lay_bishop(l1)(l1.0) && lay_bishop(l2)(l1.0));
    assert(lay_bishop(l1)(l1.1) && lay_bishop(l2)(l1.1));
    assert(lay_bishop(l2)(l2.0) && lay_bishop(l1)(l2.0));
    assert(lay_bishop(l2)(l2.1) && lay_bishop(l1)(l2.1));
    assert(l1.0 == l2.0 && l1.1 == l2.1);
    // Queen.
    let qs = lemma_count_where_witness(lay_open1(l1), 8, l1.2 as nat);
    assert(lay_queen(l1)(qs) && lay_queen(l2)(qs));
    assert forall|i: int| 0 <= i < 8 implies #[trigger] lay_open1(l1)(i) == lay_open1(l2)(i) by {}
    lemma_count_where_ext(lay_open1(l1), lay_open1(l2), qs);
    // Knights.
    assert forall|i: int| 0 <= i < 8 implies #[trigger] lay_open2(l1)(i) == lay_open2(l2)(i) by {
        assert(lay_queen(l1)(i) == lay_queen(l2)(i));
    }
    let na = lemma_count_where_witness(lay_open2(l1), 8, l1.3 as nat);
    let nb = lemma_count_where_witness(lay_open2(l1), 8, l1.4 as nat);
    assert(lay_knight(l1)(na) && lay_knight(l2)(na));
    assert(lay_knight(l1)(nb) && lay_knight(l2)(nb));
    lemma_count_where_ext(lay_open2(l1), lay_open2(l2), na);
    lemma_count_where_ext(lay_open2(l1), lay_open2(l2), nb);
    let ma = lemma_count_where_witness(lay_open2(l2), 8, l2.3 as nat);
    let mb = lemma_count_where_witness(lay_open2(l2), 8, l2.4 as nat);
    assert(lay_knight(l2)(ma) && lay_knight(l1)(ma));
    assert(lay_knight(l2)(mb) && lay_knight(l1)(mb));
    lemma_count_where_ext(lay_open2(l1), lay_open2(l2), ma);
    lemma_count_where_ext(lay_open2(l1), lay_open2(l2), mb);
    assert(l1.3 == l2.3 && l1.4 == l2.4);
    // King.
    assert forall|i: int| 0 <= i < 8 implies #[trigger] lay_open3(l1)(i) == lay_open3(l2)(i) by {
        assert(lay_knight(l1)(i) == lay_knight(l2)(i));
    }
    let k = lemma_count_where_witness(lay_open3(l1), 8, l1.5 as nat);
    assert(layout(l1)[k] == Piece::King);
    lemma_count_where_ext(lay_open3(l1), lay_open3(l2), k);
}

/// On a back-rank problem whose root is the five back-rank counts and
/// then formulas that declare no count, a back rank is a solution exactly
/// when it is a rearrangement of KQRRBBNN that satisfies those formulas.
pub proof fn lemma_back_rank_solution(p: Problem<Piece>, rest: Seq<Formula<Piece, SquareColor>>, a: Seq<Piece>)
    requires
        is_back_rank_problem(p, Formula::And(count_formulas() + rest)),
        forall|j: int| 0 <= j < rest.len() ==> (#[trigger] rest[j]).eq_counts() == Seq::<(Piece, usize)>::empty(),
    ensures
        p.is_solution(a) <==> {
            &&& a.len() == 8
            &&& forall|q: Piece| #[trigger] count_where(8, of_kind(a, q)) == back_rank_number(q)
            &&& forall|k: int| 0 <= k < rest.len() ==> (#[trigger] rest[k]).holds(a, p.square_colors@)
        },
{
    let colors = p.square_colors@;
    let fs = count_formulas() + rest;
    lemma_back_rank_setup(p, rest);
    lemma_solution_meaning(p, a);
    lemma_all_any(fs, fs.len() as int, a, colors);
    let al = back_rank_alphabet();
    assert forall|t: int| 0 <= t < a.len() implies al.contains(#[trigger] a[t]) by {
        let c = a[t].code() as int;
        assert(al[c] == a[t]);
    }
    // The count formulas say the same as the counts by value.
    assert forall|k: int| 0 <= k < 5 implies (#[trigger] fs[k]).holds(a, colors) == (count_where(
        a.len() as int,
        of_kind(a, piece_at(k)),
    ) == back_rank_number(piece_at(k))) by {
        assert(fs[k] == count_formulas()[k]);
        lemma_kind_pred_piece(a, piece_at(k));
        lemma_count_where_ext(kind_pred(a, piece_at(k)), of_kind(a, piece_at(k)), a.len() as int);
    }
    assert forall|k: int| 0 <= k < rest.len() implies #[trigger] fs[5 + k] == rest[k] by {}
    if a.len() == 8 {
        if forall|q: Piece| #[trigger] count_where(8, of_kind(a, q)) == back_rank_number(q) {
            assert forall|k: int| 0 <= k < 5 implies (#[trigger] fs[k]).holds(a, colors) by {
                assert(count_where(8, of_kind(a, piece_at(k))) == back_rank_number(piece_at(k)));
            }
        }
        if p.constraint@.holds(a, colors) {
            assert forall|q: Piece| #[trigger] count_where(8, of_kind(a, q)) == back_rank_number(q) by {
                let k = q.code() as int;
                assert(piece_at(k) == q);
                assert(fs[k].holds(a, colors));
            }
            assert forall|k: int| 0 <= k < rest.len() implies (#[trigger] rest[k]).holds(a, colors) by {
                assert(fs[5 + k].holds(a, colors));
            }
        }
        if (forall|q: Piece| #[trigger] count_where(8, of_kind(a, q)) == back_rank_number(q)) && (forall|k: int|
            0 <= k < rest.len() ==> (#[trigger] rest[k]).holds(a, colors)) {
            assert forall|k: int| 0 <= k < fs.len() implies (#[trigger] fs[k]).holds(a, colors) by {
                if k < 5 {
                    assert(count_where(8, of_kind(a, piece_at(k))) == back_rank_number(piece_at(k)));
                } else {
                    assert(fs[5 + (k - 5)] == rest[k - 5]);
                }
            }
        }
    }
}

/// The kind counted by the `k`-th back-rank count formula.
pub open spec fn piece_at(k: int) -> Piece {
    if k == 0 {
        Piece::King
    } else if k == 1 {
        Piece::Queen
    } else if k == 2 {
        Piece::Rook
    } else if k == 3 {
        Piece::Bishop
    } else {
        Piece::Knight
    }
}

/// The 28 ways to put two bishops on eight squares, numbered 0 to 27.
pub open spec fn bishop_pair(k: int) -> (int, int) {
    if k < 7 {
        (0, k + 1)
    } else if k < 13 {
        (1, k - 5)
    } else if k < 18 {
        (2, k - 10)
    } else if k < 22 {
        (3, k - 14)
    } else if k < 25 {
        (4, k - 17)
    } else if k < 27 {
        (5, k - 19)
    } else {
        (6, 7)
    }
}

/// The bishop placements are increasing pairs below eight, told apart by
/// their number, and each increasing pair is one of them.
pub proof fn lemma_bishop_pair(k1: int, k2: int)
    requires
        0 <= k1 < 28,
        0 <= k2 < 28,
    ensures
        0 <= bishop_pair(k1).0 < bishop_pair(k1).1 < 8,
        bishop_pair(k1) == bishop_pair(k2) ==> k1 == k2,
{
}

/// Every increasing pair below eight is one of the 28 bishop placements.
pub proof fn lemma_bishop_pair_onto(x: int, y: int) -> (k: int)
    requires
        0 <= x < y < 8,
    ensures
        0 <= k < 28,
        bishop_pair(k) == (x, y),
{
    if x == 0 {
        y - 1
    } else if x == 1 {
        y + 5
    } else if x == 2 {
        y + 10
    } else if x == 3 {
        y + 14
    } else if x == 4 {
        y + 17
    } else if x == 5 {
        y + 19
    } else {
        27
    }
}

/// The layout numbered `id` among the 5040: bishops by `id % 28`, queen
/// by `(id / 28) % 6`, knights by `(id / 168) % 10`, king by `id / 1680`.
pub open spec fn shuffle_layout(id: int) -> Layout {
    let b = bishop_pair(id % 28);
    let n = knight_pair((id / 168) % 10);
    (b.0, b.1, (id / 28) % 6, n.0, n.1, id / 1680)
}

/// The digits of a number below 5040 in the radices 28, 6, 10, 3.
proof fn lemma_shuffle_digits(id: int)
    requires
        0 <= id < 5040,
    ensures
        0 <= id % 28 < 28,
        0 <= (id / 28) % 6 < 6,
        0 <= (id / 168) % 10 < 10,
        0 <= id / 1680 < 3,
        id == (((id / 1680) * 10 + (id / 168) % 10) * 6 + (id / 28) % 6) * 28 + id % 28,
{
    vstd::arithmetic::div_mod::lemma_div_denominator(id, 28, 6);
    vstd::arithmetic::div_mod::lemma_div_denominator(id, 168, 10);
    vstd::arithmetic::div_mod::lemma_fundamental_div_mod(id, 28);
    vstd::arithmetic::div_mod::lemma_fundamental_div_mod(id / 28, 6);
    vstd::arithmetic::div_mod::lemma_fundamental_div_mod(id / 168, 10);
}

/// A number below 5040 rebuilt from its digits.
proof fn lemma_shuffle_compose(bp: int, q: int, kn: int, kr: int)
    requires
        0 <= bp < 28,
        0 <= q < 6,
        0 <= kn < 10,
        0 <= kr < 3,
    ensures
        ({
            let id = ((kr * 10 + kn) * 6 + q) * 28 + bp;
            &&& 0 <= id < 5040
            &&& id % 28 == bp
            &&& (id / 28) % 6 == q
            &&& (id / 168) % 10 == kn
            &&& id / 1680 == kr
        }),
{
    let x = ((kr * 10 + kn) * 6 + q) * 28 + bp;
    let y = (kr * 10 + kn) * 6 + q;
    let z = kr * 10 + kn;
    vstd::arithmetic::div_mod::lemma_fundamental_div_mod_converse(x, 28, y, bp);
    vstd::arithmetic::div_mod::lemma_fundamental_div_mod_converse(y, 6, z, q);
    vstd::arithmetic::div_mod::lemma_fundamental_div_mod_converse(z, 10, kr, kn);
    vstd::arithmetic::div_mod::lemma_div_denominator(x, 28, 6);
    vstd::arithmetic::div_mod::lemma_div_denominator(x, 168, 10);
}

/// The numbering of the 5040 layouts: each number below 5040 gives a
/// layout, each layout has a number, and different numbers give
/// different layouts.
proof fn lemma_shuffle_numbering()
    ensures
        forall|id: int| 0 <= id < 5040 ==> lay_valid(#[trigger] shuffle_layout(id)),
        forall|l: Layout| lay_valid(l) ==> exists|id: int| 0 <= id < 5040 && #[trigger] shuffle_layout(id) == l,
        forall|i: int, j: int|
            0 <= i < 5040 && 0 <= j < 5040 && #[trigger] shuffle_layout(i) == #[trigger] shuffle_layout(j) ==> i == j,
{
    assert forall|id: int| 0 <= id < 5040 implies lay_valid(#[trigger] shuffle_layout(id)) by {
        lemma_shuffle_digits(id);
        lemma_bishop_pair(id % 28, 0);
        lemma_knight_pair((id / 168) % 10, 0);
    }
    assert forall|l: Layout| lay_valid(l) implies exists|id: int| 0 <= id < 5040 && #[trigger] shuffle_layout(id) == l by {
        let bp = lemma_bishop_pair_onto(l.0, l.1);
        let kn = crate::chess::numbering::lemma_knight_pair_onto(l.3, l.4);
        lemma_shuffle_compose(bp, l.2, kn, l.5);
        let id = ((l.5 * 10 + kn) * 6 + l.2) * 28 + bp;
        assert(shuffle_layout(id) == l);
    }
    assert forall|i: int, j: int|
        0 <= i < 5040 && 0 <= j < 5040 && #[trigger] shuffle_layout(i) == #[trigger] shuffle_layout(j) implies i == j by {
        lemma_shuffle_digits(i);
        lemma_shuffle_digits(j);
        lemma_bishop_pair(i % 28, j % 28);
        lemma_knight_pair((i / 168) % 10, (j / 168) % 10);
    }
}

/// A problem whose solutions are the back ranks of the layouts numbered
/// below `n`, different numbers giving different back ranks, has `n`
/// solutions.
proof fn lemma_count_by_numbering(p: Problem<Piece>, e: Seq<Seq<Piece>>, n: int, lay: spec_fn(int) -> Layout)
    requires
        n >= 0,
        p.lists(e),
        forall|id: int| 0 <= id < n ==> p.is_solution(layout(#[trigger] lay(id))),
        forall|a: Seq<Piece>| #[trigger] p.is_solution(a) ==> exists|id: int| 0 <= id < n && a == layout(#[trigger] lay(id)),
        forall|i: int, j: int|
            0 <= i < n && 0 <= j < n && layout(#[trigger] lay(i)) == layout(#[trigger] lay(j)) ==> i == j,
    ensures
        e.len() == n,
{
    let x = set_int_range(0, n);
    let f = |i: int| layout(lay(i));
    let y = e.to_set();
    lemma_int_range(0, n);
    assert forall|s: Seq<Piece>| #[trigger] y.contains(s) <==> x.map(f).contains(s) by {
        if y.contains(s) {
            assert(e.contains(s));
            assert(p.is_solution(s));
            let id = choose|id: int| 0 <= id < n && s == layout(#[trigger] lay(id));
            assert(x.contains(id) && f(id) == s);
        }
        if x.map(f).contains(s) {
            let i = choose|i: int| x.contains(i) && f(i) == s;
            assert(p.is_solution(layout(lay(i))));
        }
    }
    assert(x.map(f) =~= y);
    assert forall|i: int, j: int| x.contains(i) && x.contains(j) && #[trigger] f(i) == #[trigger] f(j) implies i == j by {
        assert(layout(lay(i)) == layout(lay(j)));
    }
    assert(injective_on(f, x));
    lemma_map_size(x, y, f);
    lemma_listing_no_duplicates(p, e);
}

/// The full-shuffle preset holds 5040 back ranks: any listing of its
/// solutions has that length.
pub proof fn lemma_shuffle_count(p: Problem<Piece>, e: Seq<Seq<Piece>>)
    requires
        is_back_rank_problem(p, Formula::And(count_formulas())),
        p.lists(e),
    ensures
        e.len() == 5040,
{
    let rest = Seq::<Formula<Piece, SquareColor>>::empty();
    assert(count_formulas() + rest =~= count_formulas());
    lemma_shuffle_numbering();
    let lay = |id: int| shuffle_layout(id);
    assert forall|id: int| 0 <= id < 5040 implies p.is_solution(layout(#[trigger] lay(id))) by {
        lemma_layout_facts(shuffle_layout(id));
        lemma_back_rank_solution(p, rest, layout(shuffle_layout(id)));
    }
    assert forall|a: Seq<Piece>| #[trigger] p.is_solution(a) implies exists|id: int| 0 <= id < 5040 && a == layout(
        #[trigger] lay(id),
    ) by {
        lemma_back_rank_solution(p, rest, a);
        let l = lemma_layout_read_back(a);
        let id = choose|id: int| 0 <= id < 5040 && #[trigger] shuffle_layout(id) == l;
        assert(a == layout(lay(id)));
    }
    assert forall|i: int, j: int|
        0 <= i < 5040 && 0 <= j < 5040 && layout(#[trigger] lay(i)) == layout(#[trigger] lay(j)) implies i == j by {
        lemma_layout_injective(shuffle_layout(i), shuffle_layout(j));
    }
    lemma_count_by_numbering(p, e, 5040, lay);
}

/// On the back-rank colouring, the two bishops stand one on each colour
/// exactly when their squares differ in parity.
pub proof fn lemma_bishop_colors(colors: Seq<SquareColor>, a: Seq<Piece>, b1: int, b2: int)
    requires
        colors.len() == 8,
        forall|i: int| 0 <= i < 8 ==> #[trigger] colors[i] == back_rank_color(i),
        a.len() == 8,
        0 <= b1 < b2 < 8,
        forall|i: int| 0 <= i < 8 ==> (a[i] == Piece::Bishop <==> (i == b1 || i == b2)),
    ensures
        (forall|k: int| 0 <= k < 2 ==> (#[trigger] bishop_color_formulas()[k]).holds(a, colors)) <==> b1 % 2 != b2
            % 2,
{
    let light = kind_color_pred(a, colors, Piece::Bishop, SquareColor::Light);
    let dark = kind_color_pred(a, colors, Piece::Bishop, SquareColor::Dark);
    assert forall|i: int| 0 <= i < 8 implies #[trigger] light(i) == ((i == b1 || i == b2) && i % 2 == 1) && dark(i) == (
    (i == b1 || i == b2) && i % 2 == 0) by {
        assert(colors[i] == back_rank_color(i));
    }
    let f = |i: int| false;
    lemma_count_where_all_none(f, 8);
    let only1 = |i: int| i == b1;
    let only2 = |i: int| i == b2;
    lemma_count_where_drop_one(only1, f, 8, b1);
    lemma_count_where_drop_one(only2, f, 8, b2);
    let both = |i: int| i == b1 || i == b2;
    lemma_count_where_drop_one(both, only1, 8, b2);
    if b1 % 2 == 1 && b2 % 2 == 1 {
        lemma_count_where_ext(light, both, 8);
    } else if b1 % 2 == 0 && b2 % 2 == 0 {
        lemma_count_where_ext(dark, both, 8);
    } else if b1 % 2 == 1 {
        lemma_count_where_ext(light, only1, 8);
        lemma_count_where_ext(dark, only2, 8);
    } else {
        lemma_count_where_ext(light, only2, 8);
        lemma_count_where_ext(dark, only1, 8);
    }
    assert(bishop_color_formulas()[0].holds(a, colors) == (count_where(8, light) == 1));
    assert(bishop_color_formulas()[1].holds(a, colors) == (count_where(8, dark) == 1));
}

/// The layout numbered `id` among the 2880 with the bishops on squares of
/// opposite colours: the light-square bishop on file b, d, f or h by
/// `id % 4`, the dark-square one on a, c, e or g by `(id / 4) % 4`, the
/// queen by `(id / 16) % 6`, the knights by `(id / 96) % 10`, the king
/// by `id / 960`.
pub open spec fn chess2880_layout(id: int) -> Layout {
    let light = 2 * (id % 4) + 1;
    let dark = 2 * ((id / 4) % 4);
    let n = knight_pair((id / 96) % 10);
    (
        if light < dark { light } else { dark },
        if light < dark { dark } else { light },
        (id / 16) % 6,
        n.0,
        n.1,
        id / 960,
    )
}

/// The digits of a number below 2880 in the radices 4, 4, 6, 10, 3.
proof fn lemma_chess2880_digits(id: int)
    requires
        0 <= id < 2880,
    ensures
        0 <= id % 4 < 4,
        0 <= (id / 4) % 4 < 4,
        0 <= (id / 16) % 6 < 6,
        0 <= (id / 96) % 10 < 10,
        0 <= id / 960 < 3,
        id == ((((id / 960) * 10 + (id / 96) % 10) * 6 + (id / 16) % 6) * 4 + (id / 4) % 4) * 4 + id % 4,
{
    vstd::arithmetic::div_mod::lemma_div_denominator(id, 4, 4);
    vstd::arithmetic::div_mod::lemma_div_denominator(id, 16, 6);
    vstd::arithmetic::div_mod::lemma_div_denominator(id, 96, 10);
    vstd::arithmetic::div_mod::lemma_fundamental_div_mod(id, 4);
    vstd::arithmetic::div_mod::lemma_fundamental_div_mod(id / 4, 4);
    vstd::arithmetic::div_mod::lemma_fundamental_div_mod(id / 16, 6);
    vstd::arithmetic::div_mod::lemma_fundamental_div_mod(id / 96, 10);
}

/// A number below 2880 rebuilt from its digits.
proof fn lemma_chess2880_compose(lb: int, db: int, q: int, kn: int, kr: int)
    requires
        0 <= lb < 4,
        0 <= db < 4,
        0 <= q < 6,
        0 <= kn < 10,
        0 <= kr < 3,
    ensures
        ({
            let id = ((((kr * 10 + kn) * 6 + q) * 4) + db) * 4 + lb;
            &&& 0 <= id < 2880
            &&& id % 4 == lb
            &&& (id / 4) % 4 == db
            &&& (id / 16) % 6 == q
            &&& (id / 96) % 10 == kn
            &&& id / 960 == kr
        }),
{
    let x = ((((kr * 10 + kn) * 6 + q) * 4) + db) * 4 + lb;
    let y = (((kr * 10 + kn) * 6 + q) * 4) + db;
    let z = (kr * 10 + kn) * 6 + q;
    let w = kr * 10 + kn;
    vstd::arithmetic::div_mod::lemma_fundamental_div_mod_converse(x, 4, y, lb);
    vstd::arithmetic::div_mod::lemma_fundamental_div_mod_converse(y, 4, z, db);
    vstd::arithmetic::div_mod::lemma_fundamental_div_mod_converse(z, 6, w, q);
    vstd::arithmetic::div_mod::lemma_fundamental_div_mod_converse(w, 10, kr, kn);
    vstd::arithmetic::div_mod::lemma_div_denominator(x, 4, 4);
    vstd::arithmetic::div_mod::lemma_div_denominator(x, 16, 6);
    vstd::arithmetic::div_mod::lemma_div_denominator(x, 96, 10);
}

/// The numbering of the 2880 layouts with the bishops on opposite
/// colours.
proof fn lemma_chess2880_numbering()
    ensures
        forall|id: int|
            0 <= id < 2880 ==> lay_valid(#[trigger] chess2880_layout(id)) && chess2880_layout(id).0 % 2
                != chess2880_layout(id).1 % 2,
        forall|l: Layout|
            lay_valid(l) && l.0 % 2 != l.1 % 2 ==> exists|id: int| 0 <= id < 2880 && #[trigger] chess2880_layout(id) == l,
        forall|i: int, j: int|
            0 <= i < 2880 && 0 <= j < 2880 && #[trigger] chess2880_layout(i) == #[trigger] chess2880_layout(j) ==> i == j,
{
    assert forall|id: int| 0 <= id < 2880 implies lay_valid(#[trigger] chess2880_layout(id)) && chess2880_layout(id).0 % 2
        != chess2880_layout(id).1 % 2 by {
        lemma_chess2880_digits(id);
        lemma_knight_pair((id / 96) % 10, 0);
    }
    assert forall|l: Layout| lay_valid(l) && l.0 % 2 != l.1 % 2 implies exists|id: int|
        0 <= id < 2880 && #[trigger] chess2880_layout(id) == l by {
        let light = if l.0 % 2 == 1 { l.0 } else { l.1 };
        let dark = if l.0 % 2 == 1 { l.1 } else { l.0 };
        let kn = crate::chess::numbering::lemma_knight_pair_onto(l.3, l.4);
        let lb = (light - 1) / 2;
        let db = dark / 2;
        lemma_chess2880_compose(lb, db, l.2, kn, l.5);
        let id = ((((l.5 * 10 + kn) * 6 + l.2) * 4) + db) * 4 + lb;
        assert(chess2880_layout(id) == l);
    }
    assert forall|i: int, j: int|
        0 <= i < 2880 && 0 <= j < 2880 && #[trigger] chess2880_layout(i) == #[trigger] chess2880_layout(j) implies i
        == j by {
        lemma_chess2880_digits(i);
        lemma_chess2880_digits(j);
        lemma_knight_pair((i / 96) % 10, (j / 96) % 10);
    }
}

/// The Chess2880 preset holds 2880 back ranks: any listing of its
/// solutions has that length.
pub proof fn lemma_chess2880_count(p: Problem<Piece>, e: Seq<Seq<Piece>>)
    requires
        is_back_rank_problem(p, Formula::And(count_formulas() + bishop_color_formulas())),
        p.lists(e),
    ensures
        e.len() == 2880,
{
    let rest = bishop_color_formulas();
    let colors = p.square_colors@;
    assert forall|j: int| 0 <= j < rest.len() implies (#[trigger] rest[j]).eq_counts() == Seq::<(Piece, usize)>::empty() by {}
    lemma_chess2880_numbering();
    let lay = |id: int| chess2880_layout(id);
    assert forall|id: int| 0 <= id < 2880 implies p.is_solution(layout(#[trigger] lay(id))) by {
        let l = chess2880_layout(id);
        lemma_layout_facts(l);
        lemma_bishop_colors(colors, layout(l), l.0, l.1);
        lemma_back_rank_solution(p, rest, layout(l));
    }
    assert forall|a: Seq<Piece>| #[trigger] p.is_solution(a) implies exists|id: int| 0 <= id < 2880 && a == layout(
        #[trigger] lay(id),
    ) by {
        lemma_back_rank_solution(p, rest, a);
        let l = lemma_layout_read_back(a);
        lemma_layout_facts(l);
        lemma_bishop_colors(colors, a, l.0, l.1);
        let id = choose|id: int| 0 <= id < 2880 && #[trigger] chess2880_layout(id) == l;
        assert(a == layout(lay(id)));
    }
    assert forall|i: int, j: int|
        0 <= i < 2880 && 0 <= j < 2880 && layout(#[trigger] lay(i)) == layout(#[trigger] lay(j)) implies i == j by {
        lemma_chess2880_numbering();
        lemma_layout_injective(chess2880_layout(i), chess2880_layout(j));
    }
    lemma_count_by_numbering(p, e, 2880, lay);
}

} // verus!
