//! What the presets hold: the Chess960 preset exactly the 960 numbered
//! starting positions, the standard preset exactly the FIDE back rank.
use vstd::prelude::*;
use crate::chess::numbering::{
    lemma_sp_arrangement_facts, lemma_sp_compose, lemma_sp_king_rooks, lemma_sp_read_back, lemma_sp_shape, of_kind, outside, sp_arrangement, sp_bishop,
    sp_dark, sp_light, sp_open3,
};
use crate::chess::{
    back_rank_alphabet, back_rank_color, bishop_color_formulas, chess960_formula, count_formulas, is_back_rank_problem,
    king_between_rooks, standard_formulas, standard_rank, Piece,
};
use crate::constraint::{chain_holds, chain_square, count_on_color, kind_color_pred, kind_pred, lemma_all_any, Formula, SquareColor};
use crate::count::{
    count_where, lemma_count_where_all_none, lemma_count_where_complement, lemma_count_where_drop_one,
    lemma_count_where_ext, lemma_count_where_split,
    lemma_count_where_strict, lemma_count_where_subset, lemma_count_where_unique, lemma_count_where_witness,
};
use crate::problem::{
    codes, declared_multiset, declared_sum, dedup_by_code, distinct_codes, eq_counts_upto, first_count, has_code,
    lemma_listing_no_duplicates, lemma_multiset_count, lemma_solution_meaning, lemma_repeat_ms, occurs, Problem,
};
use crate::PieceKind;
use vstd::relations::injective_on;
use vstd::set_lib::{lemma_int_range, lemma_map_size, set_int_range};

verus! {

/// A sequence whose codes are already distinct is its own dedup.
pub proof fn lemma_dedup_distinct<P: PieceKind>(s: Seq<P>)
    requires
        distinct_codes(s),
    ensures
        dedup_by_code(s) == s,
    decreases s.len(),
{
    if s.len() > 0 {
        let t = s.drop_last();
        assert(distinct_codes(t));
        lemma_dedup_distinct(t);
        assert(!has_code(t, s.last().code()));
        assert(t.push(s.last()) =~= s);
    }
}

/// The declared counts of the back-rank multiset, by code.
pub open spec fn back_rank_count(c: u64) -> nat {
    if c == 0 || c == 1 {
        1
    } else if c == 2 || c == 3 || c == 4 {
        2
    } else {
        0
    }
}

/// The `Count { Eq }` declarations of the back-rank multiset, in order.
pub open spec fn back_rank_declared() -> Seq<(Piece, usize)> {
    seq![
        (Piece::King, 1usize),
        (Piece::Queen, 1usize),
        (Piece::Rook, 2usize),
        (Piece::Bishop, 2usize),
        (Piece::Knight, 2usize),
    ]
}

/// Formulas that declare no count, put after the five back-rank counts,
/// leave the declared counts as they are.
proof fn lemma_back_rank_declared(rest: Seq<Formula<Piece, SquareColor>>, m: int)
    requires
        0 <= m <= rest.len(),
        forall|j: int| 0 <= j < rest.len() ==> (#[trigger] rest[j]).eq_counts() == Seq::<(Piece, usize)>::empty(),
    ensures
        eq_counts_upto(count_formulas() + rest, 5 + m) == back_rank_declared(),
    decreases m,
{
    let fs = count_formulas() + rest;
    let cs = back_rank_declared();
    if m == 0 {
        assert forall|k: int| 0 <= k < 5 implies #[trigger] fs[k].eq_counts() == seq![cs[k]] by {
            assert(fs[k] == count_formulas()[k]);
        }
        assert(eq_counts_upto(fs, 0) =~= cs.take(0));
        assert(eq_counts_upto(fs, 1) == eq_counts_upto(fs, 0) + fs[0].eq_counts());
        assert(fs[0].eq_counts() == seq![cs[0]]);
        assert(eq_counts_upto(fs, 1) =~= cs.take(1));
        assert(eq_counts_upto(fs, 2) == eq_counts_upto(fs, 1) + fs[1].eq_counts());
        assert(fs[1].eq_counts() == seq![cs[1]]);
        assert(eq_counts_upto(fs, 2) =~= cs.take(2));
        assert(eq_counts_upto(fs, 3) == eq_counts_upto(fs, 2) + fs[2].eq_counts());
        assert(fs[2].eq_counts() == seq![cs[2]]);
        assert(eq_counts_upto(fs, 3) =~= cs.take(3));
        assert(eq_counts_upto(fs, 4) == eq_counts_upto(fs, 3) + fs[3].eq_counts());
        assert(fs[3].eq_counts() == seq![cs[3]]);
        assert(eq_counts_upto(fs, 4) =~= cs.take(4));
        assert(eq_counts_upto(fs, 5) == eq_counts_upto(fs, 4) + fs[4].eq_counts());
        assert(fs[4].eq_counts() == seq![cs[4]]);
        assert(eq_counts_upto(fs, 5) =~= cs);
    } else {
        lemma_back_rank_declared(rest, m - 1);
        assert(fs[5 + m - 1] == rest[m - 1]);
        assert(eq_counts_upto(fs, 5 + m) == eq_counts_upto(fs, 5 + m - 1) + fs[5 + m - 1].eq_counts());
        assert(eq_counts_upto(fs, 5 + m) =~= cs);
    }
}

/// A back-rank problem whose root is the five back-rank counts followed
/// by formulas that declare no count: its alphabet is the five kinds,
/// its `Count { Eq }` declarations fix the multiset KQRRBBNN, and so the
/// solver walks the rearrangements of that multiset.
pub proof fn lemma_back_rank_setup(p: Problem<Piece>, rest: Seq<Formula<Piece, SquareColor>>)
    requires
        is_back_rank_problem(p, Formula::And(count_formulas() + rest)),
        forall|j: int| 0 <= j < rest.len() ==> (#[trigger] rest[j]).eq_counts() == Seq::<(Piece, usize)>::empty(),
    ensures
        p.alphabet() == back_rank_alphabet(),
        p.fixed_applies(),
        forall|c: u64| #[trigger] p.declared_ms().count(c) == back_rank_count(c),
{
    let a = back_rank_alphabet();
    assert forall|i: int| 0 <= i < 5 implies #[trigger] a[i].code() == i by {}
    lemma_dedup_distinct(a);
    let cs = back_rank_declared();
    lemma_back_rank_declared(rest, rest.len() as int);
    assert(p.constraint@.eq_counts() == cs);
    reveal_with_fuel(first_count, 6);
    assert forall|i: int| 0 <= i < 5 implies first_count(cs, (#[trigger] a[i]).code()) == Some(
        back_rank_count(i as u64) as usize,
    ) by {}
    reveal_with_fuel(declared_sum, 6);
    assert(declared_sum(a, cs, 5) == 8);
    assert forall|c: u64| #[trigger] p.declared_ms().count(c) == back_rank_count(c) by {
        lemma_repeat_ms(c, 0, 1);
        lemma_repeat_ms(c, 1, 1);
        lemma_repeat_ms(c, 2, 2);
        lemma_repeat_ms(c, 3, 2);
        lemma_repeat_ms(c, 4, 2);
        reveal_with_fuel(declared_multiset, 6);
    }
}

/// The Chess960 preset walks the rearrangements of KQRRBBNN.
pub proof fn lemma_chess960_setup(p: Problem<Piece>)
    requires
        is_back_rank_problem(p, chess960_formula()),
    ensures
        p.alphabet() == back_rank_alphabet(),
        p.fixed_applies(),
        forall|c: u64| #[trigger] p.declared_ms().count(c) == back_rank_count(c),
{
    let rest = bishop_color_formulas() + seq![king_between_rooks()];
    assert(count_formulas() + bishop_color_formulas() + seq![king_between_rooks()] =~= count_formulas() + rest);
    assert forall|j: int| 0 <= j < rest.len() implies (#[trigger] rest[j]).eq_counts() == Seq::<(Piece, usize)>::empty() by {
        if j < 2 {
            assert(rest[j] == bishop_color_formulas()[j]);
        }
    }
    lemma_back_rank_setup(p, rest);
}

/// The piece kind with code `c`.
pub open spec fn piece_of_code(c: u64) -> Piece {
    if c == 0 {
        Piece::King
    } else if c == 1 {
        Piece::Queen
    } else if c == 2 {
        Piece::Rook
    } else if c == 3 {
        Piece::Bishop
    } else {
        Piece::Knight
    }
}

/// Every numbered starting position is one of the arrangements the
/// Chess960 preset examines: a rearrangement of KQRRBBNN.
pub proof fn lemma_sp_admitted(p: Problem<Piece>, id: nat)
    requires
        is_back_rank_problem(p, chess960_formula()),
        id < 960,
    ensures
        p.admits(sp_arrangement(id)),
{
    let s = sp_arrangement(id);
    lemma_chess960_setup(p);
    lemma_sp_arrangement_facts(id);
    lemma_sp_king_rooks(id);
    let a = back_rank_alphabet();
    assert forall|t: int| 0 <= t < s.len() implies a.contains(#[trigger] s[t]) by {
        let c = s[t].code() as int;
        assert(a[c] == s[t]);
    }
    let w = codes(s);
    assert forall|c: u64| #[trigger] w.to_multiset().count(c) == p.declared_ms().count(c) by {
        lemma_multiset_count(w, c);
        let hit = occurs(w, c);
        if c < 5 {
            let q = piece_of_code(c);
            assert forall|i: int| 0 <= i < 8 implies #[trigger] hit(i) == of_kind(s, q)(i) by {
                assert(w[i] == s[i].code());
            }
            lemma_count_where_ext(hit, of_kind(s, q), 8);
            if c == 0 {
                assert(q == Piece::King);
            } else if c == 1 {
                assert(q == Piece::Queen);
            } else if c == 2 {
                assert(q == Piece::Rook);
            } else if c == 3 {
                assert(q == Piece::Bishop);
            } else {
                assert(q == Piece::Knight);
            }
        } else {
            assert forall|i: int| 0 <= i < 8 implies !#[trigger] hit(i) by {
                assert(w[i] == s[i].code());
            }
            lemma_count_where_all_none(hit, 8);
        }
    }
    assert(w.to_multiset() =~= p.declared_ms());
}

/// Telling a piece kind apart by code is telling it apart by value.
pub proof fn lemma_kind_pred_piece(s: Seq<Piece>, q: Piece)
    ensures
        forall|i: int| #[trigger] kind_pred(s, q)(i) == of_kind(s, q)(i),
{
}

/// The first instances of a predicate, by their number, stand in
/// increasing order.
proof fn lemma_rank_order(pred: spec_fn(int) -> bool, i: int, j: int)
    requires
        0 <= i,
        0 <= j,
        pred(i),
        pred(j),
        count_where(i, pred) < count_where(j, pred),
    ensures
        i < j,
{
    if j < i {
        lemma_count_where_strict(pred, j, i);
    } else if i == j {
    }
}

/// The five `Count` formulas of the back rank hold of every numbered
/// starting position.
proof fn lemma_sp_counts_hold(colors: Seq<SquareColor>, id: nat)
    requires
        id < 960,
    ensures
        forall|k: int| 0 <= k < 5 ==> (#[trigger] count_formulas()[k]).holds(sp_arrangement(id), colors),
{
    let s = sp_arrangement(id);
    lemma_sp_arrangement_facts(id);
    lemma_sp_king_rooks(id);
    assert forall|k: int| 0 <= k < 5 implies (#[trigger] count_formulas()[k]).holds(s, colors) by {
        let q = match count_formulas()[k] {
            Formula::Count { piece, .. } => piece,
            _ => Piece::King,
        };
        lemma_kind_pred_piece(s, q);
        lemma_count_where_ext(kind_pred(s, q), of_kind(s, q), 8);
    }
}

/// Every numbered starting position has one bishop on each colour.
proof fn lemma_sp_colors_hold(colors: Seq<SquareColor>, id: nat)
    requires
        id < 960,
        colors.len() == 8,
        forall|i: int| 0 <= i < 8 ==> #[trigger] colors[i] == back_rank_color(i),
    ensures
        forall|k: int| 0 <= k < 2 ==> (#[trigger] bishop_color_formulas()[k]).holds(sp_arrangement(id), colors),
{
    let s = sp_arrangement(id);
    lemma_sp_shape(id);
    lemma_sp_arrangement_facts(id);
    let f = |i: int| false;
    lemma_count_where_all_none(f, 8);
    let light = kind_color_pred(s, colors, Piece::Bishop, SquareColor::Light);
    let dark = kind_color_pred(s, colors, Piece::Bishop, SquareColor::Dark);
    assert forall|i: int| 0 <= i < 8 implies #[trigger] light(i) == (i == sp_light(id)) && dark(i) == (i == sp_dark(id)) by {
        assert(sp_bishop(id)(i) == (s[i] == Piece::Bishop));
    }
    lemma_count_where_drop_one(light, f, 8, sp_light(id));
    lemma_count_where_drop_one(dark, f, 8, sp_dark(id));
}

/// The squares of the first rook, the king and the second rook of
/// starting position `id`, with their numbers among the rooks and kings.
proof fn lemma_sp_rook_king_squares(id: nat) -> (r: (int, int, int))
    requires
        id < 960,
    ensures
        0 <= r.0 < r.1 < r.2 < 8,
        kind_pred(sp_arrangement(id), Piece::Rook)(r.0),
        kind_pred(sp_arrangement(id), Piece::King)(r.1),
        kind_pred(sp_arrangement(id), Piece::Rook)(r.2),
        count_where(r.0, kind_pred(sp_arrangement(id), Piece::Rook)) == 0,
        count_where(r.1, kind_pred(sp_arrangement(id), Piece::King)) == 0,
        count_where(r.2, kind_pred(sp_arrangement(id), Piece::Rook)) == 1,
        count_where(8, kind_pred(sp_arrangement(id), Piece::Rook)) == 2,
        count_where(8, kind_pred(sp_arrangement(id), Piece::King)) == 1,
{
    let s = sp_arrangement(id);
    lemma_sp_shape(id);
    lemma_sp_king_rooks(id);
    let f = |i: int| false;
    let o3 = sp_open3(id);
    let rook = kind_pred(s, Piece::Rook);
    let king = kind_pred(s, Piece::King);
    lemma_kind_pred_piece(s, Piece::Rook);
    lemma_kind_pred_piece(s, Piece::King);
    lemma_count_where_ext(rook, of_kind(s, Piece::Rook), 8);
    lemma_count_where_ext(king, of_kind(s, Piece::King), 8);
    let r0 = lemma_count_where_witness(o3, 8, 0);
    let k1 = lemma_count_where_witness(o3, 8, 1);
    let r2 = lemma_count_where_witness(o3, 8, 2);
    lemma_rank_order(o3, r0, k1);
    lemma_rank_order(o3, k1, r2);
    assert(rook(r0) && king(k1) && rook(r2));
    assert(count_where(r0, rook) == 0) by {
        assert forall|i: int| 0 <= i < r0 && #[trigger] rook(i) implies o3(i) by {}
        lemma_count_where_subset(rook, o3, r0);
    }
    assert(count_where(k1, king) == 0) by {
        assert forall|i: int| 0 <= i < k1 implies !#[trigger] king(i) by {
            if king(i) {
                lemma_count_where_unique(o3, i, k1);
            }
        }
        lemma_count_where_all_none(king, k1);
    }
    assert(count_where(r2, rook) == 1) by {
        assert forall|i: int| 0 <= i < r2 && i != r0 implies !#[trigger] rook(i) by {
            if rook(i) {
                lemma_count_where_strict(o3, i, r2);
                lemma_count_where_unique(o3, i, r0);
            }
        }
        lemma_count_where_all_none(f, r2);
        lemma_count_where_drop_one(rook, f, r2, r0);
    }
    (r0, k1, r2)
}

/// Every numbered starting position has its king between its rooks.
proof fn lemma_sp_order_holds(id: nat)
    requires
        id < 960,
    ensures
        chain_holds(sp_arrangement(id), seq![(Piece::Rook, 0usize), (Piece::King, 0usize), (Piece::Rook, 1usize)]),
{
    let s = sp_arrangement(id);
    let (r0, k1, r2) = lemma_sp_rook_king_squares(id);
    let rook = kind_pred(s, Piece::Rook);
    let king = kind_pred(s, Piece::King);
    let chain = seq![(Piece::Rook, 0usize), (Piece::King, 0usize), (Piece::Rook, 1usize)];
    assert(chain_square(s, chain, 0) == Some(r0)) by {
        let c = choose|i: int| 0 <= i < s.len() && rook(i) && count_where(i, rook) == 0;
        lemma_count_where_unique(rook, c, r0);
    }
    assert(chain_square(s, chain, 1) == Some(k1)) by {
        let c = choose|i: int| 0 <= i < s.len() && king(i) && count_where(i, king) == 0;
        lemma_count_where_unique(king, c, k1);
    }
    assert(chain_square(s, chain, 2) == Some(r2)) by {
        let c = choose|i: int| 0 <= i < s.len() && rook(i) && count_where(i, rook) == 1;
        lemma_count_where_unique(rook, c, r2);
    }
    assert forall|k: int| 0 <= k < chain.len() implies #[trigger] chain_square(s, chain, k) is Some by {
        if k == 0 {
        } else if k == 1 {
        } else {
        }
    }
    assert forall|j: int, k: int| 0 <= j < k < chain.len() implies #[trigger] chain_square(s, chain, j)->0
        < #[trigger] chain_square(s, chain, k)->0 by {
        if j == 0 && k == 1 {
        } else if j == 0 {
        } else {
        }
    }
}

/// Every numbered starting position satisfies the Chess960 constraint:
/// the back-rank counts, one bishop on each colour, and the king between
/// the rooks.
pub proof fn lemma_sp_satisfies(p: Problem<Piece>, id: nat)
    requires
        is_back_rank_problem(p, chess960_formula()),
        id < 960,
    ensures
        p.constraint@.holds(sp_arrangement(id), p.square_colors@),
{
    let s = sp_arrangement(id);
    let colors = p.square_colors@;
    let fs = count_formulas() + bishop_color_formulas() + seq![king_between_rooks()];
    lemma_sp_counts_hold(colors, id);
    lemma_sp_colors_hold(colors, id);
    lemma_sp_order_holds(id);
    assert forall|k: int| 0 <= k < 8 implies (#[trigger] fs[k]).holds(s, colors) by {
        if k < 5 {
            assert(fs[k] == count_formulas()[k]);
        } else if k < 7 {
            assert(fs[k] == bishop_color_formulas()[k - 5]);
        } else {
            assert(fs[k] == king_between_rooks());
        }
    }
    lemma_all_any(fs, 8, s, colors);
}

/// Every numbered starting position is a solution of the Chess960
/// preset.
pub proof fn lemma_sp_is_solution(p: Problem<Piece>, id: nat)
    requires
        is_back_rank_problem(p, chess960_formula()),
        id < 960,
    ensures
        p.is_solution(sp_arrangement(id)),
{
    lemma_sp_admitted(p, id);
    lemma_sp_satisfies(p, id);
}

/// A solution of the Chess960 preset has eight squares, and as many of
/// each kind as the back rank has.
proof fn lemma_solution_counts(p: Problem<Piece>, a: Seq<Piece>)
    requires
        is_back_rank_problem(p, chess960_formula()),
        p.is_solution(a),
    ensures
        a.len() == 8,
        forall|q: Piece| #[trigger] count_where(8, of_kind(a, q)) == back_rank_count(q.code()),
{
    lemma_chess960_setup(p);
    let w = codes(a);
    assert forall|q: Piece| #[trigger] count_where(8, of_kind(a, q)) == back_rank_count(q.code()) by {
        lemma_multiset_count(w, q.code());
        assert(w.to_multiset().count(q.code()) == p.declared_ms().count(q.code()));
        assert forall|i: int| 0 <= i < 8 implies #[trigger] occurs(w, q.code())(i) == of_kind(a, q)(i) by {
            assert(w[i] == a[i].code());
        }
        lemma_count_where_ext(occurs(w, q.code()), of_kind(a, q), 8);
    }
}

/// The children of the Chess960 constraint hold of each of its
/// solutions.
proof fn lemma_solution_children(p: Problem<Piece>, a: Seq<Piece>)
    requires
        is_back_rank_problem(p, chess960_formula()),
        p.is_solution(a),
    ensures
        count_on_color(a, p.square_colors@, Piece::Bishop, SquareColor::Light) == 1,
        count_on_color(a, p.square_colors@, Piece::Bishop, SquareColor::Dark) == 1,
        chain_holds(a, seq![(Piece::Rook, 0usize), (Piece::King, 0usize), (Piece::Rook, 1usize)]),
{
    let fs = count_formulas() + bishop_color_formulas() + seq![king_between_rooks()];
    lemma_all_any(fs, 8, a, p.square_colors@);
    assert(fs[5] == bishop_color_formulas()[0]);
    assert(fs[6] == bishop_color_formulas()[1]);
    assert(fs[7] == king_between_rooks());
    assert(fs[5].holds(a, p.square_colors@));
    assert(fs[6].holds(a, p.square_colors@));
    assert(fs[7].holds(a, p.square_colors@));
}

/// A solution of the Chess960 preset has one bishop on a light file
/// (b, d, f or h, by `r.0`) and one on a dark file (a, c, e or g, by
/// `r.1`), and no other bishop.
proof fn lemma_solution_bishops(p: Problem<Piece>, a: Seq<Piece>) -> (r: (int, int))
    requires
        is_back_rank_problem(p, chess960_formula()),
        p.is_solution(a),
    ensures
        0 <= r.0 < 4,
        0 <= r.1 < 4,
        forall|i: int| 0 <= i < 8 ==> (a[i] == Piece::Bishop <==> (i == 2 * r.0 + 1 || i == 2 * r.1)),
{
    let colors = p.square_colors@;
    lemma_solution_counts(p, a);
    lemma_solution_children(p, a);
    let light = kind_color_pred(a, colors, Piece::Bishop, SquareColor::Light);
    let dark = kind_color_pred(a, colors, Piece::Bishop, SquareColor::Dark);
    assert forall|i: int| 0 <= i < 8 implies #[trigger] light(i) == (a[i] == Piece::Bishop && i % 2 == 1) && dark(i) == (
    a[i] == Piece::Bishop && i % 2 == 0) by {
        assert(colors[i] == back_rank_color(i));
    }
    let l = lemma_count_where_witness(light, 8, 0);
    let d = lemma_count_where_witness(dark, 8, 0);
    assert forall|i: int| 0 <= i < 8 implies (a[i] == Piece::Bishop <==> (i == l || i == d)) by {
        if a[i] == Piece::Bishop {
            if i % 2 == 1 {
                assert(light(i));
                lemma_count_where_strict(light, i, 8);
                lemma_count_where_unique(light, i, l);
            } else {
                assert(dark(i));
                lemma_count_where_strict(dark, i, 8);
                lemma_count_where_unique(dark, i, d);
            }
        }
    }
    ((l - 1) / 2, d / 2)
}

/// In a solution of the Chess960 preset the three squares left by the
/// bishops, the queen and the knights hold rook, king, rook from left to
/// right.
proof fn lemma_solution_rook_king(p: Problem<Piece>, a: Seq<Piece>)
    requires
        is_back_rank_problem(p, chess960_formula()),
        p.is_solution(a),
    ensures
        forall|i: int|
            0 <= i < 8 && #[trigger] outside(a, 3)(i) ==> (a[i] == Piece::King <==> count_where(i, outside(a, 3)) == 1)
                && (a[i] == Piece::Rook || a[i] == Piece::King),
{
    lemma_solution_counts(p, a);
    lemma_solution_children(p, a);
    let chain = seq![(Piece::Rook, 0usize), (Piece::King, 0usize), (Piece::Rook, 1usize)];
    let rook = kind_pred(a, Piece::Rook);
    let king = kind_pred(a, Piece::King);
    let o3 = outside(a, 3);
    lemma_kind_pred_piece(a, Piece::Rook);
    lemma_kind_pred_piece(a, Piece::King);
    lemma_count_where_ext(rook, of_kind(a, Piece::Rook), 8);
    lemma_count_where_ext(king, of_kind(a, Piece::King), 8);
    assert(count_where(8, rook) == 2 && count_where(8, king) == 1) by {
        assert(count_where(8, of_kind(a, Piece::Rook)) == back_rank_count(Piece::Rook.code()));
        assert(count_where(8, of_kind(a, Piece::King)) == back_rank_count(Piece::King.code()));
    }
    let w0 = lemma_count_where_witness(rook, 8, 0);
    let w1 = lemma_count_where_witness(king, 8, 0);
    let w2 = lemma_count_where_witness(rook, 8, 1);
    assert(chain_square(a, chain, 0) is Some && chain_square(a, chain, 1) is Some && chain_square(a, chain, 2) is Some);
    let r0 = chain_square(a, chain, 0)->0;
    let k = chain_square(a, chain, 1)->0;
    let r1 = chain_square(a, chain, 2)->0;
    assert(r0 < k < r1);
    assert(0 <= r0 < 8 && rook(r0) && count_where(r0, rook) == 0);
    assert(0 <= k < 8 && king(k) && count_where(k, king) == 0);
    assert(0 <= r1 < 8 && rook(r1) && count_where(r1, rook) == 1);
    // The three squares are the only rooks and king.
    assert forall|i: int| 0 <= i < 8 && #[trigger] o3(i) implies i == r0 || i == k || i == r1 by {
        if rook(i) {
            lemma_count_where_strict(rook, i, 8);
            if count_where(i, rook) == 0 {
                lemma_count_where_unique(rook, i, r0);
            } else {
                lemma_count_where_unique(rook, i, r1);
            }
        } else {
            assert(king(i));
            lemma_count_where_strict(king, i, 8);
            lemma_count_where_unique(king, i, k);
        }
    }
    assert(o3(r0) && o3(k) && o3(r1));
    let f = |i: int| false;
    assert(count_where(k, o3) == 1) by {
        lemma_count_where_all_none(f, k);
        lemma_count_where_drop_one(o3, f, k, r0);
    }
    assert(count_where(r0, o3) == 0) by {
        lemma_count_where_all_none(o3, r0);
    }
    lemma_count_where_strict(o3, k, r1);
}

/// Every solution of the Chess960 preset is a numbered starting
/// position.
pub proof fn lemma_solution_is_sp(p: Problem<Piece>, a: Seq<Piece>) -> (id: nat)
    requires
        is_back_rank_problem(p, chess960_formula()),
        p.is_solution(a),
    ensures
        id < 960,
        a == sp_arrangement(id),
{
    lemma_solution_counts(p, a);
    let (lb, db) = lemma_solution_bishops(p, a);
    lemma_solution_rook_king(p, a);
    let bishop = of_kind(a, Piece::Bishop);
    let queen = of_kind(a, Piece::Queen);
    let knight = of_kind(a, Piece::Knight);
    assert(count_where(8, bishop) == 2 && count_where(8, queen) == 1 && count_where(8, knight) == 2) by {
        assert(count_where(8, bishop) == back_rank_count(Piece::Bishop.code()));
        assert(count_where(8, queen) == back_rank_count(Piece::Queen.code()));
        assert(count_where(8, knight) == back_rank_count(Piece::Knight.code()));
    }
    let o1 = outside(a, 1);
    let o2 = outside(a, 2);
    // The queen.
    let qp = lemma_count_where_witness(queen, 8, 0);
    assert forall|i: int| 0 <= i < 8 && a[i] == Piece::Queen implies i == qp by {
        assert(queen(i));
        lemma_count_where_strict(queen, i, 8);
        lemma_count_where_unique(queen, i, qp);
    }
    lemma_count_where_complement(bishop, 8);
    lemma_count_where_ext(|i: int| !bishop(i), o1, 8);
    lemma_count_where_strict(o1, qp, 8);
    let q = count_where(qp, o1) as int;
    // The knights.
    let n0 = lemma_count_where_witness(knight, 8, 0);
    let n1 = lemma_count_where_witness(knight, 8, 1);
    lemma_rank_order(knight, n0, n1);
    assert forall|i: int| 0 <= i < 8 && a[i] == Piece::Knight implies i == n0 || i == n1 by {
        assert(knight(i));
        lemma_count_where_strict(knight, i, 8);
        if count_where(i, knight) == 0 {
            lemma_count_where_unique(knight, i, n0);
        } else {
            lemma_count_where_unique(knight, i, n1);
        }
    }
    lemma_count_where_split(o1, queen, 8);
    lemma_count_where_ext(|i: int| o1(i) && queen(i), queen, 8);
    lemma_count_where_ext(|i: int| o1(i) && !queen(i), o2, 8);
    lemma_count_where_strict(o2, n0, n1);
    lemma_count_where_strict(o2, n1, 8);
    let ka = count_where(n0, o2) as int;
    let kb = count_where(n1, o2) as int;
    let kn = crate::chess::numbering::lemma_knight_pair_onto(ka, kb);
    lemma_sp_read_back(a, lb, db, q, kn, qp, n0, n1);
    lemma_sp_compose(kn, q, db, lb);
    (((kn * 6 + q) * 4 + db) * 4 + lb) as nat
}

/// The Chess960 preset has exactly 960 solutions: any listing of them
/// has length 960.
pub proof fn lemma_chess960_count(p: Problem<Piece>, e: Seq<Seq<Piece>>)
    requires
        is_back_rank_problem(p, chess960_formula()),
        p.lists(e),
    ensures
        e.len() == 960,
{
    let x = set_int_range(0, 960);
    let f = |i: int| sp_arrangement(i as nat);
    let y = e.to_set();
    lemma_int_range(0, 960);
    assert forall|s: Seq<Piece>| #[trigger] y.contains(s) <==> x.map(f).contains(s) by {
        if y.contains(s) {
            assert(e.contains(s));
            let id = lemma_solution_is_sp(p, s);
            assert(x.contains(id as int) && f(id as int) == s);
        }
        if x.map(f).contains(s) {
            let i = choose|i: int| x.contains(i) && f(i) == s;
            lemma_sp_is_solution(p, i as nat);
        }
    }
    assert(x.map(f) =~= y);
    assert forall|i: int, j: int| x.contains(i) && x.contains(j) && #[trigger] f(i) == #[trigger] f(j) implies i == j by {
        crate::chess::numbering::lemma_sp_id_inverse(i as nat, j as nat);
    }
    assert(injective_on(f, x));
    lemma_map_size(x, y, f);
    lemma_listing_no_duplicates(p, e);
}

/// The standard preset's root: the back-rank counts, then every piece
/// of the FIDE back rank pinned to its square.
pub open spec fn standard_formula() -> Formula<Piece, SquareColor> {
    Formula::And(count_formulas() + standard_formulas())
}

/// The standard preset walks the rearrangements of KQRRBBNN.
proof fn lemma_standard_setup(p: Problem<Piece>)
    requires
        is_back_rank_problem(p, standard_formula()),
    ensures
        p.alphabet() == back_rank_alphabet(),
        p.fixed_applies(),
        forall|c: u64| #[trigger] p.declared_ms().count(c) == back_rank_count(c),
{
    lemma_back_rank_setup(p, standard_formulas());
}

/// The FIDE back rank is a solution of the standard preset.
proof fn lemma_standard_rank_is_solution(p: Problem<Piece>)
    requires
        is_back_rank_problem(p, standard_formula()),
    ensures
        p.is_solution(standard_rank()),
{
    let s = standard_rank();
    let colors = p.square_colors@;
    lemma_standard_setup(p);
    let a = back_rank_alphabet();
    assert forall|t: int| 0 <= t < s.len() implies a.contains(#[trigger] s[t]) by {
        let c = s[t].code() as int;
        assert(a[c] == s[t]);
    }
    let w = codes(s);
    assert(w =~= seq![2u64, 4, 3, 1, 0, 3, 4, 2]);
    assert forall|c: u64| #[trigger] w.to_multiset().count(c) == p.declared_ms().count(c) by {
        lemma_multiset_count(w, c);
        reveal_with_fuel(count_where, 9);
    }
    assert(w.to_multiset() =~= p.declared_ms());
    let fs = count_formulas() + standard_formulas();
    assert forall|k: int| 0 <= k < 13 implies (#[trigger] fs[k]).holds(s, colors) by {
        if k < 5 {
            assert(fs[k] == count_formulas()[k]);
            reveal_with_fuel(count_where, 9);
        } else {
            assert(fs[k] == standard_formulas()[k - 5]);
        }
    }
    lemma_all_any(fs, 13, s, colors);
}

/// The standard preset holds exactly one arrangement, the FIDE back
/// rank: any listing of its solutions is that one rank.
pub proof fn lemma_standard_listing(p: Problem<Piece>, e: Seq<Seq<Piece>>)
    requires
        is_back_rank_problem(p, standard_formula()),
        p.lists(e),
    ensures
        e == seq![standard_rank()],
{
    let fs = count_formulas() + standard_formulas();
    lemma_standard_rank_is_solution(p);
    assert forall|s: Seq<Piece>| #[trigger] p.is_solution(s) implies s == standard_rank() by {
        lemma_all_any(fs, 13, s, p.square_colors@);
        assert forall|i: int| 0 <= i < 8 implies s[i] == #[trigger] standard_rank()[i] by {
            assert(fs[5 + i] == standard_formulas()[i]);
            assert(fs[5 + i].holds(s, p.square_colors@));
        }
        assert(s =~= standard_rank());
    }
    lemma_listing_no_duplicates(p, e);
    assert(e.contains(standard_rank()));
    let k = choose|k: int| 0 <= k < e.len() && e[k] == standard_rank();
    assert forall|j: int| 0 <= j < e.len() implies j == k && #[trigger] e[j] == standard_rank() by {
        assert(e.contains(e[j]));
        assert(p.is_solution(e[j]));
    }
    assert(e.len() == 1) by {
        if e.len() > 1 {
            assert(e[0] == standard_rank() && e[1] == standard_rank());
        }
    }
    assert(e =~= seq![standard_rank()]);
}

/// The numbered starting positions are exactly the back ranks that meet
/// the Chess960 rules: eight squares, one king, one queen and two each of
/// rooks, bishops and knights, one bishop on each colour, and the king
/// between the rooks. So [`Chess960Problem::sp_id_of`] answers `Some`
/// exactly on these.
pub proof fn lemma_sp_positions_are_chess960(p: Problem<Piece>, a: Seq<Piece>)
    requires
        is_back_rank_problem(p, chess960_formula()),
    ensures
        (exists|id: nat| id < 960 && a == sp_arrangement(id)) <==> (a.len() == 8 && chess960_formula().holds(
            a,
            p.square_colors@,
        )),
{
    lemma_chess960_setup(p);
    lemma_solution_meaning(p, a);
    let al = back_rank_alphabet();
    assert forall|t: int| 0 <= t < a.len() implies al.contains(#[trigger] a[t]) by {
        let c = a[t].code() as int;
        assert(al[c] == a[t]);
    }
    if exists|id: nat| id < 960 && a == sp_arrangement(id) {
        let id = choose|id: nat| id < 960 && a == sp_arrangement(id);
        lemma_sp_is_solution(p, id);
    }
    if a.len() == 8 && chess960_formula().holds(a, p.square_colors@) {
        let id = lemma_solution_is_sp(p, a);
    }
}

} // verus!
