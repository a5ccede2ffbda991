//! The official Chess960 starting-position numbering (SP-ID).
use vstd::prelude::*;
use crate::chess::{Chess960Problem, Piece};
use crate::count::{
    count_where, lemma_count_where_all_none, lemma_count_where_drop_one, lemma_count_where_ext,
    lemma_count_where_complement, lemma_count_where_split, lemma_count_where_strict, lemma_count_where_unique, lemma_count_where_witness,
};

verus! {

/// The entries `i` of `0..n` at which `pred` holds, in increasing order.
pub open spec fn indices_where(n: int, pred: spec_fn(int) -> bool) -> Seq<int>
    decreases n,
{
    if n <= 0 {
        Seq::empty()
    } else if pred(n - 1) {
        indices_where(n - 1, pred).push(n - 1)
    } else {
        indices_where(n - 1, pred)
    }
}

/// The knight placements on five free squares, numbered 0 to 9.
pub open spec fn knight_pair(kn: int) -> (int, int) {
    if kn == 0 {
        (0, 1)
    } else if kn == 1 {
        (0, 2)
    } else if kn == 2 {
        (0, 3)
    } else if kn == 3 {
        (0, 4)
    } else if kn == 4 {
        (1, 2)
    } else if kn == 5 {
        (1, 3)
    } else if kn == 6 {
        (1, 4)
    } else if kn == 7 {
        (2, 3)
    } else if kn == 8 {
        (2, 4)
    } else {
        (3, 4)
    }
}

/// The free squares of a partly filled board, in increasing order.
pub open spec fn empties(b: Seq<Option<Piece>>) -> Seq<int> {
    indices_where(b.len() as int, free_pred(b))
}

/// The free squares of `b`.
pub open spec fn free_pred(b: Seq<Option<Piece>>) -> spec_fn(int) -> bool {
    |i: int| b[i] is None
}

/// The squares of `a` holding `p`.
pub open spec fn of_kind(a: Seq<Piece>, p: Piece) -> spec_fn(int) -> bool {
    |i: int| a[i] == p
}

/// The squares of `a` left once the bishops (`k >= 1`), the queen
/// (`k >= 2`) and the knights (`k >= 3`) are set aside.
pub open spec fn outside(a: Seq<Piece>, k: int) -> spec_fn(int) -> bool {
    |i: int| a[i] != Piece::Bishop && (k >= 2 ==> a[i] != Piece::Queen) && (k >= 3 ==> a[i] != Piece::Knight)
}

/// The square of the light-square bishop of starting position `id`:
/// file b, d, f or h by `id % 4`.
pub open spec fn sp_light(id: nat) -> int {
    (2 * (id % 4) + 1) as int
}

/// The square of the dark-square bishop: file a, c, e or g by
/// `(id / 4) % 4`.
pub open spec fn sp_dark(id: nat) -> int {
    (2 * ((id / 4) % 4)) as int
}

/// Which of the six squares left by the bishops takes the queen.
pub open spec fn sp_queen_rank(id: nat) -> int {
    ((id / 16) % 6) as int
}

/// Which two of the five squares left by the bishops and the queen take
/// the knights.
pub open spec fn sp_knight_ranks(id: nat) -> (int, int) {
    knight_pair((id / 96) as int)
}

/// The bishop squares of position `id`.
pub open spec fn sp_bishop(id: nat) -> spec_fn(int) -> bool {
    |i: int| i == sp_light(id) || i == sp_dark(id)
}

/// The squares left by the bishops.
pub open spec fn sp_open1(id: nat) -> spec_fn(int) -> bool {
    |i: int| !sp_bishop(id)(i)
}

/// The queen square: the one with `sp_queen_rank` squares left by the
/// bishops before it.
pub open spec fn sp_queen(id: nat) -> spec_fn(int) -> bool {
    |i: int| sp_open1(id)(i) && count_where(i, sp_open1(id)) == sp_queen_rank(id)
}

/// The squares left by the bishops and the queen.
pub open spec fn sp_open2(id: nat) -> spec_fn(int) -> bool {
    |i: int| sp_open1(id)(i) && !sp_queen(id)(i)
}

/// The knight squares: those whose number among the squares left by the
/// bishops and the queen is one of `sp_knight_ranks`.
pub open spec fn sp_knight(id: nat) -> spec_fn(int) -> bool {
    |i: int|
        sp_open2(id)(i) && (count_where(i, sp_open2(id)) == sp_knight_ranks(id).0 || count_where(i, sp_open2(id))
            == sp_knight_ranks(id).1)
}

/// The three squares left for the rooks and the king.
pub open spec fn sp_open3(id: nat) -> spec_fn(int) -> bool {
    |i: int| sp_open2(id)(i) && !sp_knight(id)(i)
}

/// The piece on square `i` of starting position `id`: the bishops, the
/// queen and the knights as above, and on the three squares left rook,
/// king, rook from left to right.
pub open spec fn sp_piece(id: nat, i: int) -> Piece {
    if sp_bishop(id)(i) {
        Piece::Bishop
    } else if sp_queen(id)(i) {
        Piece::Queen
    } else if sp_knight(id)(i) {
        Piece::Knight
    } else if count_where(i, sp_open3(id)) == 1 {
        Piece::King
    } else {
        Piece::Rook
    }
}

/// The back rank of Chess960 starting position `id` (official SP-ID).
pub open spec fn sp_arrangement(id: nat) -> Seq<Piece> {
    Seq::new(8, |i: int| sp_piece(id, i))
}

/// `indices_where` lists exactly the satisfying entries, in increasing
/// order, and has `count_where` of them.
pub proof fn lemma_indices_where(n: int, pred: spec_fn(int) -> bool)
    requires
        n >= 0,
    ensures
        indices_where(n, pred).len() == count_where(n, pred),
        forall|k: int| 0 <= k < indices_where(n, pred).len() ==> {
            let i = #[trigger] indices_where(n, pred)[k];
            &&& 0 <= i < n
            &&& pred(i)
            &&& count_where(i, pred) == k
        },
        forall|j: int, k: int| 0 <= j < k < indices_where(n, pred).len() ==> #[trigger] indices_where(n, pred)[j] < #[trigger] indices_where(n, pred)[k],
    decreases n,
{
    if n > 0 {
        lemma_indices_where(n - 1, pred);
    }
}

/// Every satisfying entry below `n` stands in `indices_where` at the
/// number of satisfying entries before it.
pub proof fn lemma_indices_where_complete(n: int, pred: spec_fn(int) -> bool, i: int)
    requires
        0 <= i < n,
        pred(i),
    ensures
        count_where(i, pred) < indices_where(n, pred).len(),
        indices_where(n, pred)[count_where(i, pred) as int] == i,
{
    lemma_indices_where(n, pred);
    lemma_count_where_strict(pred, i, n);
    let e = indices_where(n, pred)[count_where(i, pred) as int];
    lemma_count_where_unique(pred, e, i);
}

/// The ten knight placements are increasing pairs below five, told
/// apart by their number.
pub proof fn lemma_knight_pair(k1: int, k2: int)
    requires
        0 <= k1 < 10,
        0 <= k2 < 10,
    ensures
        0 <= knight_pair(k1).0 < knight_pair(k1).1 < 5,
        knight_pair(k1) == knight_pair(k2) ==> k1 == k2,
{
}

/// Every increasing pair below five is one of the ten knight
/// placements.
pub proof fn lemma_knight_pair_onto(x: int, y: int) -> (k: int)
    requires
        0 <= x < y < 5,
    ensures
        0 <= k < 10,
        knight_pair(k) == (x, y),
{
    if x == 0 {
        y - 1
    } else if x == 1 {
        y + 2
    } else if x == 2 {
        y + 4
    } else {
        9
    }
}

/// The four digits of a starting-position number below 960.
pub proof fn lemma_sp_digits(id: nat)
    requires
        id < 960,
    ensures
        id % 4 < 4,
        (id / 4) % 4 < 4,
        (id / 16) % 6 < 6,
        id / 96 < 10,
        id == (((id / 96) * 6 + (id / 16) % 6) * 4 + (id / 4) % 4) * 4 + id % 4,
        (id / 4) / 4 == id / 16,
        (id / 16) / 6 == id / 96,
{
    let x = id as int;
    vstd::arithmetic::div_mod::lemma_div_denominator(x, 4, 4);
    vstd::arithmetic::div_mod::lemma_div_denominator(x, 16, 6);
    vstd::arithmetic::div_mod::lemma_fundamental_div_mod(x, 4);
    vstd::arithmetic::div_mod::lemma_fundamental_div_mod(x / 4, 4);
    vstd::arithmetic::div_mod::lemma_fundamental_div_mod(x / 16, 6);
}

/// A starting-position number rebuilt from its four digits.
pub proof fn lemma_sp_compose(kn: int, q: int, db: int, lb: int)
    requires
        0 <= kn < 10,
        0 <= q < 6,
        0 <= db < 4,
        0 <= lb < 4,
    ensures
        ({
            let id = (((kn * 6 + q) * 4 + db) * 4 + lb) as nat;
            &&& id < 960
            &&& id % 4 == lb
            &&& (id / 4) % 4 == db
            &&& (id / 16) % 6 == q
            &&& id / 96 == kn
        }),
{
    let x = ((kn * 6 + q) * 4 + db) * 4 + lb;
    let y = (kn * 6 + q) * 4 + db;
    let z = kn * 6 + q;
    vstd::arithmetic::div_mod::lemma_fundamental_div_mod_converse(x, 4, y, lb);
    vstd::arithmetic::div_mod::lemma_fundamental_div_mod_converse(y, 4, z, db);
    vstd::arithmetic::div_mod::lemma_fundamental_div_mod_converse(z, 6, kn, q);
    vstd::arithmetic::div_mod::lemma_div_denominator(x, 4, 4);
    vstd::arithmetic::div_mod::lemma_div_denominator(x, 16, 6);
}

/// The shape of starting position `id`: two bishops on squares of
/// opposite colours, one queen, two knights, and three squares left.
pub proof fn lemma_sp_shape(id: nat)
    requires
        id < 960,
    ensures
        0 <= sp_light(id) < 8,
        sp_light(id) % 2 == 1,
        0 <= sp_dark(id) < 8,
        sp_dark(id) % 2 == 0,
        count_where(8, sp_bishop(id)) == 2,
        count_where(8, sp_open1(id)) == 6,
        count_where(8, sp_queen(id)) == 1,
        count_where(8, sp_open2(id)) == 5,
        count_where(8, sp_knight(id)) == 2,
        count_where(8, sp_open3(id)) == 3,
{
    lemma_sp_digits(id);
    let l = sp_light(id);
    let d = sp_dark(id);
    let f = |i: int| false;
    lemma_count_where_all_none(f, 8);
    // Bishops.
    let only_l = |i: int| i == l;
    lemma_count_where_drop_one(only_l, f, 8, l);
    lemma_count_where_drop_one(sp_bishop(id), only_l, 8, d);
    lemma_count_where_complement(sp_bishop(id), 8);
    lemma_count_where_ext(|i: int| !sp_bishop(id)(i), sp_open1(id), 8);
    // Queen.
    let qs = lemma_count_where_witness(sp_open1(id), 8, sp_queen_rank(id) as nat);
    assert forall|j: int| 0 <= j < 8 && j != qs implies !#[trigger] sp_queen(id)(j) by {
        if sp_queen(id)(j) {
            lemma_count_where_unique(sp_open1(id), j, qs);
        }
    }
    lemma_count_where_drop_one(sp_queen(id), f, 8, qs);
    lemma_count_where_drop_one(sp_open1(id), sp_open2(id), 8, qs);
    // Knights.
    lemma_knight_pair((id / 96) as int, 0);
    let (ka, kb) = sp_knight_ranks(id);
    let na = lemma_count_where_witness(sp_open2(id), 8, ka as nat);
    let nb = lemma_count_where_witness(sp_open2(id), 8, kb as nat);
    assert forall|j: int| 0 <= j < 8 && j != na && j != nb implies !#[trigger] sp_knight(id)(j) by {
        if sp_knight(id)(j) {
            if count_where(j, sp_open2(id)) == ka {
                lemma_count_where_unique(sp_open2(id), j, na);
            } else {
                lemma_count_where_unique(sp_open2(id), j, nb);
            }
        }
    }
    let only_na = |i: int| i == na;
    lemma_count_where_drop_one(only_na, f, 8, na);
    lemma_count_where_drop_one(sp_knight(id), only_na, 8, nb);
    let open2_but_na = |i: int| sp_open2(id)(i) && i != na;
    lemma_count_where_drop_one(sp_open2(id), open2_but_na, 8, na);
    lemma_count_where_drop_one(open2_but_na, sp_open3(id), 8, nb);
}

/// What can be read off the back rank of starting position `id`: where
/// its bishops, queen and knights stand, how many there are, and that
/// the three squares left hold rook, king, rook from left to right.
pub proof fn lemma_sp_arrangement_facts(id: nat)
    requires
        id < 960,
    ensures
        sp_arrangement(id).len() == 8,
        forall|i: int|
            0 <= i < 8 ==> {
                let s = sp_arrangement(id);
                &&& (s[i] == Piece::Bishop <==> #[trigger] sp_bishop(id)(i))
                &&& (s[i] == Piece::Queen <==> sp_queen(id)(i))
                &&& (s[i] == Piece::Knight <==> sp_knight(id)(i))
                &&& (outside(s, 3)(i) <==> sp_open3(id)(i))
            },
        count_where(8, of_kind(sp_arrangement(id), Piece::Bishop)) == 2,
        count_where(8, of_kind(sp_arrangement(id), Piece::Queen)) == 1,
        count_where(8, of_kind(sp_arrangement(id), Piece::Knight)) == 2,
        forall|i: int|
            0 <= i < 8 && #[trigger] outside(sp_arrangement(id), 3)(i) ==> {
                let s = sp_arrangement(id);
                &&& (s[i] == Piece::King <==> count_where(i, outside(s, 3)) == 1)
                &&& (s[i] == Piece::Rook || s[i] == Piece::King)
            },
{
    let s = sp_arrangement(id);
    lemma_sp_shape(id);
    assert forall|i: int| 0 <= i < 8 implies {
        &&& (s[i] == Piece::Bishop <==> #[trigger] sp_bishop(id)(i))
        &&& (s[i] == Piece::Queen <==> sp_queen(id)(i))
        &&& (s[i] == Piece::Knight <==> sp_knight(id)(i))
        &&& (outside(s, 3)(i) <==> sp_open3(id)(i))
    } by {}
    lemma_count_where_ext(of_kind(s, Piece::Bishop), sp_bishop(id), 8);
    lemma_count_where_ext(of_kind(s, Piece::Queen), sp_queen(id), 8);
    lemma_count_where_ext(of_kind(s, Piece::Knight), sp_knight(id), 8);
    assert forall|i: int| 0 <= i < 8 && #[trigger] outside(s, 3)(i) implies {
        &&& (s[i] == Piece::King <==> count_where(i, outside(s, 3)) == 1)
        &&& (s[i] == Piece::Rook || s[i] == Piece::King)
    } by {
        assert forall|j: int| 0 <= j < i implies #[trigger] outside(s, 3)(j) == sp_open3(id)(j) by {}
        lemma_count_where_ext(outside(s, 3), sp_open3(id), i);
    }
}

/// Starting position `id` has one king and two rooks, all on the three
/// squares left by the bishops, the queen and the knights: the rooks on
/// the first and third of them, the king on the second.
pub proof fn lemma_sp_king_rooks(id: nat)
    requires
        id < 960,
    ensures
        count_where(8, of_kind(sp_arrangement(id), Piece::King)) == 1,
        count_where(8, of_kind(sp_arrangement(id), Piece::Rook)) == 2,
        forall|i: int|
            0 <= i < 8 ==> (#[trigger] sp_arrangement(id)[i] == Piece::King <==> sp_open3(id)(i) && count_where(
                i,
                sp_open3(id),
            ) == 1),
        forall|i: int|
            0 <= i < 8 ==> (#[trigger] sp_arrangement(id)[i] == Piece::Rook <==> sp_open3(id)(i) && count_where(
                i,
                sp_open3(id),
            ) != 1),
{
    let s = sp_arrangement(id);
    let o3 = sp_open3(id);
    lemma_sp_shape(id);
    let king = of_kind(s, Piece::King);
    let rook = of_kind(s, Piece::Rook);
    assert forall|i: int| 0 <= i < 8 implies (#[trigger] king(i) <==> o3(i) && count_where(i, o3) == 1) && (rook(i)
        <==> o3(i) && count_where(i, o3) != 1) by {}
    let k = lemma_count_where_witness(o3, 8, 1);
    assert forall|j: int| 0 <= j < 8 && j != k implies !#[trigger] king(j) by {
        if king(j) {
            lemma_count_where_unique(o3, j, k);
        }
    }
    let f = |i: int| false;
    lemma_count_where_all_none(f, 8);
    lemma_count_where_drop_one(king, f, 8, k);
    lemma_count_where_split(o3, king, 8);
    lemma_count_where_ext(|i: int| o3(i) && king(i), king, 8);
    lemma_count_where_ext(|i: int| o3(i) && !king(i), rook, 8);
}

/// A back rank whose bishops, queen, knights and remaining squares stand
/// as the digits `lb`, `db`, `q`, `kn` say is the starting position with
/// those digits.
pub proof fn lemma_sp_read_back(
    a: Seq<Piece>,
    lb: int,
    db: int,
    q: int,
    kn: int,
    qp: int,
    n0: int,
    n1: int,
)
    requires
        a.len() == 8,
        0 <= lb < 4,
        0 <= db < 4,
        0 <= q < 6,
        0 <= kn < 10,
        forall|i: int| 0 <= i < 8 ==> (a[i] == Piece::Bishop <==> (i == 2 * lb + 1 || i == 2 * db)),
        0 <= qp < 8,
        a[qp] == Piece::Queen,
        forall|i: int| 0 <= i < 8 && a[i] == Piece::Queen ==> i == qp,
        count_where(qp, outside(a, 1)) == q,
        0 <= n0 < 8,
        0 <= n1 < 8,
        a[n0] == Piece::Knight,
        a[n1] == Piece::Knight,
        forall|i: int| 0 <= i < 8 && a[i] == Piece::Knight ==> i == n0 || i == n1,
        count_where(n0, outside(a, 2)) == knight_pair(kn).0,
        count_where(n1, outside(a, 2)) == knight_pair(kn).1,
        forall|i: int|
            0 <= i < 8 && #[trigger] outside(a, 3)(i) ==> (a[i] == Piece::King <==> count_where(i, outside(a, 3)) == 1)
                && (a[i] == Piece::Rook || a[i] == Piece::King),
    ensures
        a == sp_arrangement((((kn * 6 + q) * 4 + db) * 4 + lb) as nat),
{
    let id = (((kn * 6 + q) * 4 + db) * 4 + lb) as nat;
    lemma_sp_compose(kn, q, db, lb);
    lemma_knight_pair(kn, 0);
    // The bishops, and what they leave.
    assert forall|i: int| 0 <= i < 8 implies #[trigger] sp_open1(id)(i) == outside(a, 1)(i) by {}
    lemma_count_where_ext(sp_open1(id), outside(a, 1), qp);
    assert forall|i: int| 0 <= i < 8 implies #[trigger] sp_queen(id)(i) == (a[i] == Piece::Queen) by {
        if sp_queen(id)(i) {
            lemma_count_where_unique(sp_open1(id), i, qp);
        }
    }
    // The knights, and what they leave.
    assert forall|i: int| 0 <= i < 8 implies #[trigger] sp_open2(id)(i) == outside(a, 2)(i) by {}
    lemma_count_where_ext(sp_open2(id), outside(a, 2), n0);
    lemma_count_where_ext(sp_open2(id), outside(a, 2), n1);
    assert forall|i: int| 0 <= i < 8 implies #[trigger] sp_knight(id)(i) == (a[i] == Piece::Knight) by {
        if sp_knight(id)(i) {
            if count_where(i, sp_open2(id)) == knight_pair(kn).0 {
                lemma_count_where_unique(sp_open2(id), i, n0);
            } else {
                lemma_count_where_unique(sp_open2(id), i, n1);
            }
        }
    }
    // Rook, king, rook.
    assert forall|i: int| 0 <= i < 8 implies #[trigger] sp_open3(id)(i) == outside(a, 3)(i) by {}
    assert forall|i: int| 0 <= i < 8 implies a[i] == #[trigger] sp_piece(id, i) by {
        if outside(a, 3)(i) {
            lemma_count_where_ext(sp_open3(id), outside(a, 3), i);
        }
    }
    assert(a =~= sp_arrangement(id));
}

/// `sp_id` and `sp_id_of` are inverses: no two numbers below 960 share a
/// back rank, so reading back the back rank of `id` gives `id` again.
pub proof fn lemma_sp_id_inverse(id1: nat, id2: nat)
    requires
        id1 < 960,
        id2 < 960,
        sp_arrangement(id1) == sp_arrangement(id2),
    ensures
        id1 == id2,
{
    let s = sp_arrangement(id1);
    lemma_sp_arrangement_facts(id1);
    lemma_sp_arrangement_facts(id2);
    lemma_sp_shape(id1);
    lemma_sp_shape(id2);
    lemma_sp_digits(id1);
    lemma_sp_digits(id2);
    // The bishops give the two low digits.
    assert(sp_bishop(id1)(sp_light(id1)) && sp_bishop(id2)(sp_light(id1)));
    assert(sp_bishop(id1)(sp_dark(id1)) && sp_bishop(id2)(sp_dark(id1)));
    assert(sp_light(id1) == sp_light(id2) && sp_dark(id1) == sp_dark(id2));
    // The queen gives the third.
    let qs = lemma_count_where_witness(sp_open1(id1), 8, sp_queen_rank(id1) as nat);
    assert(sp_queen(id1)(qs) && sp_queen(id2)(qs));
    assert forall|i: int| 0 <= i < 8 implies #[trigger] sp_open1(id1)(i) == sp_open1(id2)(i) by {}
    lemma_count_where_ext(sp_open1(id1), sp_open1(id2), qs);
    // The knights give the fourth.
    assert forall|i: int| 0 <= i < 8 implies #[trigger] sp_open2(id1)(i) == sp_open2(id2)(i) by {
        assert(sp_queen(id1)(i) == sp_queen(id2)(i));
    }
    lemma_knight_pair((id1 / 96) as int, (id2 / 96) as int);
    lemma_knight_pair((id2 / 96) as int, 0);
    let na = lemma_count_where_witness(sp_open2(id1), 8, sp_knight_ranks(id1).0 as nat);
    let nb = lemma_count_where_witness(sp_open2(id1), 8, sp_knight_ranks(id1).1 as nat);
    assert(sp_knight(id1)(na) && sp_knight(id2)(na));
    assert(sp_knight(id1)(nb) && sp_knight(id2)(nb));
    lemma_count_where_ext(sp_open2(id1), sp_open2(id2), na);
    lemma_count_where_ext(sp_open2(id1), sp_open2(id2), nb);
    assert(sp_knight_ranks(id1) == sp_knight_ranks(id2));
}

/// Light-square files b, d, f, h.
const LIGHT_FILES: [usize; 4] = [1, 3, 5, 7];

/// Dark-square files a, c, e, g.
const DARK_FILES: [usize; 4] = [0, 2, 4, 6];

/// The ten knight placements on five free squares.
const KNIGHT_PAIRS: [(usize, usize); 10] = [
    (0, 1),
    (0, 2),
    (0, 3),
    (0, 4),
    (1, 2),
    (1, 3),
    (1, 4),
    (2, 3),
    (2, 4),
    (3, 4),
];

/// Returns the free squares of `board`.
fn free_squares(board: &Vec<Option<Piece>>) -> (r: Vec<usize>)
    ensures
        r@.len() == empties(board@).len(),
        forall|k: int| 0 <= k < r@.len() ==> #[trigger] r@[k] as int == empties(board@)[k],
{
    let ghost pred = free_pred(board@);
    let mut r: Vec<usize> = Vec::new();
    let mut i: usize = 0;
    while i < board.len()
        invariant
            pred == free_pred(board@),
            i <= board@.len(),
            r@.len() == indices_where(i as int, pred).len(),
            forall|k: int| 0 <= k < r@.len() ==> #[trigger] r@[k] as int == indices_where(i as int, pred)[k],
        decreases board.len() - i,
    {
        if board[i].is_none() {
            r.push(i);
        }
        i = i + 1;
    }
    r
}

/// Returns the squares of `a` holding `p`.
fn squares_of(a: &[Piece], p: Piece) -> (r: Vec<usize>)
    ensures
        r@.len() == indices_where(a@.len() as int, of_kind(a@, p)).len(),
        forall|k: int| 0 <= k < r@.len() ==> #[trigger] r@[k] as int == indices_where(a@.len() as int, of_kind(a@, p))[k],
{
    let ghost pred = of_kind(a@, p);
    let mut r: Vec<usize> = Vec::new();
    let mut i: usize = 0;
    while i < a.len()
        invariant
            pred == of_kind(a@, p),
            i <= a@.len(),
            r@.len() == indices_where(i as int, pred).len(),
            forall|k: int| 0 <= k < r@.len() ==> #[trigger] r@[k] as int == indices_where(i as int, pred)[k],
        decreases a.len() - i,
    {
        if a[i] == p {
            r.push(i);
        }
        i = i + 1;
    }
    r
}

/// Returns the first position of `x` in `s`.
fn position_of(s: &Vec<usize>, x: usize) -> (r: Option<usize>)
    ensures
        match r {
            Some(i) => i < s@.len() && s@[i as int] == x && forall|j: int| 0 <= j < i ==> s@[j] != x,
            None => forall|j: int| 0 <= j < s@.len() ==> s@[j] != x,
        },
{
    let mut i: usize = 0;
    while i < s.len()
        invariant
            i <= s@.len(),
            forall|j: int| 0 <= j < i ==> s@[j] != x,
        decreases s.len() - i,
    {
        if s[i] == x {
            return Some(i);
        }
        i = i + 1;
    }
    None
}

/// Returns the squares of `a` left once the bishops, and for `k >= 2`
/// the queen and for `k >= 3` the knights, are set aside.
fn squares_outside(a: &[Piece], k: usize) -> (r: Vec<usize>)
    ensures
        r@.len() == indices_where(a@.len() as int, outside(a@, k as int)).len(),
        forall|j: int|
            0 <= j < r@.len() ==> #[trigger] r@[j] as int == indices_where(a@.len() as int, outside(a@, k as int))[j],
{
    let ghost pred = outside(a@, k as int);
    let mut r: Vec<usize> = Vec::new();
    let mut i: usize = 0;
    while i < a.len()
        invariant
            pred == outside(a@, k as int),
            i <= a@.len(),
            r@.len() == indices_where(i as int, pred).len(),
            forall|j: int| 0 <= j < r@.len() ==> #[trigger] r@[j] as int == indices_where(i as int, pred)[j],
        decreases a.len() - i,
    {
        let p = a[i];
        if p != Piece::Bishop && (k < 2 || p != Piece::Queen) && (k < 3 || p != Piece::Knight) {
            r.push(i);
        }
        i = i + 1;
    }
    r
}

/// Returns the first square of `a` holding `p`.
fn first_of(a: &[Piece], p: Piece) -> (r: Option<usize>)
    ensures
        match r {
            Some(i) => i < a@.len() && a@[i as int] == p,
            None => forall|j: int| 0 <= j < a@.len() ==> a@[j] != p,
        },
{
    let mut i: usize = 0;
    while i < a.len()
        invariant
            i <= a@.len(),
            forall|j: int| 0 <= j < i ==> a@[j] != p,
        decreases a.len() - i,
    {
        if a[i] == p {
            return Some(i);
        }
        i = i + 1;
    }
    None
}

/// Returns the position of `x` among the four `files`.
fn file_index(files: &[usize; 4], x: usize) -> (r: Option<usize>)
    ensures
        match r {
            Some(k) => k < 4 && files@[k as int] == x,
            None => forall|k: int| 0 <= k < 4 ==> files@[k] != x,
        },
{
    let mut k: usize = 0;
    while k < 4
        invariant
            k <= 4,
            forall|j: int| 0 <= j < k ==> files@[j] != x,
        decreases 4 - k,
    {
        if files[k] == x {
            return Some(k);
        }
        k = k + 1;
    }
    None
}

/// Returns the number of the knight placement `(ka, kb)`.
fn pair_index(ka: usize, kb: usize) -> (r: Option<usize>)
    ensures
        match r {
            Some(k) => k < 10 && knight_pair(k as int) == (ka as int, kb as int),
            None => forall|k: int| 0 <= k < 10 ==> knight_pair(k) != (ka as int, kb as int),
        },
{
    proof {
        lemma_tables();
    }
    let mut k: usize = 0;
    while k < 10
        invariant
            k <= 10,
            forall|j: int| 0 <= j < k ==> knight_pair(j) != (ka as int, kb as int),
            forall|j: int|
                0 <= j < 10 ==> (#[trigger] KNIGHT_PAIRS@[j]).0 == knight_pair(j).0 && KNIGHT_PAIRS@[j].1 == knight_pair(
                    j,
                ).1,
        decreases 10 - k,
    {
        let (a, b) = KNIGHT_PAIRS[k];
        if a == ka && b == kb {
            return Some(k);
        }
        k = k + 1;
    }
    None
}

/// The board of starting position `id` once the bishops (`k == 1`),
/// the queen (`k == 2`), the knights (`k == 3`) and the rooks and king
/// (`k >= 4`) are placed.
pub open spec fn sp_stage(id: nat, k: int) -> Seq<Option<Piece>> {
    Seq::new(
        8,
        |i: int|
            if k >= 4 || sp_bishop(id)(i) || (k >= 2 && sp_queen(id)(i)) || (k >= 3 && sp_knight(id)(i)) {
                Some(sp_piece(id, i))
            } else {
                None
            },
    )
}

/// The digit tables agree with their spec counterparts.
proof fn lemma_tables()
    ensures
        forall|k: int| 0 <= k < 4 ==> #[trigger] LIGHT_FILES@[k] == 2 * k + 1,
        forall|k: int| 0 <= k < 4 ==> #[trigger] DARK_FILES@[k] == 2 * k,
        forall|k: int|
            0 <= k < 10 ==> (#[trigger] KNIGHT_PAIRS@[k]).0 == knight_pair(k).0 && KNIGHT_PAIRS@[k].1 == knight_pair(k).1,
{
    assert(LIGHT_FILES@ =~= seq![1usize, 3, 5, 7]);
    assert(DARK_FILES@ =~= seq![0usize, 2, 4, 6]);
    assert(KNIGHT_PAIRS@ =~= seq![
        (0usize, 1usize),
        (0, 2),
        (0, 3),
        (0, 4),
        (1, 2),
        (1, 3),
        (1, 4),
        (2, 3),
        (2, 4),
        (3, 4),
    ]);
}

/// Returns the board of position `id` with only its bishops placed.
fn place_bishops(lb: usize, db: usize, Ghost(id): Ghost<nat>) -> (board: Vec<Option<Piece>>)
    requires
        id < 960,
        lb == id % 4,
        db == (id / 4) % 4,
    ensures
        board@ == sp_stage(id, 1),
{
    proof {
        lemma_tables();
    }
    let mut board: Vec<Option<Piece>> = vec![None, None, None, None, None, None, None, None];
    board.set(LIGHT_FILES[lb], Some(Piece::Bishop));
    board.set(DARK_FILES[db], Some(Piece::Bishop));
    assert(board@ =~= sp_stage(id, 1));
    board
}

/// Places the queen of position `id` on a board holding its bishops.
fn place_queen(board: &mut Vec<Option<Piece>>, q_idx: usize, Ghost(id): Ghost<nat>)
    requires
        id < 960,
        q_idx == sp_queen_rank(id),
        old(board)@ == sp_stage(id, 1),
    ensures
        final(board)@ == sp_stage(id, 2),
{
    proof {
        lemma_sp_shape(id);
        lemma_sp_digits(id);
        lemma_count_where_ext(free_pred(board@), sp_open1(id), 8);
        lemma_indices_where(8, free_pred(board@));
    }
    let empty_after_bishops = free_squares(board);
    let qs = empty_after_bishops[q_idx];
    proof {
        lemma_count_where_ext(free_pred(board@), sp_open1(id), qs as int);
        assert forall|j: int| 0 <= j < 8 && #[trigger] sp_queen(id)(j) implies j == qs by {
            lemma_count_where_unique(sp_open1(id), j, qs as int);
        }
    }
    board.set(qs, Some(Piece::Queen));
    assert(board@ =~= sp_stage(id, 2));
}

/// Places the knights of position `id` on a board holding its bishops
/// and queen.
fn place_knights(board: &mut Vec<Option<Piece>>, kn_idx: usize, Ghost(id): Ghost<nat>)
    requires
        id < 960,
        kn_idx == id / 96,
        old(board)@ == sp_stage(id, 2),
    ensures
        final(board)@ == sp_stage(id, 3),
{
    proof {
        lemma_sp_shape(id);
        lemma_sp_digits(id);
        lemma_knight_pair(kn_idx as int, 0);
        lemma_tables();
        lemma_count_where_ext(free_pred(board@), sp_open2(id), 8);
        lemma_indices_where(8, free_pred(board@));
    }
    let empty_after_queen = free_squares(board);
    let (kn_a, kn_b) = KNIGHT_PAIRS[kn_idx];
    let na = empty_after_queen[kn_a];
    let nb = empty_after_queen[kn_b];
    proof {
        lemma_count_where_ext(free_pred(board@), sp_open2(id), na as int);
        lemma_count_where_ext(free_pred(board@), sp_open2(id), nb as int);
        assert forall|j: int| 0 <= j < 8 && #[trigger] sp_knight(id)(j) implies j == na || j == nb by {
            if count_where(j, sp_open2(id)) == kn_a {
                lemma_count_where_unique(sp_open2(id), j, na as int);
            } else {
                lemma_count_where_unique(sp_open2(id), j, nb as int);
            }
        }
    }
    board.set(na, Some(Piece::Knight));
    board.set(nb, Some(Piece::Knight));
    assert(board@ =~= sp_stage(id, 3));
}

/// Fills the three squares left with rook, king, rook.
fn place_rooks_and_king(board: &mut Vec<Option<Piece>>, Ghost(id): Ghost<nat>)
    requires
        id < 960,
        old(board)@ == sp_stage(id, 3),
    ensures
        final(board)@ == sp_stage(id, 4),
{
    let ghost board3 = board@;
    proof {
        lemma_sp_shape(id);
        lemma_count_where_ext(free_pred(board3), sp_open3(id), 8);
        lemma_indices_where(8, free_pred(board3));
    }
    let empty_last = free_squares(board);
    let r0 = empty_last[0];
    let k1 = empty_last[1];
    let r2 = empty_last[2];
    board.set(r0, Some(Piece::Rook));
    board.set(k1, Some(Piece::King));
    board.set(r2, Some(Piece::Rook));
    assert forall|i: int| 0 <= i < 8 implies #[trigger] board@[i] == sp_stage(id, 4)[i] by {
        if sp_open3(id)(i) {
            lemma_indices_where_complete(8, free_pred(board3), i);
            lemma_count_where_ext(free_pred(board3), sp_open3(id), i);
        }
    }
    assert(board@ =~= sp_stage(id, 4));
}

impl Chess960Problem {
    /// The back rank of Chess960 starting position `id` in the official
    /// numbering, or `None` when `id >= 960`. Position 518 is the FIDE
    /// standard back rank.
    pub fn sp_id(&self, id: u32) -> (r: Option<Vec<Piece>>)
        ensures
            match r {
                Some(v) => id < 960 && v@ == sp_arrangement(id as nat),
                None => id >= 960,
            },
    {
        if id >= Self::COUNT {
            return None;
        }
        let ghost gid = id as nat;
        proof {
            lemma_sp_digits(gid);
        }
        let mut n = id;
        let lb = (n % 4) as usize;
        n = n / 4;
        let db = (n % 4) as usize;
        n = n / 4;
        let q_idx = (n % 6) as usize;
        n = n / 6;
        let kn_idx = n as usize;
        let mut board = place_bishops(lb, db, Ghost(gid));
        place_queen(&mut board, q_idx, Ghost(gid));
        place_knights(&mut board, kn_idx, Ghost(gid));
        place_rooks_and_king(&mut board, Ghost(gid));
        let mut v: Vec<Piece> = Vec::new();
        let mut i: usize = 0;
        while i < 8
            invariant
                i <= 8,
                board@ == sp_stage(gid, 4),
                v@.len() == i,
                forall|j: int| 0 <= j < i ==> #[trigger] v@[j] == sp_piece(gid, j),
            decreases 8 - i,
        {
            let p = board[i].unwrap();
            v.push(p);
            i = i + 1;
        }
        assert(v@ =~= sp_arrangement(gid));
        Some(v)
    }

    /// The official number of a Chess960 back rank, or `None` when
    /// `arrangement` is no Chess960 starting position (wrong length or
    /// piece counts, bishops on squares of one colour, king not between
    /// the rooks). Inverse of [`Chess960Problem::sp_id`].
    pub fn sp_id_of(&self, arrangement: &[Piece]) -> (r: Option<u32>)
        ensures
            match r {
                Some(id) => id < 960 && arrangement@ == sp_arrangement(id as nat),
                None => forall|id: nat| id < 960 ==> arrangement@ != sp_arrangement(id),
            },
    {
        let ghost a = arrangement@;
        if arrangement.len() != 8 {
            proof {
                assert forall|id: nat| id < 960 implies a != sp_arrangement(id) by {
                    lemma_sp_arrangement_facts(id);
                }
            }
            return None;
        }
        let ghost bp = of_kind(a, Piece::Bishop);
        let bishops = squares_of(arrangement, Piece::Bishop);
        proof {
            lemma_indices_where(8, bp);
        }
        if bishops.len() != 2 {
            proof {
                assert forall|id: nat| id < 960 implies a != sp_arrangement(id) by {
                    lemma_sp_arrangement_facts(id);
                }
            }
            return None;
        }
        let (light_sq, dark_sq) = if bishops[0] % 2 == 1 {
            (bishops[0], bishops[1])
        } else {
            (bishops[1], bishops[0])
        };
        proof {
            assert forall|i: int| 0 <= i < 8 && a[i] == Piece::Bishop implies i == light_sq || i == dark_sq by {
                lemma_indices_where_complete(8, bp, i);
            }
            assert(bp(light_sq as int) && bp(dark_sq as int));
        }
        if light_sq % 2 != 1 || dark_sq % 2 != 0 {
            proof {
                assert forall|id: nat| id < 960 implies a != sp_arrangement(id) by {
                    lemma_sp_arrangement_facts(id);
                    lemma_sp_shape(id);
                    if a == sp_arrangement(id) {
                        assert(sp_bishop(id)(light_sq as int));
                        assert(sp_bishop(id)(dark_sq as int));
                    }
                }
            }
            return None;
        }
        proof {
            lemma_tables();
            assert(LIGHT_FILES@[(light_sq as int - 1) / 2] == light_sq);
            assert(DARK_FILES@[dark_sq as int / 2] == dark_sq);
        }
        let lb = match file_index(&LIGHT_FILES, light_sq) {
            Some(k) => k,
            None => {
                return None;
            },
        };
        let db = match file_index(&DARK_FILES, dark_sq) {
            Some(k) => k,
            None => {
                return None;
            },
        };
        assert(light_sq == 2 * lb + 1 && dark_sq == 2 * db);
        // The queen.
        let ghost qp = of_kind(a, Piece::Queen);
        proof {
            lemma_indices_where(8, qp);
        }
        let queen = match first_of(arrangement, Piece::Queen) {
            Some(i) => i,
            None => {
                proof {
                    assert forall|id: nat| id < 960 implies a != sp_arrangement(id) by {
                        lemma_sp_arrangement_facts(id);
                        if a == sp_arrangement(id) {
                            let w = lemma_count_where_witness(qp, 8, 0);
                        }
                    }
                }
                return None;
            },
        };
        let queens = squares_of(arrangement, Piece::Queen);
        if queens.len() != 1 {
            proof {
                assert forall|id: nat| id < 960 implies a != sp_arrangement(id) by {
                    lemma_sp_arrangement_facts(id);
                }
            }
            return None;
        }
        proof {
            assert forall|i: int| 0 <= i < 8 && a[i] == Piece::Queen implies i == queen by {
                lemma_indices_where_complete(8, qp, i);
                lemma_indices_where_complete(8, qp, queen as int);
            }
            lemma_count_where_complement(bp, 8);
            lemma_count_where_ext(|i: int| !bp(i), outside(a, 1), 8);
            lemma_indices_where(8, outside(a, 1));
        }
        let empty_after_bishops = squares_outside(arrangement, 1);
        let q_idx = match position_of(&empty_after_bishops, queen) {
            Some(k) => k,
            None => {
                proof {
                    lemma_indices_where_complete(8, outside(a, 1), queen as int);
                    assert(empty_after_bishops@[count_where(queen as int, outside(a, 1)) as int] == queen);
                }
                return None;
            },
        };
        // The knights.
        let ghost np = of_kind(a, Piece::Knight);
        let knight_positions = squares_of(arrangement, Piece::Knight);
        proof {
            lemma_indices_where(8, np);
        }
        if knight_positions.len() != 2 {
            proof {
                assert forall|id: nat| id < 960 implies a != sp_arrangement(id) by {
                    lemma_sp_arrangement_facts(id);
                }
            }
            return None;
        }
        let n0 = knight_positions[0];
        let n1 = knight_positions[1];
        proof {
            assert forall|i: int| 0 <= i < 8 && a[i] == Piece::Knight implies i == n0 || i == n1 by {
                lemma_indices_where_complete(8, np, i);
            }
            assert(np(n0 as int) && np(n1 as int));
            lemma_count_where_split(outside(a, 1), qp, 8);
            lemma_count_where_ext(|i: int| outside(a, 1)(i) && qp(i), qp, 8);
            lemma_count_where_ext(|i: int| outside(a, 1)(i) && !qp(i), outside(a, 2), 8);
            lemma_indices_where(8, outside(a, 2));
            lemma_count_where_strict(outside(a, 2), n0 as int, n1 as int);
        }
        let empty_after_queen = squares_outside(arrangement, 2);
        let kn_a = match position_of(&empty_after_queen, n0) {
            Some(k) => k,
            None => {
                proof {
                    lemma_indices_where_complete(8, outside(a, 2), n0 as int);
                    assert(empty_after_queen@[count_where(n0 as int, outside(a, 2)) as int] == n0);
                }
                return None;
            },
        };
        let kn_b = match position_of(&empty_after_queen, n1) {
            Some(k) => k,
            None => {
                proof {
                    lemma_indices_where_complete(8, outside(a, 2), n1 as int);
                    assert(empty_after_queen@[count_where(n1 as int, outside(a, 2)) as int] == n1);
                }
                return None;
            },
        };
        let kn_idx = match pair_index(kn_a, kn_b) {
            Some(k) => k,
            None => {
                proof {
                    let k = lemma_knight_pair_onto(kn_a as int, kn_b as int);
                }
                return None;
            },
        };
        // Rook, king, rook.
        proof {
            lemma_count_where_split(outside(a, 2), np, 8);
            lemma_count_where_ext(|i: int| outside(a, 2)(i) && np(i), np, 8);
            lemma_count_where_ext(|i: int| outside(a, 2)(i) && !np(i), outside(a, 3), 8);
            lemma_indices_where(8, outside(a, 3));
        }
        let last_three = squares_outside(arrangement, 3);
        if last_three.len() != 3 {
            return None;
        }
        let r0 = last_three[0];
        let k1 = last_three[1];
        let r2 = last_three[2];
        if arrangement[r0] != Piece::Rook || arrangement[k1] != Piece::King || arrangement[r2] != Piece::Rook {
            proof {
                assert forall|id: nat| id < 960 implies a != sp_arrangement(id) by {
                    lemma_sp_arrangement_facts(id);
                }
            }
            return None;
        }
        proof {
            assert forall|i: int| 0 <= i < 8 && #[trigger] outside(a, 3)(i) implies (a[i] == Piece::King <==> count_where(
                i,
                outside(a, 3),
            ) == 1) && (a[i] == Piece::Rook || a[i] == Piece::King) by {
                lemma_indices_where_complete(8, outside(a, 3), i);
            }
            lemma_sp_read_back(a, lb as int, db as int, q_idx as int, kn_idx as int, queen as int, n0 as int, n1 as int);
        }
        let id = ((kn_idx as u32 * 6 + q_idx as u32) * 4 + db as u32) * 4 + lb as u32;
        Some(id)
    }
}

} // verus!
