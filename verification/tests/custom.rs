//! Integration tests for non-chess use of the constraint engine —
//! custom piece kinds on a board with a non-8-square length.
//!
//! These exercise the same Problem API the chess presets use, with
//! none of the chess module involved.

use chess_startpos_rs::{Constraint, CountOp, PieceKind, Problem, SquareColor};

#[derive(Copy, Clone, Eq, PartialEq, Ord, PartialOrd, Hash, Debug)]
enum Card {
    Ace,
    King,
    Queen,
}

impl PieceKind for Card {
    fn code(&self) -> u64 {
        *self as u64
    }

    fn to_code(&self) -> u64 {
        *self as u64
    }
}

/// The two tiles of the smallest board.
#[derive(Copy, Clone, Eq, PartialEq, Ord, PartialOrd, Hash, Debug)]
enum Tile {
    Left,
    Right,
}

impl PieceKind for Tile {
    fn code(&self) -> u64 {
        *self as u64
    }

    fn to_code(&self) -> u64 {
        *self as u64
    }
}

fn six_card_lineup() -> Problem<Card> {
    Problem {
        num_squares: 6,
        square_colors: vec![
            SquareColor::Light,
            SquareColor::Light,
            SquareColor::Light,
            SquareColor::Dark,
            SquareColor::Dark,
            SquareColor::Dark,
        ],
        pieces: vec![
            Card::Ace,
            Card::Ace,
            Card::King,
            Card::King,
            Card::Queen,
            Card::Queen,
        ],
        constraint: Constraint::And(vec![
            Constraint::CountOnColor {
                piece: Card::Ace,
                color: SquareColor::Light,
                op: CountOp::Eq,
                value: 1,
            },
            Constraint::CountOnColor {
                piece: Card::Ace,
                color: SquareColor::Dark,
                op: CountOp::Eq,
                value: 1,
            },
            Constraint::Order(vec![(Card::King, 0), (Card::Queen, 0)]),
        ]),
    }
}

#[test]
fn iter_and_at_agree_with_count() {
    let problem = six_card_lineup();
    let count = problem.count() as usize;
    let collected: Vec<_> = problem.iter();
    assert_eq!(collected.len(), count);
    for (idx, arrangement) in collected.iter().enumerate() {
        assert_eq!(problem.at(idx as u64), Some(arrangement.clone()));
    }
    assert_eq!(problem.at(count as u64), None);
}

#[test]
fn sample_is_deterministic_and_satisfies_constraints() {
    let problem = six_card_lineup();
    let arrangements: Vec<_> = problem.iter();

    let first = problem.sample(0xDEAD_BEEF).expect("non-empty");
    let again = problem.sample(0xDEAD_BEEF).expect("non-empty");
    assert_eq!(first, again);
    assert!(arrangements.contains(&first));
}

#[test]
fn every_arrangement_respects_the_constraints() {
    let problem = six_card_lineup();
    for arrangement in problem.iter() {
        // Aces split across halves.
        let light_aces = arrangement[..3].iter().filter(|c| **c == Card::Ace).count();
        let dark_aces = arrangement[3..].iter().filter(|c| **c == Card::Ace).count();
        assert_eq!(light_aces, 1);
        assert_eq!(dark_aces, 1);

        // First king precedes first queen.
        let first_king = arrangement.iter().position(|c| *c == Card::King).unwrap();
        let first_queen = arrangement.iter().position(|c| *c == Card::Queen).unwrap();
        assert!(first_king < first_queen);
    }
}

#[test]
fn with_constraint_narrows() {
    let problem = six_card_lineup();
    let before = problem.count();
    let narrowed = problem.with_constraint(Constraint::At {
        piece: Card::Queen,
        square: 4,
    });
    assert!(narrowed.count() < before);
    assert!(narrowed.count() > 0);
}

#[test]
fn count_matches_hand_enumeration() {
    // `pieces` is the alphabet {Ace, King, Queen}, not the multiset
    // AAKKQQ: with no `Count { Eq }` the solver walks all 3^6 sequences
    // and keeps those with one ace on each half and the first king before
    // the first queen, 63 of them. (Read as a multiset the lineup would
    // give 27; `six_card_lineup_with_declared_counts` declares the counts
    // that make it one.)
    let problem = six_card_lineup();
    let count = problem.count();
    assert!(count > 0);
    assert!(count < 90);
    assert_eq!(count, 63);
}

#[test]
fn six_card_lineup_with_declared_counts() {
    // Declaring two of each kind fixes the multiset AAKKQQ: 90
    // rearrangements, 9 ace placements times 3 of the 6 king/queen fills.
    let problem = six_card_lineup()
        .with_constraint(Constraint::Count {
            piece: Card::Ace,
            op: CountOp::Eq,
            value: 2,
        })
        .with_constraint(Constraint::Count {
            piece: Card::King,
            op: CountOp::Eq,
            value: 2,
        })
        .with_constraint(Constraint::Count {
            piece: Card::Queen,
            op: CountOp::Eq,
            value: 2,
        });
    assert_eq!(problem.count(), 27);
}

#[test]
fn small_board_with_unary_piece_set() {
    // `pieces` is an alphabet: both squares may hold either tile, so with
    // Left pinned to square 0 there are two arrangements, LL first.
    let problem = Problem {
        num_squares: 2,
        square_colors: vec![SquareColor::Light, SquareColor::Dark],
        pieces: vec![Tile::Left, Tile::Right],
        constraint: Constraint::At {
            piece: Tile::Left,
            square: 0,
        },
    };
    assert_eq!(problem.count(), 2);
    assert_eq!(problem.at(0), Some(vec![Tile::Left, Tile::Left]));
    assert_eq!(problem.at(1), Some(vec![Tile::Left, Tile::Right]));
    assert_eq!(problem.at(2), None);
}
