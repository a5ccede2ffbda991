use chess_startpos_rs::chess::{back_rank_colors, chess_960, Piece};
use chess_startpos_rs::{alternating, Constraint, CountOp, PieceKind, Problem, SquareColor, ValidationError};

/// A tiny piece kind for unit tests.
#[derive(Clone, Copy, Debug, Eq, PartialEq, Ord, PartialOrd, Hash)]
enum Tile {
    A,
    B,
    C,
}

impl PieceKind for Tile {
    fn code(&self) -> u64 {
        *self as u64
    }

    fn to_code(&self) -> u64 {
        *self as u64
    }
}

/// Rooks and a king.
#[derive(Clone, Copy, Debug, Eq, PartialEq, Ord, PartialOrd, Hash)]
enum RookKing {
    R,
    K,
}

impl PieceKind for RookKing {
    fn code(&self) -> u64 {
        *self as u64
    }

    fn to_code(&self) -> u64 {
        *self as u64
    }
}

fn light_dark(n: usize) -> Vec<SquareColor> {
    alternating(n, SquareColor::Light, SquareColor::Dark)
}

fn fixed_counts(items: &[(Tile, usize)]) -> Constraint<Tile> {
    Constraint::And(
        items
            .iter()
            .map(|(p, n)| Constraint::Count {
                piece: *p,
                op: CountOp::Eq,
                value: *n,
            })
            .collect(),
    )
}

#[test]
fn count_constraint_drives_piece_counts() {
    // Alphabet {A, B}; counts {A: 2, B: 1}; expect 3 perms over
    // the resulting [A, A, B] arrangement.
    let problem = Problem {
        num_squares: 3,
        square_colors: light_dark(3),
        pieces: vec![Tile::A, Tile::B],
        constraint: fixed_counts(&[(Tile::A, 2), (Tile::B, 1)]),
    };
    assert_eq!(problem.count(), 3);
}

#[test]
fn duplicates_in_pieces_are_deduped() {
    let problem = Problem {
        num_squares: 3,
        square_colors: light_dark(3),
        pieces: vec![Tile::A, Tile::A, Tile::B], // duplicate Tile::A
        constraint: fixed_counts(&[(Tile::A, 2), (Tile::B, 1)]),
    };
    assert_eq!(problem.count(), 3);
}

#[test]
fn at_constraint() {
    let problem = Problem {
        num_squares: 3,
        square_colors: light_dark(3),
        pieces: vec![Tile::A, Tile::B, Tile::C],
        constraint: Constraint::And(vec![
            Constraint::Count {
                piece: Tile::A,
                op: CountOp::Eq,
                value: 1,
            },
            Constraint::Count {
                piece: Tile::B,
                op: CountOp::Eq,
                value: 1,
            },
            Constraint::Count {
                piece: Tile::C,
                op: CountOp::Eq,
                value: 1,
            },
            Constraint::At {
                piece: Tile::A,
                square: 0,
            },
        ]),
    };
    assert_eq!(problem.count(), 2);
}

#[test]
fn unconstrained_cartesian_fallback() {
    // No Count-Eq constraints; alphabet of 2 on 3 squares = 2^3 = 8.
    let problem = Problem {
        num_squares: 3,
        square_colors: light_dark(3),
        pieces: vec![Tile::A, Tile::B],
        constraint: Constraint::And(vec![]),
    };
    assert_eq!(problem.count(), 8);
}

#[test]
fn unconstrained_with_at_filter() {
    // Cartesian fallback + At filter.
    let problem = Problem {
        num_squares: 3,
        square_colors: light_dark(3),
        pieces: vec![Tile::A, Tile::B],
        constraint: Constraint::At {
            piece: Tile::A,
            square: 0,
        },
    };
    // Tile::A at square 0 + any of 2^2 sequences on squares 1, 2.
    assert_eq!(problem.count(), 4);
}

#[test]
fn order_constraint_king_between_rooks() {
    let problem = Problem {
        num_squares: 3,
        square_colors: light_dark(3),
        pieces: vec![RookKing::R, RookKing::K],
        constraint: Constraint::And(vec![
            Constraint::Count {
                piece: RookKing::R,
                op: CountOp::Eq,
                value: 2,
            },
            Constraint::Count {
                piece: RookKing::K,
                op: CountOp::Eq,
                value: 1,
            },
            Constraint::Order(vec![(RookKing::R, 0), (RookKing::K, 0), (RookKing::R, 1)]),
        ]),
    };
    assert_eq!(problem.count(), 1);
}

#[test]
fn order_with_out_of_range_instance_is_unsatisfied() {
    let problem = Problem {
        num_squares: 4,
        square_colors: light_dark(4),
        pieces: vec![Tile::A, Tile::B, Tile::C],
        constraint: Constraint::And(vec![
            Constraint::Count {
                piece: Tile::A,
                op: CountOp::Eq,
                value: 1,
            },
            Constraint::Count {
                piece: Tile::B,
                op: CountOp::Eq,
                value: 2,
            },
            Constraint::Count {
                piece: Tile::C,
                op: CountOp::Eq,
                value: 1,
            },
            Constraint::Order(vec![
                (Tile::B, 0),
                (Tile::B, 1),
                (Tile::B, 2), // doesn't exist
            ]),
        ]),
    };
    assert_eq!(problem.count(), 0);
}

#[test]
fn relative_constraint_exact_offset() {
    let problem = Problem {
        num_squares: 3,
        square_colors: light_dark(3),
        pieces: vec![Tile::A, Tile::B, Tile::C],
        constraint: Constraint::And(vec![
            Constraint::Count {
                piece: Tile::A,
                op: CountOp::Eq,
                value: 1,
            },
            Constraint::Count {
                piece: Tile::B,
                op: CountOp::Eq,
                value: 1,
            },
            Constraint::Count {
                piece: Tile::C,
                op: CountOp::Eq,
                value: 1,
            },
            Constraint::Relative {
                lhs: (Tile::A, 0),
                rhs: (Tile::B, 0),
                op: CountOp::Eq,
                offset: 1,
            },
        ]),
    };
    let arrangements: Vec<Vec<Tile>> = problem.iter();
    assert_eq!(
        arrangements,
        vec![
            vec![Tile::B, Tile::A, Tile::C],
            vec![Tile::C, Tile::B, Tile::A],
        ],
    );
}

#[test]
fn relative_constraint_absolute_distance_via_and() {
    let problem = Problem {
        num_squares: 3,
        square_colors: light_dark(3),
        pieces: vec![Tile::A, Tile::B, Tile::C],
        constraint: Constraint::And(vec![
            Constraint::Count {
                piece: Tile::A,
                op: CountOp::Eq,
                value: 1,
            },
            Constraint::Count {
                piece: Tile::B,
                op: CountOp::Eq,
                value: 1,
            },
            Constraint::Count {
                piece: Tile::C,
                op: CountOp::Eq,
                value: 1,
            },
            Constraint::Relative {
                lhs: (Tile::A, 0),
                rhs: (Tile::B, 0),
                op: CountOp::Le,
                offset: 1,
            },
            Constraint::Relative {
                lhs: (Tile::A, 0),
                rhs: (Tile::B, 0),
                op: CountOp::Ge,
                offset: -1,
            },
        ]),
    };
    assert_eq!(problem.count(), 4);
}

#[test]
fn and_or_not_combinators() {
    let problem = Problem {
        num_squares: 3,
        square_colors: light_dark(3),
        pieces: vec![Tile::A, Tile::B, Tile::C],
        constraint: Constraint::And(vec![
            Constraint::Count {
                piece: Tile::A,
                op: CountOp::Eq,
                value: 1,
            },
            Constraint::Count {
                piece: Tile::B,
                op: CountOp::Eq,
                value: 1,
            },
            Constraint::Count {
                piece: Tile::C,
                op: CountOp::Eq,
                value: 1,
            },
            Constraint::Not(Box::new(Constraint::At {
                piece: Tile::A,
                square: 0,
            })),
            Constraint::Or(vec![
                Constraint::At {
                    piece: Tile::B,
                    square: 0,
                },
                Constraint::At {
                    piece: Tile::C,
                    square: 0,
                },
            ]),
        ]),
    };
    assert_eq!(problem.count(), 4);
}

#[test]
fn count_on_color() {
    // Two A's that must both be on light squares (positions 0, 2).
    let problem = Problem {
        num_squares: 3,
        square_colors: light_dark(3), // light, dark, light
        pieces: vec![Tile::A, Tile::B],
        constraint: Constraint::And(vec![
            Constraint::Count {
                piece: Tile::A,
                op: CountOp::Eq,
                value: 2,
            },
            Constraint::Count {
                piece: Tile::B,
                op: CountOp::Eq,
                value: 1,
            },
            Constraint::CountOnColor {
                piece: Tile::A,
                color: SquareColor::Light,
                op: CountOp::Eq,
                value: 2,
            },
        ]),
    };
    assert_eq!(problem.count(), 1);
}

#[test]
fn at_returns_lexicographic_arrangements() {
    let problem = Problem {
        num_squares: 3,
        square_colors: light_dark(3),
        pieces: vec![Tile::A, Tile::B],
        constraint: fixed_counts(&[(Tile::A, 2), (Tile::B, 1)]),
    };
    assert_eq!(problem.at(0), Some(vec![Tile::A, Tile::A, Tile::B]));
    assert_eq!(problem.at(1), Some(vec![Tile::A, Tile::B, Tile::A]));
    assert_eq!(problem.at(2), Some(vec![Tile::B, Tile::A, Tile::A]));
    assert_eq!(problem.at(3), None);
}

#[test]
fn sample_is_deterministic_and_in_range() {
    let problem = Problem {
        num_squares: 3,
        square_colors: light_dark(3),
        pieces: vec![Tile::A, Tile::B, Tile::C],
        constraint: Constraint::And(vec![
            Constraint::Count {
                piece: Tile::A,
                op: CountOp::Eq,
                value: 1,
            },
            Constraint::Count {
                piece: Tile::B,
                op: CountOp::Eq,
                value: 1,
            },
            Constraint::Count {
                piece: Tile::C,
                op: CountOp::Eq,
                value: 1,
            },
        ]),
    };
    let arrangements: Vec<Vec<Tile>> = problem.iter();
    let first = problem.sample(42).expect("non-empty");
    let again = problem.sample(42).expect("non-empty");
    assert_eq!(first, again);
    assert!(arrangements.contains(&first));
}

#[test]
fn sample_returns_none_for_unsatisfiable() {
    let problem = Problem {
        num_squares: 3,
        square_colors: light_dark(3),
        pieces: vec![Tile::A, Tile::B, Tile::C],
        constraint: Constraint::And(vec![
            Constraint::Count {
                piece: Tile::A,
                op: CountOp::Eq,
                value: 1,
            },
            Constraint::Count {
                piece: Tile::B,
                op: CountOp::Eq,
                value: 1,
            },
            Constraint::Count {
                piece: Tile::C,
                op: CountOp::Eq,
                value: 1,
            },
            Constraint::At {
                piece: Tile::A,
                square: 0,
            },
            Constraint::NotAt {
                piece: Tile::A,
                square: 0,
            },
        ]),
    };
    assert_eq!(problem.count(), 0);
    assert_eq!(problem.sample(0), None);
}

#[test]
fn count_constraint_with_inequality_filters() {
    // Alphabet {A, B} on 3 squares (Cartesian regime — no Count-Eq).
    // Filter to arrangements with at least 1 A and at most 2 A.
    let problem = Problem {
        num_squares: 3,
        square_colors: light_dark(3),
        pieces: vec![Tile::A, Tile::B],
        constraint: Constraint::And(vec![
            Constraint::Count {
                piece: Tile::A,
                op: CountOp::Ge,
                value: 1,
            },
            Constraint::Count {
                piece: Tile::A,
                op: CountOp::Le,
                value: 2,
            },
        ]),
    };
    // 2^3 = 8 total, minus the all-B (0 A's) and all-A (3 A's) extremes.
    assert_eq!(problem.count(), 6);
}

#[test]
fn count_constraint_inside_or_does_not_activate_fast_path() {
    // Or-wrapped Count-Eq must NOT be picked up as a piece-count
    // declaration — the solver should fall back to Cartesian
    // enumeration and filter via the Or.
    let problem = Problem {
        num_squares: 2,
        square_colors: light_dark(2),
        pieces: vec![Tile::A, Tile::B],
        constraint: Constraint::Or(vec![
            Constraint::Count {
                piece: Tile::A,
                op: CountOp::Eq,
                value: 2,
            },
            Constraint::Count {
                piece: Tile::B,
                op: CountOp::Eq,
                value: 2,
            },
        ]),
    };
    // Cartesian regime: 2^2 = 4 candidates (AA, AB, BA, BB).
    // AA satisfies first arm, BB satisfies second. Count = 2.
    assert_eq!(problem.count(), 2);
}

#[test]
fn empty_alphabet_yields_zero_arrangements() {
    let problem: Problem<Tile> = Problem {
        num_squares: 3,
        square_colors: light_dark(3),
        pieces: vec![],
        constraint: Constraint::And(vec![]),
    };
    assert_eq!(problem.count(), 0);
    assert_eq!(problem.at(0), None);
    assert_eq!(problem.sample(0), None);
}

#[test]
fn zero_squares_yields_zero_arrangements() {
    let problem: Problem<Tile> = Problem {
        num_squares: 0,
        square_colors: vec![],
        pieces: vec![Tile::A, Tile::B],
        constraint: Constraint::And(vec![]),
    };
    assert_eq!(problem.count(), 0);
    assert_eq!(problem.at(0), None);
    assert_eq!(problem.sample(0), None);
}

#[test]
fn validate_accepts_consistent_problem() {
    let problem = Problem {
        num_squares: 3,
        square_colors: light_dark(3),
        pieces: vec![Tile::A, Tile::B],
        constraint: fixed_counts(&[(Tile::A, 1), (Tile::B, 2)]),
    };
    assert!(problem.validate().is_ok());
}

#[test]
fn validate_accepts_empty_colors() {
    // Empty `square_colors` is "no colour partition declared".
    let problem: Problem<Tile> = Problem {
        num_squares: 3,
        square_colors: vec![],
        pieces: vec![Tile::A, Tile::B],
        constraint: Constraint::And(vec![]),
    };
    assert!(problem.validate().is_ok());
}

#[test]
fn validate_rejects_mismatched_color_length() {
    let problem: Problem<Tile> = Problem {
        num_squares: 3,
        square_colors: vec![SquareColor::Light], // only 1 of 3
        pieces: vec![Tile::A],
        constraint: Constraint::And(vec![]),
    };
    assert_eq!(
        problem.validate(),
        Err(ValidationError::ColorLengthMismatch {
            expected: 3,
            actual: 1,
        }),
    );
}

#[test]
fn validate_rejects_unknown_piece() {
    let problem: Problem<Tile> = Problem {
        num_squares: 3,
        square_colors: light_dark(3),
        pieces: vec![Tile::A], // Tile::B not declared
        constraint: Constraint::At {
            piece: Tile::B,
            square: 0,
        },
    };
    assert_eq!(problem.validate(), Err(ValidationError::UnknownPiece));
}

#[test]
fn validate_rejects_unknown_color() {
    // square_colors only has Light; constraint references Dark.
    let problem: Problem<Tile> = Problem {
        num_squares: 2,
        square_colors: vec![SquareColor::Light, SquareColor::Light],
        pieces: vec![Tile::A],
        constraint: Constraint::CountOnColor {
            piece: Tile::A,
            color: SquareColor::Dark,
            op: CountOp::Eq,
            value: 0,
        },
    };
    assert_eq!(problem.validate(), Err(ValidationError::UnknownColor));
}

#[test]
fn validate_rejects_instance_out_of_range_in_order() {
    // Declare exactly 2 Bs but reference (B, 2).
    let problem: Problem<Tile> = Problem {
        num_squares: 3,
        square_colors: light_dark(3),
        pieces: vec![Tile::A, Tile::B],
        constraint: Constraint::And(vec![
            Constraint::Count {
                piece: Tile::A,
                op: CountOp::Eq,
                value: 1,
            },
            Constraint::Count {
                piece: Tile::B,
                op: CountOp::Eq,
                value: 2,
            },
            Constraint::Order(vec![(Tile::B, 0), (Tile::B, 1), (Tile::B, 2)]),
        ]),
    };
    assert_eq!(
        problem.validate(),
        Err(ValidationError::InstanceOutOfRange {
            instance: 2,
            declared: 2,
        }),
    );
}

#[test]
fn validate_rejects_instance_out_of_range_in_relative() {
    let problem: Problem<Tile> = Problem {
        num_squares: 2,
        square_colors: light_dark(2),
        pieces: vec![Tile::A, Tile::B],
        constraint: Constraint::And(vec![
            Constraint::Count {
                piece: Tile::A,
                op: CountOp::Eq,
                value: 1,
            },
            Constraint::Count {
                piece: Tile::B,
                op: CountOp::Eq,
                value: 1,
            },
            Constraint::Relative {
                lhs: (Tile::A, 1), // only 1 A declared
                rhs: (Tile::B, 0),
                op: CountOp::Eq,
                offset: 0,
            },
        ]),
    };
    assert_eq!(
        problem.validate(),
        Err(ValidationError::InstanceOutOfRange {
            instance: 1,
            declared: 1,
        }),
    );
}

#[test]
fn validate_rejects_count_on_color_when_no_colors_declared() {
    // Empty square_colors + a CountOnColor → contradiction.
    let problem: Problem<Tile> = Problem {
        num_squares: 2,
        square_colors: vec![],
        pieces: vec![Tile::A],
        constraint: Constraint::CountOnColor {
            piece: Tile::A,
            color: SquareColor::Light,
            op: CountOp::Eq,
            value: 1,
        },
    };
    assert_eq!(problem.validate(), Err(ValidationError::UnknownColor));
}

#[test]
fn validate_rejects_square_out_of_range() {
    let problem: Problem<Tile> = Problem {
        num_squares: 3,
        square_colors: light_dark(3),
        pieces: vec![Tile::A],
        constraint: Constraint::At {
            piece: Tile::A,
            square: 5, // out of range
        },
    };
    assert_eq!(
        problem.validate(),
        Err(ValidationError::SquareOutOfRange {
            square: 5,
            num_squares: 3,
        }),
    );
}

#[test]
fn validate_walks_into_combinators() {
    // UnknownPiece inside a nested Or should still be caught.
    let problem: Problem<Tile> = Problem {
        num_squares: 2,
        square_colors: light_dark(2),
        pieces: vec![Tile::A],
        constraint: Constraint::Or(vec![
            Constraint::At {
                piece: Tile::A,
                square: 0,
            },
            Constraint::Not(Box::new(Constraint::At {
                piece: Tile::B, // unknown
                square: 1,
            })),
        ]),
    };
    assert_eq!(problem.validate(), Err(ValidationError::UnknownPiece));
}

#[test]
fn try_build_returns_error_for_invalid_problem() {
    let result: Result<Problem<Tile>, _> = Problem::builder()
        .squares(3)
        .colors(vec![SquareColor::Light]) // mismatched
        .pieces([Tile::A])
        .try_build();
    assert!(matches!(
        result,
        Err(ValidationError::ColorLengthMismatch { .. })
    ));
}

#[test]
fn builder_colors_fn_assigns_per_index() {
    let problem: Problem<Tile> = Problem::builder()
        .squares(6)
        .colors_fn(|i| {
            if i < 3 {
                SquareColor::Light
            } else {
                SquareColor::Dark
            }
        })
        .pieces([Tile::A])
        .build();
    assert_eq!(problem.square_colors.len(), 6);
    assert_eq!(problem.square_colors[0], SquareColor::Light);
    assert_eq!(problem.square_colors[5], SquareColor::Dark);
}

#[test]
fn builder_matches_struct_literal_on_chess_960() {
    // Build the same problem two ways and assert they have the
    // same population.
    let from_preset = chess_960().into_problem();

    let from_builder: Problem<Piece> = Problem::builder()
        .squares(8)
        .colors(back_rank_colors())
        .pieces([
            Piece::King,
            Piece::Queen,
            Piece::Rook,
            Piece::Bishop,
            Piece::Knight,
        ])
        .constraint(Constraint::Count {
            piece: Piece::King,
            op: CountOp::Eq,
            value: 1,
        })
        .constraint(Constraint::Count {
            piece: Piece::Queen,
            op: CountOp::Eq,
            value: 1,
        })
        .constraint(Constraint::Count {
            piece: Piece::Rook,
            op: CountOp::Eq,
            value: 2,
        })
        .constraint(Constraint::Count {
            piece: Piece::Bishop,
            op: CountOp::Eq,
            value: 2,
        })
        .constraint(Constraint::Count {
            piece: Piece::Knight,
            op: CountOp::Eq,
            value: 2,
        })
        .constraint(Constraint::CountOnColor {
            piece: Piece::Bishop,
            color: SquareColor::Light,
            op: CountOp::Eq,
            value: 1,
        })
        .constraint(Constraint::CountOnColor {
            piece: Piece::Bishop,
            color: SquareColor::Dark,
            op: CountOp::Eq,
            value: 1,
        })
        .constraint(Constraint::Order(vec![
            (Piece::Rook, 0),
            (Piece::King, 0),
            (Piece::Rook, 1),
        ]))
        .build();

    assert_eq!(from_builder.count(), from_preset.count());
    assert_eq!(from_builder.count(), 960);
}

#[test]
fn builder_with_zero_constraints_is_and_empty() {
    let problem: Problem<Tile> = Problem::builder()
        .squares(3)
        .alternating_colors(SquareColor::Light, SquareColor::Dark)
        .pieces([Tile::A, Tile::B])
        .build();
    // Unconstrained Cartesian regime: 2^3 = 8.
    assert_eq!(problem.count(), 8);
    assert!(matches!(problem.constraint, Constraint::And(ref v) if v.is_empty()));
}

#[test]
fn builder_with_single_constraint_unwraps_and() {
    let problem: Problem<Tile> = Problem::builder()
        .squares(3)
        .uniform_colors(SquareColor::Light)
        .pieces([Tile::A, Tile::B])
        .constraint(Constraint::At {
            piece: Tile::A,
            square: 0,
        })
        .build();
    // A pinned at square 0, 2 choices on each remaining square → 4.
    assert_eq!(problem.count(), 4);
    // Single constraint is stored bare, not wrapped in And.
    assert!(matches!(problem.constraint, Constraint::At { .. }));
}

#[test]
fn builder_piece_method_appends() {
    let problem: Problem<Tile> = Problem::builder()
        .squares(3)
        .uniform_colors(SquareColor::Light)
        .piece(Tile::A)
        .piece(Tile::B)
        .constraint(Constraint::Count {
            piece: Tile::A,
            op: CountOp::Eq,
            value: 2,
        })
        .constraint(Constraint::Count {
            piece: Tile::B,
            op: CountOp::Eq,
            value: 1,
        })
        .build();
    assert_eq!(problem.count(), 3);
}

#[test]
fn with_constraint_adds_via_and() {
    let problem = Problem {
        num_squares: 3,
        square_colors: light_dark(3),
        pieces: vec![Tile::A, Tile::B, Tile::C],
        constraint: fixed_counts(&[(Tile::A, 1), (Tile::B, 1), (Tile::C, 1)]),
    };
    assert_eq!(problem.count(), 6);
    let narrowed = problem.with_constraint(Constraint::At {
        piece: Tile::A,
        square: 0,
    });
    assert_eq!(narrowed.count(), 2);
}
