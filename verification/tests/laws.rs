use chess_startpos_rs::chess::{back_rank_colors, chess_2880, chess_960, shuffle, Piece, STANDARD_BACK_RANK};
use chess_startpos_rs::constraint::nth_position;
use chess_startpos_rs::{
    alternating, uniform, Constraint, CountOp, PieceKind, Problem, ProblemBuilder, SquareColor, ValidationError,
};

#[derive(Clone, Copy, Debug, Eq, PartialEq, Ord, PartialOrd, Hash)]
enum Tile {
    A,
    B,
    C,
}

impl PieceKind for Tile {
    fn code(&self) -> u64 {
        *self as u64
    }

    fn to_code(&self) -> u64 {
        *self as u64
    }
}

fn three_tiles_once_each() -> Problem<Tile> {
    Problem {
        num_squares: 3,
        square_colors: alternating(3, SquareColor::Light, SquareColor::Dark),
        pieces: vec![Tile::A, Tile::B, Tile::C],
        constraint: Constraint::And(vec![
            Constraint::Count { piece: Tile::A, op: CountOp::Eq, value: 1 },
            Constraint::Count { piece: Tile::B, op: CountOp::Eq, value: 1 },
            Constraint::Count { piece: Tile::C, op: CountOp::Eq, value: 1 },
        ]),
    }
}

#[test]
fn every_numbered_position_is_a_chess960_solution() {
    let preset = chess_960();
    let all = preset.iter();
    assert_eq!(all.len(), 960);
    for id in 0..960u32 {
        let a = preset.sp_id(id).unwrap();
        assert!(all.contains(&a));
    }
}

#[test]
fn every_chess960_solution_is_numbered() {
    let preset = chess_960();
    let mut seen = vec![false; 960];
    for a in preset.iter() {
        let id = preset.sp_id_of(&a).unwrap() as usize;
        assert!(!seen[id]);
        seen[id] = true;
    }
    assert!(seen.iter().all(|s| *s));
}

#[test]
fn chess960_at_stops_at_960() {
    let preset = chess_960();
    assert!(preset.at(959).is_some());
    assert_eq!(preset.at(960), None);
    assert_eq!(preset.at(0), Some(preset.iter()[0].clone()));
}

#[test]
fn chess960_sample_is_a_listed_position() {
    let preset = chess_960();
    let all = preset.iter();
    for seed in [0u64, 1, 42, u64::MAX] {
        assert!(all.contains(&preset.sample(seed)));
    }
}

#[test]
fn sp_id_is_the_official_numbering() {
    let preset = chess_960();
    // SP-ID 0 is BBQNNRKR, 959 is RKRNNQBB.
    assert_eq!(preset.sp_id_of(&preset.sp_id(0).unwrap()), Some(0));
    assert_eq!(
        preset.sp_id(959),
        Some(vec![
            Piece::Rook,
            Piece::King,
            Piece::Rook,
            Piece::Knight,
            Piece::Knight,
            Piece::Queen,
            Piece::Bishop,
            Piece::Bishop,
        ])
    );
    assert_eq!(preset.sp_id_of(&STANDARD_BACK_RANK[..7]), None);
}

#[test]
fn presets_nest() {
    // Each preset narrows the one before it.
    let all_shuffles = shuffle().iter();
    let bishops_apart = chess_2880().iter();
    let chess960 = chess_960().iter();
    assert!(bishops_apart.iter().all(|a| all_shuffles.contains(a)));
    assert!(chess960.iter().all(|a| bishops_apart.contains(a)));
}

#[test]
fn narrowing_keeps_only_old_solutions() {
    let problem = three_tiles_once_each();
    let before = problem.iter();
    let narrowed = problem.with_constraint(Constraint::NotAt { piece: Tile::C, square: 2 });
    let after = narrowed.iter();
    assert_eq!(after.len(), 4);
    assert!(after.iter().all(|a| before.contains(a)));
}

#[test]
fn an_empty_board_has_no_solution_even_with_counts() {
    let problem: Problem<Tile> = Problem {
        num_squares: 0,
        square_colors: vec![],
        pieces: vec![Tile::A],
        constraint: Constraint::And(vec![]),
    };
    assert_eq!(problem.count(), 0);
    let narrowed = problem.with_constraint(Constraint::Count { piece: Tile::A, op: CountOp::Eq, value: 0 });
    assert_eq!(narrowed.count(), 0);
    assert_eq!(narrowed.at(0), None);
    assert_eq!(narrowed.sample(5), None);
}

#[test]
fn colour_list_of_the_wrong_length_gives_nothing() {
    let mismatched: Problem<Tile> =
        Problem::builder().squares(3).colors(vec![SquareColor::Light]).pieces([Tile::A, Tile::B]).build();
    assert_eq!(mismatched.square_colors, vec![SquareColor::Light]);
    assert_eq!(mismatched.count(), 0);
    assert_eq!(mismatched.iter(), Vec::<Vec<Tile>>::new());
    // No colours at all is fine: every sequence over the alphabet.
    let uncoloured: Problem<Tile> = Problem::builder().squares(3).pieces([Tile::A, Tile::B]).build();
    assert_eq!(uncoloured.count(), 8);
}

#[test]
fn narrowing_keeps_exactly_the_old_solutions_that_satisfy_the_constraint() {
    let problem = three_tiles_once_each();
    let extra = Constraint::At { piece: Tile::B, square: 1 };
    let expected: Vec<Vec<Tile>> =
        problem.iter().into_iter().filter(|a| extra.evaluate(a, &problem.square_colors)).collect();
    let narrowed = problem.with_constraint(extra.clone());
    assert_eq!(narrowed.iter(), expected);
    assert_eq!(expected.len(), 2);
}

#[test]
fn sample_depends_only_on_the_seed() {
    let problem = three_tiles_once_each();
    let copy = three_tiles_once_each();
    for seed in [0u64, 7, 0xDEAD_BEEF] {
        assert_eq!(problem.sample(seed), copy.sample(seed));
        assert_eq!(chess_960().sample(seed), chess_960().sample(seed));
    }
}

#[test]
fn with_constraint_wraps_a_bare_root() {
    let problem: Problem<Tile> = Problem {
        num_squares: 2,
        square_colors: vec![],
        pieces: vec![Tile::A, Tile::B],
        constraint: Constraint::At { piece: Tile::A, square: 0 },
    };
    let narrowed = problem.with_constraint(Constraint::At { piece: Tile::B, square: 1 });
    match &narrowed.constraint {
        Constraint::And(children) => {
            assert_eq!(children.len(), 2);
            assert!(matches!(children[0], Constraint::At { piece: Tile::A, square: 0 }));
            assert!(matches!(children[1], Constraint::At { piece: Tile::B, square: 1 }));
        }
        _ => panic!("expected an And root"),
    }
    assert_eq!(narrowed.iter(), vec![vec![Tile::A, Tile::B]]);
}

#[test]
fn iter_at_and_count_agree() {
    let problem = three_tiles_once_each();
    let all = problem.iter();
    assert_eq!(all.len() as u64, problem.count());
    for (i, a) in all.iter().enumerate() {
        assert_eq!(problem.at(i as u64).as_ref(), Some(a));
    }
    assert_eq!(problem.at(all.len() as u64), None);
    // Lexicographic by code, each once.
    assert_eq!(
        all,
        vec![
            vec![Tile::A, Tile::B, Tile::C],
            vec![Tile::A, Tile::C, Tile::B],
            vec![Tile::B, Tile::A, Tile::C],
            vec![Tile::B, Tile::C, Tile::A],
            vec![Tile::C, Tile::A, Tile::B],
            vec![Tile::C, Tile::B, Tile::A],
        ]
    );
}

#[test]
fn cartesian_order_follows_the_alphabet() {
    // Without declared counts the order is that of the alphabet as given.
    let problem: Problem<Tile> = Problem {
        num_squares: 2,
        square_colors: vec![],
        pieces: vec![Tile::C, Tile::A, Tile::C],
        constraint: Constraint::And(vec![]),
    };
    assert_eq!(
        problem.iter(),
        vec![
            vec![Tile::C, Tile::C],
            vec![Tile::C, Tile::A],
            vec![Tile::A, Tile::C],
            vec![Tile::A, Tile::A],
        ]
    );
}

#[test]
fn empty_and_holds_and_empty_or_fails() {
    let mut problem = three_tiles_once_each();
    assert_eq!(problem.count(), 6);
    problem.constraint = Constraint::Or(vec![]);
    assert_eq!(problem.count(), 0);
    assert_eq!(problem.sample(3), None);
    // With the counts gone, every sequence over the alphabet is examined.
    problem.constraint = Constraint::Not(Box::new(Constraint::Or(vec![])));
    assert_eq!(problem.count(), 27);
}

#[test]
fn count_op_checks_each_comparison() {
    assert!(CountOp::Eq.check(2, 2));
    assert!(!CountOp::Eq.check(2, 3));
    assert!(CountOp::NotEq.check(2, 3));
    assert!(!CountOp::NotEq.check(3, 3));
    assert!(CountOp::Le.check(3, 3));
    assert!(!CountOp::Le.check(4, 3));
    assert!(CountOp::Lt.check(2, 3));
    assert!(!CountOp::Lt.check(3, 3));
    assert!(CountOp::Ge.check(3, 3));
    assert!(!CountOp::Ge.check(2, 3));
    assert!(CountOp::Gt.check(4, 3));
    assert!(!CountOp::Gt.check(3, 3));
    assert!(CountOp::Eq.check(-1, -1));
}

#[test]
fn count_op_filters_in_each_direction() {
    let base = |op: CountOp| -> Problem<Tile> {
        Problem {
            num_squares: 3,
            square_colors: vec![],
            pieces: vec![Tile::A, Tile::B],
            constraint: Constraint::Count { piece: Tile::A, op, value: 1 },
        }
    };
    // Sequences of A/B over 3 squares by number of A: 1, 3, 3, 1.
    assert_eq!(base(CountOp::Eq).count(), 3);
    assert_eq!(base(CountOp::NotEq).count(), 5);
    assert_eq!(base(CountOp::Le).count(), 4);
    assert_eq!(base(CountOp::Lt).count(), 1);
    assert_eq!(base(CountOp::Ge).count(), 7);
    assert_eq!(base(CountOp::Gt).count(), 4);
}

#[test]
fn relative_constraint_with_missing_instance_fails() {
    let problem: Problem<Tile> = Problem {
        num_squares: 2,
        square_colors: vec![],
        pieces: vec![Tile::A, Tile::B],
        constraint: Constraint::Relative { lhs: (Tile::A, 1), rhs: (Tile::B, 0), op: CountOp::Ge, offset: -5 },
    };
    // Only AA has a second A, and it has no B.
    assert_eq!(problem.count(), 0);
}

#[test]
fn nth_position_finds_instances() {
    let arrangement = [Tile::B, Tile::A, Tile::B, Tile::C];
    assert_eq!(nth_position(&arrangement, &Tile::B, 0), Some(0));
    assert_eq!(nth_position(&arrangement, &Tile::B, 1), Some(2));
    assert_eq!(nth_position(&arrangement, &Tile::B, 2), None);
    assert_eq!(nth_position(&arrangement, &Tile::C, 0), Some(3));
}

#[test]
fn evaluate_matches_the_primitives() {
    let colors = [SquareColor::Light, SquareColor::Dark, SquareColor::Light];
    let arrangement = [Tile::A, Tile::B, Tile::A];
    let on_light = Constraint::<Tile>::CountOnColor {
        piece: Tile::A,
        color: SquareColor::Light,
        op: CountOp::Eq,
        value: 2,
    };
    assert!(on_light.evaluate(&arrangement, &colors));
    // Squares without a declared colour never count.
    assert!(!on_light.evaluate(&arrangement, &colors[..1]));
    let order = Constraint::<Tile>::Order(vec![(Tile::A, 0), (Tile::B, 0), (Tile::A, 1)]);
    assert!(order.evaluate(&arrangement, &colors));
    let at_out_of_range = Constraint::<Tile>::At { piece: Tile::A, square: 7 };
    assert!(!at_out_of_range.evaluate(&arrangement, &colors));
    let not_at_out_of_range = Constraint::<Tile>::NotAt { piece: Tile::A, square: 7 };
    assert!(not_at_out_of_range.evaluate(&arrangement, &colors));
}

#[test]
fn validate_accepts_and_rejects() {
    assert_eq!(three_tiles_once_each().validate(), Ok(()));
    let mut problem = three_tiles_once_each();
    problem = problem.with_constraint(Constraint::Relative {
        lhs: (Tile::A, 0),
        rhs: (Tile::C, 1),
        op: CountOp::Eq,
        offset: 0,
    });
    assert_eq!(problem.validate(), Err(ValidationError::InstanceOutOfRange { instance: 1, declared: 1 }));
    // Without a declared count, instances are not checked.
    problem.constraint = Constraint::Relative { lhs: (Tile::A, 0), rhs: (Tile::C, 1), op: CountOp::Eq, offset: 0 };
    assert_eq!(problem.validate(), Ok(()));
    problem.constraint = Constraint::NotAt { piece: Tile::A, square: 3 };
    assert_eq!(problem.validate(), Err(ValidationError::SquareOutOfRange { square: 3, num_squares: 3 }));
}

#[test]
fn try_build_accepts_a_consistent_problem() {
    let problem = Problem::builder()
        .squares(3)
        .alternating_colors(SquareColor::Light, SquareColor::Dark)
        .pieces([Tile::A, Tile::B])
        .constraint(Constraint::Count { piece: Tile::A, op: CountOp::Eq, value: 1 })
        .constraint(Constraint::Count { piece: Tile::B, op: CountOp::Eq, value: 2 })
        .try_build()
        .unwrap();
    assert_eq!(problem.count(), 3);
    assert_eq!(problem.square_colors, vec![SquareColor::Light, SquareColor::Dark, SquareColor::Light]);
}

#[test]
fn builder_default_is_empty() {
    let problem: Problem<Tile> = ProblemBuilder::default().build();
    assert_eq!(problem.num_squares, 0);
    assert!(problem.square_colors.is_empty());
    assert!(problem.pieces.is_empty());
    assert!(matches!(problem.constraint, Constraint::And(ref v) if v.is_empty()));
    assert_eq!(problem.count(), 0);
}

#[test]
fn colour_helpers_lay_out_squares() {
    assert_eq!(alternating(3, 1u8, 2u8), vec![1, 2, 1]);
    assert_eq!(uniform(2, SquareColor::Dark), vec![SquareColor::Dark, SquareColor::Dark]);
    assert_eq!(back_rank_colors()[0], SquareColor::Dark);
    assert_eq!(back_rank_colors()[7], SquareColor::Light);
    assert_eq!(back_rank_colors().len(), 8);
}

#[test]
fn piece_letters() {
    let letters: Vec<char> = STANDARD_BACK_RANK.iter().map(|p| p.letter()).collect();
    assert_eq!(letters, vec!['R', 'N', 'B', 'Q', 'K', 'B', 'N', 'R']);
}

#[test]
fn sample_draws_from_the_listing() {
    let problem = three_tiles_once_each();
    let all = problem.iter();
    for seed in 0..20u64 {
        assert!(all.contains(&problem.sample(seed).unwrap()));
    }
}

#[test]
fn validation_messages() {
    assert_eq!(
        ValidationError::ColorLengthMismatch { expected: 8, actual: 10 }.message(),
        "square_colors has length 10, expected 8 (= num_squares)"
    );
    assert_eq!(ValidationError::UnknownPiece.message(), "constraint references a piece not in the alphabet");
    assert_eq!(ValidationError::UnknownColor.message(), "CountOnColor references a colour not in square_colors");
    assert_eq!(
        ValidationError::SquareOutOfRange { square: 0, num_squares: 123 }.message(),
        "constraint references square 0 but num_squares is 123"
    );
    assert_eq!(
        ValidationError::InstanceOutOfRange { instance: 2, declared: 2 }.message(),
        "Order / Relative references instance 2 of a piece declared with count 2"
    );
}

#[test]
fn at_and_sp_id_are_different_orders() {
    // `at` walks the lexicographic order of piece codes, `sp_id` the
    // official numbering; the two agree at a single index.
    let preset = chess_960();
    let agree: Vec<u32> = (0..960u32).filter(|&n| preset.at(n as u64) == preset.sp_id(n)).collect();
    assert_eq!(agree, vec![453]);
}

#[test]
fn empty_problems_have_no_solutions() {
    let no_pieces: Problem<Tile> = Problem {
        num_squares: 4,
        square_colors: vec![],
        pieces: vec![],
        constraint: Constraint::Or(vec![Constraint::And(vec![])]),
    };
    assert_eq!(no_pieces.count(), 0);
    let no_squares: Problem<Tile> = Problem {
        num_squares: 0,
        square_colors: vec![],
        pieces: vec![Tile::A, Tile::B],
        constraint: Constraint::Count { piece: Tile::A, op: CountOp::Eq, value: 0 },
    };
    // Tile::B has no declared count, so the counts do not fix a multiset.
    assert_eq!(no_squares.count(), 0);
    assert_eq!(no_squares.iter(), Vec::<Vec<Tile>>::new());
}

#[test]
fn sample_is_reservoir_sampling_with_fastrand() {
    let problem = three_tiles_once_each();
    let all = problem.iter();
    let mut distinct: Vec<Vec<Tile>> = Vec::new();
    for seed in 0..50u64 {
        // The same walk, drawn directly from a generator seeded with `seed`.
        let mut rng = fastrand::Rng::with_seed(seed);
        let mut chosen = None;
        for (i, a) in all.iter().enumerate() {
            if rng.u64(0..(i as u64 + 1)) == 0 {
                chosen = Some(a.clone());
            }
        }
        let drawn = problem.sample(seed);
        assert_eq!(drawn, chosen);
        let drawn = drawn.unwrap();
        if !distinct.contains(&drawn) {
            distinct.push(drawn);
        }
    }
    assert!(distinct.len() > 1);
}
