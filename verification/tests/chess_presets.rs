use chess_startpos_rs::chess::file::{of, A, B, C, D, E, F, G, H};
use chess_startpos_rs::chess::{
    chess_2880, chess_960, shuffle, standard, Chess960Problem, Piece, STANDARD_BACK_RANK,
};
use chess_startpos_rs::Constraint;

#[test]
fn standard_count_is_one() {
    assert_eq!(standard().count(), 1);
}

#[test]
fn shuffle_count_is_5040() {
    assert_eq!(shuffle().count(), 5040);
}

#[test]
fn chess_2880_count_is_2880() {
    assert_eq!(chess_2880().count(), 2880);
}

#[test]
fn chess_960_count_is_960() {
    assert_eq!(chess_960().count(), 960);
}

#[test]
fn standard_arrangement_matches_fide() {
    let arrangements: Vec<Vec<Piece>> = standard().iter();
    assert_eq!(arrangements.len(), 1);
    assert_eq!(arrangements[0], STANDARD_BACK_RANK.to_vec());
}

#[test]
fn chess_960_minus_king_constraint_equals_chess_2880() {
    assert_eq!(chess_960().count() * 3, chess_2880().count());
}

#[test]
fn with_constraint_narrows_chess_960() {
    let narrowed = chess_960().with_constraint(Constraint::At {
        piece: Piece::Queen,
        square: 3,
    });
    assert!(narrowed.count() < 960);
    assert!(narrowed.count() > 0);
}

#[test]
fn file_constants_match_alphabet() {
    assert_eq!([A, B, C, D, E, F, G, H], [0, 1, 2, 3, 4, 5, 6, 7]);
}

#[test]
fn file_letter_to_index() {
    for (i, ch) in ('a'..='h').enumerate() {
        assert_eq!(of(ch), Some(i));
        assert_eq!(of(ch.to_ascii_uppercase()), Some(i));
    }
    assert_eq!(of('i'), None);
    assert_eq!(of('1'), None);
    assert_eq!(of(' '), None);
}

#[test]
fn file_constants_usable_in_at_constraint() {
    let with_queen_on_d = chess_960().with_constraint(Constraint::At {
        piece: Piece::Queen,
        square: D,
    });
    assert!(with_queen_on_d.count() > 0);
    assert!(with_queen_on_d.count() < 960);
}

#[test]
fn sp_id_518_is_standard_position() {
    let preset = chess_960();
    assert_eq!(preset.sp_id(518), Some(STANDARD_BACK_RANK.to_vec()));
    assert_eq!(preset.sp_id_of(&STANDARD_BACK_RANK), Some(518));
}

#[test]
fn sp_id_out_of_range_returns_none() {
    let preset = chess_960();
    assert_eq!(preset.sp_id(960), None);
    assert_eq!(preset.sp_id(u32::MAX), None);
}

#[test]
fn sp_id_roundtrip_over_full_range() {
    let preset = chess_960();
    for id in 0..Chess960Problem::COUNT {
        let arrangement = preset.sp_id(id).expect("in range");
        assert_eq!(arrangement.len(), 8);
        assert_eq!(preset.sp_id_of(&arrangement), Some(id), "round-trip {id}");
    }
}

#[test]
fn sample_is_deterministic_in_seed() {
    let preset = chess_960();
    let a = preset.sample(0xC0FFEE);
    let b = preset.sample(0xC0FFEE);
    assert_eq!(a, b);
    assert!(preset.sp_id_of(&a).is_some());
}

#[test]
fn sp_id_of_rejects_invalid_arrangements() {
    let preset = chess_960();

    // Wrong length.
    assert_eq!(preset.sp_id_of(&[Piece::King; 4]), None);

    // Same-colour bishops (both on light squares b1 and f1).
    let mut bad = STANDARD_BACK_RANK.to_vec();
    bad[1] = Piece::Bishop;
    bad[2] = Piece::Knight;
    assert_eq!(preset.sp_id_of(&bad), None);

    // King not strictly between rooks.
    let king_outside = vec![
        Piece::King,
        Piece::Rook,
        Piece::Rook,
        Piece::Bishop,
        Piece::Knight,
        Piece::Knight,
        Piece::Bishop,
        Piece::Queen,
    ];
    assert_eq!(preset.sp_id_of(&king_outside), None);

    // Wrong piece counts (two queens, no king).
    let two_queens = vec![
        Piece::Rook,
        Piece::Knight,
        Piece::Bishop,
        Piece::Queen,
        Piece::Queen,
        Piece::Bishop,
        Piece::Knight,
        Piece::Rook,
    ];
    assert_eq!(preset.sp_id_of(&two_queens), None);
}

#[test]
fn sp_id_zero_is_bbqnnrkr() {
    let preset = chess_960();
    assert_eq!(
        preset.sp_id(0),
        Some(vec![
            Piece::Bishop,
            Piece::Bishop,
            Piece::Queen,
            Piece::Knight,
            Piece::Knight,
            Piece::Rook,
            Piece::King,
            Piece::Rook,
        ])
    );
    assert_eq!(
        preset.sp_id(959),
        Some(vec![
            Piece::Rook,
            Piece::King,
            Piece::Rook,
            Piece::Knight,
            Piece::Knight,
            Piece::Queen,
            Piece::Bishop,
            Piece::Bishop,
        ])
    );
}
