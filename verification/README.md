# chess_startpos_rs

Generate, count, index and sample chess back-rank arrangements under
composable constraints (Chess960, Chess2880, custom presets), with the
behaviour of every operation stated as a contract and proved with Verus.

## Layout

- `src/constraint.rs`: constraints, their mathematical model (`Formula`)
  and what it means for an arrangement to satisfy one (`Formula::holds`).
- `src/problem.rs`: `Problem`, the set of its solutions and their canonical
  order (`Problem::listing`), and `count` / `iter` / `at` / `sample` /
  `with_constraint`.
- `src/solver.rs`, `src/permutation.rs`, `src/odometer.rs`, `src/lex.rs`,
  `src/count.rs`: the enumeration (next permutation of a multiset, or
  next sequence over the alphabet) and the order theory behind it.
- `src/validate.rs`, `src/messages.rs`: `Problem::validate` and the text
  of its errors.
- `src/builder.rs`: `ProblemBuilder`.
- `src/chess.rs` and `src/chess/`: the presets, file letters, the official
  Chess960 numbering (`numbering.rs`), the proof that the Chess960 preset
  holds exactly the 960 numbered positions and the standard preset only the
  FIDE back rank (`positions.rs`), and the counts of the full-shuffle (5040)
  and Chess2880 (2880) presets (`layouts.rs`).
- `app/`: serde and `Display` for copies of the library's types.
