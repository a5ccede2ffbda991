//! Generate, count, index and sample back-rank arrangements of chess
//! pieces under composable constraints (Chess960, Chess2880, custom
//! presets).
//!
//! The engine is generic over a piece kind and a colour kind. Kinds
//! are told apart by their *code*: two pieces are the same kind exactly
//! when their codes agree, and arrangements are ordered
//! lexicographically by those codes.
use vstd::prelude::*;

pub mod chess;
pub mod constraint;
pub mod count;
pub mod lex;
pub mod odometer;
pub mod permutation;
pub mod problem;
mod rng;
mod solver;
pub mod validate;
pub mod messages;
pub mod builder;

pub use builder::ProblemBuilder;
pub use constraint::{Constraint, CountOp, SquareColor};
pub use problem::{Problem, ValidationError};

verus! {

/// A kind of piece that can be laid out on a board.
///
/// Every kind carries a numeric code. The solver treats two pieces as
/// the same kind exactly when their codes are equal, and orders
/// arrangements lexicographically by code. So the code must tell kinds
/// apart: two values get the same code only when they are the same kind
/// (for a type of kinds, only when they are equal), and it should follow
/// the type's `Ord` when that order is wanted. For a field-less enum the
/// natural code is the discriminant, which does both. Outside verified
/// code `code` is an ordinary method: give it the same body as `to_code`.
pub trait PieceKind: Copy {
    /// The code of this kind.
    spec fn code(&self) -> u64;

    /// Returns the code of this kind.
    fn to_code(&self) -> (r: u64)
        ensures
            r == self.code(),
    ;
}

/// A kind of square colour, told apart by its code like [`PieceKind`]:
/// two colours get the same code only when they are the same colour.
pub trait ColorKind: Copy {
    /// The code of this colour.
    spec fn code(&self) -> u64;

    /// Returns the code of this colour.
    fn to_code(&self) -> (r: u64)
        ensures
            r == self.code(),
    ;
}

impl PieceKind for u8 {
    open spec fn code(&self) -> u64 {
        *self as u64
    }

    fn to_code(&self) -> (r: u64) {
        *self as u64
    }
}

impl PieceKind for u16 {
    open spec fn code(&self) -> u64 {
        *self as u64
    }

    fn to_code(&self) -> (r: u64) {
        *self as u64
    }
}

impl PieceKind for u32 {
    open spec fn code(&self) -> u64 {
        *self as u64
    }

    fn to_code(&self) -> (r: u64) {
        *self as u64
    }
}

impl PieceKind for u64 {
    open spec fn code(&self) -> u64 {
        *self
    }

    fn to_code(&self) -> (r: u64) {
        *self
    }
}

impl ColorKind for u8 {
    open spec fn code(&self) -> u64 {
        *self as u64
    }

    fn to_code(&self) -> (r: u64) {
        *self as u64
    }
}

impl ColorKind for u32 {
    open spec fn code(&self) -> u64 {
        *self as u64
    }

    fn to_code(&self) -> (r: u64) {
        *self as u64
    }
}

/// Returns `n` colours alternating between `first` (even indices) and
/// `second` (odd indices).
pub fn alternating<C: Copy>(n: usize, first: C, second: C) -> (r: Vec<C>)
    ensures
        r@.len() == n,
        forall|i: int| 0 <= i < n ==> #[trigger] r@[i] == (if i % 2 == 0 { first } else { second }),
{
    let mut r: Vec<C> = Vec::new();
    let mut i: usize = 0;
    while i < n
        invariant
            i <= n,
            r@.len() == i,
            forall|j: int| 0 <= j < i ==> #[trigger] r@[j] == (if j % 2 == 0 { first } else { second }),
        decreases n - i,
    {
        if i % 2 == 0 {
            r.push(first);
        } else {
            r.push(second);
        }
        i = i + 1;
    }
    r
}

/// Returns `n` copies of `c`.
pub fn uniform<C: Copy>(n: usize, c: C) -> (r: Vec<C>)
    ensures
        r@.len() == n,
        forall|i: int| 0 <= i < n ==> #[trigger] r@[i] == c,
{
    let mut r: Vec<C> = Vec::new();
    let mut i: usize = 0;
    while i < n
        invariant
            i <= n,
            r@.len() == i,
            forall|j: int| 0 <= j < i ==> #[trigger] r@[j] == c,
        decreases n - i,
    {
        r.push(c);
        i = i + 1;
    }
    r
}

} // verus!
