//! File letters of the back rank and their square indices.
use vstd::prelude::*;

verus! {

/// Square index of the `a` file.
pub const A: usize = 0;
/// Square index of the `b` file.
pub const B: usize = 1;
/// Square index of the `c` file.
pub const C: usize = 2;
/// Square index of the `d` file.
pub const D: usize = 3;
/// Square index of the `e` file.
pub const E: usize = 4;
/// Square index of the `f` file.
pub const F: usize = 5;
/// Square index of the `g` file.
pub const G: usize = 6;
/// Square index of the `h` file.
pub const H: usize = 7;

/// Converts a file letter, lower or upper case, to its 0-based square
/// index on the back rank; `None` for any other character.
pub fn of(letter: char) -> (r: Option<usize>)
    ensures
        r == if 'a' <= letter <= 'h' {
            Some((letter as int - 'a' as int) as usize)
        } else if 'A' <= letter <= 'H' {
            Some((letter as int - 'A' as int) as usize)
        } else {
            None::<usize>
        },
{
    if 'a' <= letter && letter <= 'h' {
        Some(letter as usize - 'a' as usize)
    } else if 'A' <= letter && letter <= 'H' {
        Some(letter as usize - 'A' as usize)
    } else {
        None
    }
}

} // verus!
