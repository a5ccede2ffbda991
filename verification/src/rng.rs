//! The seeded random number generator used for sampling.
//!
//! A `fastrand::Rng` is nothing but its 64-bit state: `with_seed` sets it
//! and `get_seed` reads it back, and each draw depends only on the state
//! and the range. The library therefore carries the state as a `u64` and
//! names what a draw gives and where it leaves the state.
use vstd::prelude::*;

verus! {

/// The value `fastrand::Rng::u64` draws from `0..bound` with a generator
/// in state `state`.
pub uninterp spec fn fastrand_draw(state: u64, bound: u64) -> u64;

/// The state a `fastrand::Rng` in state `state` is left in by drawing
/// from `0..bound`.
pub uninterp spec fn fastrand_next_state(state: u64, bound: u64) -> u64;

/// Calls `fastrand::Rng::u64` on `0..bound` with a generator started in
/// `state` (`Rng::with_seed`), and returns the value drawn and the state
/// after the draw (`Rng::get_seed`). The range is not empty, so the call
/// does not panic, and the value lies in it; which value it is, and the
/// next state, are only named.
#[verifier::external_body]
pub(crate) fn draw_below(state: u64, bound: u64) -> (r: (u64, u64))
    requires
        bound > 0,
    ensures
        r.0 == fastrand_draw(state, bound),
        r.1 == fastrand_next_state(state, bound),
        r.0 < bound,
{
    let mut rng = fastrand::Rng::with_seed(state);
    let v = rng.u64(0..bound);
    (v, rng.get_seed())
}

} // verus!
