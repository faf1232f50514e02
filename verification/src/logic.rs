//! Position checks and the randomized inputs of tile spawning.
use vstd::prelude::*;

use crate::SIZE;

verus! {

/// True when (x, y) lies on the grid.
pub fn check_position(x: usize, y: usize) -> (r: bool)
    ensures
        r == (x < SIZE && y < SIZE),
{
    x < SIZE && y < SIZE
}

/// Relies on rand::Rng::gen_range over a fresh rand::thread_rng(): for a
/// non-empty range `0..ub` it returns a uniformly distributed value in that
/// range (and panics on an empty one, which the precondition rules out).
/// Nothing beyond membership in the range is assumed of the outcome.
#[verifier::external_body]
pub(crate) fn random_below(ub: usize) -> (r: usize)
    requires
        ub > 0,
    ensures
        r < ub,
{
    rand::Rng::gen_range(&mut rand::thread_rng(), 0..ub)
}

/// A random cell position on the grid.
pub fn get_random_position() -> (r: (usize, usize))
    ensures
        r.0 < SIZE && r.1 < SIZE,
{
    let idx: usize = random_below(SIZE * SIZE);
    (idx / SIZE, idx % SIZE)
}

/// The value of a newly spawned tile: 4 in about one draw of ten, else 2.
pub fn new_tile() -> (r: u32)
    ensures
        r == 2 || r == 4,
{
    let sample: usize = random_below(100);
    if sample >= 90 {
        4
    } else {
        2
    }
}

} // verus!
