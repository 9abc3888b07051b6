//! The one place randomness enters the library.  A single trusted wrapper
//! draws raw 32-bit values from the `rand` crate; everything derived from
//! them (ranges, the color mask) is computed in verified code.

use crate::ball::{draw_ok, Draw, MAX_COLOR};
use vstd::prelude::*;

verus! {

/// Relies on `rand::random`: draws one value of the type from the
/// thread-local generator.  Nothing can be promised of a random value, so
/// this contract promises nothing.
#[verifier::external_body]
fn random_u32() -> u32 {
    rand::random::<u32>()
}

/// Draw the random inputs one split consumes, reduced in verified code to
/// the ranges the simulation uses.
pub fn make_draw() -> (d: Draw)
    ensures
        draw_ok(d@),
{
    let factor: i64 = 800 + (random_u32() % 400) as i64;
    let jx: i64 = (random_u32() % 2000) as i64 - 1000;
    let jy: i64 = (random_u32() % 2000) as i64 - 1000;
    let color: u32 = random_u32() % (MAX_COLOR + 1);
    Draw { factor, jx, jy, color }
}

} // verus!
