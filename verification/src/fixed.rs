//! Fixed-point representation of the real quantities exchanged with the
//! linear-programming engine.

use vstd::prelude::*;

verus! {

/// The fixed-point integer that stands for the real number one.
pub const ONE: i64 = 1_000_000_000;

/// The numerical tolerance, one millionth, in fixed-point units.
pub const EPSILON: i64 = 1_000;

} // verus!
