//! The larger and the smaller of two integers.
use vstd::prelude::*;

verus! {

/// The larger of `x` and `y`.
pub fn max(x: i32, y: i32) -> (r: i32)
    ensures
        r >= x,
        r >= y,
        r == x || r == y,
{
    if x > y { x } else { y }
}

/// The smaller of `x` and `y`.
pub fn min(x: i32, y: i32) -> (r: i32)
    ensures
        r <= x,
        r <= y,
        r == x || r == y,
{
    if x < y { x } else { y }
}

} // verus!
