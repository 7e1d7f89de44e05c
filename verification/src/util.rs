//! Small numeric helpers.

use vstd::prelude::*;

verus! {

/// Absolute difference of two numbers.
pub fn abs_diff(x: usize, y: usize) -> (r: usize)
    ensures
        r == if x >= y {
            x - y
        } else {
            y - x
        },
{
    if x >= y {
        x - y
    } else {
        y - x
    }
}

} // verus!
