//! The summation workload: the sum of two integers.
use vstd::prelude::*;

verus! {

/// `a + b`, for operands whose sum fits in an `i32`.
pub fn sum(a: i32, b: i32) -> (r: i32)
    requires
        i32::MIN <= a + b <= i32::MAX,
    ensures
        r == a + b,
{
    a + b
}

} // verus!
