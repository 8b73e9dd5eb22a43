//! The figures written to the output file of a run.
use vstd::prelude::*;

verus! {

/// The sum of two sizes.
pub fn my_sum(a: usize, b: usize) -> (r: usize)
    requires
        a + b <= usize::MAX,
    ensures
        r == a + b,
{
    a + b
}

/// The product of two sizes.
pub fn my_mul(a: usize, b: usize) -> (r: usize)
    requires
        a * b <= usize::MAX,
    ensures
        r == a * b,
{
    a * b
}

} // verus!
