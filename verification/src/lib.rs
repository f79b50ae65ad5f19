pub mod arith;
pub mod convolution;
pub mod ecm;
pub mod bits;
pub mod fps;
pub mod garner;
pub mod modint;
pub mod multipoint_evaluation;
pub mod perfect_power;
pub mod pollard_rho;
pub mod primality;
pub mod sums;
pub mod utility;
pub mod wrapper;

use vstd::prelude::*;

verus! {

/// Sum of two integers.
pub fn add(left: u64, right: u64) -> (r: u64)
    requires
        left + right <= u64::MAX,
    ensures
        r == left + right,
{
    left + right
}

} // verus!
