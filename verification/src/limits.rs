//! Sums that stay at the greatest number they can hold.

use vstd::prelude::*;

verus! {

/// A number as far as 64 bits can hold it.
pub open spec fn capped(n: nat) -> u64 {
    if n <= u64::MAX {
        n as u64
    } else {
        u64::MAX
    }
}

/// A number as far as 64 bits can hold it.
pub fn cap(n: u128) -> (r: u64)
    ensures
        r == capped(n as nat),
{
    if n <= 0xffff_ffff_ffff_ffff {
        n as u64
    } else {
        u64::MAX
    }
}

/// A number as far as a machine word can hold it.
pub open spec fn held(n: nat) -> nat {
    if n <= usize::MAX {
        n
    } else {
        usize::MAX as nat
    }
}

/// A sum as far as a machine word can hold it.
pub fn hold(a: usize, b: usize) -> (r: usize)
    ensures
        r == held(a as nat + b as nat),
{
    if a <= usize::MAX - b {
        a + b
    } else {
        usize::MAX
    }
}

} // verus!
