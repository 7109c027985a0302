//! A linear-congruential sequence generator with fixed constants, so that the
//! same sequence can be reproduced exactly by any implementation with 64-bit
//! wrapping arithmetic.
use vstd::prelude::*;
use vstd::wrapping::i64_specs;

verus! {

/// The multiplier of the recurrence.
pub const LCG_MULTIPLIER: i64 = 6_364_136_223_846_793_005;

/// The increment of the recurrence.
pub const LCG_INCREMENT: i64 = 1_442_695_040_888_963_407;

/// One step of the recurrence: `LCG_MULTIPLIER * x + LCG_INCREMENT`, wrapping
/// modulo 2^64 in two's complement.
pub open spec fn lcg_step(x: i64) -> i64 {
    i64_specs::wrapping_add(i64_specs::wrapping_mul(LCG_MULTIPLIER, x), LCG_INCREMENT)
}

/// The recurrence applied `i` times, starting from zero.
pub open spec fn lcg_nth(i: nat) -> i64
    decreases i,
{
    if i == 0 {
        0
    } else {
        lcg_step(lcg_nth((i - 1) as nat))
    }
}

/// Replaces the contents of `x` with the first `n` values of the recurrence:
/// element 0 is zero and each later element is one step from the one before.
pub fn make_random_vec(x: &mut Vec<i64>, n: usize)
    ensures
        final(x)@.len() == n,
        n > 0 ==> final(x)@[0] == 0,
        forall|i: int| 0 <= i < n ==> final(x)@[i] == lcg_nth(i as nat),
{
    x.resize(n, 0);
    if n == 0 {
        return;
    }
    x.set(0, 0);
    for i in 1..n
        invariant
            x@.len() == n,
            forall|j: int| 0 <= j < i ==> x@[j] == lcg_nth(j as nat),
    {
        let next: i64 = LCG_MULTIPLIER.wrapping_mul(x[i - 1]).wrapping_add(LCG_INCREMENT);
        x.set(i, next);
    }
}

} // verus!
