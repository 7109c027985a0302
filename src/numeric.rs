//! Small integer helpers: absolute difference and the exact sums behind the
//! arithmetic and length-weighted means.
use vstd::prelude::*;

verus! {

/// The sum of all elements of `s`.
pub open spec fn seq_total(s: Seq<i32>) -> int
    decreases s.len(),
{
    if s.len() == 0 {
        0
    } else {
        seq_total(s.drop_last()) + s.last()
    }
}

/// The sum of the squares of all elements of `s`.
pub open spec fn seq_square_total(s: Seq<i32>) -> int
    decreases s.len(),
{
    if s.len() == 0 {
        0
    } else {
        seq_square_total(s.drop_last()) + s.last() * s.last()
    }
}

/// The distance between `a` and `b`, computed without unsigned underflow.
pub fn abs_diff(a: usize, b: usize) -> (r: usize)
    ensures
        r as int == if a <= b { b - a } else { a - b },
{
    if a <= b {
        return b - a;
    }
    a - b
}

proof fn lemma_take_last(s: Seq<i32>, i: int)
    requires
        0 <= i < s.len(),
    ensures
        s.take(i + 1).drop_last() == s.take(i),
        s.take(i + 1).last() == s[i],
{
    assert(s.take(i + 1).drop_last() =~= s.take(i));
}

/// The exact sum of `v`, the numerator of its arithmetic mean.
pub fn sum_of(v: &[i32]) -> (r: i128)
    ensures
        r == seq_total(v@),
{
    let n: usize = v.len();
    let mut sum: i128 = 0;
    for i in 0..n
        invariant
            n == v@.len(),
            sum == seq_total(v@.take(i as int)),
            -(i * 0x8000_0000) <= sum <= i * 0x8000_0000,
    {
        proof {
            lemma_take_last(v@, i as int);
        }
        sum = sum + v[i] as i128;
    }
    assert(v@.take(n as int) =~= v@);
    sum
}

/// The exact sum of the squares of `v`: over `sum_of(v)`, the length-weighted
/// mean of `v`.
pub fn sum_of_squares(v: &[i32]) -> (r: i128)
    ensures
        r == seq_square_total(v@),
{
    let n: usize = v.len();
    let mut sum: i128 = 0;
    for i in 0..n
        invariant
            n == v@.len(),
            sum == seq_square_total(v@.take(i as int)),
            0 <= sum <= i * 0x4000_0000_0000_0000,
    {
        proof {
            lemma_take_last(v@, i as int);
        }
        let x: i128 = v[i] as i128;
        assert(0 <= x * x <= 0x4000_0000_0000_0000) by (nonlinear_arith)
            requires
                -0x8000_0000 <= x < 0x8000_0000,
        ;
        sum = sum + x * x;
    }
    assert(v@.take(n as int) =~= v@);
    sum
}

} // verus!
