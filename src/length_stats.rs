//! N50 and N90 of a length distribution.
//!
//! Both statistics sort the lengths in ascending order and walk the running
//! total until it first reaches a fixed fraction `num / den` of the whole sum.
//! The length at that index is the statistic, except when the running total
//! hits the fraction exactly and a next length exists: then the result is the
//! truncated average of the two lengths on either side of the boundary.
use vstd::prelude::*;
use vstd::relations::{sorted_by, total_ordering};
use vstd::seq_lib::{group_to_multiset_ensures, lemma_sorted_unique};
use vstd::slice::slice_to_vec;

use crate::numeric::seq_total;

verus! {

/// Ascending order on lengths.
pub open spec fn ascending() -> spec_fn(i32, i32) -> bool {
    |a: i32, b: i32| a <= b
}

/// The lengths of `v` in ascending order.
pub open spec fn sorted_lengths(v: Seq<i32>) -> Seq<i32> {
    v.sort_by(ascending())
}

/// Every length is strictly positive.
pub open spec fn all_positive(v: Seq<i32>) -> bool {
    forall|i: int| 0 <= i < v.len() ==> v[i] > 0
}

/// The sum of the first `k` elements of `s`.
pub open spec fn prefix_total(s: Seq<i32>, k: int) -> int {
    seq_total(s.take(k))
}

/// Whether the running total through index `i` reaches `num / den` of the sum.
pub open spec fn reaches(s: Seq<i32>, num: int, den: int, i: int) -> bool {
    den * prefix_total(s, i + 1) >= num * seq_total(s)
}

/// The first index at or after `i` whose running total reaches `num / den` of
/// the sum; `s.len()` if there is none.
pub open spec fn first_reaching(s: Seq<i32>, num: int, den: int, i: nat) -> int
    decreases s.len() - i,
{
    if i >= s.len() {
        s.len() as int
    } else if reaches(s, num, den, i as int) {
        i as int
    } else {
        first_reaching(s, num, den, i + 1)
    }
}

/// The index at which the running total of `s` first reaches `num / den` of
/// the sum.
pub open spec fn crossing_index(s: Seq<i32>, num: int, den: int) -> int {
    first_reaching(s, num, den, 0)
}

/// The statistic for fraction `num / den` of the already sorted lengths `s`:
/// zero when `s` is empty, the average of the lengths at the crossing index and
/// the one after when the running total hits the fraction exactly there, and
/// the length at the crossing index otherwise.
pub open spec fn length_stat(s: Seq<i32>, num: int, den: int) -> int {
    if s.len() == 0 {
        0
    } else {
        let i = crossing_index(s, num, den);
        if den * prefix_total(s, i + 1) == num * seq_total(s) && i < s.len() - 1 {
            (s[i] + s[i + 1]) / 2
        } else {
            s[i] as int
        }
    }
}

/// N50 of the lengths `v`.
pub open spec fn n50_of(v: Seq<i32>) -> int {
    length_stat(sorted_lengths(v), 1, 2)
}

/// N90 of the lengths `v`.
pub open spec fn n90_of(v: Seq<i32>) -> int {
    length_stat(sorted_lengths(v), 9, 10)
}

proof fn lemma_ascending_total()
    ensures
        total_ordering(ascending()),
{
}

/// Any ascending rearrangement of `v` is `sorted_lengths(v)`, and positive
/// lengths stay positive.
proof fn lemma_sorted_copy(v: Seq<i32>, s: Seq<i32>)
    requires
        sorted_by(s, ascending()),
        s.to_multiset() == v.to_multiset(),
    ensures
        s == sorted_lengths(v),
        s.len() == v.len(),
        all_positive(v) ==> all_positive(s),
{
    broadcast use group_to_multiset_ensures;

    lemma_ascending_total();
    v.lemma_sort_by_ensures(ascending());
    lemma_sorted_unique(s, sorted_lengths(v), ascending());
    assert(s.len() == s.to_multiset().len() && v.len() == v.to_multiset().len());
    if all_positive(v) {
        assert forall|i: int| 0 <= i < s.len() implies s[i] > 0 by {
            assert(s.to_multiset().count(s[i]) > 0);
            assert(v.contains(s[i]));
        }
    }
}

proof fn lemma_take_step(s: Seq<i32>, i: int)
    requires
        0 <= i < s.len(),
    ensures
        prefix_total(s, i + 1) == prefix_total(s, i) + s[i],
{
    assert(s.take(i + 1).drop_last() =~= s.take(i));
}

proof fn lemma_first_reaching_lower(s: Seq<i32>, num: int, den: int, i: nat)
    ensures
        first_reaching(s, num, den, i) >= i || i > s.len(),
    decreases s.len() - i,
{
    if i < s.len() && !reaches(s, num, den, i as int) {
        lemma_first_reaching_lower(s, num, den, i + 1);
    }
}

proof fn lemma_total_nonneg(s: Seq<i32>)
    requires
        all_positive(s),
    ensures
        seq_total(s) >= 0,
    decreases s.len(),
{
    if s.len() > 0 {
        lemma_total_nonneg(s.drop_last());
    }
}

/// A running total that reaches nine tenths of a non-negative sum has also
/// reached half of it, so the half crossing never comes after the nine-tenths
/// one.
proof fn lemma_half_before_nine_tenths(s: Seq<i32>, i: nat)
    requires
        seq_total(s) >= 0,
    ensures
        first_reaching(s, 1, 2, i) <= first_reaching(s, 9, 10, i),
    decreases s.len() - i,
{
    if i < s.len() {
        if reaches(s, 9, 10, i as int) {
            assert(reaches(s, 1, 2, i as int));
        } else if reaches(s, 1, 2, i as int) {
            lemma_first_reaching_lower(s, 9, 10, i + 1);
        } else {
            lemma_half_before_nine_tenths(s, i + 1);
        }
    }
}

/// In the sorted copy of non-empty positive lengths, the index at which the
/// running total reaches nine tenths of the sum is never earlier than the index
/// at which it reaches half of it.
pub proof fn lemma_n90_crossing_not_before_n50(v: Seq<i32>)
    requires
        v.len() > 0,
        all_positive(v),
    ensures
        crossing_index(sorted_lengths(v), 1, 2) <= crossing_index(sorted_lengths(v), 9, 10),
{
    let s = sorted_lengths(v);
    lemma_ascending_total();
    v.lemma_sort_by_ensures(ascending());
    lemma_sorted_copy(v, s);
    lemma_total_nonneg(s);
    lemma_half_before_nine_tenths(s, 0);
}

/// Relies on slice::sort_unstable: sorts the slice in ascending order,
/// keeping its elements.
#[verifier::external_body]
fn sort_ascending(v: &mut Vec<i32>)
    ensures
        sorted_by(final(v)@, ascending()),
        final(v)@.to_multiset() == old(v)@.to_multiset(),
{
    v.sort_unstable();
}

/// The statistic for fraction `num / den` of the sorted, non-empty, positive
/// lengths `vs`.
fn stat_of_sorted(vs: &Vec<i32>, num: u128, den: u128) -> (r: i32)
    requires
        vs@.len() > 0,
        all_positive(vs@),
        0 < num <= den <= 10,
    ensures
        r == length_stat(vs@, num as int, den as int),
{
    let ghost s = vs@;
    let n: usize = vs.len();
    let mut sum: u128 = 0;
    for i in 0..n
        invariant
            n == s.len(),
            s == vs@,
            all_positive(s),
            sum == prefix_total(s, i as int),
            sum <= i * 0x8000_0000,
    {
        proof {
            lemma_take_step(s, i as int);
        }
        sum = sum + vs[i] as u128;
    }
    assert(s.take(n as int) =~= s);
    let mut part: u128 = 0;
    for i in 0..n
        invariant
            n == s.len(),
            s == vs@,
            all_positive(s),
            0 < num <= den <= 10,
            sum == seq_total(s),
            sum <= n * 0x8000_0000,
            part == prefix_total(s, i as int),
            part <= i * 0x8000_0000,
            crossing_index(s, num as int, den as int) == first_reaching(
                s,
                num as int,
                den as int,
                i as nat,
            ),
            i > 0 ==> !reaches(s, num as int, den as int, i - 1),
    {
        proof {
            lemma_take_step(s, i as int);
        }
        part = part + vs[i] as u128;
        assert(den * part <= 10 * part) by (nonlinear_arith)
            requires
                den <= 10,
                part >= 0,
        ;
        assert(num * sum <= 10 * sum) by (nonlinear_arith)
            requires
                num <= 10,
                sum >= 0,
        ;
        if den * part == num * sum && i < n - 1 {
            let avg: i64 = (vs[i] as i64 + vs[i + 1] as i64) / 2;
            return avg as i32;
        }
        if den * part >= num * sum {
            return vs[i];
        }
    }
    proof {
        assert(s.take(n as int) =~= s);
        assert(den * sum >= num * sum) by (nonlinear_arith)
            requires
                num <= den,
                sum >= 0,
        ;
    }
    0
}

/// N50 of the lengths `v`: the length at which the ascending running total
/// first reaches half of the sum, or the truncated average of that length and
/// the next when the running total equals exactly half there; zero when `v` is
/// empty. Every length must be positive.
pub fn n50(v: &[i32]) -> (r: i32)
    requires
        all_positive(v@),
    ensures
        r == n50_of(v@),
        v@.len() == 0 ==> r == 0,
{
    let mut vs = slice_to_vec(v);
    sort_ascending(&mut vs);
    proof {
        lemma_sorted_copy(v@, vs@);
    }
    if vs.len() == 0 {
        return 0;
    }
    stat_of_sorted(&vs, 1, 2)
}

/// N90 of the lengths `v`: the length at which the ascending running total
/// first reaches nine tenths of the sum, or the truncated average of that
/// length and the next when the running total equals exactly nine tenths
/// there; zero when `v` is empty. Every length must be positive. The
/// crossing is tested exactly, as `10 * running >= 9 * sum`, which is where a
/// floating-point `running / sum >= 0.9` also crosses while the sum stays below
/// 2^51.
pub fn n90(v: &[i32]) -> (r: i32)
    requires
        all_positive(v@),
    ensures
        r == n90_of(v@),
        v@.len() == 0 ==> r == 0,
{
    let mut vs = slice_to_vec(v);
    sort_ascending(&mut vs);
    proof {
        lemma_sorted_copy(v@, vs@);
    }
    if vs.len() == 0 {
        return 0;
    }
    stat_of_sorted(&vs, 9, 10)
}

} // verus!
