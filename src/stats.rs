use vstd::prelude::*;

verus! {

/// Sum of a sequence of integers, as a mathematical integer.
pub open spec fn sum_of(s: Seq<i32>) -> int
    decreases s.len(),
{
    if s.len() == 0 {
        0
    } else {
        sum_of(s.drop_last()) + s.last()
    }
}

/// Integer division rounding toward zero, as Rust's `/` does on signed integers.
pub open spec fn div_toward_zero(a: int, d: int) -> int {
    if a >= 0 {
        a / d
    } else {
        -((-a) / d)
    }
}

/// The arithmetic mean of a non-empty sequence, rounded toward zero.
pub open spec fn mean_of(s: Seq<i32>) -> int {
    div_toward_zero(sum_of(s), s.len() as int)
}

/// Arithmetic mean of `nums`, rounded toward zero. The sum is accumulated
/// in a wider type, so it never overflows; the mean lies between the least
/// and the greatest element, so it always fits in an `i32`.
pub fn get_mean(nums: &[i32]) -> (r: i32)
    requires
        nums@.len() > 0,
    ensures
        r == mean_of(nums@),
{
    let n: usize = nums.len();
    let mut sum: i128 = 0;
    let mut i: usize = 0;
    while i < n
        invariant
            n == nums@.len(),
            i <= n,
            sum == sum_of(nums@.subrange(0, i as int)),
            i * (i32::MIN as int) <= sum <= i * (i32::MAX as int),
        decreases n - i,
    {
        assert(nums@.subrange(0, i + 1).drop_last() =~= nums@.subrange(0, i as int));
        assert(i * (i32::MIN as int) + (i32::MIN as int) == (i + 1) * (i32::MIN as int))
            by (nonlinear_arith);
        assert(i * (i32::MAX as int) + (i32::MAX as int) == (i + 1) * (i32::MAX as int))
            by (nonlinear_arith);
        assert(n <= usize::MAX);
        assert(i * (i32::MAX as int) <= usize::MAX * (i32::MAX as int)) by (nonlinear_arith)
            requires i <= usize::MAX;
        assert(i * (i32::MIN as int) >= usize::MAX * (i32::MIN as int)) by (nonlinear_arith)
            requires i <= usize::MAX;
        sum = sum + nums[i] as i128;
        i = i + 1;
    }
    assert(nums@.subrange(0, n as int) =~= nums@);
    let d: i128 = n as i128;
    if sum >= 0 {
        let q: i128 = sum / d;
        proof {
            lemma_quotient_at_most(sum as int, d as int, i32::MAX as int);
        }
        q as i32
    } else {
        let q: i128 = (-sum) / d;
        proof {
            lemma_quotient_at_most(-sum, d as int, -(i32::MIN as int));
        }
        (-q) as i32
    }
}

proof fn lemma_quotient_at_most(a: int, d: int, m: int)
    requires
        0 <= a <= d * m,
        d > 0,
        m >= 0,
    ensures
        0 <= a / d <= m,
{
    vstd::arithmetic::div_mod::lemma_div_is_ordered(a, d * m, d);
    vstd::arithmetic::div_mod::lemma_div_by_multiple(m, d);
    vstd::arithmetic::div_mod::lemma_div_pos_is_pos(a, d);
    assert(d * m == m * d) by (nonlinear_arith);
}

} // verus!
