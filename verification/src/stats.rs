//! Mean and variance of the divergences of one range.
//!
//! Values are fixed-point numbers in millionths. A quotient is rounded
//! towards minus infinity.

use vstd::arithmetic::div_mod::lemma_fundamental_div_mod;
use vstd::prelude::*;

verus! {

/// The sum of `data`.
pub open spec fn sum(data: Seq<i32>) -> int
    decreases data.len(),
{
    if data.len() == 0 {
        0
    } else {
        sum(data.drop_last()) + data.last()
    }
}

/// The sum of the squared distances of `data` from `mean`.
pub open spec fn sum_sq_dev(data: Seq<i32>, mean: int) -> int
    decreases data.len(),
{
    if data.len() == 0 {
        0
    } else {
        sum_sq_dev(data.drop_last(), mean) + (data.last() - mean) * (data.last() - mean)
    }
}

/// The mean of `data`: its sum over its length.
pub open spec fn spec_mean(data: Seq<i32>) -> int {
    sum(data) / (data.len() as int)
}

/// The population variance of `data` about `mean`: the divisor is the
/// length of `data`.
pub open spec fn spec_variance(data: Seq<i32>, mean: int) -> int {
    sum_sq_dev(data, mean) / (data.len() as int)
}

/// The quotient of a negative number, rounded down, from quotients of
/// natural numbers.
pub proof fn lemma_floor_div_negative(s: int, n: int)
    requires
        s < 0,
        n > 0,
    ensures
        s / n == -((-s + n - 1) / n),
{
    lemma_fundamental_div_mod(s, n);
    lemma_fundamental_div_mod(-s + n - 1, n);
    let q = s / n;
    let r = s % n;
    let q2 = (-s + n - 1) / n;
    let r2 = (-s + n - 1) % n;
    assert(n * (q + q2) == n - 1 - r - r2) by (nonlinear_arith)
        requires
            s == n * q + r,
            -s + n - 1 == n * q2 + r2,
    ;
    assert(q + q2 == 0) by (nonlinear_arith)
        requires
            n * (q + q2) == n - 1 - r - r2,
            0 <= r < n,
            0 <= r2 < n,
            n > 0,
    ;
}

/// A quotient lies between the bounds of its terms.
pub proof fn lemma_div_bounds(s: int, n: int, lo: int, hi: int)
    requires
        n > 0,
        n * lo <= s <= n * hi,
    ensures
        lo <= s / n <= hi,
{
    lemma_fundamental_div_mod(s, n);
    let q = s / n;
    let r = s % n;
    assert(lo <= q) by (nonlinear_arith)
        requires
            n > 0,
            n * lo <= n * q + r,
            0 <= r < n,
    ;
    assert(q <= hi) by (nonlinear_arith)
        requires
            n > 0,
            n * q + r <= n * hi,
            0 <= r < n,
    ;
}

/// The mean of the divergences in `data`.
pub fn calculate_mean(data: &[i32]) -> (mean: i32)
    requires
        data@.len() > 0,
    ensures
        mean == spec_mean(data@),
{
    let mut total: i128 = 0;
    let mut i: usize = 0;
    while i < data.len()
        invariant
            i <= data.len(),
            total == sum(data@.take(i as int)),
            i * (-0x8000_0000) <= total <= i * 0x7fff_ffff,
        decreases data.len() - i,
    {
        proof {
            assert(data@.take(i + 1).drop_last() =~= data@.take(i as int));
        }
        total = total + data[i] as i128;
        i += 1;
    }
    proof {
        assert(data@.take(i as int) =~= data@);
        lemma_div_bounds(total as int, i as int, -0x8000_0000, 0x7fff_ffff);
    }
    let n: u128 = data.len() as u128;
    if total >= 0 {
        ((total as u128) / n) as i32
    } else {
        proof {
            lemma_floor_div_negative(total as int, n as int);
        }
        let up: u128 = ((-total) as u128 + (n - 1)) / n;
        (-(up as i128)) as i32
    }
}

/// The population variance of the divergences in `data` about `mean`.
pub fn calculate_variance(data: &[i32], mean: i32) -> (var: u64)
    requires
        data@.len() > 0,
    ensures
        var == spec_variance(data@, mean as int),
{
    let mut total: u128 = 0;
    let mut i: usize = 0;
    while i < data.len()
        invariant
            i <= data.len(),
            total == sum_sq_dev(data@.take(i as int), mean as int),
            0 <= total <= i * 0xffff_fffe_0000_0001,
        decreases data.len() - i,
    {
        proof {
            assert(data@.take(i + 1).drop_last() =~= data@.take(i as int));
        }
        let x: i64 = data[i] as i64 - mean as i64;
        let d: u128 = if x >= 0 {
            x as u128
        } else {
            (-x) as u128
        };
        assert(d * d == x * x) by (nonlinear_arith)
            requires
                d == x || d == -x,
        ;
        assert(d * d <= 0xffff_fffe_0000_0001) by (nonlinear_arith)
            requires
                0 <= d <= 0xffff_ffff,
        ;
        total = total + d * d;
        i += 1;
    }
    proof {
        assert(data@.take(i as int) =~= data@);
        lemma_div_bounds(total as int, i as int, 0, 0xffff_fffe_0000_0001);
    }
    (total / (data.len() as u128)) as u64
}

} // verus!
