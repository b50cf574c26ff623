//! Window planning: how a file is cut into overlapping windows.
//!
//! A window spans twice the half-window, and the next one begins a
//! half-window later, so that consecutive windows share half their bytes.

use std::ops::Range;
use vstd::arithmetic::div_mod::lemma_fundamental_div_mod;
use vstd::prelude::*;

verus! {

/// The logarithm of `n` to the base 2, rounded down; 0 for 0.
pub open spec fn spec_floor_log2(n: int) -> int
    decreases n,
{
    if n <= 1 {
        0
    } else {
        1 + spec_floor_log2(n / 2)
    }
}

/// The logarithm of `n` to the base 2, rounded down.
pub fn floor_log2(n: usize) -> (r: usize)
    ensures
        r == spec_floor_log2(n as int),
        r < 64,
{
    let mut rest: usize = n;
    let mut r: usize = 0;
    while rest > 1
        invariant
            spec_floor_log2(n as int) == r + spec_floor_log2(rest as int),
            r + rest <= n,
        decreases rest,
    {
        rest = rest / 2;
        r += 1;
    }
    proof {
        lemma_pow2_values();
        lemma_floor_log2_below(n as int, 64);
    }
    r
}

/// Two to the power of `k`.
pub open spec fn pow2(k: int) -> int
    decreases k,
{
    if k <= 0 {
        1
    } else {
        2 * pow2(k - 1)
    }
}

/// Some powers of two.
pub proof fn lemma_pow2_values()
    ensures
        pow2(24) == 0x100_0000,
        pow2(43) == 0x800_0000_0000,
        pow2(64) == 0x1_0000_0000_0000_0000,
{
    reveal_with_fuel(pow2, 25);
    assert(pow2(24) == 0x100_0000);
    assert(pow2(43) == 0x800_0000_0000) by {
        reveal_with_fuel(pow2, 20);
    }
    assert(pow2(64) == 0x1_0000_0000_0000_0000) by {
        reveal_with_fuel(pow2, 22);
    }
}

/// A number below two to the power of `k` has a logarithm below `k`.
pub proof fn lemma_floor_log2_below(n: int, k: int)
    requires
        1 <= k,
        n < pow2(k),
    ensures
        spec_floor_log2(n) < k,
    decreases k,
{
    reveal_with_fuel(pow2, 2);
    if n > 1 {
        lemma_floor_log2_below(n / 2, k - 1);
    }
}

/// No logarithm is negative.
pub proof fn lemma_floor_log2_nonnegative(n: int)
    ensures
        0 <= spec_floor_log2(n),
    decreases n,
{
    if n > 1 {
        lemma_floor_log2_nonnegative(n / 2);
    }
}

/// A number that is at least two to the power of `k` has a logarithm of at
/// least `k`.
pub proof fn lemma_floor_log2_from(n: int, k: int)
    requires
        0 <= k,
        pow2(k) <= n,
    ensures
        k <= spec_floor_log2(n),
    decreases k,
{
    if k > 0 {
        lemma_floor_log2_nonnegative(n / 2);
        lemma_floor_log2_from(n / 2, k - 1);
    } else {
        lemma_floor_log2_nonnegative(n);
    }
}

/// Half the window size for a file of `len` bytes: from a table for files
/// of at most 16 MiB; beyond that the number of windows grows with the
/// logarithm of the length.
pub open spec fn spec_half_window(len: usize) -> usize {
    if len <= 0x1000 {
        0x100
    } else if len <= 0x8000 {
        0x200
    } else if len <= 0x2_0000 {
        0x400
    } else if len <= 0x10_0000 {
        0x800
    } else if len <= 0x100_0000 {
        0x1000
    } else {
        ((((len as int) / (170 * spec_floor_log2(len as int))) as u64) & 0xFFFF_F000u64) as usize
    }
}

/// Half the window size for a file of `len` bytes.
pub fn half_window(len: usize) -> (w: usize)
    ensures
        w == spec_half_window(len),
{
    if len <= 0x1000 {
        0x100
    } else if len <= 0x8000 {
        0x200
    } else if len <= 0x2_0000 {
        0x400
    } else if len <= 0x10_0000 {
        0x800
    } else if len <= 0x100_0000 {
        0x1000
    } else {
        let log = floor_log2(len);
        proof {
            lemma_pow2_values();
            lemma_floor_log2_from(len as int, 24);
        }
        let quotient: u64 = (len / (170 * log)) as u64;
        let masked: u64 = quotient & 0xFFFF_F000u64;
        assert(masked <= 0xFFFF_F000u64) by (bit_vector)
            requires
                masked == quotient & 0xFFFF_F000u64,
        ;
        masked as usize
    }
}

/// The number of windows of a file of `len` bytes with half-window `w`:
/// one for each multiple of `w` below `len`.
pub open spec fn window_total(len: int, w: int) -> int {
    if len <= 0 {
        0
    } else {
        (len - 1) / w + 1
    }
}

/// The window with number `i`: it begins at `i * w` and spans `2 * w`
/// bytes, or as many as are left.
pub open spec fn window_at(len: int, w: int, i: int) -> Range<usize> {
    Range {
        start: (i * w) as usize,
        end: (if i * w + 2 * w <= len {
            i * w + 2 * w
        } else {
            len
        }) as usize,
    }
}

/// The windows of a file of `len` bytes with half-window `w`, in their
/// order.
pub open spec fn spec_windows(len: usize, w: usize) -> Seq<Range<usize>> {
    Seq::new(window_total(len as int, w as int) as nat, |i: int| window_at(len as int, w as int, i))
}

/// A quotient is the number whose multiple is the last not above the
/// dividend.
pub proof fn lemma_quotient(a: int, d: int, q: int)
    requires
        d > 0,
        q * d <= a < (q + 1) * d,
    ensures
        a / d == q,
{
    lemma_fundamental_div_mod(a, d);
    let x = a / d;
    let r = a % d;
    assert(x == q) by (nonlinear_arith)
        requires
            a == d * x + r,
            0 <= r < d,
            q * d <= a < (q + 1) * d,
    ;
}

/// The multiple of the divisor by the quotient is the last not above the
/// dividend.
pub proof fn lemma_quotient_bounds(a: int, d: int)
    requires
        d > 0,
    ensures
        (a / d) * d <= a < (a / d + 1) * d,
{
    lemma_fundamental_div_mod(a, d);
    let x = a / d;
    let r = a % d;
    assert(x * d <= a < (x + 1) * d) by (nonlinear_arith)
        requires
            a == d * x + r,
            0 <= r < d,
    ;
}

/// The windows of a file of `len` bytes with the half-window
/// `half_window`.
pub fn windows(len: usize, half_window: usize) -> (r: Vec<Range<usize>>)
    requires
        half_window > 0,
    ensures
        r@ == spec_windows(len, half_window),
{
    let w = half_window;
    let mut out: Vec<Range<usize>> = Vec::new();
    let mut start: usize = 0;
    assert(out@.len() * w == 0) by (nonlinear_arith)
        requires
            out@.len() == 0,
    ;
    while start < len
        invariant
            w > 0,
            start <= len,
            start < len ==> start == out@.len() * w,
            start == len ==> (len == 0 && out@.len() == 0) || (out@.len() >= 1 && (out@.len() - 1)
                * w < len <= out@.len() * w),
            forall|i: int| 0 <= i < out@.len() ==> #[trigger] out@[i] == window_at(
                len as int,
                w as int,
                i,
            ),
        decreases len - start,
    {
        let rest = len - start;
        let ghost k = out@.len() as int;
        let end = if rest >= w && rest - w >= w {
            start + w + w
        } else {
            len
        };
        out.push(start..end);
        proof {
            assert((k + 1) * w == k * w + w) by (nonlinear_arith);
        }
        if rest <= w {
            start = len;
        } else {
            start = start + w;
        }
    }
    proof {
        let k = out@.len() as int;
        if len > 0 {
            lemma_quotient(len - 1, w as int, k - 1);
        }
        assert(out@ =~= spec_windows(len, w));
    }
    out
}

/// The windows of a file of `len` bytes.
pub fn plan_windows(len: usize) -> (r: Vec<Range<usize>>)
    requires
        spec_half_window(len) > 0,
    ensures
        r@ == spec_windows(len, spec_half_window(len)),
{
    windows(len, half_window(len))
}

/// Every byte of the file lies in a window: in the one whose number is the
/// quotient of the offset by the half-window.
pub proof fn lemma_windows_cover(len: usize, w: usize, offset: usize)
    requires
        w > 0,
        offset < len,
    ensures
        0 <= (offset as int) / (w as int),
        (offset as int) / (w as int) < spec_windows(len, w).len(),
        spec_windows(len, w)[(offset as int) / (w as int)].start <= offset,
        offset < spec_windows(len, w)[(offset as int) / (w as int)].end,
{
    let i = (offset as int) / (w as int);
    lemma_quotient_bounds(offset as int, w as int);
    lemma_quotient_bounds(len - 1, w as int);
    let t = (len - 1) / (w as int);
    assert(0 <= i) by (nonlinear_arith)
        requires
            (i + 1) * w > offset,
            offset >= 0,
            w > 0,
    ;
    assert(i <= t) by (nonlinear_arith)
        requires
            i * w <= offset,
            offset <= len - 1,
            len - 1 < (t + 1) * w,
            w > 0,
    ;
    assert((i + 1) * w == i * w + w) by (nonlinear_arith);
}

/// Two consecutive windows share exactly a half-window, unless the second
/// is the last one and shorter than that: then they share the whole of it.
pub proof fn lemma_windows_overlap(len: usize, w: usize, i: int)
    requires
        w > 0,
        0 <= i,
        i + 1 < spec_windows(len, w).len(),
    ensures
        spec_windows(len, w)[i + 1].start <= spec_windows(len, w)[i].end,
        spec_windows(len, w)[i].end - spec_windows(len, w)[i + 1].start == w || (i + 2
            == spec_windows(len, w).len() && spec_windows(len, w)[i].end - spec_windows(
            len,
            w,
        )[i + 1].start == spec_windows(len, w)[i + 1].end - spec_windows(len, w)[i + 1].start
            && spec_windows(len, w)[i + 1].end - spec_windows(len, w)[i + 1].start < w),
{
    lemma_quotient_bounds(len - 1, w as int);
    let t = (len - 1) / (w as int);
    assert((i + 1) * w <= t * w) by (nonlinear_arith)
        requires
            i + 1 <= t,
            w > 0,
    ;
    assert((i + 1) * w == i * w + w) by (nonlinear_arith);
    assert((i + 2) * w == i * w + 2 * w) by (nonlinear_arith);
    assert((i + 1) * w + 2 * w == i * w + 3 * w) by (nonlinear_arith);
    assert(0 <= i * w) by (nonlinear_arith)
        requires
            0 <= i,
            w > 0,
    ;
    if i + 2 < spec_windows(len, w).len() {
        assert((i + 2) * w <= t * w) by (nonlinear_arith)
            requires
                i + 2 <= t,
                w > 0,
        ;
    } else {
        assert((t + 1) * w == (i + 2) * w);
    }
}

/// Levels of the logarithm from 24 on: 4096 half-windows of 170 bytes for
/// each level fit below two to the power of the level.
pub proof fn lemma_levels_fit(k: int)
    requires
        24 <= k,
    ensures
        4096 * (170 * k) <= pow2(k),
    decreases k,
{
    if k == 24 {
        lemma_pow2_values();
    } else {
        lemma_levels_fit(k - 1);
    }
}

/// A number is at least two to the power of its logarithm.
pub proof fn lemma_floor_log2_brackets(n: int)
    requires
        1 <= n,
    ensures
        pow2(spec_floor_log2(n)) <= n,
    decreases n,
{
    if n > 1 {
        lemma_floor_log2_brackets(n / 2);
        lemma_floor_log2_nonnegative(n / 2);
    }
}

/// For a file of at most 8 TiB the half-window is not zero.
pub proof fn lemma_half_window_positive(len: usize)
    requires
        len <= 0x800_0000_0000,
    ensures
        spec_half_window(len) > 0,
{
    if len > 0x100_0000 {
        let k = spec_floor_log2(len as int);
        lemma_pow2_values();
        lemma_floor_log2_from(len as int, 24);
        lemma_floor_log2_brackets(len as int);
        lemma_levels_fit(k);
        let d = 170 * k;
        let q = (len as int) / d;
        lemma_quotient_bounds(len as int, d);
        assert(q >= 4096) by (nonlinear_arith)
            requires
                4096 * d <= len,
                len < (q + 1) * d,
                d > 0,
        ;
        assert(q < 0x1_0000_0000) by (nonlinear_arith)
            requires
                q * d <= len,
                len <= 0x800_0000_0000,
                d >= 4080,
        ;
        let x = q as u64;
        assert(x & 0xFFFF_F000u64 > 0) by (bit_vector)
            requires
                4096 <= x < 0x1_0000_0000u64,
        ;
        assert(x & 0xFFFF_F000u64 <= 0xFFFF_F000u64) by (bit_vector);
    }
}

} // verus!
