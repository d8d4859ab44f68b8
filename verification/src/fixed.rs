//! Fixed-point scalar arithmetic: all signal values carry 16 fractional bits,
//! so a real value `v` is stored as the integer `v * SCALE` (rounded).

use vstd::prelude::*;
use vstd::arithmetic::div_mod::{lemma_fundamental_div_mod, lemma_multiply_divide_lt};
use vstd::arithmetic::power2::{
    lemma2_to64, lemma2_to64_rest, lemma_pow2_pos, lemma_pow2_strictly_increases,
    lemma_pow2_unfold, pow2,
};

verus! {

/// One unit of signal value or of one pixel, as a fixed-point integer.
pub const SCALE: u64 = 65536;

/// Half a unit, used for rounding to the nearest integer.
pub const HALF: u64 = 32768;

/// Integer square root, rounded down.
pub fn isqrt64(n: u64) -> (r: u64)
    ensures
        r * r <= n,
        n < (r + 1) * (r + 1),
        r < 0x1_0000_0000u64,
{
    let mut lo: u64 = 0;
    let mut hi: u64 = 0x1_0000_0000;
    while lo + 1 < hi
        invariant
            lo < hi,
            hi <= 0x1_0000_0000u64,
            lo * lo <= n,
            n < hi * hi,
        decreases hi - lo,
    {
        let mid: u64 = lo + (hi - lo) / 2;
        assert(lo < mid && mid < hi);
        assert(mid * mid < 0x1_0000_0000_0000_0000) by (nonlinear_arith)
            requires
                mid < 0x1_0000_0000u64,
        ;
        if mid * mid <= n {
            lo = mid;
        } else {
            hi = mid;
        }
    }
    lo
}

/// Division of a signed fixed-point value by `SCALE`, rounded toward
/// negative infinity, matching the mathematical `a / SCALE` on `int`.
pub fn div_scale_floor(a: i64) -> (q: i64)
    ensures
        q == a as int / SCALE as int,
{
    if a >= 0 {
        let q = (a as u64) / SCALE;
        (q as i64)
    } else {
        let m: u64 = (-(a as i128)) as u64;
        let t: u64 = m + (SCALE - 1);
        let qm: u64 = t / SCALE;
        proof {
            lemma_fundamental_div_mod(t as int, SCALE as int);
            lemma_neg_div_scale(a as int, m as int, qm as int);
        }
        -(qm as i64)
    }
}

proof fn lemma_neg_div_scale(a: int, m: int, qm: int)
    requires
        a < 0,
        m == -a,
        qm == (m + (SCALE - 1)) / SCALE as int,
    ensures
        -qm == a / SCALE as int,
{
    let s = SCALE as int;
    lemma_fundamental_div_mod(a, s);
    let q = a / s;
    let r = a % s;
    assert(a == s * q + r);
    assert(0 <= r < s);
    // a = -m, so m + (s - 1) = s * (-q) + (s - 1 - r), with 0 <= s - 1 - r < s.
    assert(m + (s - 1) == s * (-q) + (s - 1 - r));
    lemma_div_mod_unique(m + (s - 1), s, -q, s - 1 - r);
}

/// The exponent of the largest power of two that is at most `n`.
pub open spec fn log2_floor(n: nat) -> nat
    decreases n,
{
    if n < 2 {
        0
    } else {
        1 + log2_floor(n / 2)
    }
}

/// Fixed-point base-2 logarithm of a fixed-point value `len` (so the real
/// value is `len / SCALE`): the integer part is exact, the fractional part
/// is interpolated linearly between neighbouring powers of two, and the
/// result is exact whenever `len` is a power of two.
pub open spec fn flog2_spec(len: nat) -> int {
    let e = log2_floor(len);
    (e as int - 16) * SCALE as int + ((len as int - pow2(e) as int) * SCALE as int) / (
    pow2(e) as int)
}

/// 2 to the power `e`, as a run-time value.
pub fn pow2_exec(e: u32) -> (r: u64)
    requires
        e <= 63,
    ensures
        r == pow2(e as nat),
{
    proof {
        lemma2_to64();
    }
    let mut i: u32 = 0;
    let mut p: u64 = 1;
    while i < e
        invariant
            i <= e <= 63,
            p == pow2(i as nat),
        decreases e - i,
    {
        proof {
            lemma_pow2_unfold((i + 1) as nat);
            lemma_pow2_strictly_increases(i as nat, 63);
            lemma2_to64();
            lemma2_to64_rest();
        }
        p = p * 2;
        i = i + 1;
    }
    p
}

/// Fixed-point base-2 logarithm, matching `flog2_spec`.
pub fn flog2_q16(len: u64) -> (r: i64)
    requires
        1 <= len <= 0x1_0000_0000u64,
    ensures
        r == flog2_spec(len as nat),
        -1048576 <= r <= 1114112,
{
    proof {
        lemma2_to64();
    }
    let mut e: u32 = 0;
    let mut p: u64 = 1;
    let mut m: u64 = len;
    while m >= 2
        invariant
            1 <= m,
            1 <= p,
            e <= 33,
            p == pow2(e as nat),
            p * m <= len,
            len < p * (m + 1),
            log2_floor(len as nat) == e + log2_floor(m as nat),
            len <= 0x1_0000_0000u64,
            p <= len,
        decreases m,
    {
        proof {
            if e > 32 {
                lemma_pow2_strictly_increases(32, e as nat);
                lemma2_to64();
            }
            lemma_pow2_unfold((e + 1) as nat);
            assert(log2_floor(m as nat) == 1 + log2_floor((m / 2) as nat));
            assert(p * 2 * (m / 2) <= p * m) by (nonlinear_arith)
                requires
                    2 * (m / 2) <= m,
                    p >= 0,
            ;
            assert(p * (m + 1) <= p * 2 * (m / 2 + 1)) by (nonlinear_arith)
                requires
                    m + 1 <= 2 * (m / 2) + 2,
                    p >= 0,
            ;
            assert(p * 2 <= p * m) by (nonlinear_arith)
                requires
                    m >= 2,
                    p >= 1,
            ;
        }
        m = m / 2;
        e = e + 1;
        p = p * 2;
    }
    proof {
        lemma_pow2_pos(e as nat);
        if e > 32 {
            lemma_pow2_strictly_increases(32, e as nat);
            lemma2_to64();
        }
        assert(len < p * 2) by {
            assert(p * (1 + 1) == p * 2) by (nonlinear_arith);
        }
    }
    let diff: u64 = len - p;
    let fnum: u64 = diff * SCALE;
    let frac: u64 = fnum / p;
    proof {
        assert(diff * SCALE < p * SCALE) by (nonlinear_arith)
            requires
                diff < p,
                SCALE > 0,
        ;
        lemma_multiply_divide_lt(fnum as int, p as int, SCALE as int);
    }
    (e as i64 - 16) * 65536 + frac as i64
}

/// The quotient and remainder of division with a nonnegative remainder
/// below the divisor are unique.
pub proof fn lemma_div_mod_unique(x: int, d: int, q: int, r: int)
    requires
        d > 0,
        0 <= r < d,
        x == d * q + r,
    ensures
        q == x / d,
        r == x % d,
{
    lemma_fundamental_div_mod(x, d);
    let q2 = x / d;
    let r2 = x % d;
    assert(d * (q - q2) == r2 - r) by (nonlinear_arith)
        requires
            d * q + r == d * q2 + r2,
    ;
    if q > q2 {
        assert(d * (q - q2) >= d) by (nonlinear_arith)
            requires
                d > 0,
                q - q2 >= 1,
        ;
    }
    if q < q2 {
        assert(d * (q - q2) <= -d) by (nonlinear_arith)
            requires
                d > 0,
                q - q2 <= -1,
        ;
    }
}

} // verus!
