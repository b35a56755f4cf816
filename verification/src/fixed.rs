//! Scalar fixed-point arithmetic: multiplication and division in units of
//! `1 / FX_ONE`, and integer square roots.  Contracts state the exact
//! integer each operation returns, using truncating (round-toward-zero)
//! division `tdiv`.

use vstd::prelude::*;

use crate::FX_ONE;

verus! {

/// The circle constant in 16-bit fixed point.
pub const PI_FX: i64 = 205887;

/// Quotient of `p` by `d`, rounded toward zero (the rounding of the
/// machine division); `d` is expected to be positive.
pub open spec fn tdiv(p: int, d: int) -> int {
    if p >= 0 {
        p / d
    } else {
        -((-p) / d)
    }
}

/// Product of two fixed-point scalars: `a * b / FX_ONE`, rounded toward zero.
pub fn fx_mul(a: i64, b: i64) -> (r: i64)
    requires
        i64::MIN <= tdiv(a * b, FX_ONE as int) <= i64::MAX,
    ensures
        r == tdiv(a * b, FX_ONE as int),
{
    let p: i128 = (a as i128) * (b as i128);
    let neg = p < 0;
    let m: i128 = if neg {
        -p
    } else {
        p
    };
    let q: i128 = m / (FX_ONE as i128);
    let s: i128 = if neg {
        -q
    } else {
        q
    };
    s as i64
}

/// Quotient of two fixed-point scalars: `a * FX_ONE / b`, rounded toward zero.
pub fn fx_div(a: i64, b: i64) -> (r: i64)
    requires
        b > 0,
        i64::MIN <= tdiv(a * FX_ONE, b as int) <= i64::MAX,
    ensures
        r == tdiv(a * FX_ONE, b as int),
{
    let p: i128 = (a as i128) * (FX_ONE as i128);
    let neg = p < 0;
    let m: i128 = if neg {
        -p
    } else {
        p
    };
    let q: i128 = m / (b as i128);
    let s: i128 = if neg {
        -q
    } else {
        q
    };
    s as i64
}

/// Integer square root: the greatest `r` with `r * r <= x`.
pub fn isqrt_u64(x: u64) -> (r: u64)
    ensures
        r * r <= x < (r + 1) * (r + 1),
        r < 0x1_0000_0000u64,
{
    let mut lo: u64 = 0;
    let mut hi: u64 = 0x1_0000_0000;
    while lo + 1 < hi
        invariant
            lo < hi <= 0x1_0000_0000u64,
            lo * lo <= x,
            x < hi * hi,
        decreases hi - lo,
    {
        let mid: u64 = lo + (hi - lo) / 2;
        assert(mid * mid < 0x1_0000_0000_0000_0000) by (nonlinear_arith)
            requires
                mid < 0x1_0000_0000u64,
        ;
        if mid * mid <= x {
            lo = mid;
        } else {
            hi = mid;
        }
    }
    lo
}

/// Square root of a non-negative fixed-point scalar: the greatest `r` with
/// `r * r <= x * FX_ONE`, which makes `r` the fixed-point root of `x`.
pub fn fx_sqrt(x: i64) -> (r: i64)
    requires
        0 <= x < 0x1_0000_0000_0000,
    ensures
        0 <= r,
        r * r <= x * FX_ONE < (r + 1) * (r + 1),
{
    proof {
        assert(0 <= (x as int) * 65536 < 0x1_0000_0000_0000_0000) by (nonlinear_arith)
            requires
                0 <= x < 0x1_0000_0000_0000,
        ;
        assert((x as int) * 65536 == x * FX_ONE);
    }
    let y: u64 = (x as u64) * 65536;
    let s = isqrt_u64(y);
    s as i64
}

} // verus!
