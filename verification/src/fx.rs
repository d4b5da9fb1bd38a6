//! Scalar 16.16 fixed-point arithmetic: truncating division, rescaled
//! products, and an exact integer square root.

use vstd::prelude::*;
use vstd::arithmetic::div_mod::{
    lemma_div_is_ordered, lemma_div_multiples_vanish, lemma_div_of0, lemma_div_pos_is_pos,
    lemma_fundamental_div_mod, lemma_remainder_lower, lemma_remainder_upper,
};
use vstd::arithmetic::mul::lemma_mul_is_commutative;

verus! {

/// One whole unit: fixed-point values carry 16 fractional bits.
pub const SCALE: i64 = 65536;

/// Half a unit.
pub const HALF: i64 = 32768;

/// Division rounded toward zero (the way Rust's `/` rounds), defined for a
/// positive divisor.
pub open spec fn tdiv(a: int, b: int) -> int {
    if a >= 0 {
        a / b
    } else {
        -((-a) / b)
    }
}

/// The product of two fixed-point values, brought back to scale and rounded
/// toward zero.
pub open spec fn fxm(a: int, b: int) -> int {
    tdiv(a * b, SCALE as int)
}

/// The integer square root: the greatest `r` with `r * r <= n`.
pub open spec fn isqrt(n: nat) -> nat
    decreases n,
{
    if n == 0 {
        0
    } else {
        let r = isqrt((n - 1) as nat);
        if (r + 1) * (r + 1) <= n {
            r + 1
        } else {
            r
        }
    }
}

pub proof fn lemma_isqrt_bounds(n: nat)
    ensures
        isqrt(n) * isqrt(n) <= n,
        n < (isqrt(n) + 1) * (isqrt(n) + 1),
    decreases n,
{
    if n == 0 {
        assert(n < (isqrt(n) + 1) * (isqrt(n) + 1)) by (nonlinear_arith)
            requires
                n == 0,
                isqrt(n) == 0,
        ;
    } else {
        let r = isqrt((n - 1) as nat);
        lemma_isqrt_bounds((n - 1) as nat);
        assert(isqrt(n) == if (r + 1) * (r + 1) <= n {
            r + 1
        } else {
            r
        });
        if (r + 1) * (r + 1) <= n {
            assert(isqrt(n) == r + 1);
            assert(n < (isqrt(n) + 1) * (isqrt(n) + 1)) by (nonlinear_arith)
                requires
                    (n - 1) < (r + 1) * (r + 1),
                    isqrt(n) == r + 1,
            ;
        } else {
            assert(isqrt(n) == r);
        }
    }
}

pub proof fn lemma_isqrt_unique(n: nat, r: nat)
    requires
        r * r <= n,
        n < (r + 1) * (r + 1),
    ensures
        isqrt(n) == r,
{
    let s = isqrt(n);
    lemma_isqrt_bounds(n);
    if s < r {
        assert((s + 1) * (s + 1) <= r * r) by (nonlinear_arith)
            requires
                s + 1 <= r,
        ;
    }
    if r < s {
        assert((r + 1) * (r + 1) <= s * s) by (nonlinear_arith)
            requires
                r + 1 <= s,
        ;
    }
}

pub proof fn lemma_isqrt_mono(a: nat, b: nat)
    requires
        a <= b,
    ensures
        isqrt(a) <= isqrt(b),
{
    lemma_isqrt_bounds(a);
    lemma_isqrt_bounds(b);
    if isqrt(b) < isqrt(a) {
        assert((isqrt(b) + 1) * (isqrt(b) + 1) <= isqrt(a) * isqrt(a)) by (nonlinear_arith)
            requires
                isqrt(b) + 1 <= isqrt(a),
        ;
    }
}

pub proof fn lemma_isqrt_square(k: nat)
    ensures
        isqrt(k * k) == k,
{
    assert(k * k < (k + 1) * (k + 1)) by (nonlinear_arith);
    lemma_isqrt_unique(k * k, k);
}

/// A value whose square is below `(n + 1)^2` is itself at most `n`.
pub proof fn lemma_abs_le_of_sq(a: int, n: int)
    requires
        0 <= n,
        a * a < (n + 1) * (n + 1),
    ensures
        -n <= a <= n,
{
    assert(-n <= a <= n) by (nonlinear_arith)
        requires
            0 <= n,
            a * a < (n + 1) * (n + 1),
    ;
}

pub proof fn lemma_tdiv_zero(b: int)
    requires
        b > 0,
    ensures
        tdiv(0, b) == 0,
{
    lemma_div_of0(b);
}

pub proof fn lemma_tdiv_neg(a: int, b: int)
    requires
        b > 0,
    ensures
        tdiv(-a, b) == -tdiv(a, b),
{
    if a == 0 {
        lemma_div_of0(b);
    }
}

/// Rounding toward zero never enlarges a bound given on the dividend.
pub proof fn lemma_tdiv_le(a: int, b: int, m: int)
    requires
        b > 0,
        0 <= m,
        -(m * b) <= a <= m * b,
    ensures
        -m <= tdiv(a, b) <= m,
{
    lemma_mul_is_commutative(m, b);
    lemma_div_multiples_vanish(m, b);
    if a >= 0 {
        lemma_div_pos_is_pos(a, b);
        lemma_div_is_ordered(a, m * b, b);
    } else {
        lemma_div_pos_is_pos(-a, b);
        lemma_div_is_ordered(-a, m * b, b);
    }
}

/// Dividing an exact multiple is exact.
pub proof fn lemma_tdiv_exact(q: int, b: int)
    requires
        b > 0,
    ensures
        tdiv(q * b, b) == q,
{
    lemma_mul_is_commutative(q, b);
    if q >= 0 {
        assert(q * b >= 0) by (nonlinear_arith)
            requires
                q >= 0,
                b > 0,
        ;
        lemma_div_multiples_vanish(q, b);
    } else {
        assert(q * b < 0) by (nonlinear_arith)
            requires
                q < 0,
                b > 0,
        ;
        assert(-(q * b) == (-q) * b) by (nonlinear_arith);
        lemma_mul_is_commutative(-q, b);
        lemma_div_multiples_vanish(-q, b);
    }
}

/// What truncation leaves behind: `a - b * tdiv(a, b)` has the sign of `a`
/// and magnitude below `b`.
pub proof fn lemma_tdiv_rem(a: int, b: int)
    requires
        b > 0,
    ensures
        a >= 0 ==> 0 <= a - b * tdiv(a, b) <= b - 1,
        a <= 0 ==> -(b - 1) <= a - b * tdiv(a, b) <= 0,
{
    if a >= 0 {
        lemma_fundamental_div_mod(a, b);
        lemma_remainder_lower(a, b);
        lemma_remainder_upper(a, b);
    } else {
        lemma_fundamental_div_mod(-a, b);
        lemma_remainder_lower(-a, b);
        lemma_remainder_upper(-a, b);
        assert(b * -((-a) / b) == -(b * ((-a) / b))) by (nonlinear_arith);
    }
}

/// The quotient is no larger in magnitude than the dividend.
pub proof fn lemma_tdiv_shrinks(a: int, b: int)
    requires
        b > 0,
    ensures
        a >= 0 ==> 0 <= tdiv(a, b) <= a,
        a <= 0 ==> a <= tdiv(a, b) <= 0,
{
    if a >= 0 {
        assert(a <= a * b) by (nonlinear_arith)
            requires
                b >= 1,
                a >= 0,
        ;
        assert(-(a * b) <= a) by (nonlinear_arith)
            requires
                b >= 1,
                a >= 0,
        ;
        lemma_tdiv_le(a, b, a);
    } else {
        assert(a <= (-a) * b && -((-a) * b) <= a) by (nonlinear_arith)
            requires
                b >= 1,
                a < 0,
        ;
        lemma_tdiv_le(a, b, -a);
    }
}

/// Truncated division by a positive divisor, rounded as Rust's `/` rounds.
pub fn div_fx(a: i64, b: i64) -> (r: i64)
    requires
        b > 0,
        a > i64::MIN,
    ensures
        r as int == tdiv(a as int, b as int),
{
    proof {
        lemma_tdiv_shrinks(a as int, b as int);
    }
    if a >= 0 {
        ((a as u64) / (b as u64)) as i64
    } else {
        let q: u64 = ((-a) as u64) / (b as u64);
        -(q as i64)
    }
}

/// Bring a wide intermediate product back to scale, rounding toward zero;
/// the caller shows that the result fits.
pub fn rescale_by_scale(p: i128) -> (r: i64)
    requires
        p > i128::MIN,
        -0x4000_0000_0000_0000 <= tdiv(p as int, SCALE as int) <= 0x4000_0000_0000_0000,
    ensures
        r as int == tdiv(p as int, SCALE as int),
{
    proof {
        lemma_tdiv_shrinks(p as int, SCALE as int);
    }
    if p >= 0 {
        ((p as u128) / 65536) as i64
    } else {
        let q: u128 = ((-p) as u128) / 65536;
        -(q as i64)
    }
}

/// The rescaled fixed-point product `fxm(a, b)`; the caller shows that the
/// result fits.
pub fn mul_fx(a: i64, b: i64) -> (r: i64)
    requires
        -0x4000_0000_0000_0000 <= fxm(a as int, b as int) <= 0x4000_0000_0000_0000,
    ensures
        r as int == fxm(a as int, b as int),
{
    proof {
        assert(-0x4000_0000_0000_0000_0000_0000_0000_0000
            <= (a as int) * (b as int)
            <= 0x4000_0000_0000_0000_0000_0000_0000_0000) by (nonlinear_arith)
            requires
                -0x8000_0000_0000_0000 <= a as int <= 0x7fff_ffff_ffff_ffff,
                -0x8000_0000_0000_0000 <= b as int <= 0x7fff_ffff_ffff_ffff,
        ;
    }
    let p: i128 = (a as i128) * (b as i128);
    rescale_by_scale(p)
}

/// The integer square root of a 128-bit value, by bisection.
pub fn isqrt_u128(n: u128) -> (r: u64)
    requires
        n < 0x4000_0000_0000_0000_0000_0000_0000_0000u128,
    ensures
        r as nat == isqrt(n as nat),
{
    let mut lo: u64 = 0;
    let mut hi: u64 = 0x8000_0000_0000_0000;
    assert(0x8000_0000_0000_0000int * 0x8000_0000_0000_0000int
        == 0x4000_0000_0000_0000_0000_0000_0000_0000int);
    while hi - lo > 1
        invariant
            lo < hi,
            hi <= 0x8000_0000_0000_0000u64,
            (lo as int) * (lo as int) <= n as int,
            (n as int) < (hi as int) * (hi as int),
        decreases hi - lo,
    {
        let mid: u64 = lo + (hi - lo) / 2;
        assert((mid as int) * (mid as int) < 0x4000_0000_0000_0000_0000_0000_0000_0000int)
            by (nonlinear_arith)
            requires
                0 <= mid as int,
                (mid as int) < 0x8000_0000_0000_0000int,
        ;
        if (mid as u128) * (mid as u128) <= n {
            lo = mid;
        } else {
            hi = mid;
        }
    }
    proof {
        lemma_isqrt_unique(n as nat, lo as nat);
    }
    lo
}

} // verus!
