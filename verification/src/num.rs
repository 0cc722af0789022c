use vstd::prelude::*;

verus! {

use vstd::arithmetic::div_mod::{
    lemma_div_is_ordered,
    lemma_div_multiples_vanish,
    lemma_div_pos_is_pos,
    lemma_multiply_divide_le,
};

/// One whole unit of the fixed-point representation: an `i64` value `v`
/// stands for the real number `v / SCALE`, so `SCALE` itself is `1.0`.
pub const SCALE: i64 = 1_000_000;

/// Truncating (toward zero) division by a positive divisor.
pub open spec fn tdiv(n: int, d: int) -> int
    recommends
        d > 0,
{
    if n >= 0 {
        n / d
    } else {
        -((-n) / d)
    }
}

/// Truncating (toward zero) division for a possibly negative divisor.
pub open spec fn tdiv_gen(n: int, d: int) -> int
    recommends
        d != 0,
{
    if d > 0 {
        tdiv(n, d)
    } else {
        -tdiv(n, -d)
    }
}

/// The product of a value `v` and a fraction `f` (scaled by `SCALE`),
/// truncated toward zero.
pub open spec fn frac_mul_spec(v: int, f: int) -> int {
    tdiv(v * f, SCALE as int)
}

/// `x` clamped into the range of `i64`.
pub open spec fn clamp64_spec(x: int) -> int {
    if x > i64::MAX as int {
        i64::MAX as int
    } else if x < i64::MIN as int {
        i64::MIN as int
    } else {
        x
    }
}

/// The convex combination of `q` and `t` with weight `a` on `t`
/// (weights scaled by `SCALE`), truncated toward zero.
pub open spec fn convex_spec(q: int, t: int, a: int) -> int {
    tdiv((SCALE - a) * q + a * t, SCALE as int)
}

/// Truncating division keeps a quotient between any bounds whose
/// `d`-multiples bracket the dividend.
pub proof fn lemma_tdiv_between(n: int, d: int, lo: int, hi: int)
    requires
        d >= 1,
        d * lo <= n,
        n <= d * hi,
    ensures
        lo <= tdiv(n, d) <= hi,
{
    if n >= 0 {
        lemma_div_pos_is_pos(n, d);
        assert(n / d <= hi) by {
            assert(n <= d * hi);
            lemma_multiply_divide_le(n, d, hi);
        }
        if lo > 0 {
            assert(d * lo >= 0) by (nonlinear_arith)
                requires
                    d >= 1,
                    lo > 0,
            ;
            lemma_div_is_ordered(d * lo, n, d);
            lemma_div_multiples_vanish(lo, d);
        }
    } else {
        let m = -n;
        lemma_div_pos_is_pos(m, d);
        assert(m <= d * (-lo)) by {
            assert(d * (-lo) == -(d * lo)) by (nonlinear_arith);
        }
        assert(m / d <= -lo) by {
            lemma_multiply_divide_le(m, d, -lo);
        }
        if hi < 0 {
            assert(d * (-hi) <= m) by {
                assert(d * (-hi) == -(d * hi)) by (nonlinear_arith);
            }
            assert(d * (-hi) >= 0) by (nonlinear_arith)
                requires
                    d >= 1,
                    hi < 0,
            ;
            lemma_div_is_ordered(d * (-hi), m, d);
            lemma_div_multiples_vanish(-hi, d);
        }
    }
}

/// A truncated product with a fraction in `[0, SCALE]` never grows in magnitude.
pub proof fn lemma_frac_mul_bounded(v: int, f: int)
    requires
        0 <= f <= SCALE,
    ensures
        v >= 0 ==> 0 <= frac_mul_spec(v, f) <= v,
        v < 0 ==> v <= frac_mul_spec(v, f) <= 0,
{
    if v >= 0 {
        assert(SCALE as int * 0 <= v * f && v * f <= SCALE as int * v) by (nonlinear_arith)
            requires
                v >= 0,
                0 <= f <= SCALE,
        ;
        lemma_tdiv_between(v * f, SCALE as int, 0, v);
    } else {
        assert(SCALE as int * v <= v * f && v * f <= SCALE as int * 0) by (nonlinear_arith)
            requires
                v < 0,
                0 <= f <= SCALE,
        ;
        lemma_tdiv_between(v * f, SCALE as int, v, 0);
    }
}

/// The truncated convex combination of `q` and `t` stays in the closed
/// interval spanned by `q` and `t`.
pub proof fn lemma_convex_between(q: int, t: int, a: int)
    requires
        0 <= a <= SCALE,
    ensures
        q <= t ==> q <= convex_spec(q, t, a) <= t,
        t <= q ==> t <= convex_spec(q, t, a) <= q,
{
    let s = SCALE as int;
    let n = (s - a) * q + a * t;
    if q <= t {
        assert(s * q <= n && n <= s * t) by (nonlinear_arith)
            requires
                0 <= a <= s,
                q <= t,
                n == (s - a) * q + a * t,
        ;
        lemma_tdiv_between(n, s, q, t);
    } else {
        assert(s * t <= n && n <= s * q) by (nonlinear_arith)
            requires
                0 <= a <= s,
                t <= q,
                n == (s - a) * q + a * t,
        ;
        lemma_tdiv_between(n, s, t, q);
    }
}

/// Truncating division of an `i128` by a positive divisor.
pub fn tdiv128(n: i128, d: u64) -> (r: i128)
    requires
        d >= 1,
        n > i128::MIN,
    ensures
        r == tdiv(n as int, d as int),
{
    if n >= 0 {
        let q = (n as u128) / (d as u128);
        assert(q <= n as u128) by {
            lemma_div_pos_is_pos(n as int, d as int);
            assert(n as int <= d as int * n as int) by (nonlinear_arith)
                requires
                    n >= 0,
                    d >= 1,
            ;
            lemma_multiply_divide_le(n as int, d as int, n as int);
        }
        q as i128
    } else {
        let m = (-n) as u128;
        let q = m / (d as u128);
        assert(q <= m) by {
            lemma_div_pos_is_pos(m as int, d as int);
            assert(m as int <= d as int * m as int) by (nonlinear_arith)
                requires
                    m >= 1,
                    d >= 1,
            ;
            lemma_multiply_divide_le(m as int, d as int, m as int);
        }
        -(q as i128)
    }
}

/// The magnitude of a truncating quotient never exceeds the dividend's.
pub proof fn lemma_tdiv_gen_abs(n: int, d: int)
    requires
        d != 0,
    ensures
        n >= 0 ==> -n <= tdiv_gen(n, d) <= n,
        n < 0 ==> n <= tdiv_gen(n, d) <= -n,
{
    let m = if d > 0 {
        d
    } else {
        -d
    };
    if n >= 0 {
        assert(m * 0 <= n && n <= m * n) by (nonlinear_arith)
            requires
                m >= 1,
                n >= 0,
        ;
        lemma_tdiv_between(n, m, 0, n);
    } else {
        assert(m * n <= n && n <= m * 0) by (nonlinear_arith)
            requires
                m >= 1,
                n < 0,
        ;
        lemma_tdiv_between(n, m, n, 0);
    }
}

/// Truncating division of an `i128` by a nonzero `i128`.
pub fn tdiv128_gen(n: i128, d: i128) -> (r: i128)
    requires
        d != 0,
        n > i128::MIN,
        d > i128::MIN,
    ensures
        r == tdiv_gen(n as int, d as int),
{
    if d > 0 {
        if d <= u64::MAX as i128 {
            tdiv128(n, d as u64)
        } else {
            tdiv_u128(n, d as u128)
        }
    } else {
        let q = tdiv_u128(n, (-d) as u128);
        proof {
            lemma_tdiv_gen_abs(n as int, (-d) as int);
        }
        -q
    }
}

/// Truncating division of an `i128` by a positive `u128` divisor.
fn tdiv_u128(n: i128, d: u128) -> (r: i128)
    requires
        d >= 1,
        n > i128::MIN,
    ensures
        r == tdiv(n as int, d as int),
{
    if n >= 0 {
        let q = (n as u128) / d;
        assert(q <= n as u128) by {
            lemma_div_pos_is_pos(n as int, d as int);
            assert(n as int <= d as int * n as int) by (nonlinear_arith)
                requires
                    n >= 0,
                    d >= 1,
            ;
            lemma_multiply_divide_le(n as int, d as int, n as int);
        }
        q as i128
    } else {
        let m = (-n) as u128;
        let q = m / d;
        assert(q <= m) by {
            lemma_div_pos_is_pos(m as int, d as int);
            assert(m as int <= d as int * m as int) by (nonlinear_arith)
                requires
                    m >= 1,
                    d >= 1,
            ;
            lemma_multiply_divide_le(m as int, d as int, m as int);
        }
        -(q as i128)
    }
}

/// The product of a value and a fraction in `[0, SCALE]`, truncated toward zero.
pub fn frac_mul(v: i64, f: i64) -> (r: i64)
    requires
        0 <= f <= SCALE,
    ensures
        r == frac_mul_spec(v as int, f as int),
        v >= 0 ==> 0 <= r <= v,
        v < 0 ==> v <= r <= 0,
{
    proof {
        assert((v as int) * (f as int) <= 0x7fff_ffff_ffff_ffff * 1_000_000 && (v as int) * (
        f as int) >= -0x8000_0000_0000_0000 * 1_000_000) by (nonlinear_arith)
            requires
                -0x8000_0000_0000_0000 <= v as int <= 0x7fff_ffff_ffff_ffff,
                0 <= f as int <= 1_000_000,
        ;
    }
    let p: i128 = (v as i128) * (f as i128);
    proof {
        lemma_frac_mul_bounded(v as int, f as int);
    }
    let q = tdiv128(p, SCALE as u64);
    q as i64
}

/// The convex combination `((SCALE - a) * q + a * t) / SCALE`, truncated
/// toward zero; the result always lies between `q` and `t`.
pub fn convex(q: i64, t: i64, a: i64) -> (r: i64)
    requires
        0 <= a <= SCALE,
    ensures
        r == convex_spec(q as int, t as int, a as int),
        q <= t ==> q <= r <= t,
        t <= q ==> t <= r <= q,
{
    proof {
        assert(((1_000_000 - a as int) * (q as int) <= 0x7fff_ffff_ffff_ffff * 1_000_000) && ((
        1_000_000 - a as int) * (q as int) >= -0x8000_0000_0000_0000 * 1_000_000) && ((a as int) * (
        t as int) <= 0x7fff_ffff_ffff_ffff * 1_000_000) && ((a as int) * (t as int)
            >= -0x8000_0000_0000_0000 * 1_000_000)) by (nonlinear_arith)
            requires
                0 <= a as int <= 1_000_000,
                -0x8000_0000_0000_0000 <= q as int <= 0x7fff_ffff_ffff_ffff,
                -0x8000_0000_0000_0000 <= t as int <= 0x7fff_ffff_ffff_ffff,
        ;
    }
    let n: i128 = ((SCALE - a) as i128) * (q as i128) + (a as i128) * (t as i128);
    proof {
        lemma_convex_between(q as int, t as int, a as int);
    }
    let r = tdiv128(n, SCALE as u64);
    r as i64
}

/// Saturating addition on `i64`.
pub fn add_sat(x: i64, y: i64) -> (r: i64)
    ensures
        r == clamp64_spec(x as int + y as int),
{
    let s: i128 = (x as i128) + (y as i128);
    if s > i64::MAX as i128 {
        i64::MAX
    } else if s < i64::MIN as i128 {
        i64::MIN
    } else {
        s as i64
    }
}

} // verus!
