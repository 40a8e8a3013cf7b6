//! Integer arithmetic on the fixed-point grid: rounding division, clamping
//! and the integer square root.

use vstd::prelude::*;

verus! {

/// `a / d` rounded to the nearest integer, halves rounded up.
pub open spec fn round_div_spec(a: int, d: int) -> int
    recommends
        d > 0,
{
    (2 * a + d) / (2 * d)
}

/// `v` limited to the interval `[-lim, lim]`.
pub open spec fn clamp_spec(v: int, lim: int) -> int {
    if v > lim {
        lim
    } else if v < -lim {
        -lim
    } else {
        v
    }
}

/// The largest integer whose square is at most `n`.
pub open spec fn sqrt_spec(n: int) -> int
    decreases n,
{
    if n <= 0 {
        0
    } else {
        let r = sqrt_spec(n - 1);
        if (r + 1) * (r + 1) <= n {
            r + 1
        } else {
            r
        }
    }
}

/// `a / d` rounded to the nearest integer, halves rounded up.
pub fn round_div(a: i128, d: i128) -> (r: i128)
    requires
        0 < d <= 0x1000_0000_0000_0000_0000_0000_0000_0000,
        -0x1000_0000_0000_0000_0000_0000_0000_0000 <= a <= 0x1000_0000_0000_0000_0000_0000_0000_0000,
    ensures
        r == round_div_spec(a as int, d as int),
{
    let n: i128 = 2 * a + d;
    let m: i128 = 2 * d;
    if n >= 0 {
        n / m
    } else {
        let q: i128 = (-n) / m;
        let rem: i128 = (-n) % m;
        proof {
            vstd::arithmetic::div_mod::lemma_fundamental_div_mod(-n as int, m as int);
            assert(-n == m * q + rem);
            assert(n == (-q) * m - rem) by (nonlinear_arith)
                requires
                    -n == m * q + rem;
            if rem == 0 {
                vstd::arithmetic::div_mod::lemma_fundamental_div_mod_converse(n as int, m as int, -q as int, 0);
            } else {
                assert(n == (-q - 1) * m + (m - rem)) by (nonlinear_arith)
                    requires
                        n == (-q) * m - rem;
                vstd::arithmetic::div_mod::lemma_fundamental_div_mod_converse(n as int, m as int, (-q - 1) as int, (m - rem) as int);
            }
        }
        if rem == 0 {
            -q
        } else {
            -q - 1
        }
    }
}

/// `a / d` rounded to the nearest integer, halves rounded away from zero, so
/// that negating `a` negates the result.
pub open spec fn round_div_sym_spec(a: int, d: int) -> int
    recommends
        d > 0,
{
    if a >= 0 {
        round_div_spec(a, d)
    } else {
        -round_div_spec(-a, d)
    }
}

/// `a / d` rounded to the nearest integer, halves rounded away from zero.
pub fn round_div_sym(a: i128, d: i128) -> (r: i128)
    requires
        0 < d <= 0x1000_0000_0000_0000_0000_0000_0000_0000,
        -0x1000_0000_0000_0000_0000_0000_0000_0000 <= a <= 0x1000_0000_0000_0000_0000_0000_0000_0000,
    ensures
        r == round_div_sym_spec(a as int, d as int),
{
    if a >= 0 {
        round_div(a, d)
    } else {
        proof {
            lemma_round_div_nonneg(-a as int, d as int);
        }
        -round_div(-a, d)
    }
}

/// Rounding a non-negative quotient gives at most the dividend.
pub proof fn lemma_round_div_nonneg(a: int, d: int)
    requires
        d > 0,
        a >= 0,
    ensures
        0 <= round_div_spec(a, d) <= a,
{
    let n = 2 * a + d;
    let m = 2 * d;
    vstd::arithmetic::div_mod::lemma_fundamental_div_mod(n, m);
    vstd::arithmetic::div_mod::lemma_div_pos_is_pos(n, m);
    let q = n / m;
    assert(q <= a) by (nonlinear_arith)
        requires m * q <= n, n == 2 * a + d, m == 2 * d, d >= 1, a >= 0, q >= 0;
}

/// Symmetric rounding commutes with negation.
pub proof fn lemma_round_div_sym_neg(a: int, d: int)
    requires
        d > 0,
    ensures
        round_div_sym_spec(-a, d) == -round_div_sym_spec(a, d),
{
    if a == 0 {
        lemma_round_div_nonneg(0, d);
    }
}

/// Clamping to a symmetric interval commutes with negation.
pub proof fn lemma_clamp_neg(v: int, lim: int)
    requires
        0 <= lim,
    ensures
        clamp_spec(-v, lim) == -clamp_spec(v, lim),
{
}

/// Bounds on the factors bound the product.
pub proof fn lemma_mul_bound(a: int, b: int, x: int, y: int)
    requires
        -x <= a <= x,
        -y <= b <= y,
    ensures
        -(x * y) <= a * b <= x * y,
{
    assert(-(x * y) <= a * b <= x * y) by (nonlinear_arith)
        requires -x <= a <= x, -y <= b <= y;
}

/// The rounded quotient lies within half a unit of the exact one.
pub proof fn lemma_round_div_close(a: int, d: int)
    requires
        d > 0,
    ensures
        -d < 2 * (round_div_spec(a, d) * d - a) <= d,
{
    let n = 2 * a + d;
    let m = 2 * d;
    let q = n / m;
    vstd::arithmetic::div_mod::lemma_fundamental_div_mod(n, m);
    let r = n % m;
    assert(n == m * q + r && 0 <= r < m);
    assert(-d < 2 * (q * d - a) <= d) by (nonlinear_arith)
        requires n == m * q + r, 0 <= r < m, n == 2 * a + d, m == 2 * d;
}

/// `v` limited to `[-lim, lim]`, as an `i64`.
pub fn clamp(v: i128, lim: i64) -> (r: i64)
    requires
        0 <= lim,
    ensures
        r == clamp_spec(v as int, lim as int),
{
    if v > lim as i128 {
        lim
    } else if v < -(lim as i128) {
        -lim
    } else {
        v as i64
    }
}

/// The square root criterion picks out exactly one integer.
pub proof fn lemma_sqrt_unique(n: int, s: int)
    requires
        0 <= s,
        s * s <= n < (s + 1) * (s + 1),
    ensures
        sqrt_spec(n) == s,
    decreases n,
{
    if n > 0 {
        let r = sqrt_spec(n - 1);
        if s * s <= n - 1 {
            lemma_sqrt_unique(n - 1, s);
            assert(!((s + 1) * (s + 1) <= n));
        } else {
            assert(s * s == n);
            if s == 0 {
            } else {
                assert((s - 1) * (s - 1) <= n - 1) by (nonlinear_arith)
                    requires
                        s * s == n,
                        s >= 1;
                assert(n - 1 < s * s);
                lemma_sqrt_unique(n - 1, s - 1);
            }
        }
    } else {
        assert(s * s <= 0);
        assert(s == 0) by (nonlinear_arith)
            requires
                s * s <= 0,
                0 <= s;
    }
}

/// The integer square root of `n`.
pub fn isqrt(n: u128) -> (r: u128)
    requires
        n < 0x1_0000_0000_0000_0000_0000_0000,
    ensures
        r == sqrt_spec(n as int),
        r * r <= n < (r + 1) * (r + 1),
{
    let mut lo: u128 = 0;
    let mut hi: u128 = 0x1_0000_0000_0000;
    assert(hi * hi == 0x1_0000_0000_0000_0000_0000_0000);
    while hi - lo > 1
        invariant
            lo < hi <= 0x1_0000_0000_0000,
            lo * lo <= n,
            n < hi * hi,
        decreases hi - lo,
    {
        let mid: u128 = lo + (hi - lo) / 2;
        assert(mid * mid <= 0x1_0000_0000_0000_0000_0000_0000) by (nonlinear_arith)
            requires
                mid <= 0x1_0000_0000_0000;
        if mid * mid <= n {
            lo = mid;
        } else {
            hi = mid;
        }
    }
    proof {
        lemma_sqrt_unique(n as int, lo as int);
    }
    lo
}

} // verus!
