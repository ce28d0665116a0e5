use vstd::prelude::*;

verus! {

/// Truncating (round-toward-zero) division, the rounding every fixed-point
/// operation in this crate uses.
pub open spec fn tdiv(n: int, d: int) -> int
    recommends
        d > 0,
{
    if n >= 0 {
        n / d
    } else {
        -((-n) / d)
    }
}

proof fn lemma_floor_div_bounds(m: int, d: int)
    requires
        m >= 0,
        d > 0,
    ensures
        0 <= m / d <= m,
        m - d < d * (m / d) <= m,
{
    vstd::arithmetic::div_mod::lemma_fundamental_div_mod(m, d);
    vstd::arithmetic::div_mod::lemma_mod_division_less_than_divisor(m, d);
    let q = m / d;
    assert(d * q == m - m % d);
    assert(q >= 0) by (nonlinear_arith)
        requires
            d > 0,
            d * q > -d,
    ;
    assert(q <= d * q) by (nonlinear_arith)
        requires
            d >= 1,
            q >= 0,
    ;
}

pub proof fn lemma_tdiv_bounds(n: int, d: int)
    requires
        d > 0,
    ensures
        n >= 0 ==> 0 <= tdiv(n, d) <= n,
        n >= 0 ==> n - d < d * tdiv(n, d) <= n,
        n < 0 ==> n <= tdiv(n, d) <= 0,
        n < 0 ==> n <= d * tdiv(n, d) < n + d,
{
    if n >= 0 {
        lemma_floor_div_bounds(n, d);
    } else {
        let m = -n;
        lemma_floor_div_bounds(m, d);
        let q = m / d;
        assert(d * (-q) == -(d * q)) by (nonlinear_arith);
    }
}

/// Truncating division on wide integers; the helper every fixed-point
/// quotient in the crate goes through.
pub fn div_trunc(n: i128, d: i128) -> (r: i128)
    requires
        d > 0,
        n > i128::MIN,
    ensures
        r == tdiv(n as int, d as int),
{
    proof {
        lemma_tdiv_bounds(n as int, d as int);
    }
    if n >= 0 {
        ((n as u128) / (d as u128)) as i128
    } else {
        let m = -n;
        -(((m as u128) / (d as u128)) as i128)
    }
}

/// A bound on the numerator gives the same bound, shrunk by the divisor,
/// on the truncated quotient.
pub proof fn lemma_tdiv_abs_le(n: int, d: int, b: int)
    requires
        d > 0,
        b >= 0,
        -b * d <= n <= b * d,
    ensures
        -b <= tdiv(n, d) <= b,
{
    lemma_tdiv_bounds(n, d);
    let q = tdiv(n, d);
    if n >= 0 {
        assert(q <= b) by (nonlinear_arith)
            requires
                d > 0,
                d * q <= n,
                n <= b * d,
        ;
    } else {
        assert(q >= -b) by (nonlinear_arith)
            requires
                d > 0,
                n <= d * q,
                -b * d <= n,
        ;
    }
}

/// Truncating division is monotone in the numerator.
pub proof fn lemma_tdiv_monotone(a: int, b: int, d: int)
    requires
        a <= b,
        d > 0,
    ensures
        tdiv(a, d) <= tdiv(b, d),
{
    if a >= 0 {
        vstd::arithmetic::div_mod::lemma_div_is_ordered(a, b, d);
    } else if b < 0 {
        vstd::arithmetic::div_mod::lemma_div_is_ordered(-b, -a, d);
    } else {
        lemma_tdiv_bounds(a, d);
        lemma_tdiv_bounds(b, d);
    }
}

/// Dividing an exact multiple of the divisor recovers the factor.
pub proof fn lemma_tdiv_exact(k: int, d: int)
    requires
        d > 0,
    ensures
        tdiv(k * d, d) == k,
{
    if k >= 0 {
        assert(k * d >= 0) by (nonlinear_arith)
            requires
                k >= 0,
                d > 0,
        ;
        vstd::arithmetic::div_mod::lemma_div_multiples_vanish(k, d);
        assert(d * k == k * d) by (nonlinear_arith);
    } else {
        assert(k * d < 0) by (nonlinear_arith)
            requires
                k < 0,
                d > 0,
        ;
        vstd::arithmetic::div_mod::lemma_div_multiples_vanish(-k, d);
        assert(d * (-k) == -(k * d)) by (nonlinear_arith);
    }
}

/// Truncating division of non-negative values is superadditive: the
/// floors of two parts never exceed the floor of their sum.
pub proof fn lemma_tdiv_superadd(a: int, b: int, d: int)
    requires
        a >= 0,
        b >= 0,
        d > 0,
    ensures
        tdiv(a, d) + tdiv(b, d) <= tdiv(a + b, d),
{
    lemma_tdiv_bounds(a, d);
    lemma_tdiv_bounds(b, d);
    lemma_tdiv_bounds(a + b, d);
    let q1 = tdiv(a, d);
    let q2 = tdiv(b, d);
    let q = tdiv(a + b, d);
    assert(d * (q1 + q2) <= a + b) by (nonlinear_arith)
        requires
            d * q1 <= a,
            d * q2 <= b,
    ;
    assert(q1 + q2 <= q) by (nonlinear_arith)
        requires
            d > 0,
            d * (q1 + q2) <= a + b,
            a + b < d * q + d,
            q1 + q2 >= 0,
            q >= 0,
    ;
}

/// The product of two bounded values, and its fixed-point quotient, stay
/// within the product of the bounds.
pub proof fn lemma_tdiv_prod_bound(a: int, b: int, ba: int, bb: int)
    requires
        -ba <= a <= ba,
        -bb <= b <= bb,
        ba >= 0,
        bb >= 0,
    ensures
        -ba * bb <= a * b <= ba * bb,
        -ba * bb <= tdiv(a * b, crate::SCALE as int) <= ba * bb,
{
    lemma_tdiv_bounds(a * b, crate::SCALE as int);
    let q = tdiv(a * b, crate::SCALE as int);
    assert(-ba * bb <= a * b <= ba * bb && -ba * bb <= q <= ba * bb) by (nonlinear_arith)
        requires
            -ba <= a <= ba,
            -bb <= b <= bb,
            ba >= 0,
            bb >= 0,
            a * b >= 0 ==> 0 <= q <= a * b,
            a * b < 0 ==> a * b <= q <= 0,
    ;
}

/// Like `lemma_tdiv_prod_bound`, but with the quotient bound given
/// directly: if the product of the bounds is below `b3 * SCALE`, the
/// fixed-point product is bounded by `b3`.
pub proof fn lemma_mul_fp_le(a: int, b: int, ba: int, bb: int, b3: int)
    requires
        -ba <= a <= ba,
        -bb <= b <= bb,
        ba >= 0,
        bb >= 0,
        b3 >= 0,
        ba * bb <= b3 * crate::SCALE,
    ensures
        -b3 <= tdiv(a * b, crate::SCALE as int) <= b3,
{
    assert(-b3 * crate::SCALE <= a * b <= b3 * crate::SCALE) by (nonlinear_arith)
        requires
            -ba <= a <= ba,
            -bb <= b <= bb,
            ba >= 0,
            bb >= 0,
            ba * bb <= b3 * crate::SCALE,
    ;
    lemma_tdiv_abs_le(a * b, crate::SCALE as int, b3);
}

/// Fixed-point product: multiply two values in units of `1 / SCALE` and
/// bring the result back to the same units, rounding toward zero.
pub fn mul_fp(a: i64, b: i64) -> (r: i64)
    requires
        -0x80_0000_0000 <= a <= 0x80_0000_0000,
        -0x80_0000_0000 <= b <= 0x80_0000_0000,
    ensures
        r == tdiv(a * b, crate::SCALE as int),
{
    proof {
        assert(-0x4000_0000_0000_0000_0000 <= a * b <= 0x4000_0000_0000_0000_0000)
            by (nonlinear_arith)
            requires
                -0x80_0000_0000 <= a <= 0x80_0000_0000,
                -0x80_0000_0000 <= b <= 0x80_0000_0000,
        ;
        lemma_tdiv_bounds(a * b, crate::SCALE as int);
    }
    let p = (a as i128) * (b as i128);
    div_trunc(p, crate::SCALE as i128) as i64
}

/// Flooring (round-toward-negative) division by a positive divisor; used
/// where a value is sorted into equal-width cells, so that the cell
/// pattern continues unbroken across zero.
pub fn div_floor(n: i64, d: i64) -> (r: i64)
    requires
        d > 0,
        n > i64::MIN,
    ensures
        r == (n as int) / (d as int),
{
    if n >= 0 {
        (((n as u64) / (d as u64)) as i64)
    } else {
        let m = (-n) as u64;
        let q = m / (d as u64);
        let s = m % (d as u64);
        proof {
            vstd::arithmetic::div_mod::lemma_fundamental_div_mod(m as int, d as int);
            vstd::arithmetic::div_mod::lemma_mod_division_less_than_divisor(m as int, d as int);
            vstd::arithmetic::div_mod::lemma_div_pos_is_pos(m as int, d as int);
            if s == 0 {
                assert((-(q as int)) * d + 0 == n) by (nonlinear_arith)
                    requires
                        m as int == (d as int) * (q as int) + (s as int),
                        s == 0,
                        n == -(m as int),
                ;
                vstd::arithmetic::div_mod::lemma_fundamental_div_mod_converse_div(
                    n as int,
                    d as int,
                    -(q as int),
                    0,
                );
            } else {
                assert((-(q as int) - 1) * d + (d - s as int) == n) by (nonlinear_arith)
                    requires
                        m as int == (d as int) * (q as int) + (s as int),
                        n == -(m as int),
                ;
                vstd::arithmetic::div_mod::lemma_fundamental_div_mod_converse_div(
                    n as int,
                    d as int,
                    -(q as int) - 1,
                    d - s as int,
                );
            }
        }
        if s == 0 {
            -(q as i64)
        } else {
            -(q as i64) - 1
        }
    }
}

/// The Euclidean remainder of `n` modulo a positive divisor: always in
/// `[0, d)`.
pub fn mod_euclid(n: i64, d: i64) -> (r: i64)
    requires
        d > 0,
        n > i64::MIN + d,
        n < i64::MAX - d,
    ensures
        r == (n as int) % (d as int),
        0 <= r < d,
{
    proof {
        vstd::arithmetic::div_mod::lemma_mod_division_less_than_divisor(n as int, d as int);
        lemma_mul_div_self_bound(n as int, d as int);
    }
    let q = div_floor(n, d);
    n - q * d
}

/// The floor multiple `(n / d) * d` brackets `n` from below.
pub proof fn lemma_mul_div_self_bound(n: int, d: int)
    requires
        d > 0,
    ensures
        (n / d) * d == n - n % d,
        n - d < (n / d) * d <= n,
{
    vstd::arithmetic::div_mod::lemma_fundamental_div_mod(n, d);
    vstd::arithmetic::div_mod::lemma_mod_division_less_than_divisor(n, d);
    assert((n / d) * d == n - n % d) by (nonlinear_arith)
        requires
            n == d * (n / d) + n % d,
    ;
}

/// A bound on the dividend bounds the floor quotient.
pub proof fn lemma_div_floor_range(n: int, d: int, b: int)
    requires
        d > 0,
        b >= 0,
        -b <= n <= b,
    ensures
        -b - 1 <= n / d <= b,
{
    lemma_mul_div_self_bound(n, d);
    let q = n / d;
    assert(q <= b) by (nonlinear_arith)
        requires
            d >= 1,
            q * d <= n,
            n <= b,
            b >= 0,
    ;
    assert(q >= -b - 1) by (nonlinear_arith)
        requires
            d >= 1,
            n - d < q * d,
            -b <= n,
            b >= 0,
    ;
}

/// Integer square root: the largest `r` with `r * r <= n`.
pub fn isqrt(n: u128) -> (r: u128)
    ensures
        r * r <= n,
        (r + 1) * (r + 1) > n,
        r < 0x1_0000_0000_0000_0000,
{
    let mut lo: u128 = 0;
    let mut hi: u128 = 0x1_0000_0000_0000_0000;
    proof {
        assert(hi * hi > n) by (nonlinear_arith)
            requires
                hi == 0x1_0000_0000_0000_0000u128,
                n <= u128::MAX,
        ;
    }
    while lo + 1 < hi
        invariant
            lo < hi,
            hi <= 0x1_0000_0000_0000_0000,
            lo * lo <= n,
            hi * hi > n,
        decreases hi - lo,
    {
        let mid = lo + (hi - lo) / 2;
        proof {
            assert(mid * mid <= u128::MAX) by (nonlinear_arith)
                requires
                    mid < 0x1_0000_0000_0000_0000u128,
            ;
        }
        if mid * mid <= n {
            lo = mid;
        } else {
            hi = mid;
        }
    }
    lo
}

} // verus!
