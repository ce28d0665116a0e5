use vstd::prelude::*;

use crate::fixed::isqrt;
use crate::fixed::tdiv;
use crate::SCALE;

verus! {

/// A point, direction or colour: three fixed-point components, each counting
/// units of `1 / SCALE`.
#[derive(Clone, Copy, Debug, PartialEq, Eq, Structural)]
pub struct Vec3 {
    pub x: i64,
    pub y: i64,
    pub z: i64,
}

/// All three components have magnitude at most `b`.
pub open spec fn abs_bounded(v: Vec3, b: int) -> bool {
    &&& -b <= v.x <= b
    &&& -b <= v.y <= b
    &&& -b <= v.z <= b
}

/// The component of `v` along axis 0, 1 or 2.
pub open spec fn vaxis(v: Vec3, axis: int) -> int {
    if axis == 0 {
        v.x as int
    } else if axis == 1 {
        v.y as int
    } else {
        v.z as int
    }
}

/// Mathematical dot product of the raw components (no rescaling).
pub open spec fn dot3(a: Vec3, b: Vec3) -> int {
    a.x * b.x + a.y * b.y + a.z * b.z
}

/// `r` is the floor of the square root of `n`.
pub open spec fn is_isqrt(n: int, r: int) -> bool {
    r >= 0 && r * r <= n < (r + 1) * (r + 1)
}

/// The floor of the square root of a non-negative integer.
pub open spec fn sqrt_floor(n: int) -> int {
    choose|r: int| is_isqrt(n, r)
}

pub proof fn lemma_isqrt_unique(n: int, a: int, b: int)
    by (nonlinear_arith)
    requires
        is_isqrt(n, a),
        is_isqrt(n, b),
    ensures
        a == b,
{
}

pub proof fn lemma_square_nonneg(a: int)
    by (nonlinear_arith)
    ensures
        a * a >= 0,
{
}

pub proof fn lemma_dot_self_nonneg(a: Vec3)
    by (nonlinear_arith)
    ensures
        dot3(a, a) >= 0,
{
}

impl Vec3 {
    pub fn new(x: i64, y: i64, z: i64) -> (r: Vec3)
        ensures
            r == (Vec3 { x, y, z }),
    {
        Vec3 { x, y, z }
    }

    pub fn splat(c: i64) -> (r: Vec3)
        ensures
            r == (Vec3 { x: c, y: c, z: c }),
    {
        Vec3 { x: c, y: c, z: c }
    }

    pub fn x(&self) -> (r: i64)
        ensures
            r == self.x,
    {
        self.x
    }

    pub fn y(&self) -> (r: i64)
        ensures
            r == self.y,
    {
        self.y
    }

    pub fn z(&self) -> (r: i64)
        ensures
            r == self.z,
    {
        self.z
    }

    pub fn r(&self) -> (r: i64)
        ensures
            r == self.x,
    {
        self.x
    }

    pub fn g(&self) -> (r: i64)
        ensures
            r == self.y,
    {
        self.y
    }

    pub fn b(&self) -> (r: i64)
        ensures
            r == self.z,
    {
        self.z
    }

    /// Component along axis 0, 1 or 2.
    pub fn get(&self, axis: usize) -> (r: i64)
        requires
            axis < 3,
        ensures
            axis == 0 ==> r == self.x,
            axis == 1 ==> r == self.y,
            axis == 2 ==> r == self.z,
    {
        if axis == 0 {
            self.x
        } else if axis == 1 {
            self.y
        } else {
            self.z
        }
    }

    pub fn add(self, o: Vec3) -> (r: Vec3)
        requires
            abs_bounded(self, 0x3FFF_FFFF_FFFF_FFFF),
            abs_bounded(o, 0x3FFF_FFFF_FFFF_FFFF),
        ensures
            r.x == self.x + o.x,
            r.y == self.y + o.y,
            r.z == self.z + o.z,
    {
        Vec3 { x: self.x + o.x, y: self.y + o.y, z: self.z + o.z }
    }

    pub fn sub(self, o: Vec3) -> (r: Vec3)
        requires
            abs_bounded(self, 0x3FFF_FFFF_FFFF_FFFF),
            abs_bounded(o, 0x3FFF_FFFF_FFFF_FFFF),
        ensures
            r.x == self.x - o.x,
            r.y == self.y - o.y,
            r.z == self.z - o.z,
    {
        Vec3 { x: self.x - o.x, y: self.y - o.y, z: self.z - o.z }
    }

    pub fn neg(self) -> (r: Vec3)
        requires
            abs_bounded(self, 0x7FFF_FFFF_FFFF_FFFF),
        ensures
            r.x == -self.x,
            r.y == -self.y,
            r.z == -self.z,
    {
        Vec3 { x: -self.x, y: -self.y, z: -self.z }
    }

    /// Multiply every component by the plain integer `k`.
    pub fn scale(self, k: i64) -> (r: Vec3)
        requires
            abs_bounded(self, 0x4000_0000),
            -0x4000_0000 <= k <= 0x4000_0000,
        ensures
            r.x == self.x * k,
            r.y == self.y * k,
            r.z == self.z * k,
    {
        proof {
            assert(-0x4000_0000_0000_0000 <= self.x * k <= 0x4000_0000_0000_0000)
                by (nonlinear_arith)
                requires
                    -0x4000_0000 <= self.x <= 0x4000_0000,
                    -0x4000_0000 <= k <= 0x4000_0000,
            ;
            assert(-0x4000_0000_0000_0000 <= self.y * k <= 0x4000_0000_0000_0000)
                by (nonlinear_arith)
                requires
                    -0x4000_0000 <= self.y <= 0x4000_0000,
                    -0x4000_0000 <= k <= 0x4000_0000,
            ;
            assert(-0x4000_0000_0000_0000 <= self.z * k <= 0x4000_0000_0000_0000)
                by (nonlinear_arith)
                requires
                    -0x4000_0000 <= self.z <= 0x4000_0000,
                    -0x4000_0000 <= k <= 0x4000_0000,
            ;
        }
        Vec3 { x: self.x * k, y: self.y * k, z: self.z * k }
    }

    /// Multiply by a fixed-point scalar `k` (units of `1 / SCALE`), rounding
    /// each component toward zero.
    pub fn scale_fp(self, k: i64) -> (r: Vec3)
        requires
            abs_bounded(self, 0x80_0000_0000),
            -0x80_0000_0000 <= k <= 0x80_0000_0000,
        ensures
            r.x == tdiv(self.x * k, SCALE as int),
            r.y == tdiv(self.y * k, SCALE as int),
            r.z == tdiv(self.z * k, SCALE as int),
    {
        Vec3 {
            x: crate::fixed::mul_fp(self.x, k),
            y: crate::fixed::mul_fp(self.y, k),
            z: crate::fixed::mul_fp(self.z, k),
        }
    }

    /// Componentwise fixed-point product, rounding toward zero.
    pub fn mul_vec_fp(self, o: Vec3) -> (r: Vec3)
        requires
            abs_bounded(self, 0x80_0000_0000),
            abs_bounded(o, 0x80_0000_0000),
        ensures
            r.x == tdiv(self.x * o.x, SCALE as int),
            r.y == tdiv(self.y * o.y, SCALE as int),
            r.z == tdiv(self.z * o.z, SCALE as int),
    {
        Vec3 {
            x: crate::fixed::mul_fp(self.x, o.x),
            y: crate::fixed::mul_fp(self.y, o.y),
            z: crate::fixed::mul_fp(self.z, o.z),
        }
    }

    /// Raw dot product; the result keeps the product scale of its inputs.
    pub fn dot(&self, o: &Vec3) -> (r: i64)
        requires
            abs_bounded(*self, 0x4000_0000),
            abs_bounded(*o, 0x4000_0000),
        ensures
            r == dot3(*self, *o),
    {
        proof {
            lemma_dot_bound(*self, *o, 0x4000_0000, 0x4000_0000);
            assert(-0x1000_0000_0000_0000 <= self.x * o.x <= 0x1000_0000_0000_0000)
                by (nonlinear_arith)
                requires
                    -0x4000_0000 <= self.x <= 0x4000_0000,
                    -0x4000_0000 <= o.x <= 0x4000_0000,
            ;
            assert(-0x1000_0000_0000_0000 <= self.y * o.y <= 0x1000_0000_0000_0000)
                by (nonlinear_arith)
                requires
                    -0x4000_0000 <= self.y <= 0x4000_0000,
                    -0x4000_0000 <= o.y <= 0x4000_0000,
            ;
            assert(-0x1000_0000_0000_0000 <= self.z * o.z <= 0x1000_0000_0000_0000)
                by (nonlinear_arith)
                requires
                    -0x4000_0000 <= self.z <= 0x4000_0000,
                    -0x4000_0000 <= o.z <= 0x4000_0000,
            ;
        }
        (((self.x as i128) * (o.x as i128) + (self.y as i128) * (o.y as i128) + (self.z as i128)
            * (o.z as i128)) as i64)
    }

    pub fn sq_len(&self) -> (r: i64)
        requires
            abs_bounded(*self, 0x4000_0000),
        ensures
            r == dot3(*self, *self),
            r >= 0,
    {
        proof {
            lemma_dot_self_nonneg(*self);
        }
        self.dot(self)
    }

    /// Fixed-point length: the floor of the square root of the raw squared
    /// length. For a vector whose components are fixed-point, the result is
    /// again fixed-point.
    pub fn length(&self) -> (r: i64)
        requires
            abs_bounded(*self, 0x4000_0000),
        ensures
            r == sqrt_floor(dot3(*self, *self)),
            is_isqrt(dot3(*self, *self), r as int),
    {
        let s = self.sq_len();
        let r = isqrt(s as u128);
        proof {
            assert(r < 0x1_0000_0000) by (nonlinear_arith)
                requires
                    r * r <= s as int,
                    s <= i64::MAX,
            ;
            assert(is_isqrt(s as int, r as int));
            let w = choose|w: int| is_isqrt(dot3(*self, *self), w);
            lemma_isqrt_unique(s as int, r as int, w);
        }
        r as i64
    }

    /// Scale the vector so that its fixed-point length is (close to) one,
    /// rounding each component toward zero.
    pub fn unit_vector(self) -> (r: Vec3)
        requires
            abs_bounded(self, 0x4000_0000),
            dot3(self, self) > 0,
        ensures
            r.x == tdiv(self.x * SCALE, sqrt_floor(dot3(self, self))),
            r.y == tdiv(self.y * SCALE, sqrt_floor(dot3(self, self))),
            r.z == tdiv(self.z * SCALE, sqrt_floor(dot3(self, self))),
            abs_bounded(r, SCALE as int),
    {
        let len = self.length();
        proof {
            assert(len > 0) by (nonlinear_arith)
                requires
                    is_isqrt(dot3(self, self), len as int),
                    dot3(self, self) > 0,
            ;
            lemma_square_nonneg(self.x as int);
            lemma_square_nonneg(self.y as int);
            lemma_square_nonneg(self.z as int);
            lemma_unit_component(self.x as int, dot3(self, self), len as int);
            lemma_unit_component(self.y as int, dot3(self, self), len as int);
            lemma_unit_component(self.z as int, dot3(self, self), len as int);
            crate::fixed::lemma_tdiv_bounds(self.x * SCALE, len as int);
            crate::fixed::lemma_tdiv_bounds(self.y * SCALE, len as int);
            crate::fixed::lemma_tdiv_bounds(self.z * SCALE, len as int);
        }
        let xs = (self.x as i128) * (SCALE as i128);
        let ys = (self.y as i128) * (SCALE as i128);
        let zs = (self.z as i128) * (SCALE as i128);
        Vec3 {
            x: crate::fixed::div_trunc(xs, len as i128) as i64,
            y: crate::fixed::div_trunc(ys, len as i128) as i64,
            z: crate::fixed::div_trunc(zs, len as i128) as i64,
        }
    }

    /// Componentwise minimum.
    pub fn min(a: Vec3, b: Vec3) -> (r: Vec3)
        ensures
            r.x == if a.x <= b.x { a.x } else { b.x },
            r.y == if a.y <= b.y { a.y } else { b.y },
            r.z == if a.z <= b.z { a.z } else { b.z },
    {
        Vec3 {
            x: if a.x <= b.x { a.x } else { b.x },
            y: if a.y <= b.y { a.y } else { b.y },
            z: if a.z <= b.z { a.z } else { b.z },
        }
    }

    /// Componentwise maximum.
    pub fn max(a: Vec3, b: Vec3) -> (r: Vec3)
        ensures
            r.x == if a.x >= b.x { a.x } else { b.x },
            r.y == if a.y >= b.y { a.y } else { b.y },
            r.z == if a.z >= b.z { a.z } else { b.z },
    {
        Vec3 {
            x: if a.x >= b.x { a.x } else { b.x },
            y: if a.y >= b.y { a.y } else { b.y },
            z: if a.z >= b.z { a.z } else { b.z },
        }
    }
}

/// The component of a unit vector along an axis, as the length-normalised
/// fixed-point quotient.
pub open spec fn unit_axis(v: Vec3, axis: int) -> int {
    tdiv(vaxis(v, axis) * SCALE, sqrt_floor(dot3(v, v)))
}

/// Componentwise products of a bounded vector with a bounded scalar, and
/// their fixed-point quotients, stay within the product of the bounds.
pub proof fn lemma_scaled_bound(v: Vec3, k: int, bv: int, bk: int)
    requires
        abs_bounded(v, bv),
        -bk <= k <= bk,
        bv >= 0,
        bk >= 0,
    ensures
        -bv * bk <= v.x * k <= bv * bk,
        -bv * bk <= v.y * k <= bv * bk,
        -bv * bk <= v.z * k <= bv * bk,
        -bv * bk <= tdiv(v.x * k, SCALE as int) <= bv * bk,
        -bv * bk <= tdiv(v.y * k, SCALE as int) <= bv * bk,
        -bv * bk <= tdiv(v.z * k, SCALE as int) <= bv * bk,
{
    crate::fixed::lemma_tdiv_prod_bound(v.x as int, k, bv, bk);
    crate::fixed::lemma_tdiv_prod_bound(v.y as int, k, bv, bk);
    crate::fixed::lemma_tdiv_prod_bound(v.z as int, k, bv, bk);
}

/// Every non-negative integer has a floor square root.
pub proof fn lemma_isqrt_exists(n: int)
    requires
        n >= 0,
    ensures
        is_isqrt(n, sqrt_floor(n)),
    decreases n,
{
    if n == 0 {
        assert(is_isqrt(0, 0)) by (nonlinear_arith);
    } else {
        lemma_isqrt_exists(n - 1);
        let r = sqrt_floor(n - 1);
        if (r + 1) * (r + 1) <= n {
            assert(is_isqrt(n, r + 1)) by (nonlinear_arith)
                requires
                    is_isqrt(n - 1, r),
                    (r + 1) * (r + 1) <= n,
            ;
        } else {
            assert(is_isqrt(n, r)) by (nonlinear_arith)
                requires
                    is_isqrt(n - 1, r),
                    (r + 1) * (r + 1) > n,
            ;
        }
    }
    let w = choose|w: int| is_isqrt(n, w);
    assert(is_isqrt(n, w));
}

/// `sqrt_floor` agrees with any witness of `is_isqrt`.
pub proof fn lemma_sqrt_floor_of(n: int, r: int)
    requires
        is_isqrt(n, r),
    ensures
        sqrt_floor(n) == r,
{
    assert(exists|w: int| is_isqrt(n, w)) by {
        assert(is_isqrt(n, r));
    }
    let w = choose|w: int| is_isqrt(n, w);
    lemma_isqrt_unique(n, r, w);
}

/// A component of a vector, scaled by `SCALE` and divided by the vector's
/// length, has magnitude at most `SCALE`.
proof fn lemma_unit_component(x: int, sq: int, len: int)
    requires
        len > 0,
        is_isqrt(sq, len),
        x * x <= sq,
    ensures
        -SCALE <= tdiv(x * SCALE, len) <= SCALE,
{
    assert(-len <= x <= len) by (nonlinear_arith)
        requires
            len >= 0,
            x * x <= sq,
            sq < (len + 1) * (len + 1),
    ;
    crate::fixed::lemma_tdiv_bounds(x * SCALE, len);
    let q = tdiv(x * SCALE, len);
    if x >= 0 {
        assert(x * SCALE >= 0) by (nonlinear_arith)
            requires
                x >= 0,
        ;
        assert(q <= SCALE) by (nonlinear_arith)
            requires
                len * q <= x * SCALE,
                x <= len,
                len > 0,
        ;
    } else {
        assert(x * SCALE < 0) by (nonlinear_arith)
            requires
                x < 0,
        ;
        assert(q >= -SCALE) by (nonlinear_arith)
            requires
                x * SCALE <= len * q,
                -len <= x,
                len > 0,
        ;
    }
}

pub proof fn lemma_dot_bound(a: Vec3, b: Vec3, ba: int, bb: int)
    by (nonlinear_arith)
    requires
        ba >= 0,
        bb >= 0,
        abs_bounded(a, ba),
        abs_bounded(b, bb),
    ensures
        -3 * ba * bb <= dot3(a, b) <= 3 * ba * bb,
{
}

} // verus!
