use vstd::prelude::*;

use crate::aabb::box_wf;
use crate::aabb::Aabb;
use crate::fixed::div_trunc;
use crate::fixed::tdiv;
use crate::hitable::HitRecord;
use crate::material::material_wf;
use crate::material::Material;
use crate::ray::ray_at_axis;
use crate::ray::ray_ok;
use crate::ray::Ray;
use crate::vec3::vaxis;
use crate::vec3::Vec3;
use crate::COORD_LIMIT;
use crate::SCALE;
use crate::T_LIMIT;

verus! {

/// An axis-aligned rectangle in the plane `z == k`, spanning
/// `[x0, x1] x [y0, y1]`.
pub struct XyRectangle {
    pub x0: i64,
    pub x1: i64,
    pub y0: i64,
    pub y1: i64,
    pub k: i64,
    pub material: Material,
}

pub open spec fn rect_wf(r: XyRectangle) -> bool {
    &&& -COORD_LIMIT <= r.x0 < r.x1 <= COORD_LIMIT
    &&& -COORD_LIMIT <= r.y0 < r.y1 <= COORD_LIMIT
    &&& -COORD_LIMIT <= r.k <= COORD_LIMIT
    &&& material_wf(r.material)
}

/// The fixed-point ray parameter at which the ray crosses the plane
/// `z == k` (the direction's `z` component must not be zero).
pub open spec fn rect_t(k: int, r: Ray) -> int {
    if r.b.z > 0 {
        tdiv((k - r.a.z) * SCALE, r.b.z as int)
    } else {
        tdiv((r.a.z - k) * SCALE, -(r.b.z as int))
    }
}

/// The exact (unrounded) plane crossing lies inside the rectangle span on
/// one axis: the cross-multiplied comparison with a positive denominator.
pub open spec fn rect_span_ok(lo: int, hi: int, o: int, d: int, num: int, den: int) -> bool {
    lo * den <= o * den + d * num <= hi * den
}

/// The normalised crossing fraction: numerator over `den`, where `den` is
/// the absolute `z` direction component and `num` the signed distance to
/// the plane.
pub open spec fn rect_num_den(k: int, r: Ray) -> (int, int) {
    if r.b.z > 0 {
        (k - r.a.z, r.b.z as int)
    } else {
        (r.a.z - k, -(r.b.z as int))
    }
}

/// A texture coordinate clamped into the unit interval.
pub open spec fn clamp01(v: int) -> int {
    if v < 0 {
        0
    } else if v > SCALE {
        SCALE as int
    } else {
        v
    }
}

/// Where a ray meets the rectangle strictly inside `(t_min, t_max)`:
/// the plane crossing, accepted when the exact crossing point lies inside
/// the rectangle's span on both axes.
pub open spec fn spec_rect_hit_t(rect: XyRectangle, r: Ray, t_min: int, t_max: int) -> Option<int> {
    if r.b.z == 0 {
        None
    } else {
        let t = rect_t(rect.k as int, r);
        let nd = rect_num_den(rect.k as int, r);
        if t_min < t < t_max && rect_span_ok(
            rect.x0 as int,
            rect.x1 as int,
            r.a.x as int,
            r.b.x as int,
            nd.0,
            nd.1,
        ) && rect_span_ok(rect.y0 as int, rect.y1 as int, r.a.y as int, r.b.y as int, nd.0, nd.1) {
            Some(t)
        } else {
            None
        }
    }
}

impl XyRectangle {
    pub fn new(x0: i64, x1: i64, y0: i64, y1: i64, k: i64, material: Material) -> (r: XyRectangle)
        ensures
            r.x0 == x0,
            r.x1 == x1,
            r.y0 == y0,
            r.y1 == y1,
            r.k == k,
            r.material == material,
    {
        XyRectangle { x0, x1, y0, y1, k, material }
    }

    /// The intersection with the plane, accepted when it falls inside the
    /// rectangle and strictly inside `(t_min, t_max)`.
    pub fn hit(&self, ray: &Ray, t_min: i64, t_max: i64) -> (r: Option<HitRecord>)
        requires
            rect_wf(*self),
            ray_ok(*ray),
            -T_LIMIT <= t_min <= T_LIMIT,
            -T_LIMIT <= t_max <= T_LIMIT,
        ensures
            (r is Some) <==> (spec_rect_hit_t(*self, *ray, t_min as int, t_max as int) is Some),
            r is Some ==> Some(r->0.t as int) == spec_rect_hit_t(
                *self,
                *ray,
                t_min as int,
                t_max as int,
            ),
            r is Some ==> t_min < r->0.t < t_max,
            r is Some ==> r->0.p.x == ray_at_axis(*ray, r->0.t as int, 0) && r->0.p.y
                == ray_at_axis(*ray, r->0.t as int, 1) && r->0.p.z == ray_at_axis(
                *ray,
                r->0.t as int,
                2,
            ),
            r is Some ==> *(r->0.material) == self.material,
            r is Some ==> crate::hitable::hit_record_wf(r->0),
            r is Some ==> r->0.front_face == (ray.b.z < 0),
            r is Some ==> r->0.normal == (if ray.b.z < 0 {
                Vec3 { x: 0, y: 0, z: SCALE }
            } else {
                Vec3 { x: 0, y: 0, z: (-SCALE) as i64 }
            }),
            r is Some ==> r->0.u == clamp01(
                tdiv((r->0.p.x - self.x0) * SCALE, (self.x1 - self.x0) as int),
            ) && r->0.v == clamp01(tdiv((r->0.p.y - self.y0) * SCALE, (self.y1 - self.y0) as int)),
    {
        let dz = ray.direction().z();
        if dz == 0 {
            return None;
        }
        let num: i64;
        let den: i64;
        if dz > 0 {
            num = self.k - ray.origin().z();
            den = dz;
        } else {
            num = ray.origin().z() - self.k;
            den = -dz;
        }
        proof {
            lemma_rect_products(num as int, den as int);
        }
        let t_wide = div_trunc((num as i128) * (SCALE as i128), den as i128);
        if !((t_min as i128) < t_wide && t_wide < (t_max as i128)) {
            return None;
        }
        let t = t_wide as i64;
        proof {
            lemma_small_products(ray.a.x as int, den as int);
            lemma_small_products(ray.b.x as int, num as int);
            lemma_small_products(ray.a.y as int, den as int);
            lemma_small_products(ray.b.y as int, num as int);
            lemma_small_products(self.x0 as int, den as int);
            lemma_small_products(self.x1 as int, den as int);
            lemma_small_products(self.y0 as int, den as int);
            lemma_small_products(self.y1 as int, den as int);
        }
        // Cross-multiplied span tests on the exact crossing point.
        let px_num = (ray.origin().x() as i128) * (den as i128) + (ray.direction().x() as i128)
            * (num as i128);
        let py_num = (ray.origin().y() as i128) * (den as i128) + (ray.direction().y() as i128)
            * (num as i128);
        if !((self.x0 as i128) * (den as i128) <= px_num && px_num <= (self.x1 as i128) * (den
            as i128)) {
            return None;
        }
        if !((self.y0 as i128) * (den as i128) <= py_num && py_num <= (self.y1 as i128) * (den
            as i128)) {
            return None;
        }
        proof {
            crate::ray::lemma_ray_step_bounds(ray.b.x as int, t as int);
            crate::ray::lemma_ray_step_bounds(ray.b.y as int, t as int);
            crate::ray::lemma_ray_step_bounds(ray.b.z as int, t as int);
        }
        let p = ray.point_at_parameter(t);
        proof {
            lemma_uv_products((p.x as int) - (self.x0 as int), (self.x1 as int) - (self.x0 as int));
            lemma_uv_products((p.y as int) - (self.y0 as int), (self.y1 as int) - (self.y0 as int));
        }
        let uq = div_trunc(
            (((p.x as i128) - (self.x0 as i128)) * (SCALE as i128)),
            (self.x1 - self.x0) as i128,
        );
        let vq = div_trunc(
            (((p.y as i128) - (self.y0 as i128)) * (SCALE as i128)),
            (self.y1 - self.y0) as i128,
        );
        let u = if uq < 0 {
            0
        } else if uq > SCALE as i128 {
            SCALE
        } else {
            uq as i64
        };
        let v = if vq < 0 {
            0
        } else if vq > SCALE as i128 {
            SCALE
        } else {
            vq as i64
        };
        let front_face = ray.direction().z() < 0;
        let normal = if front_face {
            Vec3 { x: 0, y: 0, z: SCALE }
        } else {
            Vec3 { x: 0, y: 0, z: -SCALE }
        };
        proof {
            crate::material::lemma_nonzero_vec(normal);
        }
        Some(HitRecord { t, p, normal, u, v, front_face, material: &self.material })
    }

    /// The rectangle's bounding box, padded by one fixed-point unit on
    /// every side so that the plane and rounded crossings lie strictly
    /// inside.
    pub fn bounding_box(&self, t0: i64, t1: i64) -> (r: Option<Aabb>)
        requires
            rect_wf(*self),
        ensures
            r is Some,
            r->0 == spec_rect_box(*self),
            box_wf(r->0),
    {
        Some(
            Aabb {
                min: Vec3 { x: self.x0 - 1, y: self.y0 - 1, z: self.k - 1 },
                max: Vec3 { x: self.x1 + 1, y: self.y1 + 1, z: self.k + 1 },
            },
        )
    }
}

/// The padded box around a rectangle.
pub open spec fn spec_rect_box(rect: XyRectangle) -> Aabb {
    Aabb {
        min: Vec3 {
            x: (rect.x0 - 1) as i64,
            y: (rect.y0 - 1) as i64,
            z: (rect.k - 1) as i64,
        },
        max: Vec3 {
            x: (rect.x1 + 1) as i64,
            y: (rect.y1 + 1) as i64,
            z: (rect.k + 1) as i64,
        },
    }
}

/// A rectangle hit inside the window means the ray passes the
/// rectangle's padded box inside the window.
pub proof fn lemma_rect_hit_in_box(rect: XyRectangle, r: Ray, t_min: int, t_max: int)
    requires
        -COORD_LIMIT <= rect.x0 < rect.x1 <= COORD_LIMIT,
        -COORD_LIMIT <= rect.y0 < rect.y1 <= COORD_LIMIT,
        -COORD_LIMIT <= rect.k <= COORD_LIMIT,
        spec_rect_hit_t(rect, r, t_min, t_max) is Some,
    ensures
        crate::aabb::hits_between(spec_rect_box(rect), r, t_min, t_max),
{
    let dz = r.b.z as int;
    let nd = rect_num_den(rect.k as int, r);
    let num = nd.0;
    let den = nd.1;
    crate::sphere::lemma_root_window(num, den, t_min, t_max);
    let p = num * SCALE;
    let q = den;
    let bx = spec_rect_box(rect);
    // Along z the crossing is exactly on the plane, strictly inside the
    // one-unit padding.
    assert(vaxis(r.a, 2) * SCALE * q + vaxis(r.b, 2) * p == (rect.k as int) * SCALE * q)
        by (nonlinear_arith)
        requires
            dz != 0,
            (dz > 0 ==> num == rect.k - r.a.z && den == dz) && (dz < 0 ==> num == r.a.z - rect.k
                && den == -dz),
            p == num * SCALE,
            q == den,
            vaxis(r.a, 2) == r.a.z as int,
            vaxis(r.b, 2) == dz,
            SCALE == 65536,
    ;
    assert((rect.k - 1) * SCALE * q < (rect.k as int) * SCALE * q && (rect.k as int) * SCALE * q
        < (rect.k + 1) * SCALE * q) by (nonlinear_arith)
        requires
            q > 0,
            SCALE == 65536,
    ;
    lemma_span_to_slab(rect.x0 as int, rect.x1 as int, r.a.x as int, r.b.x as int, num, den);
    lemma_span_to_slab(rect.y0 as int, rect.y1 as int, r.a.y as int, r.b.y as int, num, den);
    assert(crate::aabb::hit_witness(bx, r, t_min, t_max, p, q));
}

/// The weak cross-multiplied span check gives the strict padded slab
/// condition.
proof fn lemma_span_to_slab(lo: int, hi: int, o: int, d: int, num: int, den: int)
    requires
        den > 0,
        rect_span_ok(lo, hi, o, d, num, den),
    ensures
        crate::aabb::slab_cond(lo - 1, hi + 1, o, d, num * SCALE, den),
{
    if d == 0 {
        assert(lo <= o <= hi) by (nonlinear_arith)
            requires
                den > 0,
                lo * den <= o * den + d * num,
                o * den + d * num <= hi * den,
                d == 0,
        ;
    } else {
        assert((lo - 1) * SCALE * den < o * SCALE * den + d * (num * SCALE) && o * SCALE * den + d
            * (num * SCALE) < (hi + 1) * SCALE * den) by (nonlinear_arith)
            requires
                den > 0,
                lo * den <= o * den + d * num <= hi * den,
                SCALE == 65536,
        ;
    }
}

/// The plane-crossing products fit comfortably in wide integers.
proof fn lemma_rect_products(num: int, den: int)
    requires
        -0x1000_0000 <= num <= 0x1000_0000,
        0 < den <= COORD_LIMIT,
    ensures
        -0x1000_0000_0000_0000 <= num * SCALE <= 0x1000_0000_0000_0000,
{
    assert(-0x1000_0000_0000_0000 <= num * SCALE <= 0x1000_0000_0000_0000) by (nonlinear_arith)
        requires
            -0x1000_0000 <= num <= 0x1000_0000,
            SCALE == 65536,
    ;
}

/// The texture-coordinate numerator fits in a wide integer.
proof fn lemma_uv_products(d: int, span: int)
    requires
        -0x200_0000_0000_0000 <= d <= 0x200_0000_0000_0000,
        0 < span,
    ensures
        -0x2000_0000_0000_0000_0000 <= d * SCALE <= 0x2000_0000_0000_0000_0000,
{
    assert(-0x2000_0000_0000_0000_0000 <= d * SCALE <= 0x2000_0000_0000_0000_0000)
        by (nonlinear_arith)
        requires
            -0x200_0000_0000_0000 <= d <= 0x200_0000_0000_0000,
            SCALE == 65536,
    ;
}

/// Products of scene-range values fit in a wide integer.
proof fn lemma_small_products(a: int, b: int)
    requires
        -0x10_0000_0000 <= a <= 0x10_0000_0000,
        -0x10_0000_0000 <= b <= 0x10_0000_0000,
    ensures
        -0x100_0000_0000_0000_0000 <= a * b <= 0x100_0000_0000_0000_0000,
{
    assert(-0x100_0000_0000_0000_0000 <= a * b <= 0x100_0000_0000_0000_0000) by (nonlinear_arith)
        requires
            -0x10_0000_0000 <= a <= 0x10_0000_0000,
            -0x10_0000_0000 <= b <= 0x10_0000_0000,
    ;
}

} // verus!
