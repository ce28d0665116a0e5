use vstd::prelude::*;

use crate::aabb::box_wf;
use crate::aabb::hit_witness;
use crate::aabb::hits_between;
use crate::aabb::Aabb;
use crate::fixed::div_trunc;
use crate::fixed::isqrt;
use crate::fixed::lemma_tdiv_bounds;
use crate::fixed::tdiv;
use crate::hitable::HitRecord;
use crate::material::material_wf;
use crate::material::Material;
use crate::material::NORMAL_LIMIT;
use crate::ray::ray_at_axis;
use crate::ray::ray_ok;
use crate::ray::Ray;
use crate::vec3::abs_bounded;
use crate::vec3::dot3;
use crate::vec3::lemma_sqrt_floor_of;
use crate::vec3::sqrt_floor;
use crate::vec3::vaxis;
use crate::vec3::Vec3;
use crate::COORD_LIMIT;
use crate::SCALE;
use crate::T_LIMIT;

verus! {

/// A sphere with its material.
pub struct Sphere {
    pub center: Vec3,
    pub radius: i64,
    pub material: Material,
}

pub open spec fn sphere_wf(s: Sphere) -> bool {
    &&& abs_bounded(s.center, COORD_LIMIT as int)
    &&& 0 < s.radius <= COORD_LIMIT
    &&& material_wf(s.material)
}

/// The coefficients of the ray-sphere quadratic `a t^2 + 2 b t + c`.
pub open spec fn sphere_a(r: Ray) -> int {
    dot3(r.b, r.b)
}

pub open spec fn oc_axis(center: Vec3, r: Ray, axis: int) -> int {
    vaxis(r.a, axis) - vaxis(center, axis)
}

pub open spec fn sphere_b(center: Vec3, r: Ray) -> int {
    oc_axis(center, r, 0) * r.b.x + oc_axis(center, r, 1) * r.b.y + oc_axis(center, r, 2) * r.b.z
}

pub open spec fn sphere_c(center: Vec3, radius: int, r: Ray) -> int {
    oc_axis(center, r, 0) * oc_axis(center, r, 0) + oc_axis(center, r, 1) * oc_axis(center, r, 1)
        + oc_axis(center, r, 2) * oc_axis(center, r, 2) - radius * radius
}

pub open spec fn sphere_disc(center: Vec3, radius: int, r: Ray) -> int {
    sphere_b(center, r) * sphere_b(center, r) - sphere_a(r) * sphere_c(center, radius, r)
}

/// The fixed-point ray parameter of the near or far intersection.
pub open spec fn sphere_root(center: Vec3, radius: int, r: Ray, far: bool) -> int {
    let b = sphere_b(center, r);
    let sd = sqrt_floor(sphere_disc(center, radius, r));
    let u = if far {
        -b + sd
    } else {
        -b - sd
    };
    tdiv(u * SCALE, sphere_a(r))
}

/// Where (in fixed-point ray parameter) a ray first meets a sphere inside
/// the open window `(t_min, t_max)`: the closer root when it is inside the
/// window, else the farther root when it is, else nothing. A zero or
/// negative discriminant means a miss.
pub open spec fn spec_sphere_hit_t(
    center: Vec3,
    radius: int,
    r: Ray,
    t_min: int,
    t_max: int,
) -> Option<int> {
    if sphere_disc(center, radius, r) > 0 {
        let near = sphere_root(center, radius, r, false);
        let far = sphere_root(center, radius, r, true);
        if t_min < near < t_max {
            Some(near)
        } else if t_min < far < t_max {
            Some(far)
        } else {
            None
        }
    } else {
        None
    }
}

/// Clamp an integer into a symmetric range.
pub open spec fn clamp_val(v: int, lim: int) -> int {
    if v > lim {
        lim
    } else if v < -lim {
        -lim
    } else {
        v
    }
}

/// The (clamped) outward normal component of a sphere at the point a ray
/// parameter reaches.
pub open spec fn sphere_normal_axis(center: Vec3, radius: int, r: Ray, t: int, axis: int) -> int {
    clamp_val(tdiv((ray_at_axis(r, t, axis) - vaxis(center, axis)) * SCALE, radius), NORMAL_LIMIT as int)
}

/// The truncated quotient of a wide product, clamped into a symmetric
/// range.
fn clamp_div(num: i128, den: i64, lim: i64) -> (r: i64)
    requires
        den > 0,
        lim >= 0,
        num > i128::MIN,
    ensures
        r == clamp_val(tdiv(num as int, den as int), lim as int),
{
    proof {
        lemma_tdiv_bounds(num as int, den as int);
    }
    let q = div_trunc(num, den as i128);
    if q > lim as i128 {
        lim
    } else if q < -(lim as i128) {
        -lim
    } else {
        q as i64
    }
}

impl Sphere {
    pub fn new(center: Vec3, radius: i64, material: Material) -> (r: Sphere)
        ensures
            r.center == center,
            r.radius == radius,
            r.material == material,
    {
        Sphere { center, radius, material }
    }

    /// The closest intersection strictly inside `(t_min, t_max)`, if any.
    /// Texture coordinates are not computed for spheres: the angular
    /// parametrisation needs trigonometry that lives outside this crate.
    pub fn hit(&self, ray: &Ray, t_min: i64, t_max: i64) -> (r: Option<HitRecord>)
        requires
            sphere_wf(*self),
            ray_ok(*ray),
            -T_LIMIT <= t_min <= T_LIMIT,
            -T_LIMIT <= t_max <= T_LIMIT,
        ensures
            (r is Some) <==> (spec_sphere_hit_t(self.center, self.radius as int, *ray, t_min as int, t_max as int) is Some),
            r is Some ==> Some(r->0.t as int) == spec_sphere_hit_t(
                self.center,
                self.radius as int,
                *ray,
                t_min as int,
                t_max as int,
            ),
            r is Some ==> t_min < r->0.t < t_max,
            r is Some ==> r->0.p.x == ray_at_axis(*ray, r->0.t as int, 0) && r->0.p.y
                == ray_at_axis(*ray, r->0.t as int, 1) && r->0.p.z == ray_at_axis(
                *ray,
                r->0.t as int,
                2,
            ),
            r is Some ==> *(r->0.material) == self.material,
            r is Some ==> crate::hitable::hit_record_wf(r->0),
            r is Some ==> r->0.u == 0 && r->0.v == 0,
            r is Some ==> sphere_record_ok(
                self.center,
                self.radius as int,
                *ray,
                r->0.t as int,
                r->0.normal,
                r->0.front_face,
            ),
    {
        sphere_hit_core(self.center, self.radius, &self.material, ray, t_min, t_max)
    }
}

/// The ray-sphere intersection shared by the static and the moving
/// sphere: quadratic discriminant, then the closer acceptable root.
pub fn sphere_hit_core<'a>(
    center: Vec3,
    radius: i64,
    material: &'a Material,
    ray: &Ray,
    t_min: i64,
    t_max: i64,
) -> (r: Option<HitRecord<'a>>)
    requires
        abs_bounded(center, COORD_LIMIT as int),
        0 < radius <= COORD_LIMIT,
        material_wf(*material),
        ray_ok(*ray),
        -T_LIMIT <= t_min <= T_LIMIT,
        -T_LIMIT <= t_max <= T_LIMIT,
    ensures
        (r is Some) <==> (spec_sphere_hit_t(center, radius as int, *ray, t_min as int, t_max as int) is Some),
        r is Some ==> Some(r->0.t as int) == spec_sphere_hit_t(
            center,
            radius as int,
            *ray,
            t_min as int,
            t_max as int,
        ),
        r is Some ==> t_min < r->0.t < t_max,
        r is Some ==> r->0.p.x == ray_at_axis(*ray, r->0.t as int, 0) && r->0.p.y == ray_at_axis(
            *ray,
            r->0.t as int,
            1,
        ) && r->0.p.z == ray_at_axis(*ray, r->0.t as int, 2),
        r is Some ==> r->0.material == material,
        r is Some ==> crate::hitable::hit_record_wf(r->0),
        r is Some ==> r->0.u == 0 && r->0.v == 0,
        r is Some ==> sphere_record_ok(center, radius as int, *ray, r->0.t as int, r->0.normal, r->0.front_face),
{
    {
        let oc = ray.origin().sub(center);
        let a = ray.direction().dot(&ray.direction());
        let b = oc.dot(&ray.direction());
        proof {
            crate::vec3::lemma_dot_bound(oc, ray.b, 0x1000_0000, COORD_LIMIT as int);
            crate::vec3::lemma_dot_bound(oc, oc, 0x1000_0000, 0x1000_0000);
            crate::vec3::lemma_dot_bound(ray.b, ray.b, COORD_LIMIT as int, COORD_LIMIT as int);
            assert(0 <= radius * radius <= 0x10_0000_0000_0000) by (nonlinear_arith)
                requires
                    0 < radius <= COORD_LIMIT,
                    COORD_LIMIT == 67108864,
            ;
            assert(oc.x as int == oc_axis(center, *ray, 0));
            assert(dot3(oc, ray.b) == sphere_b(center, *ray));
            assert(dot3(oc, oc) - radius * radius == sphere_c(center, radius as int, *ray));
        }
        let c = oc.dot(&oc) - radius * radius;
        proof {
            assert(-0x10_0000_0000_0000_0000_0000_0000_0000 <= (b as int) * (b as int)
                <= 0x10_0000_0000_0000_0000_0000_0000_0000) by (nonlinear_arith)
                requires
                    -0x100_0000_0000_0000 <= b as int <= 0x100_0000_0000_0000,
            ;
            assert(-0x10_0000_0000_0000_0000_0000_0000_0000 <= (a as int) * (c as int)
                <= 0x10_0000_0000_0000_0000_0000_0000_0000) by (nonlinear_arith)
                requires
                    -0x40_0000_0000_0000 <= a as int <= 0x40_0000_0000_0000,
                    -0x400_0000_0000_0000 <= c as int <= 0x400_0000_0000_0000,
            ;
        }
        let disc = (b as i128) * (b as i128) - (a as i128) * (c as i128);
        if disc > 0 {
            let sd = isqrt(disc as u128);
            proof {
                lemma_sqrt_floor_of(disc as int, sd as int);
            }
            let u_near: i128 = -(b as i128) - (sd as i128);
            let u_far: i128 = -(b as i128) + (sd as i128);
            proof {
                assert(sd < 0x1_0000_0000_0000_0000);
                lemma_root_in_window_bounds(u_near as int, a as int);
                lemma_root_in_window_bounds(u_far as int, a as int);
            }
            let t_near = div_trunc(u_near * (SCALE as i128), a as i128);
            if (t_min as i128) < t_near && t_near < (t_max as i128) {
                return Some(make_record(center, radius, material, ray, t_near as i64));
            }
            let t_far = div_trunc(u_far * (SCALE as i128), a as i128);
            if (t_min as i128) < t_far && t_far < (t_max as i128) {
                return Some(make_record(center, radius, material, ray, t_far as i64));
            }
            None
        } else {
            None
        }
    }
}

/// Build the record for an accepted root.
fn make_record<'a>(center: Vec3, radius: i64, material: &'a Material, ray: &Ray, t: i64) -> (r:
    HitRecord<'a>)
    requires
        abs_bounded(center, COORD_LIMIT as int),
        0 < radius <= COORD_LIMIT,
        material_wf(*material),
        ray_ok(*ray),
        -T_LIMIT < t < T_LIMIT,
    ensures
        r.t == t,
        r.p.x == ray_at_axis(*ray, t as int, 0),
        r.p.y == ray_at_axis(*ray, t as int, 1),
        r.p.z == ray_at_axis(*ray, t as int, 2),
        r.material == material,
        crate::hitable::hit_record_wf(r),
        r.u == 0 && r.v == 0,
        sphere_record_ok(center, radius as int, *ray, t as int, r.normal, r.front_face),
{
    {
        proof {
            crate::ray::lemma_ray_step_bounds(ray.b.x as int, t as int);
            crate::ray::lemma_ray_step_bounds(ray.b.y as int, t as int);
            crate::ray::lemma_ray_step_bounds(ray.b.z as int, t as int);
        }
        let p = ray.point_at_parameter(t);
        proof {
            lemma_diff_scale_fits((p.x as int) - (center.x as int));
            lemma_diff_scale_fits((p.y as int) - (center.y as int));
            lemma_diff_scale_fits((p.z as int) - (center.z as int));
        }
        let nx = clamp_div(
            ((p.x as i128) - (center.x as i128)) * (SCALE as i128),
            radius,
            NORMAL_LIMIT,
        );
        let ny = clamp_div(
            ((p.y as i128) - (center.y as i128)) * (SCALE as i128),
            radius,
            NORMAL_LIMIT,
        );
        let nz = clamp_div(
            ((p.z as i128) - (center.z as i128)) * (SCALE as i128),
            radius,
            NORMAL_LIMIT,
        );
        let outward = if nx == 0 && ny == 0 && nz == 0 {
            Vec3 { x: 0, y: 0, z: SCALE }
        } else {
            let n = Vec3 { x: nx, y: ny, z: nz };
            proof {
                crate::material::lemma_nonzero_vec(n);
            }
            n
        };
        proof {
            crate::material::lemma_nonzero_vec(outward);
            crate::vec3::lemma_dot_bound(ray.b, outward, COORD_LIMIT as int, NORMAL_LIMIT as int);
        }
        let front_face = ray.direction().dot(&outward) < 0;
        let normal = if front_face {
            outward
        } else {
            let m = outward.neg();
            proof {
                assert(dot3(m, m) == dot3(outward, outward)) by (nonlinear_arith)
                    requires
                        m.x == -(outward.x as int),
                        m.y == -(outward.y as int),
                        m.z == -(outward.z as int),
                ;
            }
            m
        };
        HitRecord { t, p, normal, u: 0, v: 0, front_face, material }
    }
}

impl Sphere {
    /// The sphere's padded bounding box: one fixed-point unit of slack on
    /// every side keeps rounded hit points strictly inside.
    pub fn bounding_box(&self, t0: i64, t1: i64) -> (r: Option<Aabb>)
        requires
            sphere_wf(*self),
        ensures
            r is Some,
            r->0 == spec_sphere_box(self.center, self.radius as int),
            box_wf(r->0),
    {
        let pad = self.radius + 1;
        let min = Vec3 { x: self.center.x - pad, y: self.center.y - pad, z: self.center.z - pad };
        let max = Vec3 { x: self.center.x + pad, y: self.center.y + pad, z: self.center.z + pad };
        Some(Aabb { min, max })
    }
}

/// The geometric outward normal: the clamped centre-to-point direction,
/// or straight up when that rounds to zero.
pub open spec fn sphere_outward(center: Vec3, radius: int, r: Ray, t: int) -> Vec3 {
    let nx = sphere_normal_axis(center, radius, r, t, 0);
    let ny = sphere_normal_axis(center, radius, r, t, 1);
    let nz = sphere_normal_axis(center, radius, r, t, 2);
    if nx == 0 && ny == 0 && nz == 0 {
        Vec3 { x: 0, y: 0, z: SCALE }
    } else {
        Vec3 { x: nx as i64, y: ny as i64, z: nz as i64 }
    }
}

/// The stored normal is the outward normal oriented against the incoming
/// ray, with the flag recording which side the ray arrived from.
pub open spec fn sphere_record_ok(
    center: Vec3,
    radius: int,
    r: Ray,
    t: int,
    normal: Vec3,
    front: bool,
) -> bool {
    let outward = sphere_outward(center, radius, r, t);
    &&& front == (dot3(r.b, outward) < 0)
    &&& if front {
        normal == outward
    } else {
        normal == (Vec3 {
            x: (-(outward.x as int)) as i64,
            y: (-(outward.y as int)) as i64,
            z: (-(outward.z as int)) as i64,
        })
    }
}

/// The padded box around a sphere.
pub open spec fn spec_sphere_box(center: Vec3, radius: int) -> Aabb {
    Aabb {
        min: Vec3 {
            x: (center.x - radius - 1) as i64,
            y: (center.y - radius - 1) as i64,
            z: (center.z - radius - 1) as i64,
        },
        max: Vec3 {
            x: (center.x + radius + 1) as i64,
            y: (center.y + radius + 1) as i64,
            z: (center.z + radius + 1) as i64,
        },
    }
}

/// The product of a point-range difference with the fixed-point unit fits
/// comfortably in a wide integer.
proof fn lemma_diff_scale_fits(d: int)
    requires
        -0x400_0000_0000_0000 <= d <= 0x400_0000_0000_0000,
    ensures
        -0x4000_0000_0000_0000_0000 <= d * SCALE <= 0x4000_0000_0000_0000_0000,
{
    assert(-0x4000_0000_0000_0000_0000 <= d * SCALE <= 0x4000_0000_0000_0000_0000)
        by (nonlinear_arith)
        requires
            -0x400_0000_0000_0000 <= d <= 0x400_0000_0000_0000,
            SCALE == 65536,
    ;
}

/// A root accepted strictly inside the window puts a rational witness
/// strictly inside the window.
pub(crate) proof fn lemma_root_window(u: int, a: int, tmin: int, tmax: int)
    requires
        a > 0,
        tmin < tdiv(u * SCALE, a) < tmax,
    ensures
        tmin * a < u * SCALE,
        u * SCALE < tmax * a,
{
    crate::fixed::lemma_tdiv_bounds(u * SCALE, a);
    let t = tdiv(u * SCALE, a);
    let n = u * SCALE;
    if n >= 0 {
        assert(tmin * a < n && n < tmax * a) by (nonlinear_arith)
            requires
                a > 0,
                tmin + 1 <= t,
                t + 1 <= tmax,
                a * t <= n,
                n - a < a * t,
        ;
    } else {
        assert(tmin * a < n && n < tmax * a) by (nonlinear_arith)
            requires
                a > 0,
                tmin + 1 <= t,
                t + 1 <= tmax,
                n <= a * t,
                a * t < n + a,
        ;
    }
}

/// Expanding one squared coordinate of the scaled chord offset.
proof fn lemma_sq(oc: int, d: int, a: int, u: int)
    ensures
        (oc * a + d * u) * (oc * a + d * u) == (oc * oc) * (a * a) + (2 * (oc * d)) * (a * u) + (d
            * d) * (u * u),
{
    let w1 = oc * a;
    let w2 = d * u;
    assert((w1 + w2) * (w1 + w2) == w1 * w1 + 2 * (w1 * w2) + w2 * w2) by (nonlinear_arith);
    assert((oc * a) * (oc * a) == (oc * oc) * (a * a)) by (nonlinear_arith);
    assert((oc * a) * (d * u) == (oc * d) * (a * u)) by (nonlinear_arith);
    assert((d * u) * (d * u) == (d * d) * (u * u)) by (nonlinear_arith);
    assert(2 * ((oc * d) * (a * u)) == (2 * (oc * d)) * (a * u)) by (nonlinear_arith);
}

/// Common-factor grouping of three products.
proof fn lemma_distrib3(p: int, q: int, s: int, w: int)
    ensures
        p * w + q * w + s * w == (p + q + s) * w,
{
    assert(p * w + q * w + s * w == (p + q + s) * w) by (nonlinear_arith);
}

/// Reassembling the grouped sums into the quadratic value times `a`.
proof fn lemma_regroup(a: int, b: int, cc: int, u: int)
    ensures
        cc * (a * a) + (2 * b) * (a * u) + a * (u * u) == a * (cc * a + 2 * u * b + u * u),
{
    assert(a * (cc * a + 2 * u * b + u * u) == a * (cc * a) + a * (2 * u * b) + a * (u * u))
        by (nonlinear_arith);
    assert(a * (cc * a) == cc * (a * a)) by (nonlinear_arith);
    assert(a * (2 * u * b) == (2 * b) * (a * u)) by (nonlinear_arith);
}

/// Completing the square: the quadratic value in terms of the distance
/// to the chord midpoint and the discriminant.
proof fn lemma_complete_square(b: int, a: int, cc: int, rad: int, u: int, disc: int)
    requires
        disc == b * b - a * (cc - rad * rad),
    ensures
        cc * a + 2 * u * b + u * u == (u + b) * (u + b) - disc + a * (rad * rad),
{
    assert((u + b) * (u + b) == u * u + 2 * (u * b) + b * b) by (nonlinear_arith);
    assert(a * (cc - rad * rad) == a * cc - a * (rad * rad)) by (nonlinear_arith);
    assert(2 * u * b == 2 * (u * b)) by (nonlinear_arith);
    assert(cc * a == a * cc) by (nonlinear_arith);
}

/// A square bounded by a square of a non-negative value bounds the value.
proof fn lemma_abs_from_square(m: int, bound: int)
    by (nonlinear_arith)
    requires
        m * m <= bound * bound,
        bound >= 0,
    ensures
        -bound <= m <= bound,
{
}

/// The key algebraic fact behind pruning: the point the ray reaches at
/// the rational parameter `u / a` lies inside the sphere, so each of its
/// coordinates is within `radius` of the centre.
proof fn lemma_sphere_point_close(center: Vec3, radius: int, r: Ray, u: int)
    requires
        dot3(r.b, r.b) > 0,
        radius > 0,
        sphere_disc(center, radius, r) > 0,
        (u + sphere_b(center, r)) * (u + sphere_b(center, r)) <= sphere_disc(center, radius, r),
    ensures
        forall|axis: int|
            #![trigger vaxis(r.b, axis)]
            0 <= axis < 3 ==> -radius * sphere_a(r) <= oc_axis(center, r, axis) * sphere_a(r)
                + vaxis(r.b, axis) * u <= radius * sphere_a(r),
{
    let a = sphere_a(r);
    let b = sphere_b(center, r);
    let disc = sphere_disc(center, radius, r);
    let ocx = oc_axis(center, r, 0);
    let ocy = oc_axis(center, r, 1);
    let ocz = oc_axis(center, r, 2);
    let dx = r.b.x as int;
    let dy = r.b.y as int;
    let dz = r.b.z as int;
    let mx = ocx * a + dx * u;
    let my = ocy * a + dy * u;
    let mz = ocz * a + dz * u;
    let cc = ocx * ocx + ocy * ocy + ocz * ocz;
    lemma_sq(ocx, dx, a, u);
    lemma_sq(ocy, dy, a, u);
    lemma_sq(ocz, dz, a, u);
    lemma_distrib3(ocx * ocx, ocy * ocy, ocz * ocz, a * a);
    lemma_distrib3(2 * (ocx * dx), 2 * (ocy * dy), 2 * (ocz * dz), a * u);
    lemma_distrib3(dx * dx, dy * dy, dz * dz, u * u);
    assert(2 * (ocx * dx) + 2 * (ocy * dy) + 2 * (ocz * dz) == 2 * b);
    assert(mx * mx + my * my + mz * mz == cc * (a * a) + (2 * b) * (a * u) + a * (u * u));
    lemma_regroup(a, b, cc, u);
    assert(mx * mx + my * my + mz * mz == a * (cc * a + 2 * u * b + u * u));
    lemma_complete_square(b, a, cc, radius, u, disc);
    assert(a * (cc * a + 2 * u * b + u * u) <= a * (a * (radius * radius))) by (nonlinear_arith)
        requires
            a > 0,
            cc * a + 2 * u * b + u * u <= a * (radius * radius),
    ;
    assert(a * (a * (radius * radius)) == (radius * a) * (radius * a)) by (nonlinear_arith);
    assert forall|axis: int|
        #![trigger vaxis(r.b, axis)]
        0 <= axis < 3 implies -radius * a <= oc_axis(center, r, axis) * a + vaxis(r.b, axis) * u
        <= radius * a by {
        crate::vec3::lemma_square_nonneg(mx);
        crate::vec3::lemma_square_nonneg(my);
        crate::vec3::lemma_square_nonneg(mz);
        let m = oc_axis(center, r, axis) * a + vaxis(r.b, axis) * u;
        if axis == 0 {
            assert(m == mx);
        } else if axis == 1 {
            assert(m == my);
        } else {
            assert(m == mz);
        }
        assert(m * m <= (radius * a) * (radius * a));
        assert(radius * a >= 0) by (nonlinear_arith)
            requires
                radius > 0,
                a > 0,
        ;
        lemma_abs_from_square(m, radius * a);
        assert(-(radius * a) == -radius * a) by (nonlinear_arith);
    }
}

/// A sphere hit inside the window means the ray passes the sphere's
/// padded box inside the window: nothing a leaf reports is lost when an
/// ancestor's box is tested first.
pub proof fn lemma_sphere_hit_in_box(center: Vec3, radius: int, r: Ray, tmin: int, tmax: int)
    requires
        abs_bounded(center, COORD_LIMIT as int),
        0 < radius <= COORD_LIMIT,
        abs_bounded(r.a, 0x800_0000),
        abs_bounded(r.b, COORD_LIMIT as int),
        dot3(r.b, r.b) > 0,
        spec_sphere_hit_t(center, radius, r, tmin, tmax) is Some,
    ensures
        hits_between(spec_sphere_box(center, radius), r, tmin, tmax),
{
    let a = sphere_a(r);
    let b = sphere_b(center, r);
    let disc = sphere_disc(center, radius, r);
    let sd = sqrt_floor(disc);
    crate::vec3::lemma_isqrt_exists(disc);
    let near = sphere_root(center, radius, r, false);
    let far = sphere_root(center, radius, r, true);
    let u = if tmin < near < tmax {
        -b - sd
    } else {
        -b + sd
    };
    assert(tmin < tdiv(u * SCALE, a) < tmax);
    assert((u + b) * (u + b) <= disc) by (nonlinear_arith)
        requires
            u == -b - sd || u == -b + sd,
            sd * sd <= disc,
    ;
    lemma_root_window(u, a, tmin, tmax);
    lemma_sphere_point_close(center, radius, r, u);
    let p = u * SCALE;
    let q = a;
    let bx = spec_sphere_box(center, radius);
    assert forall|axis: int| 0 <= axis < 3 implies crate::aabb::slab_ok(bx, r, axis, p, q) by {
        let m = oc_axis(center, r, axis) * a + vaxis(r.b, axis) * u;
        assert(-radius * a <= m <= radius * a) by {
            assert(vaxis(r.b, axis) == vaxis(r.b, axis));
        }
        let o = vaxis(r.a, axis);
        let cm = vaxis(center, axis);
        let d = vaxis(r.b, axis);
        if d == 0 {
            assert(m == (o - cm) * a) by (nonlinear_arith)
                requires
                    m == (o - cm) * a + d * u,
                    d == 0,
            ;
            assert(cm - radius - 1 <= o <= cm + radius + 1) by (nonlinear_arith)
                requires
                    -radius * a <= (o - cm) * a <= radius * a,
                    a > 0,
                    radius > 0,
            ;
        } else {
            assert((cm - radius - 1) * SCALE * q < o * SCALE * q + d * p && o * SCALE * q + d * p
                < (cm + radius + 1) * SCALE * q) by (nonlinear_arith)
                requires
                    q == a,
                    a > 0,
                    p == u * SCALE,
                    m == (o - cm) * a + d * u,
                    -radius * a <= m <= radius * a,
                    radius > 0,
                    SCALE == 65536,
            ;
        }
    }
    assert(crate::aabb::hit_witness(bx, r, tmin, tmax, p, q));
}

/// An accepted root stays in `i64` range.
proof fn lemma_root_in_window_bounds(u: int, a: int)
    requires
        a > 0,
        -0x4000_0000_0000_0000_0000 <= u <= 0x4000_0000_0000_0000_0000,
    ensures
        -0x8000_0000_0000_0000_0000_0000 <= u * SCALE <= 0x8000_0000_0000_0000_0000_0000,
{
    assert(-0x8000_0000_0000_0000_0000_0000 <= u * SCALE <= 0x8000_0000_0000_0000_0000_0000)
        by (nonlinear_arith)
        requires
            -0x4000_0000_0000_0000_0000 <= u <= 0x4000_0000_0000_0000_0000,
            SCALE == 65536,
    ;
}

} // verus!
