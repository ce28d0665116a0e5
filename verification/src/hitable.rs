use vstd::prelude::*;

use crate::aabb::box_wf;
use crate::aabb::Aabb;
use crate::material::material_wf;
use crate::material::Material;
use crate::material::NORMAL_LIMIT;
use crate::moving_sphere::moving_sphere_wf;
use crate::moving_sphere::ms_center;
use crate::moving_sphere::MovingSphere;
use crate::ray::ray_at_axis;
use crate::ray::ray_ok;
use crate::ray::ray_wf;
use crate::ray::Ray;
use crate::sphere::spec_sphere_box;
use crate::sphere::spec_sphere_hit_t;
use crate::sphere::sphere_wf;
use crate::sphere::Sphere;
use crate::vec3::abs_bounded;
use crate::vec3::dot3;
use crate::vec3::Vec3;
use crate::xy_rectangle::rect_wf;
use crate::xy_rectangle::spec_rect_box;
use crate::xy_rectangle::spec_rect_hit_t;
use crate::xy_rectangle::XyRectangle;
use crate::COORD_LIMIT;
use crate::SCALE;
use crate::POINT_LIMIT;
use crate::T_LIMIT;

verus! {

/// Where a ray met a surface: the ray parameter `t`, the point reached,
/// the surface normal there, the texture coordinates, and the surface's
/// material.
pub struct HitRecord<'a> {
    pub t: i64,
    pub p: Vec3,
    pub normal: Vec3,
    pub u: i64,
    pub v: i64,
    pub front_face: bool,
    pub material: &'a Material,
}

/// A record the integrator can consume: point and normal in range, the
/// normal not zero, and a well-formed material.
pub open spec fn hit_record_wf(h: HitRecord) -> bool {
    &&& abs_bounded(h.p, POINT_LIMIT as int)
    &&& abs_bounded(h.normal, NORMAL_LIMIT as int)
    &&& dot3(h.normal, h.normal) > 0
    &&& material_wf(*h.material)
}

impl<'a> HitRecord<'a> {
    pub fn new(t: i64, p: Vec3, normal: Vec3, material: &'a Material, uv: (i64, i64)) -> (r:
        HitRecord<'a>)
        ensures
            r.t == t,
            r.p == p,
            r.normal == normal,
            r.material == material,
            r.u == uv.0,
            r.v == uv.1,
            !r.front_face,
    {
        HitRecord { t, p, normal, u: uv.0, v: uv.1, front_face: false, material }
    }

    /// Orient the stored normal against the ray: the normal is flipped
    /// when the ray reaches the surface from behind.
    pub fn set_face_normal(&mut self, ray: &Ray)
        requires
            ray_ok(*ray),
            abs_bounded(old(self).normal, NORMAL_LIMIT as int),
        ensures
            final(self).front_face == (dot3(ray.b, old(self).normal) < 0),
            final(self).front_face ==> final(self).normal == old(self).normal,
            !final(self).front_face ==> final(self).normal.x == -old(self).normal.x
                && final(self).normal.y == -old(self).normal.y && final(self).normal.z == -old(
                self,
            ).normal.z,
            final(self).t == old(self).t,
            final(self).p == old(self).p,
            final(self).u == old(self).u,
            final(self).v == old(self).v,
            final(self).material == old(self).material,
            abs_bounded(final(self).normal, NORMAL_LIMIT as int),
            dot3(old(self).normal, old(self).normal) > 0 ==> dot3(
                final(self).normal,
                final(self).normal,
            ) > 0,
    {
        proof {
            crate::vec3::lemma_dot_bound(ray.b, self.normal, COORD_LIMIT as int, NORMAL_LIMIT as int);
        }
        let ff = ray.direction().dot(&self.normal) < 0;
        self.front_face = ff;
        if !ff {
            let n = self.normal;
            let m = n.neg();
            proof {
                assert(dot3(m, m) == dot3(n, n)) by (nonlinear_arith)
                    requires
                        m.x == -(n.x as int),
                        m.y == -(n.y as int),
                        m.z == -(n.z as int),
                ;
            }
            self.normal = m;
        }
    }
}


/// Largest magnitude a translation offset may have.
pub const OFFSET_LIMIT: i64 = 0x100_0000;

/// A surface moved rigidly by an offset.
pub struct Translate {
    pub object: Box<Hitable>,
    pub offset: Vec3,
}

/// The closed set of surfaces the tracer knows.
pub enum Hitable {
    Sphere(Sphere),
    MovingSphere(MovingSphere),
    XyRectangle(XyRectangle),
    Translate(Translate),
}

impl Translate {
    pub fn new(object: Hitable, offset: Vec3) -> (r: Translate)
        ensures
            *r.object == object,
            r.offset == offset,
    {
        Translate { object: Box::new(object), offset }
    }
}

pub open spec fn hitable_wf(h: Hitable) -> bool
    decreases h,
{
    match h {
        Hitable::Sphere(s) => sphere_wf(s),
        Hitable::MovingSphere(s) => moving_sphere_wf(s),
        Hitable::XyRectangle(r) => rect_wf(r),
        Hitable::Translate(t) => {
            &&& abs_bounded(t.offset, OFFSET_LIMIT as int)
            &&& hitable_wf(*t.object)
            &&& !(*t.object is Translate)
        },
    }
}

/// The ray's time lies inside the shutter interval of every moving
/// surface it is tested against.
pub open spec fn time_ok(h: Hitable, time: int) -> bool
    decreases h,
{
    match h {
        Hitable::MovingSphere(s) => s.time_start <= time <= s.time_end,
        Hitable::Translate(t) => time_ok(*t.object, time),
        _ => true,
    }
}

/// The interval a bounding box is requested for suits every moving
/// surface.
pub open spec fn interval_ok(h: Hitable, t0: int, t1: int) -> bool
    decreases h,
{
    match h {
        Hitable::MovingSphere(s) => s.time_start <= t0 <= t1 <= s.time_end,
        Hitable::Translate(t) => interval_ok(*t.object, t0, t1),
        _ => t0 <= t1,
    }
}

/// The ray as a translated surface sees it: origin moved against the
/// offset.
pub open spec fn moved_ray(r: Ray, offset: Vec3) -> Ray {
    Ray {
        a: Vec3 {
            x: (r.a.x - offset.x) as i64,
            y: (r.a.y - offset.y) as i64,
            z: (r.a.z - offset.z) as i64,
        },
        b: r.b,
        time: r.time,
    }
}

/// Where (in fixed-point ray parameter) a ray first meets a surface
/// strictly inside `(t_min, t_max)`.
pub open spec fn spec_hit_t(h: Hitable, r: Ray, t_min: int, t_max: int) -> Option<int>
    decreases h,
{
    match h {
        Hitable::Sphere(s) => spec_sphere_hit_t(s.center, s.radius as int, r, t_min, t_max),
        Hitable::MovingSphere(s) => spec_sphere_hit_t(
            ms_center(s, r.time as int),
            s.radius as int,
            r,
            t_min,
            t_max,
        ),
        Hitable::XyRectangle(rc) => spec_rect_hit_t(rc, r, t_min, t_max),
        Hitable::Translate(t) => spec_hit_t(*t.object, moved_ray(r, t.offset), t_min, t_max),
    }
}

/// The surface's bounding box over the time interval.
pub open spec fn spec_hitable_box(h: Hitable, t0: int, t1: int) -> Aabb
    decreases h,
{
    match h {
        Hitable::Sphere(s) => spec_sphere_box(s.center, s.radius as int),
        Hitable::MovingSphere(s) => crate::aabb::spec_surrounding_box(
            spec_sphere_box(ms_center(s, t0), s.radius as int),
            spec_sphere_box(ms_center(s, t1), s.radius as int),
        ),
        Hitable::XyRectangle(rc) => spec_rect_box(rc),
        Hitable::Translate(t) => {
            let inner = spec_hitable_box(*t.object, t0, t1);
            Aabb {
                min: Vec3 {
                    x: (inner.min.x + t.offset.x) as i64,
                    y: (inner.min.y + t.offset.y) as i64,
                    z: (inner.min.z + t.offset.z) as i64,
                },
                max: Vec3 {
                    x: (inner.max.x + t.offset.x) as i64,
                    y: (inner.max.y + t.offset.y) as i64,
                    z: (inner.max.z + t.offset.z) as i64,
                },
            }
        },
    }
}

/// The intersection test for a surface that is not itself translated;
/// the translated surface calls it with the moved ray.
fn hit_plain<'a>(h: &'a Hitable, ray: &Ray, t_min: i64, t_max: i64) -> (r: Option<HitRecord<'a>>)
    requires
        hitable_wf(*h),
        !(*h is Translate),
        ray_ok(*ray),
        time_ok(*h, ray.time as int),
        -T_LIMIT <= t_min <= T_LIMIT,
        -T_LIMIT <= t_max <= T_LIMIT,
    ensures
        (r is Some) <==> (spec_hit_t(*h, *ray, t_min as int, t_max as int) is Some),
        r is Some ==> Some(r->0.t as int) == spec_hit_t(*h, *ray, t_min as int, t_max as int),
        r is Some ==> t_min < r->0.t < t_max,
        r is Some ==> r->0.p.x == ray_at_axis(*ray, r->0.t as int, 0) && r->0.p.y == ray_at_axis(
            *ray,
            r->0.t as int,
            1,
        ) && r->0.p.z == ray_at_axis(*ray, r->0.t as int, 2),
        r is Some ==> hit_record_wf(r->0),
        r is Some ==> record_fields_match(*h, *ray, r->0),
{
    match h {
        Hitable::Sphere(s) => s.hit(ray, t_min, t_max),
        Hitable::MovingSphere(s) => s.hit(ray, t_min, t_max),
        Hitable::XyRectangle(rc) => rc.hit(ray, t_min, t_max),
        Hitable::Translate(_) => None,
    }
}

/// The bounding box of a surface that is not itself translated.
fn box_plain(h: &Hitable, t0: i64, t1: i64) -> (r: Option<Aabb>)
    requires
        hitable_wf(*h),
        !(*h is Translate),
        interval_ok(*h, t0 as int, t1 as int),
        -T_LIMIT <= t0 <= t1 <= T_LIMIT,
    ensures
        r is Some,
        r->0 == spec_hitable_box(*h, t0 as int, t1 as int),
        box_wf(r->0),
        abs_bounded(r->0.min, 0x900_0000),
        abs_bounded(r->0.max, 0x900_0000),
{
    match h {
        Hitable::Sphere(s) => {
            let b = s.bounding_box(t0, t1);
            proof {
                assert(abs_bounded(b->0.min, 0x900_0000));
                assert(abs_bounded(b->0.max, 0x900_0000));
            }
            b
        },
        Hitable::MovingSphere(s) => {
            let b = s.bounding_box(t0, t1);
            proof {
                assert(abs_bounded(b->0.min, 0x900_0000));
                assert(abs_bounded(b->0.max, 0x900_0000));
            }
            b
        },
        Hitable::XyRectangle(rc) => {
            let b = rc.bounding_box(t0, t1);
            proof {
                assert(abs_bounded(b->0.min, 0x900_0000));
                assert(abs_bounded(b->0.max, 0x900_0000));
            }
            b
        },
        Hitable::Translate(_) => None,
    }
}

/// The point a ray reaches at fixed-point parameter `t`, as a vector.
pub open spec fn ray_point(r: Ray, t: int) -> Vec3 {
    Vec3 {
        x: ray_at_axis(r, t, 0) as i64,
        y: ray_at_axis(r, t, 1) as i64,
        z: ray_at_axis(r, t, 2) as i64,
    }
}

/// The material a surface carries.
pub open spec fn material_of(h: Hitable) -> Material
    decreases h,
{
    match h {
        Hitable::Sphere(s) => s.material,
        Hitable::MovingSphere(s) => s.material,
        Hitable::XyRectangle(rc) => rc.material,
        Hitable::Translate(t) => material_of(*t.object),
    }
}

/// The texture coordinates a surface reports for a hit at parameter `t`.
/// Spheres report none: their angular parametrisation needs trigonometry
/// that lives outside this crate.
pub open spec fn uv_of(h: Hitable, r: Ray, t: int) -> (int, int)
    decreases h,
{
    match h {
        Hitable::Sphere(_) => (0, 0),
        Hitable::MovingSphere(_) => (0, 0),
        Hitable::XyRectangle(rc) => (
            crate::xy_rectangle::clamp01(
                crate::fixed::tdiv((ray_at_axis(r, t, 0) - rc.x0) * SCALE, (rc.x1 - rc.x0) as int),
            ),
            crate::xy_rectangle::clamp01(
                crate::fixed::tdiv((ray_at_axis(r, t, 1) - rc.y0) * SCALE, (rc.y1 - rc.y0) as int),
            ),
        ),
        Hitable::Translate(t0) => uv_of(*t0.object, moved_ray(r, t0.offset), t),
    }
}

/// What a surface emits toward a ray hitting it at parameter `t`.
pub open spec fn emitted_at(h: Hitable, r: Ray, t: int) -> Vec3 {
    crate::material::spec_emit(material_of(h), uv_of(h, r, t).0, uv_of(h, r, t).1, ray_point(r, t))
}

/// Everything a hit record holds besides the hit parameter and point,
/// pinned per surface: the material, the texture coordinates, and the
/// normal oriented against the incoming ray with the front-face flag.
pub open spec fn record_fields_match(h: Hitable, r: Ray, rec: HitRecord) -> bool
    decreases h,
{
    match h {
        Hitable::Sphere(s) => {
            &&& *rec.material == s.material
            &&& rec.u == 0 && rec.v == 0
            &&& crate::sphere::sphere_record_ok(
                s.center,
                s.radius as int,
                r,
                rec.t as int,
                rec.normal,
                rec.front_face,
            )
        },
        Hitable::MovingSphere(s) => {
            &&& *rec.material == s.material
            &&& rec.u == 0 && rec.v == 0
            &&& crate::sphere::sphere_record_ok(
                ms_center(s, r.time as int),
                s.radius as int,
                r,
                rec.t as int,
                rec.normal,
                rec.front_face,
            )
        },
        Hitable::XyRectangle(rc) => {
            &&& *rec.material == rc.material
            &&& rec.front_face == (r.b.z < 0)
            &&& rec.normal == (if r.b.z < 0 {
                Vec3 { x: 0, y: 0, z: SCALE }
            } else {
                Vec3 { x: 0, y: 0, z: (-SCALE) as i64 }
            })
            &&& rec.u == crate::xy_rectangle::clamp01(
                crate::fixed::tdiv((rec.p.x - rc.x0) * SCALE, (rc.x1 - rc.x0) as int),
            )
            &&& rec.v == crate::xy_rectangle::clamp01(
                crate::fixed::tdiv((rec.p.y - rc.y0) * SCALE, (rc.y1 - rc.y0) as int),
            )
        },
        Hitable::Translate(t0) => record_fields_match(
            *t0.object,
            moved_ray(r, t0.offset),
            HitRecord {
                t: rec.t,
                p: Vec3 {
                    x: (rec.p.x - t0.offset.x) as i64,
                    y: (rec.p.y - t0.offset.y) as i64,
                    z: (rec.p.z - t0.offset.z) as i64,
                },
                normal: rec.normal,
                u: rec.u,
                v: rec.v,
                front_face: rec.front_face,
                material: rec.material,
            },
        ),
    }
}

/// From matching record fields, the material and texture coordinates are
/// the surface's own.
pub proof fn lemma_record_fields(h: Hitable, r: Ray, rec: HitRecord)
    requires
        hitable_wf(h),
        record_fields_match(h, r, rec),
        h is Translate ==> abs_bounded(r.a, 0x2000_0000_0000_0000),
        h is Translate ==> abs_bounded(rec.p, 0x2000_0000_0000_0000),
        rec.p.x == ray_at_axis(r, rec.t as int, 0),
        rec.p.y == ray_at_axis(r, rec.t as int, 1),
        rec.p.z == ray_at_axis(r, rec.t as int, 2),
    ensures
        *rec.material == material_of(h),
        rec.u as int == uv_of(h, r, rec.t as int).0,
        rec.v as int == uv_of(h, r, rec.t as int).1,
    decreases h,
{
    reveal_with_fuel(hitable_wf, 3);
    reveal_with_fuel(material_of, 3);
    reveal_with_fuel(uv_of, 3);
    reveal_with_fuel(record_fields_match, 3);
    match h {
        Hitable::Sphere(_) => {},
        Hitable::MovingSphere(_) => {},
        Hitable::XyRectangle(_) => {},
        Hitable::Translate(t0) => {
            let moved = moved_ray(r, t0.offset);
            let sr = HitRecord {
                t: rec.t,
                p: Vec3 {
                    x: (rec.p.x - t0.offset.x) as i64,
                    y: (rec.p.y - t0.offset.y) as i64,
                    z: (rec.p.z - t0.offset.z) as i64,
                },
                normal: rec.normal,
                u: rec.u,
                v: rec.v,
                front_face: rec.front_face,
                material: rec.material,
            };
            assert(sr.p.x == ray_at_axis(moved, rec.t as int, 0));
            assert(sr.p.y == ray_at_axis(moved, rec.t as int, 1));
            assert(sr.p.z == ray_at_axis(moved, rec.t as int, 2));
            lemma_record_fields(*t0.object, moved, sr);
        },
    }
}

impl Hitable {
    /// The closest intersection strictly inside `(t_min, t_max)`.
    pub fn hit(&self, ray: &Ray, t_min: i64, t_max: i64) -> (r: Option<HitRecord>)
        requires
            hitable_wf(*self),
            ray_wf(*ray),
            time_ok(*self, ray.time as int),
            -T_LIMIT <= t_min <= T_LIMIT,
            -T_LIMIT <= t_max <= T_LIMIT,
        ensures
            (r is Some) <==> (spec_hit_t(*self, *ray, t_min as int, t_max as int) is Some),
            r is Some ==> Some(r->0.t as int) == spec_hit_t(
                *self,
                *ray,
                t_min as int,
                t_max as int,
            ),
            r is Some ==> t_min < r->0.t < t_max,
            r is Some ==> r->0.p.x == ray_at_axis(*ray, r->0.t as int, 0) && r->0.p.y
                == ray_at_axis(*ray, r->0.t as int, 1) && r->0.p.z == ray_at_axis(
                *ray,
                r->0.t as int,
                2,
            ),
            r is Some ==> hit_record_wf(r->0),
            r is Some ==> record_fields_match(*self, *ray, r->0),
    {
        match self {
            Hitable::Sphere(s) => s.hit(ray, t_min, t_max),
            Hitable::MovingSphere(s) => s.hit(ray, t_min, t_max),
            Hitable::XyRectangle(rc) => rc.hit(ray, t_min, t_max),
            Hitable::Translate(t) => {
                let moved = Ray::new(ray.origin().sub(t.offset), ray.direction(), ray.time());
                let inner = hit_plain(&t.object, &moved, t_min, t_max);
                match inner {
                    Some(rec) => {
                        let ghost inner_rec = rec;
                        let mut rec = rec;
                        proof {
                            crate::ray::lemma_ray_step_bounds(moved.b.x as int, rec.t as int);
                            crate::ray::lemma_ray_step_bounds(moved.b.y as int, rec.t as int);
                            crate::ray::lemma_ray_step_bounds(moved.b.z as int, rec.t as int);
                        }
                        rec.p = Vec3 {
                            x: rec.p.x + t.offset.x,
                            y: rec.p.y + t.offset.y,
                            z: rec.p.z + t.offset.z,
                        };
                        proof {
                            let sr = HitRecord {
                                t: rec.t,
                                p: Vec3 {
                                    x: (rec.p.x - t.offset.x) as i64,
                                    y: (rec.p.y - t.offset.y) as i64,
                                    z: (rec.p.z - t.offset.z) as i64,
                                },
                                normal: rec.normal,
                                u: rec.u,
                                v: rec.v,
                                front_face: rec.front_face,
                                material: rec.material,
                            };
                            assert(sr == inner_rec);
                            assert(record_fields_match(*self, *ray, rec));
                        }
                        Some(rec)
                    },
                    None => None,
                }
            },
        }
    }

    /// A box valid for the motion interval `[t0, t1]`; every surface of
    /// this crate has one.
    pub fn bounding_box(&self, t0: i64, t1: i64) -> (r: Option<Aabb>)
        requires
            hitable_wf(*self),
            interval_ok(*self, t0 as int, t1 as int),
            -T_LIMIT <= t0 <= t1 <= T_LIMIT,
        ensures
            r is Some,
            r->0 == spec_hitable_box(*self, t0 as int, t1 as int),
            box_wf(r->0),
    {
        match self {
            Hitable::Sphere(s) => s.bounding_box(t0, t1),
            Hitable::MovingSphere(s) => s.bounding_box(t0, t1),
            Hitable::XyRectangle(rc) => rc.bounding_box(t0, t1),
            Hitable::Translate(t) => {
                let inner = box_plain(&t.object, t0, t1);
                match inner {
                    Some(b) => Some(
                        Aabb {
                            min: Vec3 {
                                x: b.min.x + t.offset.x,
                                y: b.min.y + t.offset.y,
                                z: b.min.z + t.offset.z,
                            },
                            max: Vec3 {
                                x: b.max.x + t.offset.x,
                                y: b.max.y + t.offset.y,
                                z: b.max.z + t.offset.z,
                            },
                        },
                    ),
                    None => None,
                }
            },
        }
    }
}


/// The bounding box of a well-formed surface keeps its corners inside
/// the padded scene range, so shifting it cannot overflow.
pub proof fn lemma_box_bounded(h: Hitable, t0: int, t1: int)
    requires
        hitable_wf(h),
        interval_ok(h, t0, t1),
    ensures
        abs_bounded(spec_hitable_box(h, t0, t1).min, 0xA00_0000),
        abs_bounded(spec_hitable_box(h, t0, t1).max, 0xA00_0000),
        !(h is Translate) ==> abs_bounded(spec_hitable_box(h, t0, t1).min, 0x900_0000)
            && abs_bounded(spec_hitable_box(h, t0, t1).max, 0x900_0000),
    decreases h,
{
    reveal_with_fuel(hitable_wf, 3);
    reveal_with_fuel(interval_ok, 3);
    reveal_with_fuel(spec_hitable_box, 3);
    match h {
        Hitable::Sphere(_) => {},
        Hitable::MovingSphere(s) => {
            crate::moving_sphere::lemma_center_axis_ok(
                s.center_start.x as int,
                s.center_end.x as int,
                s.time_start as int,
                s.time_end as int,
                t0,
            );
            crate::moving_sphere::lemma_center_axis_ok(
                s.center_start.y as int,
                s.center_end.y as int,
                s.time_start as int,
                s.time_end as int,
                t0,
            );
            crate::moving_sphere::lemma_center_axis_ok(
                s.center_start.z as int,
                s.center_end.z as int,
                s.time_start as int,
                s.time_end as int,
                t0,
            );
            crate::moving_sphere::lemma_center_axis_ok(
                s.center_start.x as int,
                s.center_end.x as int,
                s.time_start as int,
                s.time_end as int,
                t1,
            );
            crate::moving_sphere::lemma_center_axis_ok(
                s.center_start.y as int,
                s.center_end.y as int,
                s.time_start as int,
                s.time_end as int,
                t1,
            );
            crate::moving_sphere::lemma_center_axis_ok(
                s.center_start.z as int,
                s.center_end.z as int,
                s.time_start as int,
                s.time_end as int,
                t1,
            );
        },
        Hitable::XyRectangle(_) => {},
        Hitable::Translate(t) => {
            lemma_box_bounded(*t.object, t0, t1);
        },
    }
}

/// One axis of the witness transfer for a translated surface: a slab
/// condition on the moved ray becomes the shifted slab condition on the
/// original ray.
proof fn lemma_slab_shift(mn: int, mx: int, o: int, off: int, d: int, p: int, q: int)
    requires
        q > 0,
        crate::aabb::slab_cond(mn, mx, o - off, d, p, q),
    ensures
        crate::aabb::slab_cond(mn + off, mx + off, o, d, p, q),
{
    if d != 0 {
        assert((mn + off) * SCALE * q < o * SCALE * q + d * p && o * SCALE * q + d * p < (mx + off)
            * SCALE * q) by (nonlinear_arith)
            requires
                mn * SCALE * q < (o - off) * SCALE * q + d * p,
                (o - off) * SCALE * q + d * p < mx * SCALE * q,
                SCALE == 65536,
        ;
    }
}

/// A hit anywhere under a surface means the ray passes the surface's
/// bounding box inside the same window: what a leaf reports is never
/// lost to an ancestor's box test.
pub proof fn lemma_hit_in_box(h: Hitable, r: Ray, t_min: int, t_max: int, t0: int, t1: int)
    requires
        hitable_wf(h),
        interval_ok(h, t0, t1),
        time_ok(h, r.time as int),
        t0 <= r.time <= t1,
        abs_bounded(r.a, COORD_LIMIT as int),
        abs_bounded(r.b, COORD_LIMIT as int),
        dot3(r.b, r.b) > 0,
        spec_hit_t(h, r, t_min, t_max) is Some,
    ensures
        crate::aabb::hits_between(spec_hitable_box(h, t0, t1), r, t_min, t_max),
{
    reveal_with_fuel(hitable_wf, 3);
    reveal_with_fuel(time_ok, 3);
    reveal_with_fuel(interval_ok, 3);
    reveal_with_fuel(spec_hit_t, 3);
    reveal_with_fuel(spec_hitable_box, 3);
    match h {
        Hitable::Sphere(s) => {
            crate::sphere::lemma_sphere_hit_in_box(s.center, s.radius as int, r, t_min, t_max);
        },
        Hitable::MovingSphere(s) => {
            let c = ms_center(s, r.time as int);
            crate::moving_sphere::lemma_center_axis_ok(
                s.center_start.x as int,
                s.center_end.x as int,
                s.time_start as int,
                s.time_end as int,
                r.time as int,
            );
            crate::moving_sphere::lemma_center_axis_ok(
                s.center_start.y as int,
                s.center_end.y as int,
                s.time_start as int,
                s.time_end as int,
                r.time as int,
            );
            crate::moving_sphere::lemma_center_axis_ok(
                s.center_start.z as int,
                s.center_end.z as int,
                s.time_start as int,
                s.time_end as int,
                r.time as int,
            );
            crate::sphere::lemma_sphere_hit_in_box(c, s.radius as int, r, t_min, t_max);
            crate::moving_sphere::lemma_ms_box_contains(s, t0, t1, r.time as int);
            crate::aabb::lemma_hits_widen(
                crate::sphere::spec_sphere_box(c, s.radius as int),
                spec_hitable_box(h, t0, t1),
                r,
                t_min,
                t_max,
            );
        },
        Hitable::XyRectangle(rc) => {
            crate::xy_rectangle::lemma_rect_hit_in_box(rc, r, t_min, t_max);
        },
        Hitable::Translate(t) => {
            let moved = moved_ray(r, t.offset);
            let inner_box = spec_hitable_box(*t.object, t0, t1);
            match *t.object {
                Hitable::Sphere(s) => {
                    crate::sphere::lemma_sphere_hit_in_box(
                        s.center,
                        s.radius as int,
                        moved,
                        t_min,
                        t_max,
                    );
                },
                Hitable::MovingSphere(s) => {
                    let c = ms_center(s, moved.time as int);
                    crate::moving_sphere::lemma_center_axis_ok(
                        s.center_start.x as int,
                        s.center_end.x as int,
                        s.time_start as int,
                        s.time_end as int,
                        moved.time as int,
                    );
                    crate::moving_sphere::lemma_center_axis_ok(
                        s.center_start.y as int,
                        s.center_end.y as int,
                        s.time_start as int,
                        s.time_end as int,
                        moved.time as int,
                    );
                    crate::moving_sphere::lemma_center_axis_ok(
                        s.center_start.z as int,
                        s.center_end.z as int,
                        s.time_start as int,
                        s.time_end as int,
                        moved.time as int,
                    );
                    crate::sphere::lemma_sphere_hit_in_box(c, s.radius as int, moved, t_min, t_max);
                    crate::moving_sphere::lemma_ms_box_contains(s, t0, t1, moved.time as int);
                    crate::aabb::lemma_hits_widen(
                        crate::sphere::spec_sphere_box(c, s.radius as int),
                        inner_box,
                        moved,
                        t_min,
                        t_max,
                    );
                },
                Hitable::XyRectangle(rc) => {
                    crate::xy_rectangle::lemma_rect_hit_in_box(rc, moved, t_min, t_max);
                },
                Hitable::Translate(_) => {
                    assert(false);
                },
            }
            // Transfer the witness from the moved ray to the original
            // ray against the shifted box.
            lemma_box_bounded(*t.object, t0, t1);
            let (p, q) = choose|p: int, q: int|
                crate::aabb::hit_witness(inner_box, moved, t_min, t_max, p, q);
            assert(crate::aabb::hit_witness(inner_box, moved, t_min, t_max, p, q));
            lemma_slab_shift(
                inner_box.min.x as int,
                inner_box.max.x as int,
                r.a.x as int,
                t.offset.x as int,
                r.b.x as int,
                p,
                q,
            );
            lemma_slab_shift(
                inner_box.min.y as int,
                inner_box.max.y as int,
                r.a.y as int,
                t.offset.y as int,
                r.b.y as int,
                p,
                q,
            );
            lemma_slab_shift(
                inner_box.min.z as int,
                inner_box.max.z as int,
                r.a.z as int,
                t.offset.z as int,
                r.b.z as int,
                p,
                q,
            );
            assert(crate::aabb::hit_witness(spec_hitable_box(h, t0, t1), r, t_min, t_max, p, q));
        },
    }
}


/// An accepted hit parameter lies strictly inside the window it was
/// tested against.
pub proof fn lemma_hit_in_window(h: Hitable, r: Ray, a: int, b: int)
    requires
        spec_hit_t(h, r, a, b) is Some,
    ensures
        a < spec_hit_t(h, r, a, b)->0 < b,
    decreases h,
{
    match h {
        Hitable::Translate(t0) => {
            lemma_hit_in_window(*t0.object, moved_ray(r, t0.offset), a, b);
        },
        _ => {},
    }
}

/// The nearer sphere root never exceeds the farther one.
proof fn lemma_sphere_roots_ordered(center: Vec3, radius: int, r: Ray)
    requires
        dot3(r.b, r.b) > 0,
        crate::sphere::sphere_disc(center, radius, r) > 0,
    ensures
        crate::sphere::sphere_root(center, radius, r, false) <= crate::sphere::sphere_root(
            center,
            radius,
            r,
            true,
        ),
{
    let bq = crate::sphere::sphere_b(center, r);
    let disc = crate::sphere::sphere_disc(center, radius, r);
    crate::vec3::lemma_isqrt_exists(disc);
    let sd = crate::vec3::sqrt_floor(disc);
    assert((-bq - sd) * SCALE <= (-bq + sd) * SCALE) by (nonlinear_arith)
        requires
            sd >= 0,
            SCALE == 65536,
    ;
    crate::fixed::lemma_tdiv_monotone(
        (-bq - sd) * SCALE,
        (-bq + sd) * SCALE,
        crate::sphere::sphere_a(r),
    );
}

/// How a surface's hit answer moves with the window's upper bound: a hit
/// found in a narrower window is found unchanged in a wider one; a hit
/// below a narrower bound survives narrowing; a hit at or beyond it
/// disappears.
pub proof fn lemma_hit_window(h: Hitable, r: Ray, a: int, b1: int, b2: int)
    requires
        dot3(r.b, r.b) > 0,
        b2 <= b1,
    ensures
        spec_hit_t(h, r, a, b2) is Some ==> spec_hit_t(h, r, a, b1) == spec_hit_t(h, r, a, b2),
        (spec_hit_t(h, r, a, b1) matches Some(t) && t < b2) ==> spec_hit_t(h, r, a, b2)
            == spec_hit_t(h, r, a, b1),
        (spec_hit_t(h, r, a, b1) is None || spec_hit_t(h, r, a, b1)->0 >= b2) ==> spec_hit_t(
            h,
            r,
            a,
            b2,
        ) is None,
    decreases h,
{
    match h {
        Hitable::Sphere(s) => {
            if crate::sphere::sphere_disc(s.center, s.radius as int, r) > 0 {
                lemma_sphere_roots_ordered(s.center, s.radius as int, r);
            }
        },
        Hitable::MovingSphere(s) => {
            let c = ms_center(s, r.time as int);
            if crate::sphere::sphere_disc(c, s.radius as int, r) > 0 {
                lemma_sphere_roots_ordered(c, s.radius as int, r);
            }
        },
        Hitable::XyRectangle(_) => {},
        Hitable::Translate(t0) => {
            lemma_hit_window(*t0.object, moved_ray(r, t0.offset), a, b1, b2);
        },
    }
}

} // verus!
