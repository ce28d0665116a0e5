use vstd::prelude::*;

use crate::aabb::box_wf;
use crate::aabb::Aabb;
use crate::fixed::div_trunc;
use crate::fixed::lemma_tdiv_bounds;
use crate::fixed::lemma_tdiv_exact;
use crate::fixed::lemma_tdiv_monotone;
use crate::fixed::tdiv;
use crate::hitable::HitRecord;
use crate::material::material_wf;
use crate::material::Material;
use crate::ray::ray_ok;
use crate::ray::Ray;
use crate::sphere::spec_sphere_hit_t;
use crate::sphere::sphere_hit_core;
use crate::vec3::abs_bounded;
use crate::vec3::Vec3;
use crate::COORD_LIMIT;
use crate::T_LIMIT;

verus! {

/// A sphere whose centre moves linearly from `center_start` at
/// `time_start` to `center_end` at `time_end`, for motion blur.
pub struct MovingSphere {
    pub center_start: Vec3,
    pub center_end: Vec3,
    pub time_start: i64,
    pub time_end: i64,
    pub radius: i64,
    pub material: Material,
}

pub open spec fn moving_sphere_wf(s: MovingSphere) -> bool {
    &&& abs_bounded(s.center_start, COORD_LIMIT as int)
    &&& abs_bounded(s.center_end, COORD_LIMIT as int)
    &&& 0 < s.radius <= COORD_LIMIT
    &&& -T_LIMIT <= s.time_start < s.time_end <= T_LIMIT
    &&& material_wf(s.material)
}

/// One axis of the interpolated centre at `time`: the linear blend of the
/// endpoint positions, rounded toward zero.
pub open spec fn ms_center_axis(s0: int, e0: int, t0: int, t1: int, time: int) -> int {
    s0 + tdiv((e0 - s0) * (time - t0), t1 - t0)
}

/// The interpolated position stays between the endpoint positions, and it
/// reaches them exactly at the interval's ends.
pub proof fn lemma_interp_in_hull(s0: int, e0: int, t0: int, t1: int, time: int)
    requires
        t0 < t1,
        t0 <= time <= t1,
    ensures
        e0 >= s0 ==> s0 <= ms_center_axis(s0, e0, t0, t1, time) <= e0,
        e0 < s0 ==> e0 <= ms_center_axis(s0, e0, t0, t1, time) <= s0,
        time == t0 ==> ms_center_axis(s0, e0, t0, t1, time) == s0,
        time == t1 ==> ms_center_axis(s0, e0, t0, t1, time) == e0,
{
    let d = e0 - s0;
    let k = time - t0;
    let bigt = t1 - t0;
    if d >= 0 {
        assert(0 <= d * k <= d * bigt) by (nonlinear_arith)
            requires
                d >= 0,
                0 <= k <= bigt,
        ;
        lemma_tdiv_bounds(d * k, bigt);
        lemma_tdiv_monotone(d * k, d * bigt, bigt);
        lemma_tdiv_exact(d, bigt);
    } else {
        assert(d * bigt <= d * k <= 0) by (nonlinear_arith)
            requires
                d < 0,
                0 <= k <= bigt,
        ;
        lemma_tdiv_bounds(d * k, bigt);
        lemma_tdiv_monotone(d * bigt, d * k, bigt);
        lemma_tdiv_exact(d, bigt);
    }
    if time == t0 {
        vstd::arithmetic::div_mod::lemma_div_of0(bigt);
        assert(d * 0 == 0) by (nonlinear_arith);
    }
}

/// The interpolated centre as a whole vector.
pub open spec fn ms_center(s: MovingSphere, time: int) -> Vec3 {
    Vec3 {
        x: ms_center_axis(
            s.center_start.x as int,
            s.center_end.x as int,
            s.time_start as int,
            s.time_end as int,
            time,
        ) as i64,
        y: ms_center_axis(
            s.center_start.y as int,
            s.center_end.y as int,
            s.time_start as int,
            s.time_end as int,
            time,
        ) as i64,
        z: ms_center_axis(
            s.center_start.z as int,
            s.center_end.z as int,
            s.time_start as int,
            s.time_end as int,
            time,
        ) as i64,
    }
}

impl MovingSphere {
    pub fn new(
        center_start: Vec3,
        center_end: Vec3,
        time_start: i64,
        time_end: i64,
        radius: i64,
        material: Material,
    ) -> (r: MovingSphere)
        ensures
            r.center_start == center_start,
            r.center_end == center_end,
            r.time_start == time_start,
            r.time_end == time_end,
            r.radius == radius,
            r.material == material,
    {
        MovingSphere { center_start, center_end, time_start, time_end, radius, material }
    }

    /// Where the centre is at `time`.
    pub fn center(&self, time: i64) -> (r: Vec3)
        requires
            moving_sphere_wf(*self),
            self.time_start <= time <= self.time_end,
        ensures
            r == ms_center(*self, time as int),
            abs_bounded(r, COORD_LIMIT as int),
    {
        proof {
            lemma_center_axis_ok(self.center_start.x as int, self.center_end.x as int, self.time_start as int, self.time_end as int, time as int);
            lemma_center_axis_ok(self.center_start.y as int, self.center_end.y as int, self.time_start as int, self.time_end as int, time as int);
            lemma_center_axis_ok(self.center_start.z as int, self.center_end.z as int, self.time_start as int, self.time_end as int, time as int);
        }
        let bigt = self.time_end - self.time_start;
        let k = time - self.time_start;
        let cx = self.center_start.x + div_trunc(
            ((self.center_end.x - self.center_start.x) as i128) * (k as i128),
            bigt as i128,
        ) as i64;
        let cy = self.center_start.y + div_trunc(
            ((self.center_end.y - self.center_start.y) as i128) * (k as i128),
            bigt as i128,
        ) as i64;
        let cz = self.center_start.z + div_trunc(
            ((self.center_end.z - self.center_start.z) as i128) * (k as i128),
            bigt as i128,
        ) as i64;
        Vec3 { x: cx, y: cy, z: cz }
    }

    /// The closest intersection with the sphere at the ray's own time.
    pub fn hit(&self, ray: &Ray, t_min: i64, t_max: i64) -> (r: Option<HitRecord>)
        requires
            moving_sphere_wf(*self),
            ray_ok(*ray),
            self.time_start <= ray.time <= self.time_end,
            -T_LIMIT <= t_min <= T_LIMIT,
            -T_LIMIT <= t_max <= T_LIMIT,
        ensures
            (r is Some) <==> (spec_sphere_hit_t(
                ms_center(*self, ray.time as int),
                self.radius as int,
                *ray,
                t_min as int,
                t_max as int,
            ) is Some),
            r is Some ==> Some(r->0.t as int) == spec_sphere_hit_t(
                ms_center(*self, ray.time as int),
                self.radius as int,
                *ray,
                t_min as int,
                t_max as int,
            ),
            r is Some ==> t_min < r->0.t < t_max,
            r is Some ==> r->0.p.x == crate::ray::ray_at_axis(*ray, r->0.t as int, 0)
                && r->0.p.y == crate::ray::ray_at_axis(*ray, r->0.t as int, 1) && r->0.p.z
                == crate::ray::ray_at_axis(*ray, r->0.t as int, 2),
            r is Some ==> *(r->0.material) == self.material,
            r is Some ==> crate::hitable::hit_record_wf(r->0),
            r is Some ==> r->0.u == 0 && r->0.v == 0,
            r is Some ==> crate::sphere::sphere_record_ok(
                ms_center(*self, ray.time as int),
                self.radius as int,
                *ray,
                r->0.t as int,
                r->0.normal,
                r->0.front_face,
            ),
    {
        let center = self.center(ray.time());
        sphere_hit_core(center, self.radius, &self.material, ray, t_min, t_max)
    }

    /// A padded box that covers the sphere at every instant of
    /// `[t0, t1]`: the hull of the boxes at the two ends, since the centre
    /// moves monotonically between them.
    pub fn bounding_box(&self, t0: i64, t1: i64) -> (r: Option<Aabb>)
        requires
            moving_sphere_wf(*self),
            self.time_start <= t0 <= t1 <= self.time_end,
        ensures
            r is Some,
            r->0 == crate::aabb::spec_surrounding_box(
                crate::sphere::spec_sphere_box(ms_center(*self, t0 as int), self.radius as int),
                crate::sphere::spec_sphere_box(ms_center(*self, t1 as int), self.radius as int),
            ),
            box_wf(r->0),
            abs_bounded(r->0.min, 0x900_0000),
            abs_bounded(r->0.max, 0x900_0000),
    {
        let c0 = self.center(t0);
        let c1 = self.center(t1);
        let pad = self.radius + 1;
        let box0 = Aabb::new(
            Vec3 { x: c0.x - pad, y: c0.y - pad, z: c0.z - pad },
            Vec3 { x: c0.x + pad, y: c0.y + pad, z: c0.z + pad },
        );
        let box1 = Aabb::new(
            Vec3 { x: c1.x - pad, y: c1.y - pad, z: c1.z - pad },
            Vec3 { x: c1.x + pad, y: c1.y + pad, z: c1.z + pad },
        );
        Some(Aabb::surrounding_box(box0, box1))
    }
}

/// Interpolation is monotone in time, axis by axis.
pub proof fn lemma_interp_monotone(s0: int, e0: int, t0: int, t1: int, k1: int, k2: int)
    requires
        t0 < t1,
        t0 <= k1 <= k2 <= t1,
    ensures
        e0 >= s0 ==> ms_center_axis(s0, e0, t0, t1, k1) <= ms_center_axis(s0, e0, t0, t1, k2),
        e0 < s0 ==> ms_center_axis(s0, e0, t0, t1, k2) <= ms_center_axis(s0, e0, t0, t1, k1),
{
    let d = e0 - s0;
    if d >= 0 {
        assert(d * (k1 - t0) <= d * (k2 - t0)) by (nonlinear_arith)
            requires
                d >= 0,
                k1 <= k2,
        ;
    } else {
        assert(d * (k2 - t0) <= d * (k1 - t0)) by (nonlinear_arith)
            requires
                d < 0,
                k1 <= k2,
        ;
    }
    if d >= 0 {
        lemma_tdiv_monotone(d * (k1 - t0), d * (k2 - t0), t1 - t0);
    } else {
        lemma_tdiv_monotone(d * (k2 - t0), d * (k1 - t0), t1 - t0);
    }
}

/// The box built for `[t0, t1]` contains the sphere's box at every
/// instant between them: the centre moves monotonically from one end to
/// the other.
pub proof fn lemma_ms_box_contains(s: MovingSphere, t0: int, t1: int, time: int)
    requires
        moving_sphere_wf(s),
        s.time_start <= t0 <= time <= t1 <= s.time_end,
    ensures
        crate::aabb::box_contains_box(
            crate::aabb::spec_surrounding_box(
                crate::sphere::spec_sphere_box(ms_center(s, t0), s.radius as int),
                crate::sphere::spec_sphere_box(ms_center(s, t1), s.radius as int),
            ),
            crate::sphere::spec_sphere_box(ms_center(s, time), s.radius as int),
        ),
{
    lemma_center_axis_ok(s.center_start.x as int, s.center_end.x as int, s.time_start as int, s.time_end as int, t0);
    lemma_center_axis_ok(s.center_start.y as int, s.center_end.y as int, s.time_start as int, s.time_end as int, t0);
    lemma_center_axis_ok(s.center_start.z as int, s.center_end.z as int, s.time_start as int, s.time_end as int, t0);
    lemma_center_axis_ok(s.center_start.x as int, s.center_end.x as int, s.time_start as int, s.time_end as int, t1);
    lemma_center_axis_ok(s.center_start.y as int, s.center_end.y as int, s.time_start as int, s.time_end as int, t1);
    lemma_center_axis_ok(s.center_start.z as int, s.center_end.z as int, s.time_start as int, s.time_end as int, t1);
    lemma_center_axis_ok(s.center_start.x as int, s.center_end.x as int, s.time_start as int, s.time_end as int, time);
    lemma_center_axis_ok(s.center_start.y as int, s.center_end.y as int, s.time_start as int, s.time_end as int, time);
    lemma_center_axis_ok(s.center_start.z as int, s.center_end.z as int, s.time_start as int, s.time_end as int, time);
    lemma_interp_monotone(s.center_start.x as int, s.center_end.x as int, s.time_start as int, s.time_end as int, t0, time);
    lemma_interp_monotone(s.center_start.x as int, s.center_end.x as int, s.time_start as int, s.time_end as int, time, t1);
    lemma_interp_monotone(s.center_start.y as int, s.center_end.y as int, s.time_start as int, s.time_end as int, t0, time);
    lemma_interp_monotone(s.center_start.y as int, s.center_end.y as int, s.time_start as int, s.time_end as int, time, t1);
    lemma_interp_monotone(s.center_start.z as int, s.center_end.z as int, s.time_start as int, s.time_end as int, t0, time);
    lemma_interp_monotone(s.center_start.z as int, s.center_end.z as int, s.time_start as int, s.time_end as int, time, t1);
}

/// The interpolated centre axis stays inside the coordinate range.
pub proof fn lemma_center_axis_ok(s0: int, e0: int, t0: int, t1: int, time: int)
    requires
        -T_LIMIT <= t0 < t1 <= T_LIMIT,
        t0 <= time <= t1,
        -COORD_LIMIT <= s0 <= COORD_LIMIT,
        -COORD_LIMIT <= e0 <= COORD_LIMIT,
    ensures
        -COORD_LIMIT <= ms_center_axis(s0, e0, t0, t1, time) <= COORD_LIMIT,
        -0x1000_0000 <= tdiv((e0 - s0) * (time - t0), t1 - t0) <= 0x1000_0000,
        -0x4000_0000_0000_0000_0000 <= (e0 - s0) * (time - t0) <= 0x4000_0000_0000_0000_0000,
{
    lemma_interp_in_hull(s0, e0, t0, t1, time);
    assert(-0x4000_0000_0000_0000_0000 <= (e0 - s0) * (time - t0) <= 0x4000_0000_0000_0000_0000)
        by (nonlinear_arith)
        requires
            -0x8000_0000 <= e0 - s0 <= 0x8000_0000,
            0 <= time - t0 <= 0x4000_0000_0000,
    ;
}

} // verus!
