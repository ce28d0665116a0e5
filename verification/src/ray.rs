use vstd::prelude::*;

use crate::fixed::tdiv;
use crate::vec3::abs_bounded;
use crate::vec3::dot3;
use crate::vec3::Vec3;
use crate::COORD_LIMIT;
use crate::HIT_EPS;
use crate::SCALE;
use crate::T_LIMIT;

verus! {

/// A ray `a + t * b`: `a` is the origin, `b` the direction, and `time` the
/// instant (within the camera's shutter interval) at which the ray samples
/// the scene.
#[derive(Clone, Copy)]
pub struct Ray {
    pub a: Vec3,
    pub b: Vec3,
    pub time: i64,
}

/// The rays the tracer hands to a scene: origin and direction inside the
/// scene coordinate range, and a direction that is not the zero vector.
pub open spec fn ray_wf(r: Ray) -> bool {
    &&& abs_bounded(r.a, COORD_LIMIT as int)
    &&& abs_bounded(r.b, COORD_LIMIT as int)
    &&& dot3(r.b, r.b) > 0
}

/// The slightly wider ray class the individual surfaces accept: a
/// translated surface moves the ray origin by its offset before testing,
/// which can push it a little outside the scene range.
pub open spec fn ray_ok(r: Ray) -> bool {
    &&& abs_bounded(r.a, 0x800_0000)
    &&& abs_bounded(r.b, COORD_LIMIT as int)
    &&& dot3(r.b, r.b) > 0
}

/// The `axis` component of the point the ray reaches at fixed-point
/// parameter `t`, rounding toward zero.
pub open spec fn ray_at_axis(r: Ray, t: int, axis: int) -> int {
    if axis == 0 {
        r.a.x + tdiv(r.b.x * t, SCALE as int)
    } else if axis == 1 {
        r.a.y + tdiv(r.b.y * t, SCALE as int)
    } else {
        r.a.z + tdiv(r.b.z * t, SCALE as int)
    }
}

impl Ray {
    pub fn new(a: Vec3, b: Vec3, time: i64) -> (r: Ray)
        ensures
            r.a == a,
            r.b == b,
            r.time == time,
    {
        Ray { a, b, time }
    }

    pub fn origin(&self) -> (r: Vec3)
        ensures
            r == self.a,
    {
        self.a
    }

    pub fn direction(&self) -> (r: Vec3)
        ensures
            r == self.b,
    {
        self.b
    }

    pub fn time(&self) -> (r: i64)
        ensures
            r == self.time,
    {
        self.time
    }

    /// The point reached after travelling the fixed-point parameter `t`
    /// along the ray.
    pub fn point_at_parameter(&self, t: i64) -> (r: Vec3)
        requires
            abs_bounded(self.a, 0x800_0000),
            abs_bounded(self.b, COORD_LIMIT as int),
            -T_LIMIT <= t <= T_LIMIT,
        ensures
            r.x == ray_at_axis(*self, t as int, 0),
            r.y == ray_at_axis(*self, t as int, 1),
            r.z == ray_at_axis(*self, t as int, 2),
    {
        proof {
            lemma_ray_step_bounds(self.b.x as int, t as int);
            lemma_ray_step_bounds(self.b.y as int, t as int);
            lemma_ray_step_bounds(self.b.z as int, t as int);
        }
        let sx = crate::fixed::div_trunc((self.b.x as i128) * (t as i128), SCALE as i128) as i64;
        let sy = crate::fixed::div_trunc((self.b.y as i128) * (t as i128), SCALE as i128) as i64;
        let sz = crate::fixed::div_trunc((self.b.z as i128) * (t as i128), SCALE as i128) as i64;
        Vec3 { x: self.a.x + sx, y: self.a.y + sy, z: self.a.z + sz }
    }
}

/// Componentwise clamp into a symmetric range; the identity on values
/// already inside it.
fn clamp_vec(v: Vec3, lim: i64) -> (r: Vec3)
    requires
        lim >= 0,
    ensures
        abs_bounded(r, lim as int),
        abs_bounded(v, lim as int) ==> r == v,
        r.x == crate::sphere::clamp_val(v.x as int, lim as int),
        r.y == crate::sphere::clamp_val(v.y as int, lim as int),
        r.z == crate::sphere::clamp_val(v.z as int, lim as int),
{
    let cx = if v.x > lim {
        lim
    } else if v.x < -lim {
        -lim
    } else {
        v.x
    };
    let cy = if v.y > lim {
        lim
    } else if v.y < -lim {
        -lim
    } else {
        v.y
    };
    let cz = if v.z > lim {
        lim
    } else if v.z < -lim {
        -lim
    } else {
        v.z
    };
    Vec3 { x: cx, y: cy, z: cz }
}

/// The `k`-th surface of the scene is one the path's first bounce hit:
/// its own full-window intersection is exactly the traced parameter, and
/// when it is a light, the path's result is the emitted colour there.
pub open spec fn light_leaf_result(
    nodes: Seq<crate::bvh::BvhInner>,
    root: int,
    k: int,
    r: Ray,
    ht: int,
    res: Vec3,
) -> bool {
    &&& crate::hitable::spec_hit_t(
        crate::bvh::leaves(nodes, root)[k],
        r,
        HIT_EPS as int,
        T_LIMIT as int,
    ) == Some(ht)
    &&& (crate::hitable::material_of(crate::bvh::leaves(nodes, root)[k])
        is DiffuseLight ==> res == crate::hitable::emitted_at(
        crate::bvh::leaves(nodes, root)[k],
        r,
        ht,
    ))
}

/// The `k`-th surface of the scene was hit at the traced parameter and
/// is not a light: such a surface discharges the light clause for any
/// later result.
pub open spec fn nonlight_leaf(
    nodes: Seq<crate::bvh::BvhInner>,
    root: int,
    k: int,
    r: Ray,
    ht: int,
) -> bool {
    &&& crate::hitable::spec_hit_t(
        crate::bvh::leaves(nodes, root)[k],
        r,
        HIT_EPS as int,
        T_LIMIT as int,
    ) == Some(ht)
    &&& !(crate::hitable::material_of(crate::bvh::leaves(nodes, root)[k]) is DiffuseLight)
}

/// Discharge the light-case obligation from a non-light witness hit at
/// the same parameter.
proof fn lemma_nonlight_discharge(
    nodes: Seq<crate::bvh::BvhInner>,
    root: int,
    r: Ray,
    ht: int,
    res: Vec3,
)
    requires
        exists|k: int|
            0 <= k < crate::bvh::leaves(nodes, root).len() && #[trigger] nonlight_leaf(
                nodes,
                root,
                k,
                r,
                ht,
            ),
    ensures
        exists|k: int|
            0 <= k < crate::bvh::leaves(nodes, root).len() && #[trigger] light_leaf_result(
                nodes,
                root,
                k,
                r,
                ht,
                res,
            ),
{
    let k = choose|k: int|
        0 <= k < crate::bvh::leaves(nodes, root).len() && #[trigger] nonlight_leaf(
            nodes,
            root,
            k,
            r,
            ht,
        );
    assert(light_leaf_result(nodes, root, k, r, ht, res));
}

impl Ray {
    /// The colour this ray gathers from the scene: emitted light plus
    /// attenuated light from up to fifty bounces, written as a loop with
    /// a running attenuation product and emission sum. The colour
    /// accumulators saturate instead of overflowing, as over-bright
    /// scenes are clamped anyway when pixels are quantised.
    pub fn color(
        &self,
        world: &crate::bvh::BvhNode,
        rng: &mut rand::rngs::SmallRng,
        background: &Vec3,
        depth: u32,
    ) -> (r: Vec3)
        requires
            ray_wf(*self),
            crate::bvh::bvh_wf(*world),
            crate::hitable_list::list_time_ok(
                crate::bvh::leaves(world.nodes@, world.root as int),
                self.time as int,
            ),
            abs_bounded(*background, COORD_LIMIT as int),
        ensures
            abs_bounded(r, 0x100_0000_0000),
            depth >= 50 ==> r == (Vec3 { x: 0, y: 0, z: 0 }),
            depth < 50 && (crate::bvh::spec_bvh_hit_t(
                world.nodes@,
                world.root as int,
                *self,
                HIT_EPS as int,
                T_LIMIT as int,
            ) is None) ==> r == *background,
            depth < 50 && (crate::bvh::spec_bvh_hit_t(
                world.nodes@,
                world.root as int,
                *self,
                HIT_EPS as int,
                T_LIMIT as int,
            ) is Some) ==> exists|k: int|
                0 <= k < crate::bvh::leaves(world.nodes@, world.root as int).len()
                    && #[trigger] light_leaf_result(
                    world.nodes@,
                    world.root as int,
                    k,
                    *self,
                    crate::bvh::spec_bvh_hit_t(
                        world.nodes@,
                        world.root as int,
                        *self,
                        HIT_EPS as int,
                        T_LIMIT as int,
                    )->0,
                    r,
                ),
    {
        let mut acc_color = Vec3 { x: 0, y: 0, z: 0 };
        let mut acc_att = Vec3 { x: SCALE, y: SCALE, z: SCALE };
        let mut ray = *self;
        let mut d = depth;
        let ghost mut first = true;
        while d < 50
            invariant
                ray_wf(ray),
                crate::bvh::bvh_wf(*world),
                crate::hitable_list::list_time_ok(
                    crate::bvh::leaves(world.nodes@, world.root as int),
                    ray.time as int,
                ),
                abs_bounded(*background, COORD_LIMIT as int),
                depth <= d,
                depth >= 50 ==> first,
                abs_bounded(acc_att, 0x40_0000_0000),
                abs_bounded(acc_color, 0x100_0000_0000),
                first ==> d == depth && ray == *self && acc_att == (Vec3 {
                    x: SCALE,
                    y: SCALE,
                    z: SCALE,
                }) && acc_color == (Vec3 { x: 0, y: 0, z: 0 }),
                !first ==> !(depth < 50 && (crate::bvh::spec_bvh_hit_t(
                    world.nodes@,
                    world.root as int,
                    *self,
                    HIT_EPS as int,
                    T_LIMIT as int,
                ) is None)),
                !first && depth < 50 && (crate::bvh::spec_bvh_hit_t(
                    world.nodes@,
                    world.root as int,
                    *self,
                    HIT_EPS as int,
                    T_LIMIT as int,
                ) is Some) ==> exists|k: int|
                    0 <= k < crate::bvh::leaves(world.nodes@, world.root as int).len()
                        && #[trigger] nonlight_leaf(
                        world.nodes@,
                        world.root as int,
                        k,
                        *self,
                        crate::bvh::spec_bvh_hit_t(
                            world.nodes@,
                            world.root as int,
                            *self,
                            HIT_EPS as int,
                            T_LIMIT as int,
                        )->0,
                    ),
            decreases 50 - d,
        {
            match world.hit(&ray, HIT_EPS, T_LIMIT) {
                None => {
                    let added = clamp_vec(
                        acc_att.mul_vec_fp(*background),
                        0x100_0000_0000,
                    );
                    let out = clamp_vec(acc_color.add(added), 0x100_0000_0000);
                    proof {
                        if !first && depth < 50 {
                            lemma_nonlight_discharge(
                                world.nodes@,
                                world.root as int,
                                *self,
                                crate::bvh::spec_bvh_hit_t(
                                    world.nodes@,
                                    world.root as int,
                                    *self,
                                    HIT_EPS as int,
                                    T_LIMIT as int,
                                )->0,
                                out,
                            );
                        }
                        if first {
                            crate::fixed::lemma_tdiv_exact(background.x as int, SCALE as int);
                            crate::fixed::lemma_tdiv_exact(background.y as int, SCALE as int);
                            crate::fixed::lemma_tdiv_exact(background.z as int, SCALE as int);
                            assert(SCALE as int * background.x == background.x * SCALE)
                                by (nonlinear_arith);
                            assert(SCALE as int * background.y == background.y * SCALE)
                                by (nonlinear_arith);
                            assert(SCALE as int * background.z == background.z * SCALE)
                                by (nonlinear_arith);
                        }
                    }
                    return out;
                },
                Some(rec) => {
                    let ghost scene = crate::bvh::leaves(world.nodes@, world.root as int);
                    let ghost k = choose|k: int|
                        0 <= k < scene.len() && crate::hitable::hitable_wf(#[trigger] scene[k])
                            && crate::hitable::record_fields_match(scene[k], ray, rec)
                            && crate::hitable::spec_hit_t(
                            scene[k],
                            ray,
                            HIT_EPS as int,
                            T_LIMIT as int,
                        ) == Some(rec.t as int);
                    proof {
                        crate::hitable::lemma_record_fields(scene[k], ray, rec);
                    }
                    let emitted = rec.material.emit(rec.u, rec.v, rec.p);
                    let added = clamp_vec(
                        acc_att.mul_vec_fp(emitted),
                        0x100_0000_0000,
                    );
                    acc_color = clamp_vec(acc_color.add(added), 0x100_0000_0000);
                    let (att, scat) = rec.material.scatter(&ray, &rec, rng);
                    match scat {
                        Some(scattered) => {
                            proof {
                                // The surface the path continues from is
                                // not a light: its result stays free.
                                if first {
                                    assert(nonlight_leaf(
                                        world.nodes@,
                                        world.root as int,
                                        k,
                                        *self,
                                        crate::bvh::spec_bvh_hit_t(
                                            world.nodes@,
                                            world.root as int,
                                            *self,
                                            HIT_EPS as int,
                                            T_LIMIT as int,
                                        )->0,
                                    ));
                                }
                            }
                            acc_att = clamp_vec(acc_att.mul_vec_fp(att), 0x40_0000_0000);
                            if scattered.a.x < -COORD_LIMIT || scattered.a.x > COORD_LIMIT
                                || scattered.a.y < -COORD_LIMIT || scattered.a.y > COORD_LIMIT
                                || scattered.a.z < -COORD_LIMIT || scattered.a.z > COORD_LIMIT
                                || scattered.b.x < -COORD_LIMIT || scattered.b.x > COORD_LIMIT
                                || scattered.b.y < -COORD_LIMIT || scattered.b.y > COORD_LIMIT
                                || scattered.b.z < -COORD_LIMIT || scattered.b.z > COORD_LIMIT {
                                // The path has left the modelled coordinate
                                // range; nothing out there can be hit.
                                proof {
                                    if depth < 50 && !first {
                                        lemma_nonlight_discharge(
                                            world.nodes@,
                                            world.root as int,
                                            *self,
                                            crate::bvh::spec_bvh_hit_t(
                                                world.nodes@,
                                                world.root as int,
                                                *self,
                                                HIT_EPS as int,
                                                T_LIMIT as int,
                                            )->0,
                                            acc_color,
                                        );
                                    }
                                    if first {
                                        assert(light_leaf_result(
                                            world.nodes@,
                                            world.root as int,
                                            k,
                                            *self,
                                            crate::bvh::spec_bvh_hit_t(
                                                world.nodes@,
                                                world.root as int,
                                                *self,
                                                HIT_EPS as int,
                                                T_LIMIT as int,
                                            )->0,
                                            acc_color,
                                        ));
                                    }
                                }
                                return acc_color;
                            }
                            ray = scattered;
                        },
                        None => {
                            proof {
                                if first {
                                    // The very first hit was a light: the
                                    // accumulators are still the identity,
                                    // so the result is exactly the emitted
                                    // colour at that hit.
                                    crate::fixed::lemma_tdiv_exact(emitted.x as int, SCALE as int);
                                    crate::fixed::lemma_tdiv_exact(emitted.y as int, SCALE as int);
                                    crate::fixed::lemma_tdiv_exact(emitted.z as int, SCALE as int);
                                    assert(SCALE as int * emitted.x == emitted.x * SCALE)
                                        by (nonlinear_arith);
                                    assert(SCALE as int * emitted.y == emitted.y * SCALE)
                                        by (nonlinear_arith);
                                    assert(SCALE as int * emitted.z == emitted.z * SCALE)
                                        by (nonlinear_arith);
                                    assert(rec.p == crate::hitable::ray_point(ray, rec.t as int));
                                    assert(rec.t as int == crate::bvh::spec_bvh_hit_t(
                                        world.nodes@,
                                        world.root as int,
                                        *self,
                                        HIT_EPS as int,
                                        T_LIMIT as int,
                                    )->0);
                                    assert(light_leaf_result(
                                        world.nodes@,
                                        world.root as int,
                                        k,
                                        *self,
                                        crate::bvh::spec_bvh_hit_t(
                                            world.nodes@,
                                            world.root as int,
                                            *self,
                                            HIT_EPS as int,
                                            T_LIMIT as int,
                                        )->0,
                                        acc_color,
                                    ));
                                } else if depth < 50 {
                                    lemma_nonlight_discharge(
                                        world.nodes@,
                                        world.root as int,
                                        *self,
                                        crate::bvh::spec_bvh_hit_t(
                                            world.nodes@,
                                            world.root as int,
                                            *self,
                                            HIT_EPS as int,
                                            T_LIMIT as int,
                                        )->0,
                                        acc_color,
                                    );
                                }
                            }
                            return acc_color;
                        },
                    }
                    proof {
                        first = false;
                    }
                    d = d + 1;
                },
            }
        }
        proof {
            if depth < 50 && (crate::bvh::spec_bvh_hit_t(
                world.nodes@,
                world.root as int,
                *self,
                HIT_EPS as int,
                T_LIMIT as int,
            ) is Some) {
                lemma_nonlight_discharge(
                    world.nodes@,
                    world.root as int,
                    *self,
                    crate::bvh::spec_bvh_hit_t(
                        world.nodes@,
                        world.root as int,
                        *self,
                        HIT_EPS as int,
                        T_LIMIT as int,
                    )->0,
                    acc_color,
                );
            }
        }
        acc_color
    }
}

pub proof fn lemma_ray_step_bounds(d: int, t: int)
    requires
        -COORD_LIMIT <= d <= COORD_LIMIT,
        -T_LIMIT <= t <= T_LIMIT,
    ensures
        -0x80_0000_0000_0000_0000 <= d * t <= 0x80_0000_0000_0000_0000,
        -0x80_0000_0000_0000 <= tdiv(d * t, SCALE as int) <= 0x80_0000_0000_0000,
{
    assert(-0x80_0000_0000_0000_0000 <= d * t <= 0x80_0000_0000_0000_0000) by (nonlinear_arith)
        requires
            -COORD_LIMIT <= d <= COORD_LIMIT,
            -T_LIMIT <= t <= T_LIMIT,
            COORD_LIMIT == 67108864,
            T_LIMIT == 0x2000_0000_0000,
    ;
    crate::fixed::lemma_tdiv_abs_le(d * t, SCALE as int, 0x80_0000_0000_0000);
}


/// The sky-gradient background of the open-air scenes: white blended
/// toward pale blue by the upward component of the viewing direction.
pub open spec fn spec_sky_background(r: Ray) -> Vec3 {
    let uy = crate::vec3::unit_axis(r.b, 1);
    let t = tdiv(uy + SCALE, 2);
    Vec3 {
        x: (SCALE - tdiv(t, 2)) as i64,
        y: (SCALE - tdiv(3 * t, 10)) as i64,
        z: SCALE as i64,
    }
}

/// The gradient itself: `(1 - t) * white + t * (0.5, 0.7, 1.0)` with
/// `t = (unit_direction.y + 1) / 2`, simplified channel by channel.
pub fn sky_background(ray: &Ray) -> (r: Vec3)
    requires
        abs_bounded(ray.b, COORD_LIMIT as int),
        dot3(ray.b, ray.b) > 0,
    ensures
        r == spec_sky_background(*ray),
        abs_bounded(r, 2 * SCALE as int),
{
    let unit = ray.direction().unit_vector();
    proof {
        crate::fixed::lemma_tdiv_bounds(unit.y + SCALE, 2);
        crate::fixed::lemma_tdiv_bounds((unit.y + SCALE) / 2, 2);
    }
    let t = crate::fixed::div_trunc((unit.y as i128) + (SCALE as i128), 2) as i64;
    proof {
        assert(t == tdiv(unit.y + SCALE, 2)) by {
            assert(unit.y + SCALE >= 0);
        }
        crate::fixed::lemma_tdiv_bounds(t as int, 2);
        crate::fixed::lemma_tdiv_bounds(3 * (t as int), 10);
    }
    let half = crate::fixed::div_trunc(t as i128, 2) as i64;
    let strain = crate::fixed::div_trunc(3 * (t as i128), 10) as i64;
    Vec3 { x: SCALE - half, y: SCALE - strain, z: SCALE }
}

} // verus!
