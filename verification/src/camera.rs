use vstd::prelude::*;

use crate::fixed::tdiv;
use crate::ray::ray_wf;
use crate::ray::Ray;
use crate::vec3::abs_bounded;
use crate::vec3::dot3;
use crate::vec3::vaxis;
use crate::vec3::Vec3;
use crate::SCALE;
use crate::T_LIMIT;

verus! {

/// The camera, stored as a precomputed fixed-point frame: the viewing
/// trigonometry (field of view, basis construction) happens outside and
/// hands in the frame vectors. `lower_left` is the focus-plane corner
/// relative to the origin; `horizontal` and `vertical` span the plane;
/// `u` and `v` are the unit lens axes for depth of field.
pub struct Camera {
    pub origin: Vec3,
    pub lower_left: Vec3,
    pub horizontal: Vec3,
    pub vertical: Vec3,
    pub u: Vec3,
    pub v: Vec3,
    pub lens_radius: i64,
    pub time0: i64,
    pub time1: i64,
}

pub open spec fn camera_wf(c: Camera) -> bool {
    &&& abs_bounded(c.origin, 0x380_0000)
    &&& abs_bounded(c.lower_left, 0x100_0000)
    &&& abs_bounded(c.horizontal, 0x100_0000)
    &&& abs_bounded(c.vertical, 0x100_0000)
    &&& abs_bounded(c.u, 2 * SCALE as int)
    &&& abs_bounded(c.v, 2 * SCALE as int)
    &&& 0 <= c.lens_radius <= SCALE
    &&& -T_LIMIT <= c.time0 <= c.time1 <= T_LIMIT
}

/// One axis of the viewing direction through image coordinates
/// `(s, t)`, given the lens offset the ray starts from.
pub open spec fn camera_dir_axis(c: Camera, s: int, t: int, off: Vec3, axis: int) -> int {
    vaxis(c.lower_left, axis) + tdiv(vaxis(c.horizontal, axis) * s, SCALE as int) + tdiv(
        vaxis(c.vertical, axis) * t,
        SCALE as int,
    ) - vaxis(off, axis)
}

/// One axis of the lens offset produced by a disk draw `q`.
pub open spec fn camera_offset_axis(c: Camera, q: Vec3, axis: int) -> int {
    tdiv(vaxis(c.u, axis) * tdiv(q.x * c.lens_radius, SCALE as int), SCALE as int) + tdiv(
        vaxis(c.v, axis) * tdiv(q.y * c.lens_radius, SCALE as int),
        SCALE as int,
    )
}

/// A point drawn from the unit disk (zero `z`), for lens jitter.
fn random_in_unit_disk(rng: &mut rand::rngs::SmallRng) -> (r: Vec3)
    ensures
        dot3(r, r) < SCALE * SCALE,
        abs_bounded(r, SCALE as int),
        r.z == 0,
{
    let mut tries: usize = 0;
    while tries < 64
        invariant
            true,
        decreases 64 - tries,
    {
        let cx = crate::rng::rand_below(rng, 2 * SCALE) - SCALE;
        let cy = crate::rng::rand_below(rng, 2 * SCALE) - SCALE;
        let point = Vec3 { x: cx, y: cy, z: 0 };
        let sq = point.sq_len();
        if sq < SCALE * SCALE {
            return point;
        }
        tries = tries + 1;
    }
    Vec3 { x: 0, y: 0, z: 0 }
}

/// Everything `get_ray` pins of a ray produced for image coordinates
/// `(s, t)`, whatever the generator drew: a well-formed ray inside the
/// shutter interval, its origin the camera's origin displaced over the
/// lens by some unit-disk draw, and its direction the viewing formula
/// (or straight ahead when that rounds to zero).
pub open spec fn camera_ray_matches(c: Camera, s: int, t: int, r: Ray) -> bool {
    &&& ray_wf(r)
    &&& c.time0 <= r.time <= c.time1
    &&& abs_bounded(
        Vec3 {
            x: (r.a.x - c.origin.x) as i64,
            y: (r.a.y - c.origin.y) as i64,
            z: (r.a.z - c.origin.z) as i64,
        },
        4 * SCALE as int,
    )
    &&& (c.lens_radius == 0 ==> r.a == c.origin)
    &&& (c.lens_radius > 0 ==> exists|q: Vec3|
        {
            &&& #[trigger] dot3(q, q) < SCALE * SCALE
            &&& q.z == 0
            &&& r.a.x == c.origin.x + camera_offset_axis(c, q, 0)
            &&& r.a.y == c.origin.y + camera_offset_axis(c, q, 1)
            &&& r.a.z == c.origin.z + camera_offset_axis(c, q, 2)
        })
    &&& ({
        let off = Vec3 {
            x: (r.a.x - c.origin.x) as i64,
            y: (r.a.y - c.origin.y) as i64,
            z: (r.a.z - c.origin.z) as i64,
        };
        let dx = camera_dir_axis(c, s, t, off, 0);
        let dy = camera_dir_axis(c, s, t, off, 1);
        let dz = camera_dir_axis(c, s, t, off, 2);
        if dx == 0 && dy == 0 && dz == 0 {
            r.b == (Vec3 { x: 0, y: 0, z: SCALE })
        } else {
            r.b.x == dx && r.b.y == dy && r.b.z == dz
        }
    })
}

impl Camera {
    /// Assemble a camera from its precomputed frame.
    pub fn from_frame(
        origin: Vec3,
        lower_left: Vec3,
        horizontal: Vec3,
        vertical: Vec3,
        u: Vec3,
        v: Vec3,
        lens_radius: i64,
        time0: i64,
        time1: i64,
    ) -> (r: Camera)
        ensures
            r == (Camera { origin, lower_left, horizontal, vertical, u, v, lens_radius, time0, time1 }),
    {
        Camera { origin, lower_left, horizontal, vertical, u, v, lens_radius, time0, time1 }
    }

    /// The ray through normalised image coordinates `(s, t)` (fixed point
    /// in `[0, 1]`), jittered over the lens and over the shutter interval
    /// by the generator.
    pub fn get_ray(&self, s: i64, t: i64, rng: &mut rand::rngs::SmallRng) -> (r: Ray)
        requires
            camera_wf(*self),
            0 <= s <= SCALE,
            0 <= t <= SCALE,
        ensures
            ray_wf(r),
            self.time0 <= r.time <= self.time1,
            abs_bounded(
                Vec3 {
                    x: (r.a.x - self.origin.x) as i64,
                    y: (r.a.y - self.origin.y) as i64,
                    z: (r.a.z - self.origin.z) as i64,
                },
                4 * SCALE as int,
            ),
            self.lens_radius == 0 ==> r.a == self.origin,
            self.lens_radius > 0 ==> exists|q: Vec3|
                {
                    &&& #[trigger] dot3(q, q) < SCALE * SCALE
                    &&& q.z == 0
                    &&& r.a.x == self.origin.x + camera_offset_axis(*self, q, 0)
                    &&& r.a.y == self.origin.y + camera_offset_axis(*self, q, 1)
                    &&& r.a.z == self.origin.z + camera_offset_axis(*self, q, 2)
                },
            ({
                let off = Vec3 {
                    x: (r.a.x - self.origin.x) as i64,
                    y: (r.a.y - self.origin.y) as i64,
                    z: (r.a.z - self.origin.z) as i64,
                };
                let dx = camera_dir_axis(*self, s as int, t as int, off, 0);
                let dy = camera_dir_axis(*self, s as int, t as int, off, 1);
                let dz = camera_dir_axis(*self, s as int, t as int, off, 2);
                if dx == 0 && dy == 0 && dz == 0 {
                    r.b == (Vec3 { x: 0, y: 0, z: SCALE })
                } else {
                    r.b.x == dx && r.b.y == dy && r.b.z == dz
                }
            }),
            camera_ray_matches(*self, s as int, t as int, r),
    {
        let offset = if self.lens_radius == 0 {
            Vec3 { x: 0, y: 0, z: 0 }
        } else {
            let rd0 = random_in_unit_disk(rng);
            proof {
                crate::fixed::lemma_mul_fp_le(rd0.x as int, self.lens_radius as int, SCALE as int, SCALE as int, SCALE as int);
                crate::fixed::lemma_mul_fp_le(rd0.y as int, self.lens_radius as int, SCALE as int, SCALE as int, SCALE as int);
                crate::fixed::lemma_mul_fp_le(rd0.z as int, self.lens_radius as int, SCALE as int, SCALE as int, SCALE as int);
            }
            let rd = rd0.scale_fp(self.lens_radius);
            proof {
                crate::fixed::lemma_mul_fp_le(self.u.x as int, rd.x as int, 2 * SCALE as int, SCALE as int, 2 * SCALE as int);
                crate::fixed::lemma_mul_fp_le(self.u.y as int, rd.x as int, 2 * SCALE as int, SCALE as int, 2 * SCALE as int);
                crate::fixed::lemma_mul_fp_le(self.u.z as int, rd.x as int, 2 * SCALE as int, SCALE as int, 2 * SCALE as int);
                crate::fixed::lemma_mul_fp_le(self.v.x as int, rd.y as int, 2 * SCALE as int, SCALE as int, 2 * SCALE as int);
                crate::fixed::lemma_mul_fp_le(self.v.y as int, rd.y as int, 2 * SCALE as int, SCALE as int, 2 * SCALE as int);
                crate::fixed::lemma_mul_fp_le(self.v.z as int, rd.y as int, 2 * SCALE as int, SCALE as int, 2 * SCALE as int);
            }
            let off_u = self.u.scale_fp(rd.x);
            let off_v = self.v.scale_fp(rd.y);
            let off = off_u.add(off_v);
            proof {
                assert(dot3(rd0, rd0) < SCALE * SCALE);
                assert(off.x as int == camera_offset_axis(*self, rd0, 0));
                assert(off.y as int == camera_offset_axis(*self, rd0, 1));
                assert(off.z as int == camera_offset_axis(*self, rd0, 2));
            }
            off
        };
        let origin = self.origin.add(offset);
        proof {
            crate::fixed::lemma_mul_fp_le(self.horizontal.x as int, s as int, 0x100_0000, SCALE as int, 0x100_0000);
            crate::fixed::lemma_mul_fp_le(self.horizontal.y as int, s as int, 0x100_0000, SCALE as int, 0x100_0000);
            crate::fixed::lemma_mul_fp_le(self.horizontal.z as int, s as int, 0x100_0000, SCALE as int, 0x100_0000);
            crate::fixed::lemma_mul_fp_le(self.vertical.x as int, t as int, 0x100_0000, SCALE as int, 0x100_0000);
            crate::fixed::lemma_mul_fp_le(self.vertical.y as int, t as int, 0x100_0000, SCALE as int, 0x100_0000);
            crate::fixed::lemma_mul_fp_le(self.vertical.z as int, t as int, 0x100_0000, SCALE as int, 0x100_0000);
        }
        let dir0 = self.lower_left.add(self.horizontal.scale_fp(s)).add(
            self.vertical.scale_fp(t),
        ).sub(offset);
        let dir = if dir0.x == 0 && dir0.y == 0 && dir0.z == 0 {
            Vec3 { x: 0, y: 0, z: SCALE }
        } else {
            proof {
                crate::material::lemma_nonzero_vec(dir0);
            }
            dir0
        };
        let time = if self.time0 < self.time1 {
            self.time0 + crate::rng::rand_below(rng, self.time1 - self.time0)
        } else {
            self.time0
        };
        proof {
            crate::material::lemma_nonzero_vec(Vec3 { x: 0, y: 0, z: SCALE });
        }
        Ray { a: origin, b: dir, time }
    }
}

} // verus!
