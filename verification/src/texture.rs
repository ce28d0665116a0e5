use vstd::prelude::*;

use crate::perlin::perlin_wf;
use crate::perlin::Perlin;
use crate::vec3::abs_bounded;
use crate::vec3::Vec3;
use crate::COORD_LIMIT;

verus! {

/// Width of one checker cell: the sign of `sin(10 * x)` flips every
/// `pi / 10` world units, and this is that period in fixed point.
pub const CHECKER_PERIOD: i64 = 20589;

/// A colour everywhere the same.
pub struct Solid {
    pub color: Vec3,
}

/// Two textures alternating in a three-dimensional checker pattern.
pub struct Checker {
    pub odd: Box<Texture>,
    pub even: Box<Texture>,
}

/// Grey lattice noise.
pub struct PerlinNoise {
    pub noise: Perlin,
}

/// The closed set of textures a material can sample.
pub enum Texture {
    Solid(Solid),
    Checker(Checker),
    PerlinNoise(PerlinNoise),
}

/// Colour channels a texture may produce stay inside the scene range.
pub open spec fn texture_wf(t: Texture) -> bool
    decreases t,
{
    match t {
        Texture::Solid(s) => abs_bounded(s.color, COORD_LIMIT as int),
        Texture::Checker(c) => texture_wf(*c.odd) && texture_wf(*c.even),
        Texture::PerlinNoise(p) => perlin_wf(p.noise),
    }
}

/// Which cell of the checker pattern the point falls in: the summed cell
/// parity decides between the two sub-textures, mirroring the sign of
/// `sin(10x) * sin(10y) * sin(10z)`.
pub open spec fn checker_is_odd(p: Vec3) -> bool {
    (p.x as int / (CHECKER_PERIOD as int) + p.y as int / (CHECKER_PERIOD as int) + p.z as int / (
    CHECKER_PERIOD as int)) % 2 != 0
}

/// What a texture yields at surface coordinates `(u, v)` and point `p`.
pub open spec fn spec_texture_value(t: Texture, u: int, v: int, p: Vec3) -> Vec3
    decreases t,
{
    match t {
        Texture::Solid(s) => s.color,
        Texture::Checker(c) => if checker_is_odd(p) {
            spec_texture_value(*c.odd, u, v, p)
        } else {
            spec_texture_value(*c.even, u, v, p)
        },
        Texture::PerlinNoise(pn) => {
            let n = crate::perlin::spec_trilinear(
                pn.noise,
                crate::perlin::cell_of(p.x as int),
                crate::perlin::cell_of(p.y as int),
                crate::perlin::cell_of(p.z as int),
                crate::perlin::frac_smooth(p.x as int),
                crate::perlin::frac_smooth(p.y as int),
                crate::perlin::frac_smooth(p.z as int),
            );
            Vec3 { x: n as i64, y: n as i64, z: n as i64 }
        },
    }
}

impl Solid {
    pub fn new(color: Vec3) -> (r: Solid)
        ensures
            r.color == color,
    {
        Solid { color }
    }
}

impl Checker {
    pub fn new(even: Texture, odd: Texture) -> (r: Checker)
        ensures
            r.even == even,
            r.odd == odd,
    {
        Checker { odd: Box::new(odd), even: Box::new(even) }
    }
}

impl PerlinNoise {
    pub fn new(rng: &mut rand::rngs::SmallRng) -> (r: PerlinNoise)
        ensures
            perlin_wf(r.noise),
    {
        PerlinNoise { noise: Perlin::new(rng) }
    }
}

impl Texture {
    /// Sample the texture at surface coordinates `(u, v)` and point `p`.
    pub fn value(&self, u: i64, v: i64, p: Vec3) -> (r: Vec3)
        requires
            texture_wf(*self),
            abs_bounded(p, crate::POINT_LIMIT as int),
        ensures
            r == spec_texture_value(*self, u as int, v as int, p),
            abs_bounded(r, COORD_LIMIT as int),
        decreases *self,
    {
        match self {
            Texture::Solid(s) => s.color,
            Texture::Checker(c) => {
                proof {
                    crate::fixed::lemma_div_floor_range(
                        p.x as int,
                        CHECKER_PERIOD as int,
                        crate::POINT_LIMIT as int,
                    );
                    crate::fixed::lemma_div_floor_range(
                        p.y as int,
                        CHECKER_PERIOD as int,
                        crate::POINT_LIMIT as int,
                    );
                    crate::fixed::lemma_div_floor_range(
                        p.z as int,
                        CHECKER_PERIOD as int,
                        crate::POINT_LIMIT as int,
                    );
                }
                let kx = crate::fixed::div_floor(p.x, CHECKER_PERIOD);
                let ky = crate::fixed::div_floor(p.y, CHECKER_PERIOD);
                let kz = crate::fixed::div_floor(p.z, CHECKER_PERIOD);
                let parity = crate::fixed::mod_euclid(kx + ky + kz, 2);
                if parity != 0 {
                    c.odd.value(u, v, p)
                } else {
                    c.even.value(u, v, p)
                }
            },
            Texture::PerlinNoise(pn) => {
                let n = pn.noise.noise(p);
                Vec3 { x: n, y: n, z: n }
            },
        }
    }
}

} // verus!
