use vstd::prelude::*;

use crate::fixed::div_trunc;
use crate::fixed::isqrt;
use crate::fixed::lemma_tdiv_abs_le;
use crate::fixed::lemma_tdiv_bounds;
use crate::fixed::lemma_tdiv_exact;
use crate::fixed::lemma_tdiv_monotone;
use crate::fixed::mul_fp;
use crate::fixed::tdiv;
use crate::vec3::abs_bounded;
use crate::vec3::dot3;
use crate::vec3::is_isqrt;
use crate::vec3::lemma_scaled_bound;
use crate::vec3::lemma_dot_bound;
use crate::vec3::sqrt_floor;
use crate::vec3::unit_axis;
use crate::vec3::vaxis;
use crate::ray::Ray;
use crate::vec3::Vec3;
use crate::COORD_LIMIT;
use crate::SCALE;

verus! {

/// Largest magnitude the tracer accepts for a surface normal: normals are
/// unit vectors in fixed point, with room for rounding.
pub const NORMAL_LIMIT: i64 = 0x2_0000;

/// Largest refractive index accepted by the dielectric material.
pub const INDEX_LIMIT: i64 = 0x10_0000;

/// The base reflectance at head-on incidence, `((1 - n) / (1 + n))^2`, in
/// fixed point with truncation.
pub open spec fn spec_r0(ri: int) -> int {
    let ratio = tdiv((SCALE - ri) * SCALE, SCALE + ri);
    tdiv(ratio * ratio, SCALE as int)
}

/// Schlick's polynomial approximation of Fresnel reflectance, in fixed
/// point: `r0 + (1 - r0) * (1 - cosine)^5`.
pub open spec fn spec_schlick(cosine: int, ri: int) -> int {
    let r0 = spec_r0(ri);
    let m = SCALE - cosine;
    let p2 = tdiv(m * m, SCALE as int);
    let p4 = tdiv(p2 * p2, SCALE as int);
    let p5 = tdiv(p4 * m, SCALE as int);
    r0 + tdiv((SCALE - r0) * p5, SCALE as int)
}

proof fn lemma_r0_bounds(ri: int)
    requires
        0 <= ri <= INDEX_LIMIT,
    ensures
        0 <= spec_r0(ri) <= SCALE,
{
    let ratio = tdiv((SCALE - ri) * SCALE, SCALE + ri);
    assert(-SCALE * (SCALE + ri) <= (SCALE - ri) * SCALE <= SCALE * (SCALE + ri))
        by (nonlinear_arith)
        requires
            ri >= 0,
    ;
    lemma_tdiv_abs_le((SCALE - ri) * SCALE, SCALE + ri, SCALE as int);
    assert(0 <= ratio * ratio <= SCALE * SCALE) by (nonlinear_arith)
        requires
            -SCALE <= ratio <= SCALE,
    ;
    lemma_tdiv_abs_le(ratio * ratio, SCALE as int, SCALE as int);
    lemma_tdiv_bounds(ratio * ratio, SCALE as int);
}

/// Christophe Schlick's polynomial approximation of how reflectivity
/// changes with the incidence angle, in fixed point.
pub fn schlick(cosine: i64, reflection_index: i64) -> (r: i64)
    requires
        -SCALE <= cosine <= SCALE,
        0 <= reflection_index <= INDEX_LIMIT,
    ensures
        r == spec_schlick(cosine as int, reflection_index as int),
{
    proof {
        lemma_r0_bounds(reflection_index as int);
        assert(-SCALE * (SCALE + reflection_index) <= (SCALE - reflection_index) * SCALE <= SCALE
            * (SCALE + reflection_index)) by (nonlinear_arith)
            requires
                reflection_index >= 0,
        ;
        lemma_tdiv_abs_le(
            (SCALE - reflection_index) * SCALE,
            SCALE + reflection_index,
            SCALE as int,
        );
    }
    let ratio = div_trunc(
        ((SCALE - reflection_index) as i128) * (SCALE as i128),
        (SCALE + reflection_index) as i128,
    ) as i64;
    let r0 = mul_fp(ratio, ratio);
    let m = SCALE - cosine;
    proof {
        assert(0 <= m * m <= 4 * SCALE * SCALE) by (nonlinear_arith)
            requires
                0 <= m <= 2 * SCALE,
        ;
        lemma_tdiv_abs_le(m * m, SCALE as int, 4 * SCALE as int);
        lemma_tdiv_bounds(m * m, SCALE as int);
    }
    let p2 = mul_fp(m, m);
    proof {
        assert(0 <= p2 * p2 <= 16 * SCALE * SCALE) by (nonlinear_arith)
            requires
                0 <= p2 <= 4 * SCALE,
        ;
        lemma_tdiv_abs_le(p2 * p2, SCALE as int, 16 * SCALE as int);
        lemma_tdiv_bounds(p2 * p2, SCALE as int);
    }
    let p4 = mul_fp(p2, p2);
    proof {
        assert(0 <= p4 * m <= 32 * SCALE * SCALE) by (nonlinear_arith)
            requires
                0 <= p4 <= 16 * SCALE,
                0 <= m <= 2 * SCALE,
        ;
        lemma_tdiv_abs_le(p4 * m, SCALE as int, 32 * SCALE as int);
        lemma_tdiv_bounds(p4 * m, SCALE as int);
    }
    let p5 = mul_fp(p4, m);
    proof {
        assert(-64 * SCALE * SCALE <= (SCALE - r0) * p5 <= 64 * SCALE * SCALE)
            by (nonlinear_arith)
            requires
                0 <= r0 <= SCALE,
                0 <= p5 <= 32 * SCALE,
        ;
        lemma_tdiv_abs_le((SCALE - r0) * p5, SCALE as int, 64 * SCALE as int);
    }
    r0 + mul_fp(SCALE - r0, p5)
}

/// At head-on incidence (`cosine` equal to one) Schlick's approximation
/// gives exactly the base reflectance `((1 - n) / (1 + n))^2`.
pub proof fn lemma_schlick_head_on(ri: int)
    requires
        0 <= ri <= INDEX_LIMIT,
    ensures
        spec_schlick(SCALE as int, ri) == spec_r0(ri),
{
    let r0 = spec_r0(ri);
    vstd::arithmetic::div_mod::lemma_div_of0(SCALE as int);
    assert(tdiv(0, SCALE as int) == 0);
    assert(spec_schlick(SCALE as int, ri) == r0 + tdiv((SCALE - r0) * 0, SCALE as int));
    assert((SCALE - r0) * 0 == 0) by (nonlinear_arith);
}

/// At grazing incidence (`cosine` equal to zero) Schlick's approximation
/// gives exactly one: everything is reflected.
pub proof fn lemma_schlick_grazing(ri: int)
    requires
        0 <= ri <= INDEX_LIMIT,
    ensures
        spec_schlick(0, ri) == SCALE,
{
    let r0 = spec_r0(ri);
    lemma_r0_bounds(ri);
    lemma_tdiv_exact(SCALE as int, SCALE as int);
    assert(SCALE as int * SCALE == SCALE * (SCALE as int)) by (nonlinear_arith);
    assert(tdiv(SCALE as int * SCALE, SCALE as int) == SCALE);
    lemma_tdiv_exact(SCALE - r0, SCALE as int);
}

/// Schlick's approximation is monotone: as the incidence gets more
/// grazing (`cosine` falls, `1 - cosine` rises), the reflectance does not
/// decrease.
pub proof fn lemma_schlick_monotone(c1: int, c2: int, ri: int)
    requires
        -SCALE <= c1 <= c2 <= SCALE,
        0 <= ri <= INDEX_LIMIT,
    ensures
        spec_schlick(c1, ri) >= spec_schlick(c2, ri),
{
    let r0 = spec_r0(ri);
    lemma_r0_bounds(ri);
    let m1 = SCALE - c1;
    let m2 = SCALE - c2;
    let p2a = tdiv(m1 * m1, SCALE as int);
    let p2b = tdiv(m2 * m2, SCALE as int);
    assert(0 <= m2 * m2 <= m1 * m1 && m1 * m1 <= 4 * SCALE * SCALE) by (nonlinear_arith)
        requires
            0 <= m2 <= m1 <= 2 * SCALE,
    ;
    lemma_tdiv_monotone(m2 * m2, m1 * m1, SCALE as int);
    lemma_tdiv_bounds(m2 * m2, SCALE as int);
    lemma_tdiv_abs_le(m1 * m1, SCALE as int, 4 * SCALE as int);
    let p4a = tdiv(p2a * p2a, SCALE as int);
    let p4b = tdiv(p2b * p2b, SCALE as int);
    assert(0 <= p2b * p2b <= p2a * p2a && p2a * p2a <= 16 * SCALE * SCALE) by (nonlinear_arith)
        requires
            0 <= p2b <= p2a <= 4 * SCALE,
    ;
    lemma_tdiv_monotone(p2b * p2b, p2a * p2a, SCALE as int);
    lemma_tdiv_bounds(p2b * p2b, SCALE as int);
    lemma_tdiv_abs_le(p2a * p2a, SCALE as int, 16 * SCALE as int);
    let p5a = tdiv(p4a * m1, SCALE as int);
    let p5b = tdiv(p4b * m2, SCALE as int);
    assert(0 <= p4b * m2 <= p4a * m1 && p4a * m1 <= 32 * SCALE * SCALE) by (nonlinear_arith)
        requires
            0 <= p4b <= p4a <= 16 * SCALE,
            0 <= m2 <= m1 <= 2 * SCALE,
    ;
    lemma_tdiv_monotone(p4b * m2, p4a * m1, SCALE as int);
    lemma_tdiv_bounds(p4b * m2, SCALE as int);
    assert((SCALE - r0) * p5b <= (SCALE - r0) * p5a) by (nonlinear_arith)
        requires
            0 <= SCALE - r0,
            p5b <= p5a,
    ;
    lemma_tdiv_monotone((SCALE - r0) * p5b, (SCALE - r0) * p5a, SCALE as int);
}

/// The scale factor of the reflection formula: twice the incident
/// direction's projection on the normal, in fixed point.
pub open spec fn reflect_scale(incident: Vec3, normal: Vec3) -> int {
    tdiv(2 * dot3(incident, normal), SCALE as int)
}

/// Mirror reflection of `incident` about `normal`:
/// `incident - normal * (2 * dot(incident, normal))`.
pub fn reflect(incident: Vec3, normal: Vec3) -> (r: Vec3)
    requires
        abs_bounded(incident, COORD_LIMIT as int),
        abs_bounded(normal, NORMAL_LIMIT as int),
    ensures
        r.x == incident.x - tdiv(normal.x * reflect_scale(incident, normal), SCALE as int),
        r.y == incident.y - tdiv(normal.y * reflect_scale(incident, normal), SCALE as int),
        r.z == incident.z - tdiv(normal.z * reflect_scale(incident, normal), SCALE as int),
        abs_bounded(r, 0x400_0000_0000),
{
    proof {
        lemma_dot_bound(incident, normal, COORD_LIMIT as int, NORMAL_LIMIT as int);
    }
    let d = incident.dot(&normal);
    proof {
        lemma_tdiv_abs_le(2 * (d as int), SCALE as int, 0x1_0000_0000);
    }
    let k = div_trunc(2 * (d as i128), SCALE as i128) as i64;
    proof {
        lemma_tdiv_bounds(normal.x * k, SCALE as int);
        lemma_tdiv_bounds(normal.y * k, SCALE as int);
        lemma_tdiv_bounds(normal.z * k, SCALE as int);
        assert(-0x2_0000_0000_0000 <= normal.x * k <= 0x2_0000_0000_0000) by (nonlinear_arith)
            requires
                -NORMAL_LIMIT <= normal.x <= NORMAL_LIMIT,
                -0x1_0000_0000 <= k <= 0x1_0000_0000,
        ;
        assert(-0x2_0000_0000_0000 <= normal.y * k <= 0x2_0000_0000_0000) by (nonlinear_arith)
            requires
                -NORMAL_LIMIT <= normal.y <= NORMAL_LIMIT,
                -0x1_0000_0000 <= k <= 0x1_0000_0000,
        ;
        assert(-0x2_0000_0000_0000 <= normal.z * k <= 0x2_0000_0000_0000) by (nonlinear_arith)
            requires
                -NORMAL_LIMIT <= normal.z <= NORMAL_LIMIT,
                -0x1_0000_0000 <= k <= 0x1_0000_0000,
        ;
    }
    let sx = crate::fixed::mul_fp(normal.x, k);
    let sy = crate::fixed::mul_fp(normal.y, k);
    let sz = crate::fixed::mul_fp(normal.z, k);
    Vec3 { x: incident.x - sx, y: incident.y - sy, z: incident.z - sz }
}

/// The projection of the normalised incident direction on the normal, in
/// fixed point.
pub open spec fn refract_dt(incident: Vec3, normal: Vec3) -> int {
    tdiv(
        unit_axis(incident, 0) * normal.x + unit_axis(incident, 1) * normal.y + unit_axis(
            incident,
            2,
        ) * normal.z,
        SCALE as int,
    )
}

/// The refraction discriminant `1 - ni_over_nt^2 * (1 - cos^2)` of Snell's
/// law, in fixed point: refraction is possible exactly when it is
/// positive.
pub open spec fn refract_disc(incident: Vec3, normal: Vec3, ni: int) -> int {
    let dt = refract_dt(incident, normal);
    let dt2 = tdiv(dt * dt, SCALE as int);
    let ni2 = tdiv(ni * ni, SCALE as int);
    SCALE - tdiv(ni2 * (SCALE - dt2), SCALE as int)
}

/// One component of the refracted direction
/// `(unit(incident) - normal * dt) * ni - normal * sqrt(disc)`.
pub open spec fn refract_axis(incident: Vec3, normal: Vec3, ni: int, axis: int) -> int {
    let dt = refract_dt(incident, normal);
    let s = sqrt_floor(refract_disc(incident, normal, ni) * SCALE);
    tdiv(
        (unit_axis(incident, axis) - tdiv(vaxis(normal, axis) * dt, SCALE as int)) * ni,
        SCALE as int,
    ) - tdiv(vaxis(normal, axis) * s, SCALE as int)
}

/// Snell's law: the refracted direction, or nothing when the discriminant
/// is not positive (total internal reflection).
pub fn refract(incident: Vec3, normal: Vec3, ni_over_nt: i64) -> (r: Option<Vec3>)
    requires
        abs_bounded(incident, COORD_LIMIT as int),
        dot3(incident, incident) > 0,
        abs_bounded(normal, NORMAL_LIMIT as int),
        0 <= ni_over_nt <= INDEX_LIMIT,
    ensures
        r is Some <==> refract_disc(incident, normal, ni_over_nt as int) > 0,
        r is Some ==> r->0.x == refract_axis(incident, normal, ni_over_nt as int, 0),
        r is Some ==> r->0.y == refract_axis(incident, normal, ni_over_nt as int, 1),
        r is Some ==> r->0.z == refract_axis(incident, normal, ni_over_nt as int, 2),
        r is Some ==> abs_bounded(r->0, COORD_LIMIT as int),
{
    let uv = incident.unit_vector();
    proof {
        lemma_dot_bound(uv, normal, SCALE as int, NORMAL_LIMIT as int);
    }
    let dtr = uv.dot(&normal);
    proof {
        assert(dtr as int == unit_axis(incident, 0) * normal.x + unit_axis(incident, 1) * normal.y
            + unit_axis(incident, 2) * normal.z);
        lemma_tdiv_abs_le(dtr as int, SCALE as int, 6 * SCALE as int);
    }
    let dt = div_trunc(dtr as i128, SCALE as i128) as i64;
    proof {
        assert(0 <= dt * dt <= 36 * SCALE * SCALE) by (nonlinear_arith)
            requires
                -6 * SCALE <= dt <= 6 * SCALE,
        ;
        lemma_tdiv_abs_le(dt * dt, SCALE as int, 36 * SCALE as int);
        lemma_tdiv_bounds(dt * dt, SCALE as int);
    }
    let dt2 = mul_fp(dt, dt);
    proof {
        assert(0 <= ni_over_nt * ni_over_nt <= 256 * SCALE * SCALE) by (nonlinear_arith)
            requires
                0 <= ni_over_nt <= INDEX_LIMIT,
        ;
        lemma_tdiv_abs_le(ni_over_nt * ni_over_nt, SCALE as int, 256 * SCALE as int);
        lemma_tdiv_bounds(ni_over_nt * ni_over_nt, SCALE as int);
    }
    let ni2 = mul_fp(ni_over_nt, ni_over_nt);
    let inner = SCALE - dt2;
    proof {
        assert(-0x4000 * SCALE * SCALE <= ni2 * inner <= 0x4000 * SCALE * SCALE)
            by (nonlinear_arith)
            requires
                0 <= ni2 <= 256 * SCALE,
                -36 * SCALE <= inner <= SCALE,
        ;
        lemma_tdiv_abs_le(ni2 * inner, SCALE as int, 0x4000 * SCALE as int);
    }
    let prod = mul_fp(ni2, inner);
    let disc = SCALE - prod;
    if disc > 0 {
        let sw = isqrt((disc as u128) * (SCALE as u128));
        proof {
            assert(sw < 0x100_0000) by (nonlinear_arith)
                requires
                    sw * sw <= (disc as int) * SCALE,
                    0 < disc <= 0x4001 * SCALE,
                    SCALE == 65536,
            ;
            assert(is_isqrt((disc as int) * SCALE, sw as int));
            assert(disc as int == refract_disc(incident, normal, ni_over_nt as int));
            crate::vec3::lemma_sqrt_floor_of((disc as int) * SCALE, sw as int);
        }
        let s = sw as i64;
        proof {
            lemma_scaled_bound(normal, dt as int, NORMAL_LIMIT as int, 6 * SCALE as int);
            crate::fixed::lemma_mul_fp_le(
                normal.x as int,
                dt as int,
                NORMAL_LIMIT as int,
                6 * SCALE as int,
                0xC_0000,
            );
            crate::fixed::lemma_mul_fp_le(
                normal.y as int,
                dt as int,
                NORMAL_LIMIT as int,
                6 * SCALE as int,
                0xC_0000,
            );
            crate::fixed::lemma_mul_fp_le(
                normal.z as int,
                dt as int,
                NORMAL_LIMIT as int,
                6 * SCALE as int,
                0xC_0000,
            );
        }
        let step1 = normal.scale_fp(dt);
        let par = uv.sub(step1);
        proof {
            assert(abs_bounded(par, 0x10_0000));
            crate::fixed::lemma_mul_fp_le(
                par.x as int,
                ni_over_nt as int,
                0x10_0000,
                INDEX_LIMIT as int,
                0x100_0000,
            );
            crate::fixed::lemma_mul_fp_le(
                par.y as int,
                ni_over_nt as int,
                0x10_0000,
                INDEX_LIMIT as int,
                0x100_0000,
            );
            crate::fixed::lemma_mul_fp_le(
                par.z as int,
                ni_over_nt as int,
                0x10_0000,
                INDEX_LIMIT as int,
                0x100_0000,
            );
            crate::fixed::lemma_mul_fp_le(
                normal.x as int,
                s as int,
                NORMAL_LIMIT as int,
                0x100_0000,
                0x200_0000,
            );
            crate::fixed::lemma_mul_fp_le(
                normal.y as int,
                s as int,
                NORMAL_LIMIT as int,
                0x100_0000,
                0x200_0000,
            );
            crate::fixed::lemma_mul_fp_le(
                normal.z as int,
                s as int,
                NORMAL_LIMIT as int,
                0x100_0000,
                0x200_0000,
            );
        }
        let par2 = par.scale_fp(ni_over_nt);
        let step2 = normal.scale_fp(s);
        let res = par2.sub(step2);
        Some(res)
    } else {
        None
    }
}

/// One component of the mirror reflection
/// `incident - normal * (2 * dot(incident, normal))`.
pub open spec fn reflect_axis(incident: Vec3, normal: Vec3, axis: int) -> int {
    vaxis(incident, axis) - tdiv(vaxis(normal, axis) * reflect_scale(incident, normal), SCALE as int)
}

/// A vector with at least one non-zero component has positive squared
/// length.
pub proof fn lemma_nonzero_vec(v: Vec3)
    by (nonlinear_arith)
    requires
        !(v.x == 0 && v.y == 0 && v.z == 0),
    ensures
        dot3(v, v) > 0,
{
}

/// Clamp a value into a symmetric range.
fn clamp_i64(v: i64, lim: i64) -> (r: i64)
    requires
        lim >= 0,
    ensures
        -lim <= r <= lim,
        -lim <= v <= lim ==> r == v,
{
    if v > lim {
        lim
    } else if v < -lim {
        -lim
    } else {
        v
    }
}

/// A diffuse surface: scatters into a random direction around the normal,
/// attenuated by its albedo texture.
pub struct Lambertian {
    pub albedo: crate::texture::Texture,
}

impl Lambertian {
    pub fn new(albedo: crate::texture::Texture) -> (r: Lambertian)
        ensures
            r.albedo == albedo,
    {
        Lambertian { albedo }
    }
}

/// A mirror with an optional fuzz perturbation.
pub struct Metal {
    pub albedo: Vec3,
    pub fuzz: i64,
}

impl Metal {
    pub fn with_fuzz(albedo: Vec3, fuzz: i64) -> (r: Metal)
        ensures
            r.albedo == albedo,
            r.fuzz == fuzz,
    {
        Metal { albedo, fuzz }
    }
}

/// Clear glass: reflects or refracts, absorbs nothing.
pub struct Dielectric {
    pub reflection_index: i64,
}

impl Dielectric {
    pub fn new(reflection_index: i64) -> (r: Dielectric)
        ensures
            r.reflection_index == reflection_index,
    {
        Dielectric { reflection_index }
    }
}

/// A surface that only emits light and never scatters.
pub struct DiffuseLight {
    pub emission: crate::texture::Texture,
}

impl DiffuseLight {
    pub fn new(emission: crate::texture::Texture) -> (r: DiffuseLight)
        ensures
            r.emission == emission,
    {
        DiffuseLight { emission }
    }
}

/// The closed set of materials a surface can carry.
pub enum Material {
    Lambertian(Lambertian),
    Metal(Metal),
    Dielectric(Dielectric),
    DiffuseLight(DiffuseLight),
}

pub open spec fn material_wf(m: Material) -> bool {
    match m {
        Material::Lambertian(l) => crate::texture::texture_wf(l.albedo),
        Material::Metal(mt) => abs_bounded(mt.albedo, COORD_LIMIT as int) && 0 <= mt.fuzz <= SCALE,
        Material::Dielectric(d) => SCALE / 16 <= d.reflection_index <= INDEX_LIMIT,
        Material::DiffuseLight(dl) => crate::texture::texture_wf(dl.emission),
    }
}

/// What a material emits: black, except for a light.
pub open spec fn spec_emit(m: Material, u: int, v: int, p: Vec3) -> Vec3 {
    match m {
        Material::DiffuseLight(dl) => crate::texture::spec_texture_value(dl.emission, u, v, p),
        _ => Vec3 { x: 0, y: 0, z: 0 },
    }
}

/// The relative refraction index a dielectric uses: the reciprocal of its
/// index when the ray enters the surface, the index itself when it leaves.
pub open spec fn dielectric_ni(front: bool, ri: int) -> int {
    if front {
        tdiv(SCALE as int * SCALE, ri)
    } else {
        ri
    }
}

/// The outgoing direction a dielectric may produce: the mirror reflection,
/// or (when the discriminant allows it) the refraction through the
/// record's oriented normal, or that normal itself when the chosen
/// direction rounds to zero.
pub open spec fn dielectric_dir_ok(dir: Vec3, normal: Vec3, front: bool, ri: int, out: Vec3) -> bool {
    let ni = dielectric_ni(front, ri);
    ||| (out.x == reflect_axis(dir, normal, 0) && out.y == reflect_axis(dir, normal, 1) && out.z
        == reflect_axis(dir, normal, 2))
    ||| (refract_disc(dir, normal, ni) > 0 && out.x == refract_axis(dir, normal, ni, 0) && out.y
        == refract_axis(dir, normal, ni, 1) && out.z == refract_axis(dir, normal, ni, 2))
    ||| ((reflect_axis(dir, normal, 0) == 0 && reflect_axis(dir, normal, 1) == 0 && reflect_axis(
        dir,
        normal,
        2,
    ) == 0 || refract_disc(dir, normal, ni) > 0 && refract_axis(dir, normal, ni, 0) == 0
        && refract_axis(dir, normal, ni, 1) == 0 && refract_axis(dir, normal, ni, 2) == 0) && out
        == normal)
}

/// The outgoing direction a metal may produce: the mirror reflection
/// perturbed by `fuzz` times a point of the unit sphere, or the record's
/// normal when that rounds to zero.
pub open spec fn metal_dir_ok(dir: Vec3, normal: Vec3, fuzz: int, out: Vec3) -> bool {
    ||| exists|q: Vec3|
        {
            &&& #[trigger] dot3(q, q) < SCALE * SCALE
            &&& out.x == reflect_axis(dir, normal, 0) + tdiv(q.x * fuzz, SCALE as int)
            &&& out.y == reflect_axis(dir, normal, 1) + tdiv(q.y * fuzz, SCALE as int)
            &&& out.z == reflect_axis(dir, normal, 2) + tdiv(q.z * fuzz, SCALE as int)
        }
    ||| ((exists|q: Vec3|
        {
            &&& #[trigger] dot3(q, q) < SCALE * SCALE
            &&& reflect_axis(dir, normal, 0) + tdiv(q.x * fuzz, SCALE as int) == 0
            &&& reflect_axis(dir, normal, 1) + tdiv(q.y * fuzz, SCALE as int) == 0
            &&& reflect_axis(dir, normal, 2) + tdiv(q.z * fuzz, SCALE as int) == 0
        }) && out == normal)
}

impl Material {
    /// Light the material emits at the hit point; black unless it is a
    /// light.
    pub fn emit(&self, u: i64, v: i64, p: Vec3) -> (r: Vec3)
        requires
            material_wf(*self),
            abs_bounded(p, crate::POINT_LIMIT as int),
        ensures
            r == spec_emit(*self, u as int, v as int, p),
            abs_bounded(r, COORD_LIMIT as int),
    {
        match self {
            Material::DiffuseLight(dl) => dl.emission.value(u, v, p),
            _ => Vec3 { x: 0, y: 0, z: 0 },
        }
    }

    /// How the material scatters an incoming ray at a hit: the attenuation
    /// colour, and the outgoing ray, if any. The outgoing direction may
    /// depend on the generator; what holds of every draw is stated below.
    pub fn scatter(
        &self,
        ray: &Ray,
        hit_rec: &crate::hitable::HitRecord,
        rng: &mut rand::rngs::SmallRng,
    ) -> (r: (Vec3, Option<Ray>))
        requires
            material_wf(*self),
            crate::ray::ray_wf(*ray),
            crate::hitable::hit_record_wf(*hit_rec),
        ensures
            abs_bounded(r.0, COORD_LIMIT as int),
            (r.1 is None) <==> (*self) matches Material::DiffuseLight(_),
            r.1 is Some ==> (r.1->0).a == hit_rec.p && (r.1->0).time == ray.time && abs_bounded(
                (r.1->0).b,
                0x800_0000_0000,
            ) && dot3((r.1->0).b, (r.1->0).b) > 0,
            (*self) matches Material::Lambertian(l) ==> r.0 == crate::texture::spec_texture_value(
                l.albedo,
                hit_rec.u as int,
                hit_rec.v as int,
                hit_rec.p,
            ),
            (*self) matches Material::Metal(mt) ==> r.0 == mt.albedo,
            (*self) matches Material::Dielectric(_) ==> r.0 == (Vec3 {
                x: SCALE,
                y: SCALE,
                z: SCALE,
            }),
            (*self) matches Material::Lambertian(_) ==> (exists|q: Vec3|
                #[trigger] dot3(q, q) < SCALE * SCALE && (r.1->0).b.x == hit_rec.normal.x + q.x && (
                r.1->0).b.y == hit_rec.normal.y + q.y && (r.1->0).b.z == hit_rec.normal.z + q.z),
            (*self) matches Material::Metal(mt) ==> metal_dir_ok(
                ray.b,
                hit_rec.normal,
                mt.fuzz as int,
                (r.1->0).b,
            ),
            (*self) matches Material::Dielectric(dd) ==> dielectric_dir_ok(
                ray.b,
                hit_rec.normal,
                hit_rec.front_face,
                dd.reflection_index as int,
                (r.1->0).b,
            ),
    {
        match self {
            Material::Lambertian(l) => {
                let q = random_point_in_unit_sphere(rng);
                let dir0 = hit_rec.normal.add(q);
                let dir = if dir0.x == 0 && dir0.y == 0 && dir0.z == 0 {
                    // The draw exactly cancelled the normal; fall back to
                    // the normal itself, which the zero draw witnesses.
                    proof {
                        let z = Vec3 { x: 0, y: 0, z: 0 };
                        assert(dot3(z, z) == 0);
                        assert(hit_rec.normal.x == hit_rec.normal.x + z.x);
                    }
                    hit_rec.normal
                } else {
                    proof {
                        lemma_nonzero_vec(dir0);
                    }
                    dir0
                };
                let scattered = Ray::new(hit_rec.p, dir, ray.time());
                let att = l.albedo.value(hit_rec.u, hit_rec.v, hit_rec.p);
                proof {
                    if !(dir0.x == 0 && dir0.y == 0 && dir0.z == 0) {
                        assert(dot3(q, q) < SCALE * SCALE && dir.x == hit_rec.normal.x + q.x
                            && dir.y == hit_rec.normal.y + q.y && dir.z == hit_rec.normal.z + q.z);
                    }
                }
                (att, Some(scattered))
            },
            Material::Metal(mt) => {
                let reflected = reflect(ray.direction(), hit_rec.normal);
                let q = random_point_in_unit_sphere(rng);
                proof {
                    lemma_scaled_bound(q, mt.fuzz as int, SCALE as int, SCALE as int);
                }
                let fq = q.scale_fp(mt.fuzz);
                let dir0 = reflected.add(fq);
                let dir = if dir0.x == 0 && dir0.y == 0 && dir0.z == 0 {
                    // The perturbed reflection rounded to zero; the drawn
                    // point witnesses the degenerate case.
                    proof {
                        assert(dot3(q, q) < SCALE * SCALE && reflect_axis(ray.b, hit_rec.normal, 0)
                            + tdiv(q.x * mt.fuzz, SCALE as int) == 0 && reflect_axis(
                            ray.b,
                            hit_rec.normal,
                            1,
                        ) + tdiv(q.y * mt.fuzz, SCALE as int) == 0 && reflect_axis(
                            ray.b,
                            hit_rec.normal,
                            2,
                        ) + tdiv(q.z * mt.fuzz, SCALE as int) == 0);
                    }
                    hit_rec.normal
                } else {
                    proof {
                        lemma_nonzero_vec(dir0);
                        assert(dot3(q, q) < SCALE * SCALE && dir0.x == reflect_axis(
                            ray.b,
                            hit_rec.normal,
                            0,
                        ) + tdiv(q.x * mt.fuzz, SCALE as int) && dir0.y == reflect_axis(
                            ray.b,
                            hit_rec.normal,
                            1,
                        ) + tdiv(q.y * mt.fuzz, SCALE as int) && dir0.z == reflect_axis(
                            ray.b,
                            hit_rec.normal,
                            2,
                        ) + tdiv(q.z * mt.fuzz, SCALE as int));
                    }
                    dir0
                };
                (mt.albedo, Some(Ray::new(hit_rec.p, dir, ray.time())))
            },
            Material::Dielectric(d) => {
                let attenuation = Vec3 { x: SCALE, y: SCALE, z: SCALE };
                let reflected = reflect(ray.direction(), hit_rec.normal);
                proof {
                    lemma_dot_bound(
                        ray.b,
                        hit_rec.normal,
                        COORD_LIMIT as int,
                        NORMAL_LIMIT as int,
                    );
                }
                let dn = ray.direction().dot(&hit_rec.normal);
                let len = ray.direction().length();
                proof {
                    assert(len > 0) by (nonlinear_arith)
                        requires
                            crate::vec3::is_isqrt(dot3(ray.b, ray.b), len as int),
                            dot3(ray.b, ray.b) > 0,
                    ;
                    lemma_tdiv_bounds(dn as int, len as int);
                }
                let base = crate::fixed::div_trunc(dn as i128, len as i128) as i64;
                let cosine0 = clamp_i64(-base, 2 * SCALE);
                // The record's normal already faces against the ray; the
                // flag says which side the ray came from and picks the
                // relative index and the reflectance angle.
                let (ni_over_nt, cosine) = if hit_rec.front_face {
                    proof {
                        assert(SCALE as int * SCALE <= 16 * SCALE * d.reflection_index)
                            by (nonlinear_arith)
                            requires
                                d.reflection_index >= SCALE / 16,
                                SCALE == 65536,
                        ;
                        lemma_tdiv_abs_le(
                            SCALE as int * SCALE,
                            d.reflection_index as int,
                            16 * SCALE as int,
                        );
                        lemma_tdiv_bounds(SCALE as int * SCALE, d.reflection_index as int);
                    }
                    let ni = crate::fixed::div_trunc(
                        (SCALE as i128) * (SCALE as i128),
                        d.reflection_index as i128,
                    ) as i64;
                    (ni, clamp_i64(cosine0, SCALE))
                } else {
                    let c1 = mul_fp(cosine0, d.reflection_index);
                    (d.reflection_index, clamp_i64(c1, SCALE))
                };
                let refracted = refract(ray.direction(), hit_rec.normal, ni_over_nt);
                let out_dir = match refracted {
                    Some(refr) => {
                        let reflect_prob = schlick(cosine, d.reflection_index);
                        if crate::rng::rand_below(rng, SCALE) < reflect_prob {
                            reflected
                        } else {
                            refr
                        }
                    },
                    None => reflected,
                };
                proof {
                    assert(out_dir == reflected || (refract_disc(
                        ray.b,
                        hit_rec.normal,
                        dielectric_ni(hit_rec.front_face, d.reflection_index as int),
                    ) > 0 && out_dir.x == refract_axis(
                        ray.b,
                        hit_rec.normal,
                        dielectric_ni(hit_rec.front_face, d.reflection_index as int),
                        0,
                    ) && out_dir.y == refract_axis(
                        ray.b,
                        hit_rec.normal,
                        dielectric_ni(hit_rec.front_face, d.reflection_index as int),
                        1,
                    ) && out_dir.z == refract_axis(
                        ray.b,
                        hit_rec.normal,
                        dielectric_ni(hit_rec.front_face, d.reflection_index as int),
                        2,
                    )));
                }
                let dir = if out_dir.x == 0 && out_dir.y == 0 && out_dir.z == 0 {
                    hit_rec.normal
                } else {
                    proof {
                        lemma_nonzero_vec(out_dir);
                    }
                    out_dir
                };
                proof {
                    assert(ni_over_nt as int == dielectric_ni(
                        hit_rec.front_face,
                        d.reflection_index as int,
                    ));
                }
                (attenuation, Some(Ray::new(hit_rec.p, dir, ray.time())))
            },
            Material::DiffuseLight(_) => (Vec3 { x: 0, y: 0, z: 0 }, None),
        }
    }
}

/// A point drawn uniformly from the inside of the unit sphere by
/// rejection sampling. If an improbable run of draws all miss, the centre
/// is returned, which is inside as well.
pub fn random_point_in_unit_sphere(rng: &mut rand::rngs::SmallRng) -> (r: Vec3)
    ensures
        dot3(r, r) < SCALE * SCALE,
        abs_bounded(r, SCALE as int),
{
    let mut tries: usize = 0;
    while tries < 64
        invariant
            true,
        decreases 64 - tries,
    {
        let cx = crate::rng::rand_below(rng, 2 * SCALE) - SCALE;
        let cy = crate::rng::rand_below(rng, 2 * SCALE) - SCALE;
        let cz = crate::rng::rand_below(rng, 2 * SCALE) - SCALE;
        let point = Vec3 { x: cx, y: cy, z: cz };
        let sq = point.sq_len();
        if sq < SCALE * SCALE {
            return point;
        }
        tries = tries + 1;
    }
    Vec3 { x: 0, y: 0, z: 0 }
}

} // verus!
