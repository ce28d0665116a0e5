use vstd::prelude::*;

mod aabb;
mod bvh;
mod camera;
mod chunk;
mod fixed;
mod hitable;
mod hitable_list;
mod material;
mod moving_sphere;
mod perlin;
mod ray;
mod renderer;
mod rng;
mod sphere;
mod texture;
mod vec3;
mod xy_rectangle;

pub use aabb::Aabb;
pub use bvh::BvhNode;
pub use camera::Camera;
pub use chunk::Chunk;
pub use fixed::div_trunc;
pub use fixed::isqrt;
pub use fixed::tdiv;
pub use hitable::HitRecord;
pub use hitable::Hitable;
pub use hitable::Translate;
pub use hitable_list::HitableList;
pub use material::Dielectric;
pub use material::DiffuseLight;
pub use material::Lambertian;
pub use material::Material;
pub use material::Metal;
pub use material::reflect;
pub use material::refract;
pub use material::schlick;
pub use moving_sphere::MovingSphere;
pub use perlin::Perlin;
pub use texture::Checker;
pub use texture::PerlinNoise;
pub use texture::Solid;
pub use texture::Texture;
pub use rng::rand_below;
pub use rng::rng_from_seed;
pub use ray::sky_background;
pub use ray::Ray;
pub use renderer::merge_chunk;
pub use renderer::render;
pub use renderer::render_chunk;
pub use renderer::update_rgb;
pub use sphere::Sphere;
pub use xy_rectangle::XyRectangle;
pub use vec3::Vec3;

verus! {

/// Number of fixed-point units per world unit. Every coordinate, colour
/// channel and ray parameter in this crate is a signed integer counting
/// units of `1 / SCALE`.
pub const SCALE: i64 = 65536;

/// Largest magnitude a scene coordinate (or direction component, radius,
/// colour channel) may have. Keeping coordinates inside this range lets
/// every intermediate product of the geometry fit in `i64`/`i128`.
pub const COORD_LIMIT: i64 = 67108864;

/// Lower cut-off for secondary-ray hits: about a thousandth of a world
/// unit, so a bounced ray does not immediately re-hit its own surface.
pub const HIT_EPS: i64 = 64;

/// Largest magnitude a bounding-box corner may have. Slightly wider than
/// `COORD_LIMIT` so that a box around a surface (centre plus radius, or a
/// padded rectangle) still fits.
pub const BOX_LIMIT: i64 = 0x1000_0000;

/// Largest magnitude a computed hit point can have: a point a ray reaches
/// within the accepted parameter range stays under this.
pub const POINT_LIMIT: i64 = 0x100_0000_0000_0000;

/// Largest magnitude accepted for a ray-parameter bound (`t_min`/`t_max`).
/// It plays the role of "infinity" when a scene is traced: no surface within
/// the coordinate range can be further along a ray than this.
pub const T_LIMIT: i64 = 0x2000_0000_0000;

} // verus!
