use pathtracer::schlick;
use pathtracer::update_rgb;
use pathtracer::BvhNode;
use pathtracer::Camera;
use pathtracer::Chunk;
use pathtracer::Hitable;
use pathtracer::Lambertian;
use pathtracer::Material;
use pathtracer::Perlin;
use pathtracer::Solid;
use pathtracer::Sphere;
use pathtracer::Texture;
use pathtracer::Vec3;
use pathtracer::SCALE;

fn fp(x: f64) -> i64 {
    (x * SCALE as f64) as i64
}

// At head-on incidence Schlick's approximation gives exactly the base
// reflectance ((1 - n) / (1 + n))^2, and at grazing incidence exactly one.
#[test]
fn schlick_endpoints() {
    for n in [fp(1.5), fp(1.33), fp(2.4)] {
        let ratio = (SCALE - n) * SCALE / (SCALE + n);
        let r0 = ratio * ratio / SCALE;
        assert_eq!(schlick(SCALE, n), r0);
        assert_eq!(schlick(0, n), SCALE);
    }
}

// Schlick's approximation never decreases as the incidence gets more
// grazing.
#[test]
fn schlick_monotone_in_angle() {
    let n = fp(1.5);
    let mut last = schlick(SCALE, n);
    let mut c = SCALE;
    while c >= -SCALE {
        let v = schlick(c, n);
        assert!(v >= last);
        last = v;
        c -= SCALE / 8;
    }
}

// Refraction returns nothing exactly when the discriminant says total
// internal reflection; otherwise the refracted direction obeys Snell's
// law within fixed-point tolerance.
#[test]
fn refract_total_internal_reflection() {
    // From glass to air at a grazing angle: total internal reflection.
    let shallow = Vec3::new(fp(1.0), fp(-0.1), 0);
    let normal = Vec3::new(0, SCALE, 0);
    assert!(pathtracer::refract(shallow, normal, fp(1.5)).is_none());
    // Straight into the surface: refraction must happen.
    let steep = Vec3::new(0, fp(-1.0), 0);
    let refracted = pathtracer::refract(steep, normal, fp(1.5)).expect("no reflection head-on");
    // A head-on ray passes straight through.
    assert!(refracted.x.abs() < SCALE / 64);
    assert!(refracted.y < 0);
    // Snell's law at 45 degrees entering glass (air to glass, ratio 1/1.5):
    // sin(theta_t) = sin(45deg) / 1.5.
    let slanted = Vec3::new(fp(0.7071), fp(-0.7071), 0);
    let out = pathtracer::refract(slanted, normal, fp(1.0 / 1.5)).expect("must refract");
    let len = ((out.x as f64).powi(2) + (out.y as f64).powi(2) + (out.z as f64).powi(2)).sqrt();
    let sin_t = out.x as f64 / len;
    let expected = 0.7071 / 1.5;
    assert!((sin_t - expected).abs() < 0.01, "sin {} expected {}", sin_t, expected);
}

// The chunk grid tiles the image exactly: every pixel covered once, also
// when the extents do not divide evenly.
#[test]
fn chunks_tile_exactly() {
    for (x, y, cols, rows) in [(7usize, 5usize, 3usize, 2usize), (16, 9, 4, 3), (5, 5, 5, 5)] {
        let mut cover = vec![0u32; x * y];
        for j in 0..rows {
            for i in 0..cols {
                let c = Chunk::new(x, y, cols, rows, i, j);
                for py in c.start_y..c.start_y + c.ny {
                    for px in c.start_x..c.start_x + c.nx {
                        cover[py * x + px] += 1;
                    }
                }
                assert_eq!(c.buffer.len(), c.nx * c.ny * 4);
            }
        }
        assert!(cover.iter().all(|&n| n == 1), "every pixel exactly once");
    }
}

// Quantisation: full brightness saturates the byte, a quarter gives the
// square-root response, zero and negatives give zero.
#[test]
fn quantize_known_values() {
    let mut buf = vec![0u8; 4];
    update_rgb(&mut buf, Vec3::new(SCALE, SCALE / 4, -SCALE), 0);
    assert_eq!(buf[0], 255);
    assert_eq!(buf[1], 127);
    assert_eq!(buf[2], 0);
    assert_eq!(buf[3], 0);
}

// The generator wrapper draws inside the half-open range and actually
// depends on the generator's state.
#[test]
fn rand_below_range_and_variation() {
    let mut rng = pathtracer::rng_from_seed(1);
    let mut seen_different = false;
    let mut last = pathtracer::rand_below(&mut rng, 1000);
    for _ in 0..64 {
        let v = pathtracer::rand_below(&mut rng, 1000);
        assert!((0..1000).contains(&v));
        if v != last {
            seen_different = true;
        }
        last = v;
    }
    assert!(seen_different, "draws must vary");
}

// The noise tables are permutations: every index below 256 appears.
#[test]
fn perlin_tables_are_permutations() {
    let mut rng = pathtracer::rng_from_seed(9);
    let p = Perlin::new(&mut rng);
    for table in [&p.permute_x, &p.permute_y, &p.permute_z] {
        assert_eq!(table.len(), 256);
        let mut seen = [false; 256];
        for &e in table.iter() {
            assert!(e < 256);
            seen[e] = true;
        }
        assert!(seen.iter().all(|&b| b));
    }
    assert_eq!(p.points.len(), 256);
    assert!(p.points.iter().all(|&v| (0..SCALE).contains(&v)));
    // Noise is deterministic in the point and stays inside its range.
    let at = Vec3::new(fp(1.3), fp(0.7), fp(2.9));
    let n1 = p.noise(at);
    let n2 = p.noise(at);
    assert_eq!(n1, n2);
    assert!((0..=SCALE).contains(&n1));
}

// The checker texture alternates between its two colours from cell to
// cell.
#[test]
fn checker_alternates() {
    let red = Vec3::new(SCALE, 0, 0);
    let blue = Vec3::new(0, 0, SCALE);
    let t = Texture::Checker(pathtracer::Checker::new(
        Texture::Solid(Solid::new(red)),
        Texture::Solid(Solid::new(blue)),
    ));
    // The cell period is about pi / 10 world units; step by half of it.
    let period = 20589i64;
    let a = t.value(0, 0, Vec3::new(period / 2, period / 2, period / 2));
    let b = t.value(0, 0, Vec3::new(period + period / 2, period / 2, period / 2));
    assert_ne!(a, b);
    let c = t.value(0, 0, Vec3::new(2 * period + period / 2, period / 2, period / 2));
    assert_eq!(a, c);
}

fn single_sphere_scene() -> (BvhNode, Camera, Vec3) {
    let albedo = Texture::Solid(Solid::new(Vec3::splat(SCALE / 2)));
    let world = vec![Hitable::Sphere(Sphere::new(
        Vec3::new(0, 0, -2 * SCALE),
        SCALE,
        Material::Lambertian(Lambertian::new(albedo)),
    ))];
    let mut rng = pathtracer::rng_from_seed(5);
    let bvh = BvhNode::new(&mut rng, world, 0, 0);
    let camera = Camera::from_frame(
        Vec3::new(0, 0, 0),
        Vec3::new(-SCALE, -SCALE, -SCALE),
        Vec3::new(2 * SCALE, 0, 0),
        Vec3::new(0, 2 * SCALE, 0),
        Vec3::new(SCALE, 0, 0),
        Vec3::new(0, SCALE, 0),
        0,
        0,
        0,
    );
    let background = Vec3::new(fp(0.7), fp(0.8), fp(1.0));
    (bvh, camera, background)
}

// End to end: a single-sphere scene rendered twice with the same seed
// gives byte-identical output.
#[test]
fn render_is_deterministic() {
    let (bvh, camera, background) = single_sphere_scene();
    let mut buf1 = vec![0u8; 2 * 2 * 4];
    let mut buf2 = vec![0u8; 2 * 2 * 4];
    pathtracer::render(&bvh, &camera, &background, &mut buf1, 2, 2, 2, 2, 1, 7);
    pathtracer::render(&bvh, &camera, &background, &mut buf2, 2, 2, 2, 2, 1, 7);
    assert_eq!(buf1, buf2);
    let mut buf3 = vec![0u8; 2 * 2 * 4];
    pathtracer::render(&bvh, &camera, &background, &mut buf3, 2, 2, 2, 2, 1, 8);
    // A different seed is allowed to give different noise; the buffers
    // must still be fully written.
    assert_eq!(buf3.len(), 16);
}

// More samples, less noise: the variance of a pixel over repeated
// renders falls when the sample count rises from one to sixty-four.
#[test]
fn more_samples_reduce_variance() {
    let (bvh, camera, background) = single_sphere_scene();
    let variance = |samples: u16| -> f64 {
        let mut values = Vec::new();
        for seed in 0..24u64 {
            let mut buf = vec![0u8; 2 * 2 * 4];
            pathtracer::render(&bvh, &camera, &background, &mut buf, 2, 2, 1, 1, samples, seed);
            values.push(buf[0] as f64);
        }
        let mean = values.iter().sum::<f64>() / values.len() as f64;
        values.iter().map(|v| (v - mean) * (v - mean)).sum::<f64>() / values.len() as f64
    };
    let noisy = variance(1);
    let smooth = variance(64);
    assert!(smooth < noisy, "variance {} at 64 samples vs {} at 1", smooth, noisy);
}

// The sky gradient: straight up gives the pale blue, straight down pure
// white, exactly as the blend formula says.
#[test]
fn sky_gradient_endpoints() {
    let up = pathtracer::Ray::new(Vec3::new(0, 0, 0), Vec3::new(0, SCALE, 0), 0);
    assert_eq!(
        pathtracer::sky_background(&up),
        Vec3::new(SCALE / 2, SCALE - 3 * SCALE / 10, SCALE)
    );
    let down = pathtracer::Ray::new(Vec3::new(0, 0, 0), Vec3::new(0, -SCALE, 0), 0);
    assert_eq!(pathtracer::sky_background(&down), Vec3::new(SCALE, SCALE, SCALE));
}
