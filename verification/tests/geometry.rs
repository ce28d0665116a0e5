use pathtracer::Aabb;
use pathtracer::HitableList;
use pathtracer::BvhNode;
use pathtracer::Dielectric;
use pathtracer::Hitable;
use pathtracer::Lambertian;
use pathtracer::Material;
use pathtracer::Metal;
use pathtracer::MovingSphere;
use pathtracer::Ray;
use pathtracer::Solid;
use pathtracer::Sphere;
use pathtracer::Texture;
use pathtracer::Translate;
use pathtracer::Vec3;
use pathtracer::XyRectangle;
use pathtracer::SCALE;
use pathtracer::T_LIMIT;

fn fp(x: f64) -> i64 {
    (x * SCALE as f64) as i64
}

fn grey() -> Material {
    Material::Lambertian(Lambertian::new(Texture::Solid(Solid::new(Vec3::splat(SCALE / 2)))))
}

// A ray built to cross the box hits it; one built to miss it does not;
// the same holds with axes permuted and with negative directions.
#[test]
fn aabb_hit_cross_and_miss() {
    let b = Aabb::new(Vec3::new(-SCALE, -SCALE, -SCALE), Vec3::new(SCALE, SCALE, SCALE));
    let crossing = Ray::new(Vec3::new(-3 * SCALE, 0, 0), Vec3::new(SCALE, 0, 0), 0);
    assert!(b.hit(&crossing, 0, T_LIMIT));
    let missing = Ray::new(Vec3::new(-3 * SCALE, 3 * SCALE, 0), Vec3::new(SCALE, 0, 0), 0);
    assert!(!b.hit(&missing, 0, T_LIMIT));
    // Axis permutation: along y and z.
    let crossing_y = Ray::new(Vec3::new(0, -3 * SCALE, 0), Vec3::new(0, SCALE, 0), 0);
    assert!(b.hit(&crossing_y, 0, T_LIMIT));
    let crossing_z = Ray::new(Vec3::new(0, 0, 3 * SCALE), Vec3::new(0, 0, -SCALE), 0);
    assert!(b.hit(&crossing_z, 0, T_LIMIT));
    // Negative direction exercising the swap branch.
    let neg = Ray::new(Vec3::new(3 * SCALE, 0, 0), Vec3::new(-SCALE, 0, 0), 0);
    assert!(b.hit(&neg, 0, T_LIMIT));
    let neg_miss = Ray::new(Vec3::new(3 * SCALE, 0, 3 * SCALE), Vec3::new(-SCALE, 0, 0), 0);
    assert!(!b.hit(&neg_miss, 0, T_LIMIT));
    // A ray pointing away from the box never reaches it inside the window.
    let away = Ray::new(Vec3::new(-3 * SCALE, 0, 0), Vec3::new(-SCALE, 0, 0), 0);
    assert!(!b.hit(&away, 0, T_LIMIT));
}

// The surrounding box contains both inputs exactly: componentwise min
// and max of the corners.
#[test]
fn surrounding_box_contains_both() {
    let a = Aabb::new(Vec3::new(-SCALE, 0, 2), Vec3::new(5, 7, 9));
    let b = Aabb::new(Vec3::new(-3, -4, 8), Vec3::new(SCALE, 6, 20));
    let s = Aabb::surrounding_box(a, b);
    assert_eq!(s.min.x, -SCALE);
    assert_eq!(s.min.y, -4);
    assert_eq!(s.min.z, 2);
    assert_eq!(s.max.x, SCALE);
    assert_eq!(s.max.y, 7);
    assert_eq!(s.max.z, 20);
}

// The hierarchy finds the same hit parameter and point as the linear
// scan, over a scene of disjoint spheres and rectangles and many rays.
#[test]
fn bvh_matches_linear_scan() {
    let mut surfaces: Vec<Hitable> = Vec::new();
    for k in 0..12i64 {
        let cx = (k % 4) * 4 * SCALE - 6 * SCALE;
        let cy = (k / 4) * 4 * SCALE - 4 * SCALE;
        surfaces.push(Hitable::Sphere(Sphere::new(
            Vec3::new(cx, cy, -8 * SCALE - (k % 3) * SCALE),
            SCALE + (k % 2) * SCALE / 2,
            grey(),
        )));
    }
    surfaces.push(Hitable::XyRectangle(XyRectangle::new(
        -10 * SCALE,
        10 * SCALE,
        -10 * SCALE,
        10 * SCALE,
        -14 * SCALE,
        grey(),
    )));
    let mut list = HitableList::new();
    for s in surfaces.iter() {
        list.push(clone_surface(s));
    }
    let mut rng = pathtracer::rng_from_seed(11);
    let bvh = BvhNode::new(&mut rng, surfaces, 0, SCALE);
    for gx in -6..7i64 {
        for gy in -6..7i64 {
            let ray = Ray::new(
                Vec3::new(0, 0, 0),
                Vec3::new(gx * SCALE / 2, gy * SCALE / 2, -2 * SCALE),
                0,
            );
            let from_tree = bvh.hit(&ray, 64, T_LIMIT);
            let from_scan = list.hit(&ray, 64, T_LIMIT);
            match (from_tree, from_scan) {
                (None, None) => {}
                (Some(a), Some(b)) => {
                    assert_eq!(a.t, b.t);
                    assert_eq!(a.p, b.p);
                }
                _ => panic!("tree and scan disagree on whether the ray hits"),
            }
        }
    }
}

fn clone_surface(s: &Hitable) -> Hitable {
    match s {
        Hitable::Sphere(s) => Hitable::Sphere(Sphere::new(s.center, s.radius, grey())),
        Hitable::XyRectangle(r) => Hitable::XyRectangle(XyRectangle::new(
            r.x0, r.x1, r.y0, r.y1, r.k, grey(),
        )),
        _ => panic!("only spheres and rectangles in this scene"),
    }
}

// A sphere is hit where expected: a ray from the origin straight at a
// sphere two units away of radius one hits at t of exactly one unit.
#[test]
fn sphere_hit_exact_parameter() {
    let s = Sphere::new(Vec3::new(0, 0, -2 * SCALE), SCALE, grey());
    let ray = Ray::new(Vec3::new(0, 0, 0), Vec3::new(0, 0, -SCALE), 0);
    let rec = s.hit(&ray, 0, T_LIMIT).expect("must hit");
    assert_eq!(rec.t, SCALE);
    assert_eq!(rec.p, Vec3::new(0, 0, -SCALE));
    // The outward normal points back toward the ray.
    assert_eq!(rec.normal, Vec3::new(0, 0, SCALE));
}

// A translated sphere is hit where the moved sphere stands, and the
// reported point is on the original ray.
#[test]
fn translate_moves_the_hit() {
    let inner = Hitable::Sphere(Sphere::new(Vec3::new(0, 0, -4 * SCALE), SCALE, grey()));
    let moved = Hitable::Translate(Translate::new(inner, Vec3::new(2 * SCALE, 0, 0)));
    let straight = Ray::new(Vec3::new(0, 0, 0), Vec3::new(0, 0, -SCALE), 0);
    assert!(moved.hit(&straight, 0, T_LIMIT).is_none());
    let at_moved = Ray::new(Vec3::new(2 * SCALE, 0, 0), Vec3::new(0, 0, -SCALE), 0);
    let rec = moved.hit(&at_moved, 0, T_LIMIT).expect("must hit the moved sphere");
    assert_eq!(rec.t, 3 * SCALE);
    assert_eq!(rec.p, Vec3::new(2 * SCALE, 0, -3 * SCALE));
}

// A moving sphere is where its motion says: at the shutter ends it sits
// exactly at the endpoint centres.
#[test]
fn moving_sphere_centre_endpoints() {
    let m = MovingSphere::new(
        Vec3::new(0, 0, 0),
        Vec3::new(4 * SCALE, 2 * SCALE, 0),
        0,
        SCALE,
        SCALE,
        grey(),
    );
    assert_eq!(m.center(0), Vec3::new(0, 0, 0));
    assert_eq!(m.center(SCALE), Vec3::new(4 * SCALE, 2 * SCALE, 0));
    assert_eq!(m.center(SCALE / 2), Vec3::new(2 * SCALE, SCALE, 0));
}

// A rectangle reports its plane crossing with clamped unit texture
// coordinates.
#[test]
fn rectangle_hit_and_uv() {
    let r = XyRectangle::new(-SCALE, SCALE, -SCALE, SCALE, -2 * SCALE, grey());
    let ray = Ray::new(Vec3::new(0, 0, 0), Vec3::new(0, 0, -SCALE), 0);
    let rec = r.hit(&ray, 0, T_LIMIT).expect("must hit");
    assert_eq!(rec.t, 2 * SCALE);
    assert_eq!(rec.p, Vec3::new(0, 0, -2 * SCALE));
    // Centre of the rectangle: both coordinates at one half.
    assert_eq!(rec.u, SCALE / 2);
    assert_eq!(rec.v, SCALE / 2);
    // Parallel ray misses.
    let parallel = Ray::new(Vec3::new(0, 0, 0), Vec3::new(SCALE, 0, 0), 0);
    assert!(r.hit(&parallel, 0, T_LIMIT).is_none());
}

// Materials answer structurally: a light never scatters, glass always
// does, and glass attenuates nothing.
#[test]
fn material_scatter_shapes() {
    let mut rng = pathtracer::rng_from_seed(3);
    let sphere = Sphere::new(Vec3::new(0, 0, -2 * SCALE), SCALE, grey());
    let ray = Ray::new(Vec3::new(0, 0, 0), Vec3::new(0, 0, -SCALE), 0);
    let rec = sphere.hit(&ray, 0, T_LIMIT).expect("must hit");
    let light = Material::DiffuseLight(pathtracer::DiffuseLight::new(Texture::Solid(Solid::new(
        Vec3::splat(15 * SCALE),
    ))));
    let (_, scattered) = light.scatter(&ray, &rec, &mut rng);
    assert!(scattered.is_none());
    let glass = Material::Dielectric(Dielectric::new(fp(1.5)));
    let (att, scattered) = glass.scatter(&ray, &rec, &mut rng);
    assert_eq!(att, Vec3::splat(SCALE));
    assert!(scattered.is_some());
    let metal = Material::Metal(Metal::with_fuzz(Vec3::new(SCALE / 2, SCALE / 2, SCALE / 2), 0));
    let (att, scattered) = metal.scatter(&ray, &rec, &mut rng);
    assert_eq!(att, Vec3::new(SCALE / 2, SCALE / 2, SCALE / 2));
    assert!(scattered.is_some());
}

// Normals are oriented against the incoming ray: seen from behind, the
// rectangle's normal flips and the flag records the side; a ray leaving a
// sphere from inside sees the inward normal.
#[test]
fn normals_face_the_ray() {
    let r = XyRectangle::new(-SCALE, SCALE, -SCALE, SCALE, 2 * SCALE, grey());
    let from_behind = Ray::new(Vec3::new(0, 0, 0), Vec3::new(0, 0, SCALE), 0);
    let rec = r.hit(&from_behind, 0, T_LIMIT).expect("must hit");
    assert!(!rec.front_face);
    assert_eq!(rec.normal, Vec3::new(0, 0, -SCALE));
    let in_front = Ray::new(Vec3::new(0, 0, 4 * SCALE), Vec3::new(0, 0, -SCALE), 0);
    let rec = r.hit(&in_front, 0, T_LIMIT).expect("must hit");
    assert!(rec.front_face);
    assert_eq!(rec.normal, Vec3::new(0, 0, SCALE));
    // From inside a sphere the stored normal points back inward.
    let s = Sphere::new(Vec3::new(0, 0, 0), 2 * SCALE, grey());
    let inside = Ray::new(Vec3::new(0, 0, 0), Vec3::new(0, 0, -SCALE), 0);
    let rec = s.hit(&inside, 0, T_LIMIT).expect("must hit");
    assert!(!rec.front_face);
    assert_eq!(rec.normal, Vec3::new(0, 0, SCALE));
}

// Under total internal reflection the glass has no choice: the scattered
// direction is exactly the mirror reflection, whatever the draw.
#[test]
fn dielectric_total_internal_reflection_reflects()
{
    let glass = Material::Dielectric(Dielectric::new(fp(1.5)));
    // A shallow ray leaving the glass: same geometry the refraction test
    // shows is totally internally reflected.
    let direction = Vec3::new(fp(1.0), fp(-0.1), 0);
    let normal = Vec3::new(0, SCALE, 0);
    let rec = pathtracer::HitRecord {
        t: SCALE,
        p: Vec3::new(0, 0, 0),
        normal,
        u: 0,
        v: 0,
        front_face: false,
        material: &glass,
    };
    let ray = Ray::new(Vec3::new(-SCALE, fp(0.1), 0), direction, 0);
    let expected = pathtracer::reflect(direction, normal);
    for seed in 0..8u64 {
        let mut rng = pathtracer::rng_from_seed(seed);
        let (_, scattered) = glass.scatter(&ray, &rec, &mut rng);
        let out = scattered.expect("glass always scatters");
        assert_eq!(out.direction(), expected);
    }
}
