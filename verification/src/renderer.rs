use vstd::prelude::*;

use crate::bvh::bvh_wf;
use crate::bvh::leaves;
use crate::bvh::spec_bvh_hit_t;
use crate::bvh::BvhInner;
use crate::bvh::BvhNode;
use crate::camera::camera_ray_matches;
use crate::camera::camera_wf;
use crate::camera::Camera;
use crate::chunk::Chunk;
use crate::fixed::div_trunc;
use crate::fixed::isqrt;
use crate::fixed::lemma_tdiv_bounds;
use crate::fixed::tdiv;
use crate::hitable_list::list_time_ok;
use crate::ray::light_leaf_result;
use crate::ray::Ray;
use crate::HIT_EPS;
use crate::T_LIMIT;
use crate::vec3::abs_bounded;
use crate::vec3::lemma_sqrt_floor_of;
use crate::vec3::sqrt_floor;
use crate::vec3::Vec3;
use crate::COORD_LIMIT;
use crate::SCALE;

verus! {

/// The 8-bit value of one colour channel: gamma-2 correction (a square
/// root) scaled by 255.99, truncated, and clamped to a byte, as the
/// design note recommends for over-bright channels.
pub open spec fn quantize(c: int) -> int {
    if c <= 0 {
        0
    } else {
        let s = sqrt_floor(c * SCALE);
        let v = tdiv(25599 * s, 100 * SCALE as int);
        if v > 255 {
            255
        } else {
            v
        }
    }
}

/// Quantise one channel.
pub fn quantize_channel(c: i64) -> (r: u8)
    requires
        -0x200_0000_0000_0000 <= c <= 0x200_0000_0000_0000,
    ensures
        r as int == quantize(c as int),
{
    if c <= 0 {
        return 0u8;
    }
    proof {
        assert((c as int) * SCALE <= 0x2000_0000_0000_0000_0000) by (nonlinear_arith)
            requires
                0 < c <= 0x200_0000_0000_0000,
                SCALE == 65536,
        ;
    }
    let sw = isqrt(((c as u128) * (SCALE as u128)));
    proof {
        lemma_sqrt_floor_of((c as int) * SCALE, sw as int);
        assert(sw < 0x8000_0000_0000) by (nonlinear_arith)
            requires
                sw * sw <= (c as int) * SCALE,
                (c as int) * SCALE <= 0x2000_0000_0000_0000_0000,
        ;
        lemma_tdiv_bounds(25599 * (sw as int), 100 * SCALE as int);
    }
    let v = div_trunc(25599 * (sw as i128), 100 * (SCALE as i128));
    if v > 255 {
        255u8
    } else {
        v as u8
    }
}

/// Write one pixel's quantised colour at `offset` (red, green, blue; the
/// fourth byte is left alone). Writes that would fall outside the buffer
/// are skipped.
pub fn update_rgb(buffer: &mut Vec<u8>, color: Vec3, offset: usize)
    requires
        abs_bounded(color, 0x200_0000_0000_0000),
    ensures
        final(buffer).len() == old(buffer).len(),
        forall|k: int|
            0 <= k < old(buffer).len() && !(offset <= k < offset + 3) ==> final(buffer)@[k] == old(
                buffer,
            )@[k],
        offset < old(buffer).len() ==> final(buffer)@[offset as int] as int == quantize(
            color.x as int,
        ),
        offset + 1 < old(buffer).len() ==> final(buffer)@[offset + 1] as int == quantize(
            color.y as int,
        ),
        offset + 2 < old(buffer).len() ==> final(buffer)@[offset + 2] as int == quantize(
            color.z as int,
        ),
{
    let r = quantize_channel(color.x);
    let g = quantize_channel(color.y);
    let b = quantize_channel(color.z);
    if offset < buffer.len() {
        buffer.set(offset, r);
    }
    if buffer.len() > 1 && offset < buffer.len() - 1 {
        buffer.set(offset + 1, g);
    }
    if buffer.len() > 2 && offset < buffer.len() - 2 {
        buffer.set(offset + 2, b);
    }
}

/// The fixed-point image coordinate that jitter `jit` of pixel `p` out
/// of `extent` produces.
pub open spec fn jitter_coord(p: int, extent: int, jit: int) -> int {
    tdiv(p * SCALE + jit, extent)
}

/// `u` is a coordinate some sub-pixel jitter of pixel `p` gives.
pub open spec fn pixel_coord_of(p: int, extent: int, u: int) -> bool {
    exists|jit: int| 0 <= jit < SCALE && u == #[trigger] jitter_coord(p, extent, jit)
}

/// What the integrator's contract pins of a traced colour, whatever the
/// generator drew: bounded; exactly the background on a miss; and on a
/// hit, tied to a surface the ray's first bounce met.
pub open spec fn color_result_ok(
    nodes: Seq<BvhInner>,
    root: int,
    bg: Vec3,
    r: Ray,
    c: Vec3,
) -> bool {
    &&& abs_bounded(c, 0x100_0000_0000)
    &&& ((spec_bvh_hit_t(nodes, root, r, HIT_EPS as int, T_LIMIT as int) is None) ==> c == bg)
    &&& ((spec_bvh_hit_t(nodes, root, r, HIT_EPS as int, T_LIMIT as int) is Some) ==> exists|
        k: int,
    |
        0 <= k < leaves(nodes, root).len() && #[trigger] light_leaf_result(
            nodes,
            root,
            k,
            r,
            spec_bvh_hit_t(nodes, root, r, HIT_EPS as int, T_LIMIT as int)->0,
            c,
        ))
}

/// A colour the integrator could have produced for pixel `(px, py)` of
/// an `x` by `y` image: traced along some camera ray through that pixel.
pub open spec fn sample_of_pixel(
    cam: Camera,
    nodes: Seq<BvhInner>,
    root: int,
    bg: Vec3,
    x: int,
    y: int,
    px: int,
    py: int,
    c: Vec3,
) -> bool {
    exists|u: int, v: int, r: Ray|
        {
            &&& #[trigger] camera_ray_matches(cam, u, v, r)
            &&& pixel_coord_of(px, x, u)
            &&& pixel_coord_of(py, y, v)
            &&& color_result_ok(nodes, root, bg, r, c)
        }
}

/// The componentwise sum of a sequence of colours.
pub open spec fn sum_samples(cs: Seq<Vec3>) -> (int, int, int)
    decreases cs.len(),
{
    if cs.len() == 0 {
        (0, 0, 0)
    } else {
        let rest = sum_samples(cs.drop_last());
        (rest.0 + cs.last().x, rest.1 + cs.last().y, rest.2 + cs.last().z)
    }
}

/// The colour is the truncated mean of `samples` integrator outcomes for
/// rays through pixel `(px, py)`.
pub open spec fn pixel_traced(
    cam: Camera,
    nodes: Seq<BvhInner>,
    root: int,
    bg: Vec3,
    x: int,
    y: int,
    px: int,
    py: int,
    samples: int,
    c: Vec3,
) -> bool {
    exists|cs: Seq<Vec3>|
        {
            &&& #[trigger] sum_samples(cs) == sum_samples(cs)
            &&& cs.len() == samples
            &&& (forall|s: int|
                0 <= s < cs.len() ==> sample_of_pixel(
                    cam,
                    nodes,
                    root,
                    bg,
                    x,
                    y,
                    px,
                    py,
                    #[trigger] cs[s],
                ))
            &&& c.x == tdiv(sum_samples(cs).0, samples)
            &&& c.y == tdiv(sum_samples(cs).1, samples)
            &&& c.z == tdiv(sum_samples(cs).2, samples)
        }
}

/// The pixel's three colour bytes are the quantisation of a colour the
/// renderer could have traced for exactly that pixel.
pub open spec fn pixel_rendered(
    bytes: Seq<u8>,
    off: int,
    cam: Camera,
    nodes: Seq<BvhInner>,
    root: int,
    bg: Vec3,
    x: int,
    y: int,
    px: int,
    py: int,
    samples: int,
) -> bool {
    exists|c: Vec3|
        {
            &&& #[trigger] pixel_traced(cam, nodes, root, bg, x, y, px, py, samples, c)
            &&& bytes[off] as int == quantize(c.x as int)
            &&& bytes[off + 1] as int == quantize(c.y as int)
            &&& bytes[off + 2] as int == quantize(c.z as int)
        }
}

/// Appending one colour extends the sum by its components.
proof fn lemma_sum_push(cs: Seq<Vec3>, c: Vec3)
    ensures
        sum_samples(cs.push(c)).0 == sum_samples(cs).0 + c.x,
        sum_samples(cs.push(c)).1 == sum_samples(cs).1 + c.y,
        sum_samples(cs.push(c)).2 == sum_samples(cs).2 + c.z,
{
    assert(cs.push(c).drop_last() =~= cs);
    assert(cs.push(c).last() == c);
}

/// Distinct pixels of a chunk buffer use distinct slots.
proof fn lemma_pixel_index_unique(nx: int, i1: int, j1: int, i2: int, j2: int)
    by (nonlinear_arith)
    requires
        0 <= i1 < nx,
        0 <= i2 < nx,
        0 <= j1,
        0 <= j2,
        !(i1 == i2 && j1 == j2),
    ensures
        j1 * nx + i1 != j2 * nx + i2,
{
}

/// A byte with pixel remainder three is never one of the three colour
/// bytes of any pixel slot.
proof fn lemma_alpha_not_written(p: int, b: int)
    requires
        b % 4 == 3,
        0 <= p,
    ensures
        !(p * 4 <= b && b < p * 4 + 3),
{
    if p * 4 <= b && b < p * 4 + 3 {
        vstd::arithmetic::div_mod::lemma_fundamental_div_mod_converse(b, 4, p, b - p * 4);
    }
}

/// Render every pixel of a chunk: `samples` jittered rays per pixel,
/// averaged, gamma-corrected and quantised into the chunk's own buffer.
pub fn render_chunk(
    chunk: &mut Chunk,
    camera: &Camera,
    world: &BvhNode,
    background: &Vec3,
    samples: u16,
    rng: &mut rand::rngs::SmallRng,
)
    requires
        camera_wf(*camera),
        bvh_wf(*world),
        forall|tm: int|
            camera.time0 <= tm <= camera.time1 ==> list_time_ok(
                leaves(world.nodes@, world.root as int),
                tm,
            ),
        abs_bounded(*background, COORD_LIMIT as int),
        samples >= 1,
        0 < old(chunk).x <= 0x4000,
        0 < old(chunk).y <= 0x4000,
        old(chunk).start_x + old(chunk).nx <= old(chunk).x,
        old(chunk).start_y + old(chunk).ny <= old(chunk).y,
        old(chunk).buffer.len() == old(chunk).nx * old(chunk).ny * 4,
    ensures
        final(chunk).x == old(chunk).x,
        final(chunk).y == old(chunk).y,
        final(chunk).nx == old(chunk).nx,
        final(chunk).ny == old(chunk).ny,
        final(chunk).start_x == old(chunk).start_x,
        final(chunk).start_y == old(chunk).start_y,
        final(chunk).num == old(chunk).num,
        final(chunk).buffer.len() == old(chunk).buffer.len(),
        forall|ii: int, jj: int|
            0 <= ii < old(chunk).nx && 0 <= jj < old(chunk).ny ==> #[trigger] pixel_rendered(
                final(chunk).buffer@,
                (jj * (old(chunk).nx as int) + ii) * 4,
                *camera,
                world.nodes@,
                world.root as int,
                *background,
                old(chunk).x as int,
                old(chunk).y as int,
                old(chunk).start_x + ii,
                old(chunk).start_y + jj,
                samples as int,
            ),
        forall|b: int|
            0 <= b < old(chunk).buffer.len() && b % 4 == 3 ==> final(chunk).buffer@[b] == old(
                chunk,
            ).buffer@[b],
{
    let nx = chunk.nx;
    let ny = chunk.ny;
    let start_x = chunk.start_x;
    let start_y = chunk.start_y;
    let x = chunk.x;
    let y = chunk.y;
    let mut j: usize = 0;
    while j < ny
        invariant
            camera_wf(*camera),
            bvh_wf(*world),
            forall|tm: int|
                camera.time0 <= tm <= camera.time1 ==> list_time_ok(
                    leaves(world.nodes@, world.root as int),
                    tm,
                ),
            abs_bounded(*background, COORD_LIMIT as int),
            samples >= 1,
            0 < x <= 0x4000,
            0 < y <= 0x4000,
            start_x + nx <= x,
            start_y + ny <= y,
            chunk.buffer.len() == nx * ny * 4,
            chunk.x == x && chunk.y == y && chunk.nx == nx && chunk.ny == ny,
            chunk.start_x == start_x && chunk.start_y == start_y,
            chunk.num == old(chunk).num,
            chunk.buffer.len() == old(chunk).buffer.len(),
            nx == old(chunk).nx && ny == old(chunk).ny && x == old(chunk).x && y == old(chunk).y,
            start_x == old(chunk).start_x && start_y == old(chunk).start_y,
            forall|ii: int, jj: int|
                0 <= ii < nx && 0 <= jj < j ==> #[trigger] pixel_rendered(
                    chunk.buffer@,
                    (jj * (nx as int) + ii) * 4,
                    *camera,
                    world.nodes@,
                    world.root as int,
                    *background,
                    x as int,
                    y as int,
                    start_x + ii,
                    start_y + jj,
                    samples as int,
                ),
            forall|b: int|
                0 <= b < chunk.buffer.len() && b % 4 == 3 ==> chunk.buffer@[b] == old(
                    chunk,
                ).buffer@[b],
        decreases ny - j,
    {
        let mut i: usize = 0;
        while i < nx
            invariant
                camera_wf(*camera),
                bvh_wf(*world),
                forall|tm: int|
                    camera.time0 <= tm <= camera.time1 ==> list_time_ok(
                        leaves(world.nodes@, world.root as int),
                        tm,
                    ),
                abs_bounded(*background, COORD_LIMIT as int),
                samples >= 1,
                0 < x <= 0x4000,
                0 < y <= 0x4000,
                start_x + nx <= x,
                start_y + ny <= y,
                j < ny,
                chunk.buffer.len() == nx * ny * 4,
                chunk.x == x && chunk.y == y && chunk.nx == nx && chunk.ny == ny,
                chunk.start_x == start_x && chunk.start_y == start_y,
                chunk.num == old(chunk).num,
                chunk.buffer.len() == old(chunk).buffer.len(),
                nx == old(chunk).nx && ny == old(chunk).ny && x == old(chunk).x && y == old(
                    chunk,
                ).y,
                start_x == old(chunk).start_x && start_y == old(chunk).start_y,
                forall|ii: int, jj: int|
                    0 <= ii < nx && 0 <= jj < j ==> #[trigger] pixel_rendered(
                        chunk.buffer@,
                        (jj * (nx as int) + ii) * 4,
                        *camera,
                        world.nodes@,
                        world.root as int,
                        *background,
                        x as int,
                        y as int,
                        start_x + ii,
                        start_y + jj,
                        samples as int,
                    ),
                forall|ii: int|
                    0 <= ii < i ==> #[trigger] pixel_rendered(
                        chunk.buffer@,
                        ((j as int) * (nx as int) + ii) * 4,
                        *camera,
                        world.nodes@,
                        world.root as int,
                        *background,
                        x as int,
                        y as int,
                        start_x + ii,
                        start_y + (j as int),
                        samples as int,
                    ),
                forall|b: int|
                    0 <= b < chunk.buffer.len() && b % 4 == 3 ==> chunk.buffer@[b] == old(
                        chunk,
                    ).buffer@[b],
            decreases nx - i,
        {
            let mut acc = Vec3 { x: 0, y: 0, z: 0 };
            let mut s: u16 = 0;
            let ghost mut cs: Seq<Vec3> = Seq::empty();
            while s < samples
                invariant
                    camera_wf(*camera),
                    bvh_wf(*world),
                    forall|tm: int|
                        camera.time0 <= tm <= camera.time1 ==> list_time_ok(
                            leaves(world.nodes@, world.root as int),
                            tm,
                        ),
                    abs_bounded(*background, COORD_LIMIT as int),
                    0 < x <= 0x4000,
                    0 < y <= 0x4000,
                    start_x + nx <= x,
                    start_y + ny <= y,
                    i < nx,
                    j < ny,
                    s <= samples,
                    abs_bounded(acc, (s as int) * 0x100_0000_0000),
                    cs.len() == s as int,
                    acc.x == sum_samples(cs).0,
                    acc.y == sum_samples(cs).1,
                    acc.z == sum_samples(cs).2,
                    forall|s2: int|
                        0 <= s2 < cs.len() ==> sample_of_pixel(
                            *camera,
                            world.nodes@,
                            world.root as int,
                            *background,
                            x as int,
                            y as int,
                            start_x + (i as int),
                            start_y + (j as int),
                            #[trigger] cs[s2],
                        ),
                decreases samples - s,
            {
                let u = pixel_coord(start_x + i, x, rng);
                let v = pixel_coord(start_y + j, y, rng);
                let ray = camera.get_ray(u, v, rng);
                let c = ray.color(world, rng, background, 0);
                proof {
                    assert((s as int) * 0x100_0000_0000 + 0x100_0000_0000 == (s as int + 1)
                        * 0x100_0000_0000) by (nonlinear_arith);
                    assert((s as int + 1) * 0x100_0000_0000 <= 0x10000 * 0x100_0000_0000)
                        by (nonlinear_arith)
                        requires
                            s as int + 1 <= 0x10000,
                    ;
                    assert(color_result_ok(world.nodes@, world.root as int, *background, ray, c));
                    assert(camera_ray_matches(*camera, u as int, v as int, ray));
                    assert(sample_of_pixel(
                        *camera,
                        world.nodes@,
                        world.root as int,
                        *background,
                        x as int,
                        y as int,
                        start_x + (i as int),
                        start_y + (j as int),
                        c,
                    ));
                    lemma_sum_push(cs, c);
                }
                acc = acc.add(c);
                s = s + 1;
                proof {
                    cs = cs.push(c);
                }
            }
            proof {
                assert((samples as int) * 0x100_0000_0000 <= 0x10000 * 0x100_0000_0000)
                    by (nonlinear_arith)
                    requires
                        samples as int <= 0x10000,
                ;
                lemma_tdiv_bounds(acc.x as int, samples as int);
                lemma_tdiv_bounds(acc.y as int, samples as int);
                lemma_tdiv_bounds(acc.z as int, samples as int);
                assert((samples as int) * 0x100_0000_0000 == 0x100_0000_0000 * (samples as int))
                    by (nonlinear_arith);
                crate::fixed::lemma_tdiv_abs_le(acc.x as int, samples as int, 0x100_0000_0000);
                crate::fixed::lemma_tdiv_abs_le(acc.y as int, samples as int, 0x100_0000_0000);
                crate::fixed::lemma_tdiv_abs_le(acc.z as int, samples as int, 0x100_0000_0000);
            }
            let color = Vec3 {
                x: div_trunc(acc.x as i128, samples as i128) as i64,
                y: div_trunc(acc.y as i128, samples as i128) as i64,
                z: div_trunc(acc.z as i128, samples as i128) as i64,
            };
            proof {
                assert((j as int) * nx * 4 + (i as int) * 4 + 4 <= (ny as int) * nx * 4)
                    by (nonlinear_arith)
                    requires
                        0 <= (i as int) && (i as int) < nx as int,
                        0 <= (j as int) && (j as int) < ny as int,
                ;
                assert((ny as int) * nx == (nx as int) * ny) by (nonlinear_arith);
            }
            let offset = j * nx * 4 + i * 4;
            proof {
                assert(offset as int == ((j as int) * (nx as int) + (i as int)) * 4)
                    by (nonlinear_arith)
                    requires
                        offset as int == (j as int) * (nx as int) * 4 + (i as int) * 4,
                ;
            }
            let ghost pre = chunk.buffer@;
            update_rgb(&mut chunk.buffer, color, offset);
            proof {
                assert(offset + 2 < chunk.buffer.len());
                assert(pixel_traced(
                    *camera,
                    world.nodes@,
                    world.root as int,
                    *background,
                    x as int,
                    y as int,
                    start_x + (i as int),
                    start_y + (j as int),
                    samples as int,
                    color,
                )) by {
                    assert(sum_samples(cs) == sum_samples(cs));
                    assert(cs.len() == samples as int);
                }
                assert(pixel_rendered(
                    chunk.buffer@,
                    offset as int,
                    *camera,
                    world.nodes@,
                    world.root as int,
                    *background,
                    x as int,
                    y as int,
                    start_x + (i as int),
                    start_y + (j as int),
                    samples as int,
                )) by {
                    assert(chunk.buffer@[offset as int] as int == quantize(color.x as int)
                        && chunk.buffer@[offset + 1] as int == quantize(color.y as int)
                        && chunk.buffer@[offset + 2] as int == quantize(color.z as int));
                }
                assert forall|ii: int, jj: int|
                    0 <= ii < nx && (jj < j || (jj == j && ii < i)) && 0 <= jj implies
                    #[trigger] pixel_rendered(
                    chunk.buffer@,
                    (jj * (nx as int) + ii) * 4,
                    *camera,
                    world.nodes@,
                    world.root as int,
                    *background,
                    x as int,
                    y as int,
                    start_x + ii,
                    start_y + jj,
                    samples as int,
                ) by {
                    let p_old = jj * (nx as int) + ii;
                    let p_new = (j as int) * (nx as int) + (i as int);
                    lemma_pixel_index_unique(nx as int, ii, jj, i as int, j as int);
                    assert(jj * (nx as int) + ii + 1 <= (ny as int) * (nx as int))
                        by (nonlinear_arith)
                        requires
                            0 <= ii,
                            ii + 1 <= nx as int,
                            0 <= jj,
                            jj + 1 <= ny as int,
                    ;
                    assert forall|cc: int| 0 <= cc < 3 implies #[trigger] chunk.buffer@[p_old * 4
                        + cc] == pre[p_old * 4 + cc] by {
                        assert(!(offset <= p_old * 4 + cc < offset + 3)) by (nonlinear_arith)
                            requires
                                p_old != p_new,
                                0 <= cc < 3,
                                offset as int == p_new * 4,
                        ;
                        assert(0 <= p_old * 4 + cc < pre.len()) by (nonlinear_arith)
                            requires
                                0 <= p_old,
                                jj * (nx as int) + ii + 1 <= (ny as int) * (nx as int),
                                p_old == jj * (nx as int) + ii,
                                pre.len() == (nx as int) * (ny as int) * 4,
                                0 <= cc < 3,
                        ;
                    }
                    assert(pixel_rendered(
                        pre,
                        p_old * 4,
                        *camera,
                        world.nodes@,
                        world.root as int,
                        *background,
                        x as int,
                        y as int,
                        start_x + ii,
                        start_y + jj,
                        samples as int,
                    ));
                    let c = choose|c: Vec3|
                        {
                            &&& #[trigger] pixel_traced(
                                *camera,
                                world.nodes@,
                                world.root as int,
                                *background,
                                x as int,
                                y as int,
                                start_x + ii,
                                start_y + jj,
                                samples as int,
                                c,
                            )
                            &&& pre[p_old * 4] as int == quantize(c.x as int)
                            &&& pre[p_old * 4 + 1] as int == quantize(c.y as int)
                            &&& pre[p_old * 4 + 2] as int == quantize(c.z as int)
                        };
                    assert(chunk.buffer@[p_old * 4] == pre[p_old * 4]);
                    assert(chunk.buffer@[p_old * 4 + 1] == pre[p_old * 4 + 1]);
                    assert(chunk.buffer@[p_old * 4 + 2] == pre[p_old * 4 + 2]);
                }
                assert forall|b: int|
                    0 <= b < chunk.buffer.len() && b % 4 == 3 implies chunk.buffer@[b] == pre[b] by {
                    if offset <= b < offset + 3 {
                        lemma_alpha_not_written(((j as int) * (nx as int) + (i as int)), b);
                    }
                }
            }
            i = i + 1;
        }
        j = j + 1;
    }
}

/// The normalised fixed-point image coordinate of a pixel with a random
/// sub-pixel jitter: `(p + jitter) / extent`, always inside `[0, 1]`.
fn pixel_coord(p: usize, extent: usize, rng: &mut rand::rngs::SmallRng) -> (r: i64)
    requires
        0 < extent <= 0x4000,
        p < extent,
    ensures
        0 <= r <= SCALE,
        pixel_coord_of(p as int, extent as int, r as int),
{
    let jitter = crate::rng::rand_below(rng, SCALE);
    let num = (p as i64) * SCALE + jitter;
    proof {
        assert((p as int) * SCALE + jitter <= (extent as int) * SCALE) by (nonlinear_arith)
            requires
                p as int + 1 <= extent as int,
                0 <= jitter < SCALE,
        ;
        assert(0 <= (p as int) * SCALE) by (nonlinear_arith)
            requires
                p >= 0,
        ;
        lemma_tdiv_bounds((p as int) * SCALE + jitter, extent as int);
        crate::fixed::lemma_tdiv_abs_le(
            (p as int) * SCALE + jitter,
            extent as int,
            SCALE as int,
        );
    }
    let out = div_trunc(num as i128, extent as i128) as i64;
    proof {
        assert(out as int == jitter_coord(p as int, extent as int, jitter as int));
    }
    out
}

/// The framebuffer byte that position `k` of the chunk's row `jj` lands
/// on: the row is flipped vertically, the image is row-major, four bytes
/// per pixel.
pub open spec fn chunk_row_target(c: Chunk, jj: int, k: int) -> int {
    ((c.y - (c.start_y + jj) - 1) * c.x + c.start_x) * 4 + k
}

/// The byte lies inside one of the first `upto` target rows of the chunk.
pub open spec fn chunk_covers_upto(c: Chunk, upto: int, b: int) -> bool {
    exists|jj: int, k: int|
        0 <= jj < upto && 0 <= k < c.nx * 4 && b == #[trigger] chunk_row_target(c, jj, k)
}

/// The byte lies inside the chunk's target region.
pub open spec fn chunk_covers_byte(c: Chunk, b: int) -> bool {
    chunk_covers_upto(c, c.ny as int, b)
}

/// Targets of distinct rows never collide: each row sits a full image row
/// below the previous one, and a chunk row is never wider than an image
/// row.
proof fn lemma_row_targets_disjoint(c: Chunk, jj1: int, k1: int, jj2: int, k2: int)
    requires
        0 <= jj1 < jj2 < c.ny as int,
        0 <= k1 < c.nx * 4,
        0 <= k2 < c.nx * 4,
        c.start_x + c.nx <= c.x,
        c.start_y + c.ny <= c.y,
        0 < c.x,
    ensures
        chunk_row_target(c, jj1, k1) != chunk_row_target(c, jj2, k2),
{
    assert(chunk_row_target(c, jj1, 0) >= chunk_row_target(c, jj2, 0) + 4 * c.x)
        by (nonlinear_arith)
        requires
            jj1 + 1 <= jj2,
            0 < c.x,
            chunk_row_target(c, jj1, 0) == ((c.y - (c.start_y + jj1) - 1) * c.x + c.start_x) * 4,
            chunk_row_target(c, jj2, 0) == ((c.y - (c.start_y + jj2) - 1) * c.x + c.start_x) * 4,
    ;
}

/// Copy a finished chunk into the shared framebuffer at its
/// (vertically flipped) byte offsets: every chunk byte lands exactly at
/// its row's target, and nothing outside the chunk's target region is
/// touched. The chunk-partition laws guarantee that the target regions of
/// distinct chunks never overlap.
pub fn merge_chunk(buf: &mut Vec<u8>, chunk: &Chunk)
    requires
        0 < chunk.x <= 0x4000,
        0 < chunk.y <= 0x4000,
        chunk.start_x + chunk.nx <= chunk.x,
        chunk.start_y + chunk.ny <= chunk.y,
        chunk.buffer.len() == chunk.nx * chunk.ny * 4,
        old(buf).len() == chunk.x * chunk.y * 4,
    ensures
        final(buf).len() == old(buf).len(),
        forall|jj: int, k: int|
            0 <= jj < chunk.ny && 0 <= k < chunk.nx * 4 ==> final(buf)@[#[trigger] chunk_row_target(
                *chunk,
                jj,
                k,
            )] == chunk.buffer@[jj * (chunk.nx as int) * 4 + k],
        forall|b: int|
            0 <= b < old(buf).len() && !chunk_covers_byte(*chunk, b) ==> final(buf)@[b] == old(
                buf,
            )@[b],
{
    let x = chunk.x;
    let y = chunk.y;
    let nx = chunk.nx;
    let mut jj: usize = 0;
    while jj < chunk.ny
        invariant
            0 < x <= 0x4000,
            0 < y <= 0x4000,
            chunk.start_x + nx <= x,
            chunk.start_y + chunk.ny <= y,
            nx == chunk.nx,
            x == chunk.x,
            y == chunk.y,
            jj <= chunk.ny,
            chunk.buffer.len() == chunk.nx * chunk.ny * 4,
            buf.len() == x * y * 4,
            buf.len() == old(buf).len(),
            forall|jj2: int, k: int|
                0 <= jj2 < jj && 0 <= k < chunk.nx * 4 ==> buf@[#[trigger] chunk_row_target(
                    *chunk,
                    jj2,
                    k,
                )] == chunk.buffer@[jj2 * (chunk.nx as int) * 4 + k],
            forall|b: int|
                0 <= b < old(buf).len() && !chunk_covers_upto(*chunk, jj as int, b) ==> buf@[b]
                    == old(buf)@[b],
        decreases chunk.ny - jj,
    {
        let row = chunk.start_y + jj;
        proof {
            assert(((y as int) - row - 1) * x + chunk.start_x + nx <= (y as int) * x)
                by (nonlinear_arith)
                requires
                    0 <= row && (row as int) < y as int,
                    chunk.start_x + nx <= x as int,
                    0 < x,
            ;
            assert(0 <= ((y as int) - row - 1) * x) by (nonlinear_arith)
                requires
                    row < y as int,
                    0 < x,
            ;
            assert((jj as int) * nx * 4 + nx * 4 <= (chunk.ny as int) * nx * 4)
                by (nonlinear_arith)
                requires
                    0 <= (jj as int) && (jj as int) < chunk.ny as int,
            ;
            assert((chunk.ny as int) * nx == (chunk.nx as int) * chunk.ny) by (nonlinear_arith)
                requires
                    nx as int == chunk.nx as int,
            ;
            assert(((y as int) * x) * 4 == (x as int) * y * 4) by (nonlinear_arith);
        }
        let real_offset = ((y - row - 1) * x + chunk.start_x) * 4;
        let src_offset = jj * nx * 4;
        let ghost row_entry = buf@;
        let mut k: usize = 0;
        while k < nx * 4
            invariant
                buf.len() == old(buf).len(),
                buf.len() == x * y * 4,
                k <= nx * 4,
                nx == chunk.nx,
                jj < chunk.ny,
                real_offset + nx * 4 <= buf.len(),
                src_offset + nx * 4 <= chunk.buffer.len(),
                real_offset as int == chunk_row_target(*chunk, jj as int, 0),
                src_offset as int == (jj as int) * (chunk.nx as int) * 4,
                forall|k2: int| 0 <= k2 < k ==> #[trigger] buf@[real_offset + k2] == chunk.buffer@[src_offset + k2],
                forall|b: int|
                    0 <= b < buf.len() && !(real_offset <= b < real_offset + nx * 4) ==> buf@[b]
                        == row_entry[b],
            decreases nx * 4 - k,
        {
            let b = chunk.buffer[src_offset + k];
            buf.set(real_offset + k, b);
            k = k + 1;
        }
        jj = jj + 1;
        proof {
            assert forall|jj2: int, k: int|
                0 <= jj2 < jj && 0 <= k < chunk.nx * 4 implies buf@[#[trigger] chunk_row_target(
                *chunk,
                jj2,
                k,
            )] == chunk.buffer@[jj2 * (chunk.nx as int) * 4 + k] by {
                if jj2 == jj - 1 {
                    assert(chunk_row_target(*chunk, jj2, k) == real_offset + k);
                    assert(jj2 * (chunk.nx as int) * 4 + k == src_offset + k)
                        by (nonlinear_arith)
                        requires
                            jj2 == (jj - 1) as int,
                            src_offset as int == jj2 * (chunk.nx as int) * 4,
                    ;
                } else {
                    // An earlier row: its target lies outside the range
                    // this row wrote.
                    lemma_row_targets_disjoint(*chunk, jj2, k, (jj - 1) as int, 0);
                    assert(chunk_row_target(*chunk, jj2, k) >= chunk_row_target(
                        *chunk,
                        (jj - 1) as int,
                        0,
                    ) + 4 * chunk.x) by (nonlinear_arith)
                        requires
                            jj2 + 1 <= (jj - 1) as int,
                            0 < chunk.x,
                            chunk_row_target(*chunk, jj2, k) == ((chunk.y - (chunk.start_y + jj2)
                                - 1) * chunk.x + chunk.start_x) * 4 + k,
                            chunk_row_target(*chunk, (jj - 1) as int, 0) == ((chunk.y - (
                            chunk.start_y + (jj - 1)) - 1) * chunk.x + chunk.start_x) * 4,
                            0 <= k,
                    ;
                    assert(0 <= chunk_row_target(*chunk, jj2, k) && chunk_row_target(
                        *chunk,
                        jj2,
                        k,
                    ) + 1 <= buf.len() as int) by (nonlinear_arith)
                        requires
                            0 <= jj2 && jj2 < chunk.ny as int,
                            0 <= k < chunk.nx * 4,
                            chunk.start_x + chunk.nx <= chunk.x,
                            chunk.start_y + chunk.ny <= chunk.y,
                            0 < chunk.x,
                            buf.len() == (chunk.x as int) * chunk.y * 4,
                            chunk_row_target(*chunk, jj2, k) == ((chunk.y - (chunk.start_y + jj2)
                                - 1) * chunk.x + chunk.start_x) * 4 + k,
                    ;
                    assert(buf@[chunk_row_target(*chunk, jj2, k)] == row_entry[chunk_row_target(
                        *chunk,
                        jj2,
                        k,
                    )]);
                }
            }
            assert forall|b: int|
                0 <= b < old(buf).len() && !chunk_covers_upto(*chunk, jj as int, b) implies buf@[b]
                == old(buf)@[b] by {
                assert(!(real_offset <= b < real_offset + nx * 4)) by {
                    if real_offset <= b < real_offset + nx * 4 {
                        assert(b == chunk_row_target(*chunk, (jj - 1) as int, b - real_offset));
                    }
                }
                assert(!chunk_covers_upto(*chunk, (jj - 1) as int, b)) by {
                    if chunk_covers_upto(*chunk, (jj - 1) as int, b) {
                        let (jj2, k2) = choose|jj2: int, k2: int|
                            0 <= jj2 < (jj - 1) as int && 0 <= k2 < chunk.nx * 4 && b
                                == #[trigger] chunk_row_target(*chunk, jj2, k2);
                        assert(chunk_covers_upto(*chunk, jj as int, b));
                    }
                }
            }
        }
    }
}

/// A pixel's four bytes lie inside the framebuffer.
proof fn lemma_pixel_offset_range(x: int, y: int, px: int, py: int)
    by (nonlinear_arith)
    requires
        0 <= px < x,
        0 <= py < y,
    ensures
        0 <= crate::chunk::pixel_offset(x, y, px, py),
        crate::chunk::pixel_offset(x, y, px, py) + 4 <= x * y * 4,
{
}

/// One merge step extends the set of finished pixels by the merged
/// chunk's own pixels and disturbs no other.
#[verifier::rlimit(30)]
proof fn lemma_render_step(
    cur: Seq<u8>,
    entry: Seq<u8>,
    c: Chunk,
    zeroed: Seq<u8>,
    cam: Camera,
    nodes: Seq<BvhInner>,
    root: int,
    bg: Vec3,
    samples: int,
    x: int,
    y: int,
    cols: int,
    rows: int,
    i: int,
    j: int,
)
    requires
        c.x == x,
        c.y == y,
        0 < x <= 0x4000,
        0 < y <= 0x4000,
        0 < cols,
        0 < rows,
        0 <= i < cols,
        0 <= j < rows,
        c.start_x == crate::chunk::seg_start(x, cols, i),
        c.start_y == crate::chunk::seg_start(y, rows, j),
        c.nx == crate::chunk::seg_len(x, cols, i),
        c.ny == crate::chunk::seg_len(y, rows, j),
        c.start_x + c.nx <= x,
        c.start_y + c.ny <= y,
        c.buffer.len() == c.nx * c.ny * 4,
        entry.len() == x * y * 4,
        cur.len() == entry.len(),
        forall|jj: int, k: int|
            0 <= jj < c.ny && 0 <= k < c.nx * 4 ==> cur[#[trigger] chunk_row_target(c, jj, k)]
                == c.buffer@[jj * (c.nx as int) * 4 + k],
        forall|b: int| 0 <= b < entry.len() && !chunk_covers_byte(c, b) ==> cur[b] == entry[b],
        forall|ii: int, jj: int|
            0 <= ii < c.nx && 0 <= jj < c.ny ==> #[trigger] pixel_rendered(
                c.buffer@,
                (jj * (c.nx as int) + ii) * 4,
                cam,
                nodes,
                root,
                bg,
                x,
                y,
                c.start_x + ii,
                c.start_y + jj,
                samples,
            ),
        forall|b: int| 0 <= b < c.buffer.len() && b % 4 == 3 ==> c.buffer@[b] == zeroed[b],
        zeroed.len() == c.buffer.len(),
        forall|b: int| 0 <= b < zeroed.len() ==> zeroed[b] == 0,
        forall|px: int, py: int|
            0 <= px < x && 0 <= py < y && (exists|i2: int, j2: int|
                0 <= i2 < cols && 0 <= j2 < rows && cell_done(i2, j2, i, j)
                    && #[trigger] crate::chunk::pixel_in_chunk(x, y, cols, rows, i2, j2, px, py))
                ==> #[trigger] image_pixel_done(entry, cam, nodes, root, bg, x, y, px, py, samples),
    ensures
        forall|px: int, py: int|
            0 <= px < x && 0 <= py < y && (exists|i2: int, j2: int|
                0 <= i2 < cols && 0 <= j2 < rows && cell_done(i2, j2, i + 1, j)
                    && #[trigger] crate::chunk::pixel_in_chunk(x, y, cols, rows, i2, j2, px, py))
                ==> #[trigger] image_pixel_done(cur, cam, nodes, root, bg, x, y, px, py, samples),
{
    assert forall|px: int, py: int|
        0 <= px < x && 0 <= py < y && (exists|i2: int, j2: int|
            0 <= i2 < cols && 0 <= j2 < rows && cell_done(i2, j2, i + 1, j)
                && #[trigger] crate::chunk::pixel_in_chunk(x, y, cols, rows, i2, j2, px, py))
            implies #[trigger] image_pixel_done(cur, cam, nodes, root, bg, x, y, px, py, samples) by {
        let (i2, j2) = choose|i2: int, j2: int|
            0 <= i2 < cols && 0 <= j2 < rows && cell_done(i2, j2, i + 1, j)
                && #[trigger] crate::chunk::pixel_in_chunk(x, y, cols, rows, i2, j2, px, py);
        let po = crate::chunk::pixel_offset(x, y, px, py);
        lemma_pixel_offset_range(x, y, px, py);
        if i2 == i && j2 == j {
            // A pixel of the freshly merged chunk: its channel bytes are
            // the chunk buffer's quantised bytes, its fourth byte the
            // chunk buffer's zero.
            let ii = px - c.start_x;
            let jj = py - c.start_y;
            assert(0 <= ii < c.nx && 0 <= jj < c.ny);
            let slot = (jj * (c.nx as int) + ii) * 4;
            assert forall|b: int| po <= b < po + 4 implies #[trigger] cur[b] == c.buffer@[slot + (b
                - po)] by {
                let cc = b - po;
                lemma_target_is_pixel_offset(c, jj, ii, cc);
                assert(cur[chunk_row_target(c, jj, 4 * ii + cc)] == c.buffer@[jj * (c.nx as int)
                    * 4 + (4 * ii + cc)]) by {
                    assert(0 <= 4 * ii + cc < c.nx * 4) by (nonlinear_arith)
                        requires
                            0 <= ii && ii + 1 <= c.nx as int,
                            0 <= cc < 4,
                    ;
                }
                assert(jj * (c.nx as int) * 4 + (4 * ii + cc) == slot + cc) by (nonlinear_arith)
                    requires
                        slot == (jj * (c.nx as int) + ii) * 4,
                ;
            }
            assert(0 <= slot && slot + 4 <= c.buffer.len()) by (nonlinear_arith)
                requires
                    0 <= ii && ii + 1 <= c.nx as int,
                    0 <= jj && jj + 1 <= c.ny as int,
                    slot == (jj * (c.nx as int) + ii) * 4,
                    c.buffer.len() == (c.nx as int) * (c.ny as int) * 4,
            ;
            assert(pixel_rendered(
                c.buffer@,
                slot,
                cam,
                nodes,
                root,
                bg,
                x,
                y,
                c.start_x + ii,
                c.start_y + jj,
                samples,
            ));
            assert(pixel_rendered(c.buffer@, slot, cam, nodes, root, bg, x, y, px, py, samples));
            let cv = choose|cv: Vec3|
                {
                    &&& #[trigger] pixel_traced(cam, nodes, root, bg, x, y, px, py, samples, cv)
                    &&& c.buffer@[slot] as int == quantize(cv.x as int)
                    &&& c.buffer@[slot + 1] as int == quantize(cv.y as int)
                    &&& c.buffer@[slot + 2] as int == quantize(cv.z as int)
                };
            assert(cur[po] == c.buffer@[slot]);
            assert(cur[po + 1] == c.buffer@[slot + 1]);
            assert(cur[po + 2] == c.buffer@[slot + 2]);
            assert(pixel_rendered(cur, po, cam, nodes, root, bg, x, y, px, py, samples));
            assert(slot + 3 == (jj * (c.nx as int) + ii) * 4 + 3);
            vstd::arithmetic::div_mod::lemma_fundamental_div_mod_converse(
                slot + 3,
                4,
                jj * (c.nx as int) + ii,
                3,
            );
            assert(c.buffer@[slot + 3] == zeroed[slot + 3]);
            assert(cur[po + 3] == 0);
        } else {
            // A pixel finished earlier: none of its four bytes lies in
            // the merged chunk's target region, so they carry over.
            assert(cell_done(i2, j2, i, j));
            assert(image_pixel_done(entry, cam, nodes, root, bg, x, y, px, py, samples));
            assert forall|b: int| po <= b < po + 4 implies #[trigger] cur[b] == entry[b] by {
                let cc = b - po;
                if chunk_covers_byte(c, b) {
                    lemma_covered_byte_is_chunk_pixel(c, b);
                    let (ii, jj, cc2) = choose|ii: int, jj: int, cc2: int|
                        0 <= ii < c.nx as int && 0 <= jj < c.ny as int && 0 <= cc2 < 4
                            && #[trigger] byte_of_chunk_pixel(c, ii, jj, cc2, b);
                    lemma_pixel_bytes_separate(
                        x,
                        y,
                        px,
                        py,
                        cc,
                        c.start_x + ii,
                        c.start_y + jj,
                        cc2,
                    );
                    // The byte's pixel belongs to this chunk, so the
                    // pixel's cell is this cell, against its being done.
                    assert(crate::chunk::in_seg(x, cols, i, px));
                    assert(crate::chunk::in_seg(y, rows, j, py));
                    crate::chunk::lemma_seg_unique(x, cols, i2, i, px);
                    crate::chunk::lemma_seg_unique(y, rows, j2, j, py);
                }
            }
            let cv = choose|cv: Vec3|
                {
                    &&& #[trigger] pixel_traced(cam, nodes, root, bg, x, y, px, py, samples, cv)
                    &&& entry[po] as int == quantize(cv.x as int)
                    &&& entry[po + 1] as int == quantize(cv.y as int)
                    &&& entry[po + 2] as int == quantize(cv.z as int)
                };
            assert(pixel_rendered(cur, po, cam, nodes, root, bg, x, y, px, py, samples));
            assert(cur[po + 3] == 0);
        }
    }
}

/// Every pixel of the image carries a quantised colour at its flipped
/// row-major offset, with a zero fourth byte.
pub open spec fn image_pixel_done(
    bytes: Seq<u8>,
    cam: Camera,
    nodes: Seq<BvhInner>,
    root: int,
    bg: Vec3,
    x: int,
    y: int,
    px: int,
    py: int,
    samples: int,
) -> bool {
    &&& pixel_rendered(
        bytes,
        crate::chunk::pixel_offset(x, y, px, py),
        cam,
        nodes,
        root,
        bg,
        x,
        y,
        px,
        py,
        samples,
    )
    &&& bytes[crate::chunk::pixel_offset(x, y, px, py) + 3] == 0
}

/// The grid cell has already been rendered and merged when the loop
/// stands at column `i` of row `j`.
pub open spec fn cell_done(i2: int, j2: int, i: int, j: int) -> bool {
    j2 < j || (j2 == j && i2 < i)
}

/// A chunk-row byte is a pixel byte of the image: the copy target of
/// position `4 * ii + cc` of row `jj` is the image offset of the pixel
/// `(start_x + ii, start_y + jj)`, plus the channel `cc`.
proof fn lemma_target_is_pixel_offset(c: Chunk, jj: int, ii: int, cc: int)
    by (nonlinear_arith)
    requires
        0 <= jj < c.ny as int,
        0 <= ii < c.nx as int,
        0 <= cc < 4,
    ensures
        chunk_row_target(c, jj, 4 * ii + cc) == crate::chunk::pixel_offset(
            c.x as int,
            c.y as int,
            c.start_x + ii,
            c.start_y + jj,
        ) + cc,
{
}

/// The byte is channel `cc` of the chunk pixel at `(ii, jj)`.
pub open spec fn byte_of_chunk_pixel(c: Chunk, ii: int, jj: int, cc: int, b: int) -> bool {
    b == crate::chunk::pixel_offset(c.x as int, c.y as int, c.start_x + ii, c.start_y + jj) + cc
}

/// Any byte of a chunk's target region is a channel byte of one of the
/// chunk's own pixels.
proof fn lemma_covered_byte_is_chunk_pixel(c: Chunk, b: int)
    requires
        chunk_covers_byte(c, b),
    ensures
        exists|ii: int, jj: int, cc: int|
            0 <= ii < c.nx as int && 0 <= jj < c.ny as int && 0 <= cc < 4
                && #[trigger] byte_of_chunk_pixel(c, ii, jj, cc, b),
{
    let (jj, k) = choose|jj: int, k: int|
        0 <= jj < c.ny as int && 0 <= k < c.nx * 4 && b == #[trigger] chunk_row_target(c, jj, k);
    let ii = k / 4;
    let cc = k % 4;
    vstd::arithmetic::div_mod::lemma_fundamental_div_mod(k, 4);
    vstd::arithmetic::div_mod::lemma_mod_division_less_than_divisor(k, 4);
    vstd::arithmetic::div_mod::lemma_div_pos_is_pos(k, 4);
    assert(ii < c.nx as int) by (nonlinear_arith)
        requires
            k < c.nx * 4,
            k == 4 * ii + cc,
            0 <= cc < 4,
            0 <= ii,
    ;
    lemma_target_is_pixel_offset(c, jj, ii, cc);
    assert(byte_of_chunk_pixel(c, ii, jj, cc, b));
}

/// Channel bytes of distinct pixels never collide: the image offsets are
/// multiples of four, so the channel and then the pixel must agree.
proof fn lemma_pixel_bytes_separate(x: int, y: int, px1: int, py1: int, cc1: int, px2: int, py2: int, cc2: int)
    requires
        0 <= px1 < x,
        0 <= py1 < y,
        0 <= px2 < x,
        0 <= py2 < y,
        0 <= cc1 < 4,
        0 <= cc2 < 4,
        crate::chunk::pixel_offset(x, y, px1, py1) + cc1 == crate::chunk::pixel_offset(
            x,
            y,
            px2,
            py2,
        ) + cc2,
    ensures
        px1 == px2,
        py1 == py2,
        cc1 == cc2,
{
    let p1 = (y - py1 - 1) * x + px1;
    let p2 = (y - py2 - 1) * x + px2;
    assert(p1 * 4 + cc1 == p2 * 4 + cc2);
    assert(p1 == p2 && cc1 == cc2) by (nonlinear_arith)
        requires
            p1 * 4 + cc1 == p2 * 4 + cc2,
            0 <= cc1 < 4,
            0 <= cc2 < 4,
    ;
    crate::chunk::lemma_pixel_offset_injective(x, y, px1, py1, px2, py2);
}

/// Render the whole image chunk by chunk into the framebuffer, each
/// chunk with its own generator seeded from the master seed and the
/// chunk's number, so a render is reproducible from the seed alone.
/// When it returns, every pixel of the image holds a quantised colour at
/// its vertically flipped row-major offset; the chunk-partition laws are
/// what make the merged regions disjoint.
pub fn render(
    world: &BvhNode,
    camera: &Camera,
    background: &Vec3,
    buf: &mut Vec<u8>,
    x: usize,
    y: usize,
    cols: usize,
    rows: usize,
    samples: u16,
    seed: u64,
)
    requires
        camera_wf(*camera),
        bvh_wf(*world),
        forall|tm: int|
            camera.time0 <= tm <= camera.time1 ==> list_time_ok(
                leaves(world.nodes@, world.root as int),
                tm,
            ),
        abs_bounded(*background, COORD_LIMIT as int),
        samples >= 1,
        0 < cols <= 0x4000,
        0 < rows <= 0x4000,
        0 < x <= 0x4000,
        0 < y <= 0x4000,
        old(buf).len() == x * y * 4,
    ensures
        final(buf).len() == old(buf).len(),
        forall|px: int, py: int|
            0 <= px < x && 0 <= py < y ==> #[trigger] image_pixel_done(
                final(buf)@,
                *camera,
                world.nodes@,
                world.root as int,
                *background,
                x as int,
                y as int,
                px,
                py,
                samples as int,
            ),
{
    let mut j: usize = 0;
    while j < rows
        invariant
            camera_wf(*camera),
            bvh_wf(*world),
            forall|tm: int|
                camera.time0 <= tm <= camera.time1 ==> list_time_ok(
                    leaves(world.nodes@, world.root as int),
                    tm,
                ),
            abs_bounded(*background, COORD_LIMIT as int),
            samples >= 1,
            0 < cols <= 0x4000,
            0 < rows <= 0x4000,
            0 < x <= 0x4000,
            0 < y <= 0x4000,
            j <= rows,
            buf.len() == x * y * 4,
            buf.len() == old(buf).len(),
            forall|px: int, py: int|
                0 <= px < x && 0 <= py < y && (exists|i2: int, j2: int|
                    0 <= i2 < cols && 0 <= j2 < rows && cell_done(i2, j2, 0, j as int)
                        && #[trigger] crate::chunk::pixel_in_chunk(
                        x as int,
                        y as int,
                        cols as int,
                        rows as int,
                        i2,
                        j2,
                        px,
                        py,
                    )) ==> #[trigger] image_pixel_done(
                        buf@,
                        *camera,
                        world.nodes@,
                        world.root as int,
                        *background,
                        x as int,
                        y as int,
                        px,
                        py,
                        samples as int,
                    ),
        decreases rows - j,
    {
        let mut i: usize = 0;
        while i < cols
            invariant
                camera_wf(*camera),
                bvh_wf(*world),
                forall|tm: int|
                    camera.time0 <= tm <= camera.time1 ==> list_time_ok(
                        leaves(world.nodes@, world.root as int),
                        tm,
                    ),
                abs_bounded(*background, COORD_LIMIT as int),
                samples >= 1,
                0 < cols <= 0x4000,
                0 < rows <= 0x4000,
                0 < x <= 0x4000,
                0 < y <= 0x4000,
                j < rows,
                i <= cols,
                buf.len() == x * y * 4,
                buf.len() == old(buf).len(),
                forall|px: int, py: int|
                    0 <= px < x && 0 <= py < y && (exists|i2: int, j2: int|
                        0 <= i2 < cols && 0 <= j2 < rows && cell_done(i2, j2, i as int, j as int)
                            && #[trigger] crate::chunk::pixel_in_chunk(
                            x as int,
                            y as int,
                            cols as int,
                            rows as int,
                            i2,
                            j2,
                            px,
                            py,
                        )) ==> #[trigger] image_pixel_done(
                            buf@,
                            *camera,
                            world.nodes@,
                            world.root as int,
                            *background,
                            x as int,
                            y as int,
                            px,
                            py,
                            samples as int,
                        ),
            decreases cols - i,
        {
            let mut chunk = Chunk::new(x, y, cols, rows, i, j);
            proof {
                crate::chunk::lemma_seg_in_range(x as int, cols as int, i as int);
                crate::chunk::lemma_seg_in_range(y as int, rows as int, j as int);
            }
            let mut rng = crate::rng::rng_from_seed(seed.wrapping_add(chunk.num as u64));
            let ghost zeroed = chunk.buffer@;
            render_chunk(&mut chunk, camera, world, background, samples, &mut rng);
            let ghost entry = buf@;
            merge_chunk(buf, &chunk);
            proof {
                lemma_render_step(
                    buf@,
                    entry,
                    chunk,
                    zeroed,
                    *camera,
                    world.nodes@,
                    world.root as int,
                    *background,
                    samples as int,
                    x as int,
                    y as int,
                    cols as int,
                    rows as int,
                    i as int,
                    j as int,
                );
            }
            i = i + 1;
        }
        j = j + 1;
    }
    proof {
        assert forall|px: int, py: int|
            0 <= px < x && 0 <= py < y implies #[trigger] image_pixel_done(
            buf@,
            *camera,
            world.nodes@,
            world.root as int,
            *background,
            x as int,
            y as int,
            px,
            py,
            samples as int,
        ) by {
            crate::chunk::lemma_chunks_partition(
                x as int,
                y as int,
                cols as int,
                rows as int,
                px,
                py,
            );
            let (i2, j2) = choose|i2: int, j2: int|
                0 <= i2 < cols && 0 <= j2 < rows && #[trigger] crate::chunk::pixel_in_chunk(
                    x as int,
                    y as int,
                    cols as int,
                    rows as int,
                    i2,
                    j2,
                    px,
                    py,
                );
            assert(cell_done(i2, j2, 0, rows as int));
        }
    }
}

} // verus!
