use vstd::prelude::*;

use crate::fixed::div_floor;
use crate::fixed::mod_euclid;
use crate::fixed::mul_fp;
use crate::fixed::tdiv;
use crate::vec3::abs_bounded;
use crate::vec3::Vec3;
use crate::SCALE;

verus! {

/// Number of lattice values and permutation entries.
pub const POINT_COUNT: usize = 256;

/// Lattice noise: 256 random values, looked up through three random
/// permutations of the cell indices and blended trilinearly.
pub struct Perlin {
    pub points: Vec<i64>,
    pub permute_x: Vec<usize>,
    pub permute_y: Vec<usize>,
    pub permute_z: Vec<usize>,
}

/// A table the noise function can index safely: 256 entries, all below
/// 256.
pub open spec fn perm_wf(s: Seq<usize>) -> bool {
    s.len() == POINT_COUNT && forall|i: int| 0 <= i < s.len() ==> s[i] < POINT_COUNT
}

/// The table holds every index below 256 somewhere: it is a permutation
/// of the identity table.
pub open spec fn perm_complete(s: Seq<usize>) -> bool {
    forall|v: usize| v < POINT_COUNT ==> s.contains(v)
}

pub open spec fn perlin_wf(p: Perlin) -> bool {
    &&& p.points.len() == POINT_COUNT
    &&& forall|i: int| 0 <= i < p.points.len() ==> 0 <= #[trigger] p.points[i] < SCALE
    &&& perm_wf(p.permute_x@)
    &&& perm_wf(p.permute_y@)
    &&& perm_wf(p.permute_z@)
}

/// Swapping two entries keeps the multiset of values the table holds.
proof fn lemma_swap_preserves_multiset(s1: Seq<usize>, s2: Seq<usize>, i: int, j: int)
    requires
        0 <= i < s1.len(),
        0 <= j < s1.len(),
        s2 == s1.update(i, s1[j]).update(j, s1[i]),
    ensures
        s2.to_multiset() == s1.to_multiset(),
{
    broadcast use vstd::seq_lib::group_to_multiset_ensures;
    broadcast use vstd::seq_lib::to_multiset_update;
    broadcast use vstd::multiset::group_multiset_axioms;

    let m = s1.to_multiset();
    let s_mid = s1.update(i, s1[j]);
    assert(s_mid.to_multiset() == m.insert(s1[j]).remove(s1[i]));
    if i == j {
        assert(s_mid =~= s1.update(j, s1[i]).update(i, s1[j]));
        assert(s2 =~= s_mid);
        assert(m.insert(s1[j]).remove(s1[i]) =~= m);
    } else {
        assert(s_mid[j] == s1[j]);
        assert(s2.to_multiset() == s_mid.to_multiset().insert(s1[i]).remove(s1[j]));
        assert(m.insert(s1[j]).remove(s1[i]).insert(s1[i]).remove(s1[j]) =~= m);
    }
}

/// Swapping two entries keeps every value that the table held.
proof fn lemma_swap_preserves_contains(s1: Seq<usize>, s2: Seq<usize>, i: int, j: int)
    requires
        0 <= i < s1.len(),
        0 <= j < s1.len(),
        s2 == s1.update(i, s1[j]).update(j, s1[i]),
    ensures
        forall|v: usize| s1.contains(v) ==> s2.contains(v),
        forall|k: int| 0 <= k < s2.len() ==> s1.contains(#[trigger] s2[k]),
{
    assert forall|v: usize| s1.contains(v) implies s2.contains(v) by {
        let k = choose|k: int| 0 <= k < s1.len() && s1[k] == v;
        if k == i {
            assert(s2[j] == v);
        } else if k == j {
            if i == j {
                assert(s2[j] == v);
            } else {
                assert(s2[i] == v);
            }
        } else {
            assert(s2[k] == v);
        }
    }
    assert forall|k: int| 0 <= k < s2.len() implies s1.contains(#[trigger] s2[k]) by {
        if k == j {
            assert(s2[k] == s1[i]);
            assert(s1.contains(s1[i]));
        } else if k == i {
            assert(s2[k] == s1[j]);
            assert(s1.contains(s1[j]));
        } else {
            assert(s2[k] == s1[k]);
            assert(s1.contains(s1[k]));
        }
    }
}

/// A shuffled identity table: every index below 256 appears, and every
/// entry is a valid index.
pub fn perlin_generate_permutation(rng: &mut rand::rngs::SmallRng) -> (p: Vec<usize>)
    ensures
        perm_wf(p@),
        perm_complete(p@),
{
    let mut p: Vec<usize> = Vec::new();
    let mut k: usize = 0;
    while k < POINT_COUNT
        invariant
            p.len() == k,
            k <= POINT_COUNT,
            forall|i: int| 0 <= i < k ==> p@[i] == i as usize,
        decreases POINT_COUNT - k,
    {
        p.push(k);
        k = k + 1;
    }
    assert forall|v: usize| v < POINT_COUNT implies p@.contains(v) by {
        assert(p@[v as int] == v);
    }
    let ghost ident = p@;
    permute(rng, &mut p);
    proof {
        assert forall|k: int| 0 <= k < p.len() implies p@[k] < POINT_COUNT by {
            assert(ident.contains(p@[k]));
            let m = choose|m: int| 0 <= m < ident.len() && ident[m] == p@[k];
        }
    }
    p
}

/// Fisher-Yates shuffle, drawing each swap index from the generator.
fn permute(rng: &mut rand::rngs::SmallRng, p: &mut Vec<usize>)
    requires
        old(p).len() == POINT_COUNT,
    ensures
        final(p).len() == POINT_COUNT,
        final(p)@.to_multiset() == old(p)@.to_multiset(),
        forall|v: usize| old(p)@.contains(v) ==> final(p)@.contains(v),
        forall|i: int| 0 <= i < final(p).len() ==> old(p)@.contains(#[trigger] final(p)@[i]),
{
    let ghost orig = p@;
    let mut i: usize = POINT_COUNT;
    while i > 0
        invariant
            p.len() == POINT_COUNT,
            i <= POINT_COUNT,
            p@.to_multiset() == orig.to_multiset(),
            forall|v: usize| orig.contains(v) ==> p@.contains(v),
            forall|k: int| 0 <= k < p.len() ==> orig.contains(#[trigger] p@[k]),
        decreases i,
    {
        i = i - 1;
        let r = crate::rng::rand_below(rng, (i as i64) + 1) as usize;
        let ghost before = p@;
        let vi = p[i];
        let vr = p[r];
        p.set(i, vr);
        p.set(r, vi);
        proof {
            lemma_swap_preserves_multiset(before, p@, i as int, r as int);
            lemma_swap_preserves_contains(before, p@, i as int, r as int);
            assert forall|k: int| 0 <= k < p.len() implies orig.contains(#[trigger] p@[k]) by {
                assert(before.contains(p@[k]));
                let m = choose|m: int| 0 <= m < before.len() && before[m] == p@[k];
                assert(orig.contains(before[m]));
            }
        }
    }
}

/// The eight corner values of the lattice cell around the point, selected
/// through the permutation tables.
pub open spec fn corner_value(p: Perlin, ci: int, cj: int, ck: int, di: int, dj: int, dk: int) -> int
    recommends
        perlin_wf(p),
{
    let ix = p.permute_x@[(ci + di) % 256] as u64;
    let iy = p.permute_y@[(cj + dj) % 256] as u64;
    let iz = p.permute_z@[(ck + dk) % 256] as u64;
    p.points@[((ix ^ iy) ^ iz) as int] as int
}

/// Hermite smoothing `u * u * (3 - 2 * u)` in fixed point.
pub open spec fn spec_smooth(u: int) -> int {
    tdiv(tdiv(u * u, SCALE as int) * (3 * SCALE - 2 * u), SCALE as int)
}

/// One corner's contribution to the trilinear blend: the product of the
/// three axis weights and the corner value, in fixed point.
pub open spec fn corner_weight(u: int, v: int, w: int, di: int, dj: int, dk: int, c: int) -> int {
    let fu = if di == 1 {
        u
    } else {
        SCALE - u
    };
    let fv = if dj == 1 {
        v
    } else {
        SCALE - v
    };
    let fw = if dk == 1 {
        w
    } else {
        SCALE - w
    };
    tdiv(tdiv(tdiv(fu * fv, SCALE as int) * fw, SCALE as int) * c, SCALE as int)
}

/// The full trilinear blend of the eight corners.
pub open spec fn spec_trilinear(p: Perlin, ci: int, cj: int, ck: int, u: int, v: int, w: int) -> int
    recommends
        perlin_wf(p),
{
    corner_weight(u, v, w, 0, 0, 0, corner_value(p, ci, cj, ck, 0, 0, 0)) + corner_weight(
        u,
        v,
        w,
        0,
        0,
        1,
        corner_value(p, ci, cj, ck, 0, 0, 1),
    ) + corner_weight(u, v, w, 0, 1, 0, corner_value(p, ci, cj, ck, 0, 1, 0)) + corner_weight(
        u,
        v,
        w,
        0,
        1,
        1,
        corner_value(p, ci, cj, ck, 0, 1, 1),
    ) + corner_weight(u, v, w, 1, 0, 0, corner_value(p, ci, cj, ck, 1, 0, 0)) + corner_weight(
        u,
        v,
        w,
        1,
        0,
        1,
        corner_value(p, ci, cj, ck, 1, 0, 1),
    ) + corner_weight(u, v, w, 1, 1, 0, corner_value(p, ci, cj, ck, 1, 1, 0)) + corner_weight(
        u,
        v,
        w,
        1,
        1,
        1,
        corner_value(p, ci, cj, ck, 1, 1, 1),
    )
}

/// One pair of corners along the last axis contributes at most its
/// shared plane weight: the two last-axis weights sum to one.
proof fn lemma_corner_pair(u: int, v: int, w: int, di: int, dj: int, a: int)
    requires
        0 <= u <= SCALE,
        0 <= v <= SCALE,
        0 <= w <= SCALE,
        a == tdiv((if di == 1 { u } else { SCALE - u }) * (if dj == 1 { v } else { SCALE - v }), SCALE as int),
    ensures
        0 <= a,
        corner_weight_bound(u, v, w, di, dj, 0) + corner_weight_bound(u, v, w, di, dj, 1) <= a,
        corner_weight_bound(u, v, w, di, dj, 0) >= 0,
        corner_weight_bound(u, v, w, di, dj, 1) >= 0,
{
    let fu = if di == 1 { u } else { SCALE - u };
    let fv = if dj == 1 { v } else { SCALE - v };
    assert(0 <= fu * fv) by (nonlinear_arith)
        requires
            0 <= fu,
            0 <= fv,
    ;
    crate::fixed::lemma_tdiv_bounds(fu * fv, SCALE as int);
    let t20 = tdiv(a * (SCALE - w), SCALE as int);
    let t21 = tdiv(a * w, SCALE as int);
    assert(0 <= a * (SCALE - w) && 0 <= a * w) by (nonlinear_arith)
        requires
            0 <= a,
            0 <= w <= SCALE,
    ;
    crate::fixed::lemma_tdiv_bounds(a * (SCALE - w), SCALE as int);
    crate::fixed::lemma_tdiv_bounds(a * w, SCALE as int);
    crate::fixed::lemma_tdiv_superadd(a * (SCALE - w), a * w, SCALE as int);
    assert(a * (SCALE - w) + a * w == a * SCALE) by (nonlinear_arith);
    crate::fixed::lemma_tdiv_exact(a, SCALE as int);
}

/// The weight (before the corner value is blended in) of one corner.
pub open spec fn corner_weight_bound(u: int, v: int, w: int, di: int, dj: int, dk: int) -> int {
    let fu = if di == 1 { u } else { SCALE - u };
    let fv = if dj == 1 { v } else { SCALE - v };
    let fw = if dk == 1 { w } else { SCALE - w };
    tdiv(tdiv(fu * fv, SCALE as int) * fw, SCALE as int)
}

/// One corner's contribution never exceeds its weight: the lattice value
/// stays below one.
proof fn lemma_corner_vs_weight(p: Perlin, ci: int, cj: int, ck: int, u: int, v: int, w: int, di: int, dj: int, dk: int)
    requires
        perlin_wf(p),
        0 <= u <= SCALE,
        0 <= v <= SCALE,
        0 <= w <= SCALE,
        0 <= di <= 1,
        0 <= dj <= 1,
        0 <= dk <= 1,
        corner_weight_bound(u, v, w, di, dj, dk) >= 0,
    ensures
        0 <= corner_weight(u, v, w, di, dj, dk, corner_value(p, ci, cj, ck, di, dj, dk))
            <= corner_weight_bound(u, v, w, di, dj, dk),
{
    let t2 = corner_weight_bound(u, v, w, di, dj, dk);
    let c = corner_value(p, ci, cj, ck, di, dj, dk);
    assert(0 <= c < SCALE) by {
        assert(0 <= (ci + di) % 256 < 256);
        assert(0 <= (cj + dj) % 256 < 256);
        assert(0 <= (ck + dk) % 256 < 256);
        let ix = p.permute_x@[(ci + di) % 256] as u64;
        let iy = p.permute_y@[(cj + dj) % 256] as u64;
        let iz = p.permute_z@[(ck + dk) % 256] as u64;
        assert(((ix ^ iy) ^ iz) < 256) by (bit_vector)
            requires
                ix < 256,
                iy < 256,
                iz < 256,
        ;
    }
    assert(0 <= t2 * c && t2 * c <= t2 * SCALE) by (nonlinear_arith)
        requires
            0 <= t2,
            0 <= c <= SCALE,
    ;
    crate::fixed::lemma_tdiv_bounds(t2 * c, SCALE as int);
    crate::fixed::lemma_tdiv_monotone(t2 * c, t2 * SCALE, SCALE as int);
    crate::fixed::lemma_tdiv_exact(t2, SCALE as int);
}

/// The trilinear blend of lattice values in the unit range stays in the
/// unit range: the eight corner weights sum to at most one.
pub proof fn lemma_trilinear_unit(p: Perlin, ci: int, cj: int, ck: int, u: int, v: int, w: int)
    requires
        perlin_wf(p),
        0 <= u <= SCALE,
        0 <= v <= SCALE,
        0 <= w <= SCALE,
    ensures
        0 <= spec_trilinear(p, ci, cj, ck, u, v, w) <= SCALE,
{
    let a00 = tdiv((SCALE - u) * (SCALE - v), SCALE as int);
    let a01 = tdiv((SCALE - u) * v, SCALE as int);
    let a10 = tdiv(u * (SCALE - v), SCALE as int);
    let a11 = tdiv(u * v, SCALE as int);
    lemma_corner_pair(u, v, w, 0, 0, a00);
    lemma_corner_pair(u, v, w, 0, 1, a01);
    lemma_corner_pair(u, v, w, 1, 0, a10);
    lemma_corner_pair(u, v, w, 1, 1, a11);
    // Each column pair of plane weights sums to at most the line weight.
    crate::fixed::lemma_tdiv_superadd((SCALE - u) * (SCALE - v), (SCALE - u) * v, SCALE as int);
    assert((SCALE - u) * (SCALE - v) + (SCALE - u) * v == (SCALE - u) * SCALE)
        by (nonlinear_arith);
    assert(0 <= (SCALE - u) * (SCALE - v) && 0 <= (SCALE - u) * v && 0 <= u * (SCALE - v) && 0 <= u
        * v) by (nonlinear_arith)
        requires
            0 <= u <= SCALE,
            0 <= v <= SCALE,
    ;
    crate::fixed::lemma_tdiv_exact(SCALE - u, SCALE as int);
    crate::fixed::lemma_tdiv_superadd(u * (SCALE - v), u * v, SCALE as int);
    assert(u * (SCALE - v) + u * v == u * SCALE) by (nonlinear_arith);
    crate::fixed::lemma_tdiv_exact(u, SCALE as int);
    lemma_corner_vs_weight(p, ci, cj, ck, u, v, w, 0, 0, 0);
    lemma_corner_vs_weight(p, ci, cj, ck, u, v, w, 0, 0, 1);
    lemma_corner_vs_weight(p, ci, cj, ck, u, v, w, 0, 1, 0);
    lemma_corner_vs_weight(p, ci, cj, ck, u, v, w, 0, 1, 1);
    lemma_corner_vs_weight(p, ci, cj, ck, u, v, w, 1, 0, 0);
    lemma_corner_vs_weight(p, ci, cj, ck, u, v, w, 1, 0, 1);
    lemma_corner_vs_weight(p, ci, cj, ck, u, v, w, 1, 1, 0);
    lemma_corner_vs_weight(p, ci, cj, ck, u, v, w, 1, 1, 1);
}

/// The cell index of a coordinate: its integer part, rounded down.
pub open spec fn cell_of(c: int) -> int {
    c / (SCALE as int)
}

/// The fractional part of a coordinate within its cell, smoothed.
pub open spec fn frac_smooth(c: int) -> int {
    spec_smooth(c - cell_of(c) * SCALE)
}

impl Perlin {
    pub fn new(rng: &mut rand::rngs::SmallRng) -> (p: Perlin)
        ensures
            perlin_wf(p),
            perm_complete(p.permute_x@),
            perm_complete(p.permute_y@),
            perm_complete(p.permute_z@),
    {
        let mut points: Vec<i64> = Vec::new();
        let mut k: usize = 0;
        while k < POINT_COUNT
            invariant
                points.len() == k,
                k <= POINT_COUNT,
                forall|i: int| 0 <= i < k ==> 0 <= #[trigger] points@[i] < SCALE,
            decreases POINT_COUNT - k,
        {
            points.push(crate::rng::rand_below(rng, SCALE));
            k = k + 1;
        }
        let permute_x = perlin_generate_permutation(rng);
        let permute_y = perlin_generate_permutation(rng);
        let permute_z = perlin_generate_permutation(rng);
        Perlin { points, permute_x, permute_y, permute_z }
    }

    /// The smoothed trilinear blend of the eight lattice values around
    /// the point.
    pub fn noise(&self, p: Vec3) -> (r: i64)
        requires
            perlin_wf(*self),
            abs_bounded(p, crate::POINT_LIMIT as int),
        ensures
            r == spec_trilinear(
                *self,
                cell_of(p.x as int),
                cell_of(p.y as int),
                cell_of(p.z as int),
                frac_smooth(p.x as int),
                frac_smooth(p.y as int),
                frac_smooth(p.z as int),
            ),
            0 <= r <= SCALE,
    {
        proof {
            lemma_cell_range(p.x as int);
            lemma_cell_range(p.y as int);
            lemma_cell_range(p.z as int);
        }
        let ci = div_floor(p.x, SCALE);
        let cj = div_floor(p.y, SCALE);
        let ck = div_floor(p.z, SCALE);
        let u = smooth(p.x - ci * SCALE);
        let v = smooth(p.y - cj * SCALE);
        let w = smooth(p.z - ck * SCALE);
        let mut acc: i64 = 0;
        let mut corner: usize = 0;
        while corner < 8
            invariant
                perlin_wf(*self),
                0 <= u <= SCALE,
                0 <= v <= SCALE,
                0 <= w <= SCALE,
                corner <= 8,
                -0x2000_0000_0000 <= ci <= 0x2000_0000_0000,
                -0x2000_0000_0000 <= cj <= 0x2000_0000_0000,
                -0x2000_0000_0000 <= ck <= 0x2000_0000_0000,
                0 <= acc <= corner * (SCALE as int),
                acc == partial_trilinear(
                    *self,
                    ci as int,
                    cj as int,
                    ck as int,
                    u as int,
                    v as int,
                    w as int,
                    corner as int,
                ),
            decreases 8 - corner,
        {
            let di = corner / 4;
            let dj = (corner / 2) % 2;
            let dk = corner % 2;
            let mx = mod_euclid(ci + (di as i64), 256) as usize;
            let my = mod_euclid(cj + (dj as i64), 256) as usize;
            let mz = mod_euclid(ck + (dk as i64), 256) as usize;
            let ix = self.permute_x[mx];
            let iy = self.permute_y[my];
            let iz = self.permute_z[mz];
            let idx = xor3(ix, iy, iz);
            let c = self.points[idx];
            let fu = if di == 1 {
                u
            } else {
                SCALE - u
            };
            let fv = if dj == 1 {
                v
            } else {
                SCALE - v
            };
            let fw = if dk == 1 {
                w
            } else {
                SCALE - w
            };
            proof {
                lemma_unit_product_step(fu as int, fv as int);
            }
            let t1 = mul_fp(fu, fv);
            proof {
                lemma_unit_product_step(t1 as int, fw as int);
            }
            let t2 = mul_fp(t1, fw);
            proof {
                lemma_unit_product_step(t2 as int, c as int);
            }
            let term = mul_fp(t2, c);
            acc = acc + term;
            corner = corner + 1;
            proof {
                lemma_partial_step(
                    *self,
                    ci as int,
                    cj as int,
                    ck as int,
                    u as int,
                    v as int,
                    w as int,
                    corner as int,
                );
            }
        }
        proof {
            lemma_partial_full(
                *self,
                ci as int,
                cj as int,
                ck as int,
                u as int,
                v as int,
                w as int,
            );
            lemma_trilinear_unit(*self, ci as int, cj as int, ck as int, u as int, v as int, w as int);
        }
        acc
    }
}

/// The sum of the first `n` corner contributions, corners ordered by
/// their bit pattern.
pub open spec fn partial_trilinear(
    p: Perlin,
    ci: int,
    cj: int,
    ck: int,
    u: int,
    v: int,
    w: int,
    n: int,
) -> int
    decreases n,
{
    if n <= 0 {
        0
    } else {
        let m = n - 1;
        let di = m / 4;
        let dj = (m / 2) % 2;
        let dk = m % 2;
        partial_trilinear(p, ci, cj, ck, u, v, w, m) + corner_weight(
            u,
            v,
            w,
            di,
            dj,
            dk,
            corner_value(p, ci, cj, ck, di, dj, dk),
        )
    }
}

proof fn lemma_partial_step(p: Perlin, ci: int, cj: int, ck: int, u: int, v: int, w: int, n: int)
    requires
        1 <= n <= 8,
    ensures
        partial_trilinear(p, ci, cj, ck, u, v, w, n) == partial_trilinear(
            p,
            ci,
            cj,
            ck,
            u,
            v,
            w,
            n - 1,
        ) + corner_weight(
            u,
            v,
            w,
            (n - 1) / 4,
            ((n - 1) / 2) % 2,
            (n - 1) % 2,
            corner_value(p, ci, cj, ck, (n - 1) / 4, ((n - 1) / 2) % 2, (n - 1) % 2),
        ),
{
}

proof fn lemma_partial_full(p: Perlin, ci: int, cj: int, ck: int, u: int, v: int, w: int)
    ensures
        partial_trilinear(p, ci, cj, ck, u, v, w, 8) == spec_trilinear(p, ci, cj, ck, u, v, w),
{
    reveal_with_fuel(partial_trilinear, 9);
}

/// A bounded coordinate's cell index is small, and the coordinate lies
/// inside its cell.
proof fn lemma_cell_range(c: int)
    requires
        -crate::POINT_LIMIT <= c <= crate::POINT_LIMIT,
    ensures
        -0x2000_0000_0000 <= cell_of(c) <= 0x2000_0000_0000,
        cell_of(c) * SCALE <= c < cell_of(c) * SCALE + SCALE,
        0 <= c - cell_of(c) * SCALE < SCALE,
{
    crate::fixed::lemma_mul_div_self_bound(c, SCALE as int);
    let q = cell_of(c);
    assert(-0x2000_0000_0000 <= q <= 0x2000_0000_0000) by (nonlinear_arith)
        requires
            q * SCALE <= c,
            c - SCALE < q * SCALE,
            -crate::POINT_LIMIT <= c <= crate::POINT_LIMIT,
            SCALE == 65536,
            crate::POINT_LIMIT == 0x100_0000_0000_0000,
    ;
}

/// The fixed-point product of two values in `[0, SCALE]` is again in
/// `[0, SCALE]`.
proof fn lemma_unit_product_step(a: int, b: int)
    requires
        0 <= a <= SCALE,
        0 <= b <= SCALE,
    ensures
        0 <= tdiv(a * b, SCALE as int) <= SCALE,
{
    assert(0 <= a * b <= SCALE as int * SCALE) by (nonlinear_arith)
        requires
            0 <= a <= SCALE,
            0 <= b <= SCALE,
    ;
    crate::fixed::lemma_tdiv_abs_le(a * b, SCALE as int, SCALE as int);
    crate::fixed::lemma_tdiv_bounds(a * b, SCALE as int);
}

/// Hermite smoothing of a cell fraction.
pub fn smooth(u: i64) -> (r: i64)
    requires
        0 <= u < SCALE,
    ensures
        r == spec_smooth(u as int),
        0 <= r <= SCALE,
{
    proof {
        crate::fixed::lemma_tdiv_prod_bound(u as int, u as int, SCALE as int, SCALE as int);
        assert(0 <= u * u) by (nonlinear_arith);
        crate::fixed::lemma_tdiv_bounds(u * u, SCALE as int);
    }
    let u2 = mul_fp(u, u);
    proof {
        crate::fixed::lemma_tdiv_prod_bound(
            u2 as int,
            3 * SCALE - 2 * (u as int),
            SCALE as int,
            3 * SCALE as int,
        );
        lemma_smooth_range(u as int, u2 as int);
    }
    mul_fp(u2, 3 * SCALE - 2 * u)
}

/// The smoothed fraction stays inside the unit interval.
proof fn lemma_smooth_range(u: int, u2: int)
    requires
        0 <= u < SCALE,
        u2 == tdiv(u * u, SCALE as int),
    ensures
        0 <= tdiv(u2 * (3 * SCALE - 2 * u), SCALE as int) <= SCALE,
{
    crate::fixed::lemma_tdiv_bounds(u * u, SCALE as int);
    assert(0 <= u2 && u2 <= u) by (nonlinear_arith)
        requires
            0 <= u < SCALE,
            0 <= u * u,
            SCALE as int * u2 <= u * u,
            u * u - SCALE < SCALE as int * u2,
            u2 >= 0,
    ;
    // `1 - x * x * (3 - 2 * x)` is `(1 - x)^2 * (1 + 2 * x)`, which is not
    // negative on the unit interval.
    assert(SCALE as int * SCALE * SCALE - u * u * (3 * SCALE - 2 * u) == (SCALE - u) * (SCALE - u)
        * (SCALE + 2 * u)) by (nonlinear_arith);
    assert((SCALE - u) * (SCALE - u) * (SCALE + 2 * u) >= 0) by (nonlinear_arith)
        requires
            0 <= u < SCALE,
    ;
    assert(u2 * (3 * SCALE - 2 * u) * SCALE <= u * u * (3 * SCALE - 2 * u)) by (nonlinear_arith)
        requires
            SCALE as int * u2 <= u * u,
            0 <= u < SCALE,
    ;
    assert(0 <= u2 * (3 * SCALE - 2 * u) <= SCALE as int * SCALE) by (nonlinear_arith)
        requires
            u2 * (3 * SCALE - 2 * u) * SCALE <= SCALE as int * SCALE * SCALE,
            0 <= u2,
            0 <= u < SCALE,
    ;
    crate::fixed::lemma_tdiv_abs_le(u2 * (3 * SCALE - 2 * u), SCALE as int, SCALE as int);
    crate::fixed::lemma_tdiv_bounds(u2 * (3 * SCALE - 2 * u), SCALE as int);
}

/// Exclusive-or of three valid table indices is again a valid index.
fn xor3(a: usize, b: usize, c: usize) -> (r: usize)
    requires
        a < 256,
        b < 256,
        c < 256,
    ensures
        r < 256,
        r as int == (((a as u64) ^ (b as u64)) ^ (c as u64)) as int,
{
    proof {
        assert((((a as u64) ^ (b as u64)) ^ (c as u64)) < 256) by (bit_vector)
            requires
                (a as u64) < 256,
                (b as u64) < 256,
                (c as u64) < 256,
        ;
    }
    (((a as u64) ^ (b as u64)) ^ (c as u64)) as usize
}

} // verus!
