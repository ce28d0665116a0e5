use vstd::prelude::*;

use crate::ray::ray_wf;
use crate::ray::Ray;
use crate::vec3::abs_bounded;
use crate::vec3::vaxis;
use crate::vec3::Vec3;
use crate::BOX_LIMIT;
use crate::SCALE;
use crate::T_LIMIT;

verus! {

/// An axis-aligned bounding box: the two opposite corners, with
/// `min` componentwise below `max`.
#[derive(Clone, Copy, Debug, PartialEq, Eq, Structural)]
pub struct Aabb {
    pub min: Vec3,
    pub max: Vec3,
}

/// `min` lies componentwise at or below `max`.
pub open spec fn box_ordered(b: Aabb) -> bool {
    &&& b.min.x <= b.max.x
    &&& b.min.y <= b.max.y
    &&& b.min.z <= b.max.z
}

/// A box the tracer can prune against: ordered corners inside the
/// (slightly padded) scene coordinate range.
pub open spec fn box_wf(b: Aabb) -> bool {
    &&& box_ordered(b)
    &&& abs_bounded(b.min, BOX_LIMIT as int)
    &&& abs_bounded(b.max, BOX_LIMIT as int)
}

/// Every point of `inner` is a point of `outer`.
pub open spec fn box_contains_box(outer: Aabb, inner: Aabb) -> bool {
    &&& outer.min.x <= inner.min.x && inner.max.x <= outer.max.x
    &&& outer.min.y <= inner.min.y && inner.max.y <= outer.max.y
    &&& outer.min.z <= inner.min.z && inner.max.z <= outer.max.z
}

/// The componentwise hull of two boxes.
pub open spec fn spec_surrounding_box(a: Aabb, b: Aabb) -> Aabb {
    Aabb {
        min: Vec3 {
            x: if a.min.x <= b.min.x { a.min.x } else { b.min.x },
            y: if a.min.y <= b.min.y { a.min.y } else { b.min.y },
            z: if a.min.z <= b.min.z { a.min.z } else { b.min.z },
        },
        max: Vec3 {
            x: if a.max.x >= b.max.x { a.max.x } else { b.max.x },
            y: if a.max.y >= b.max.y { a.max.y } else { b.max.y },
            z: if a.max.z >= b.max.z { a.max.z } else { b.max.z },
        },
    }
}

impl Aabb {
    pub fn new(min: Vec3, max: Vec3) -> (r: Aabb)
        requires
            min.x <= max.x,
            min.y <= max.y,
            min.z <= max.z,
        ensures
            r.min == min,
            r.max == max,
            box_ordered(r),
    {
        Aabb { min, max }
    }

    /// The smallest box that contains both arguments.
    pub fn surrounding_box(box0: Aabb, box1: Aabb) -> (r: Aabb)
        ensures
            r == spec_surrounding_box(box0, box1),
            box_contains_box(r, box0),
            box_contains_box(r, box1),
            box_ordered(box0) && box_ordered(box1) ==> box_ordered(r),
            box_wf(box0) && box_wf(box1) ==> box_wf(r),
    {
        let smol_box = Vec3::min(box0.min, box1.min);
        let big_box = Vec3::max(box0.max, box1.max);
        Aabb { min: smol_box, max: big_box }
    }
}

/// The hull of two boxes is minimal: any box that contains both contains
/// the hull, so shrinking the hull on any side would expose one input.
pub proof fn lemma_surrounding_box_minimal(a: Aabb, b: Aabb, outer: Aabb)
    requires
        box_contains_box(outer, a),
        box_contains_box(outer, b),
    ensures
        box_contains_box(outer, spec_surrounding_box(a, b)),
{
}

/// A slab of a wider box admits every parameter a narrower slab admits.
proof fn lemma_slab_widen(
    mn_o: int,
    mx_o: int,
    mn_i: int,
    mx_i: int,
    o: int,
    d: int,
    p: int,
    q: int,
)
    requires
        q > 0,
        mn_o <= mn_i,
        mx_i <= mx_o,
        slab_cond(mn_i, mx_i, o, d, p, q),
    ensures
        slab_cond(mn_o, mx_o, o, d, p, q),
{
    if d != 0 {
        assert(mn_o * SCALE * q <= mn_i * SCALE * q && mx_i * SCALE * q <= mx_o * SCALE * q)
            by (nonlinear_arith)
            requires
                q > 0,
                mn_o <= mn_i,
                mx_i <= mx_o,
                SCALE == 65536,
        ;
    }
}

/// A ray that meets a box inside the window meets every box that
/// contains it inside the same window.
pub proof fn lemma_hits_widen(inner: Aabb, outer: Aabb, r: Ray, t_min: int, t_max: int)
    requires
        box_contains_box(outer, inner),
        hits_between(inner, r, t_min, t_max),
    ensures
        hits_between(outer, r, t_min, t_max),
{
    let (p, q) = choose|p: int, q: int| hit_witness(inner, r, t_min, t_max, p, q);
    assert(hit_witness(inner, r, t_min, t_max, p, q));
    lemma_slab_widen(
        outer.min.x as int,
        outer.max.x as int,
        inner.min.x as int,
        inner.max.x as int,
        r.a.x as int,
        r.b.x as int,
        p,
        q,
    );
    lemma_slab_widen(
        outer.min.y as int,
        outer.max.y as int,
        inner.min.y as int,
        inner.max.y as int,
        r.a.y as int,
        r.b.y as int,
        p,
        q,
    );
    lemma_slab_widen(
        outer.min.z as int,
        outer.max.z as int,
        inner.min.z as int,
        inner.max.z as int,
        r.a.z as int,
        r.b.z as int,
        p,
        q,
    );
    assert(hit_witness(outer, r, t_min, t_max, p, q));
}

/// The exact (unrounded) point the ray reaches at rational parameter
/// `p / q` lies inside the box's slab along one axis: strictly inside when
/// the ray crosses the slab (`d != 0`), weakly inside when it runs parallel
/// to it. Grazing a slab face counts as a miss, exactly as the slab
/// algorithm's `t_max <= t_min` test makes it.
pub open spec fn slab_cond(mn: int, mx: int, o: int, d: int, p: int, q: int) -> bool {
    if d == 0 {
        mn <= o <= mx
    } else {
        mn * SCALE * q < o * SCALE * q + d * p && o * SCALE * q + d * p < mx * SCALE * q
    }
}

pub open spec fn slab_ok(b: Aabb, r: Ray, axis: int, p: int, q: int) -> bool {
    slab_cond(vaxis(b.min, axis), vaxis(b.max, axis), vaxis(r.a, axis), vaxis(r.b, axis), p, q)
}

/// The rational ray parameter `p / q` lies strictly between the fixed-point
/// bounds `t_min` and `t_max` and places the ray inside the box.
pub open spec fn hit_witness(b: Aabb, r: Ray, t_min: int, t_max: int, p: int, q: int) -> bool {
    &&& q > 0
    &&& t_min * q < p
    &&& p < t_max * q
    &&& slab_ok(b, r, 0, p, q)
    &&& slab_ok(b, r, 1, p, q)
    &&& slab_ok(b, r, 2, p, q)
}

/// Some rational ray parameter strictly between `t_min` and `t_max` places
/// the ray inside the box.
pub open spec fn hits_between(b: Aabb, r: Ray, t_min: int, t_max: int) -> bool {
    exists|p: int, q: int| hit_witness(b, r, t_min, t_max, p, q)
}

/// `p / q` lies strictly inside the rational interval
/// `(ln / ld, hn / hd)` (denominators positive).
pub open spec fn within(ln: int, ld: int, hn: int, hd: int, p: int, q: int) -> bool {
    ln * q < p * ld && p * hd < hn * q
}

/// Cross-multiplied comparison of two rationals with positive denominators.
fn rat_lt(an: i128, ad: i128, bn: i128, bd: i128) -> (r: bool)
    requires
        0 < ad <= 0x400_0000,
        0 < bd <= 0x400_0000,
        -0x2000_0000_0000 <= an <= 0x2000_0000_0000,
        -0x2000_0000_0000 <= bn <= 0x2000_0000_0000,
    ensures
        r == (an * bd < bn * ad),
{
    proof {
        assert(-0x8_0000_0000_0000_0000_0000 <= an * bd <= 0x8_0000_0000_0000_0000_0000)
            by (nonlinear_arith)
            requires
                0 < bd <= 0x400_0000,
                -0x2000_0000_0000 <= an <= 0x2000_0000_0000,
        ;
        assert(-0x8_0000_0000_0000_0000_0000 <= bn * ad <= 0x8_0000_0000_0000_0000_0000)
            by (nonlinear_arith)
            requires
                0 < ad <= 0x400_0000,
                -0x2000_0000_0000 <= bn <= 0x2000_0000_0000,
        ;
    }
    an * bd < bn * ad
}

proof fn lemma_lower_merge(ln: int, ld: int, en: int, ed: int, p: int, q: int)
    by (nonlinear_arith)
    requires
        ld > 0,
        ed > 0,
        q > 0,
    ensures
        ln * ed < en * ld ==> ((en * q < p * ed) <==> (ln * q < p * ld && en * q < p * ed)),
        !(ln * ed < en * ld) ==> ((ln * q < p * ld) <==> (ln * q < p * ld && en * q < p * ed)),
{
}

proof fn lemma_upper_merge(hn: int, hd: int, xn: int, xd: int, p: int, q: int)
    by (nonlinear_arith)
    requires
        hd > 0,
        xd > 0,
        q > 0,
    ensures
        xn * hd < hn * xd ==> ((p * xd < xn * q) <==> (p * hd < hn * q && p * xd < xn * q)),
        !(xn * hd < hn * xd) ==> ((p * hd < hn * q) <==> (p * hd < hn * q && p * xd < xn * q)),
{
}

proof fn lemma_slab_normalize(
    mn: int,
    mx: int,
    o: int,
    d: int,
    en: int,
    xn: int,
    den: int,
    p: int,
    q: int,
)
    by (nonlinear_arith)
    requires
        q > 0,
        d != 0,
        d > 0 ==> en == (mn - o) * SCALE && xn == (mx - o) * SCALE && den == d,
        d < 0 ==> en == (o - mx) * SCALE && xn == (o - mn) * SCALE && den == -d,
    ensures
        (en * q < p * den && p * den < xn * q) <==> slab_cond(mn, mx, o, d, p, q),
{
}

proof fn lemma_within_empty(ln: int, ld: int, hn: int, hd: int, p: int, q: int)
    by (nonlinear_arith)
    requires
        ld > 0,
        hd > 0,
        q > 0,
        hn * ld <= ln * hd,
    ensures
        !within(ln, ld, hn, hd, p, q),
{
}

proof fn lemma_midpoint(ln: int, ld: int, hn: int, hd: int)
    by (nonlinear_arith)
    requires
        ld > 0,
        hd > 0,
        ln * hd < hn * ld,
    ensures
        2 * ld * hd > 0,
        within(ln, ld, hn, hd, ln * hd + hn * ld, 2 * ld * hd),
{
}

/// One slab step: tighten the running rational interval by the slab of one
/// axis and report whether the interval is still non-empty.
#[verifier::rlimit(30)]
fn slab_tighten(ln: i128, ld: i128, hn: i128, hd: i128, mn: i64, mx: i64, o: i64, d: i64) -> (res:
    (i128, i128, i128, i128, bool))
    requires
        0 < ld <= 0x400_0000,
        0 < hd <= 0x400_0000,
        -0x2000_0000_0000 <= ln <= 0x2000_0000_0000,
        -0x2000_0000_0000 <= hn <= 0x2000_0000_0000,
        -0x1000_0000 <= mn <= 0x1000_0000,
        -0x1000_0000 <= mx <= 0x1000_0000,
        -0x1000_0000 <= o <= 0x1000_0000,
        -0x400_0000 <= d <= 0x400_0000,
    ensures
        res.4 ==> 0 < res.1 <= 0x400_0000 && 0 < res.3 <= 0x400_0000
            && -0x2000_0000_0000 <= res.0 <= 0x2000_0000_0000 && -0x2000_0000_0000 <= res.2
            <= 0x2000_0000_0000,
        res.4 ==> (res.0 as int) * (res.3 as int) < (res.2 as int) * (res.1 as int),
        res.4 ==> forall|p: int, q: int|
            q > 0 ==> (within(res.0 as int, res.1 as int, res.2 as int, res.3 as int, p, q)
                <==> (within(ln as int, ld as int, hn as int, hd as int, p, q) && slab_cond(
                mn as int,
                mx as int,
                o as int,
                d as int,
                p,
                q,
            ))),
        !res.4 ==> forall|p: int, q: int|
            q > 0 ==> !(within(ln as int, ld as int, hn as int, hd as int, p, q) && slab_cond(
                mn as int,
                mx as int,
                o as int,
                d as int,
                p,
                q,
            )),
{
    if d == 0 {
        if o < mn || mx < o {
            proof {
                assert forall|p: int, q: int| q > 0 implies !(within(
                    ln as int,
                    ld as int,
                    hn as int,
                    hd as int,
                    p,
                    q,
                ) && slab_cond(mn as int, mx as int, o as int, d as int, p, q)) by {
                    assert(!slab_cond(mn as int, mx as int, o as int, d as int, p, q));
                }
            }
            return (ln, ld, hn, hd, false);
        }
        let open_interval = rat_lt(ln, ld, hn, hd);
        if !open_interval {
            proof {
                assert forall|p: int, q: int| q > 0 implies !(within(
                    ln as int,
                    ld as int,
                    hn as int,
                    hd as int,
                    p,
                    q,
                ) && slab_cond(mn as int, mx as int, o as int, d as int, p, q)) by {
                    lemma_within_empty(ln as int, ld as int, hn as int, hd as int, p, q);
                }
            }
            return (ln, ld, hn, hd, false);
        }
        return (ln, ld, hn, hd, true);
    }
    let en: i128;
    let xn: i128;
    let den: i128;
    if d > 0 {
        let de: i128 = (mn as i128) - (o as i128);
        let dx: i128 = (mx as i128) - (o as i128);
        proof {
            lemma_scale_diff_bound(de as int);
            lemma_scale_diff_bound(dx as int);
        }
        en = de * (SCALE as i128);
        xn = dx * (SCALE as i128);
        den = d as i128;
    } else {
        let de: i128 = (o as i128) - (mx as i128);
        let dx: i128 = (o as i128) - (mn as i128);
        proof {
            lemma_scale_diff_bound(de as int);
            lemma_scale_diff_bound(dx as int);
        }
        en = de * (SCALE as i128);
        xn = dx * (SCALE as i128);
        den = -(d as i128);
    }
    let (nln, nld) = if rat_lt(ln, ld, en, den) {
        (en, den)
    } else {
        (ln, ld)
    };
    let (nhn, nhd) = if rat_lt(xn, den, hn, hd) {
        (xn, den)
    } else {
        (hn, hd)
    };
    let alive = rat_lt(nln, nld, nhn, nhd);
    proof {
        assert forall|p: int, q: int| q > 0 implies ((within(
            nln as int,
            nld as int,
            nhn as int,
            nhd as int,
            p,
            q,
        ) <==> (within(ln as int, ld as int, hn as int, hd as int, p, q) && slab_cond(
            mn as int,
            mx as int,
            o as int,
            d as int,
            p,
            q,
        )))) by {
            lemma_lower_merge(ln as int, ld as int, en as int, den as int, p, q);
            lemma_upper_merge(hn as int, hd as int, xn as int, den as int, p, q);
            lemma_slab_normalize(
                mn as int,
                mx as int,
                o as int,
                d as int,
                en as int,
                xn as int,
                den as int,
                p,
                q,
            );
        }
        if !alive {
            assert forall|p: int, q: int| q > 0 implies !(within(
                ln as int,
                ld as int,
                hn as int,
                hd as int,
                p,
                q,
            ) && slab_cond(mn as int, mx as int, o as int, d as int, p, q)) by {
                lemma_within_empty(nln as int, nld as int, nhn as int, nhd as int, p, q);
            }
        }
    }
    (nln, nld, nhn, nhd, alive)
}

impl Aabb {
    /// The slab test: does the ray pass through the box somewhere strictly
    /// between `t_min` and `t_max`?
    pub fn hit(&self, ray: &Ray, t_min: i64, t_max: i64) -> (r: bool)
        requires
            box_wf(*self),
            ray_wf(*ray),
            -T_LIMIT <= t_min <= T_LIMIT,
            -T_LIMIT <= t_max <= T_LIMIT,
        ensures
            r == hits_between(*self, *ray, t_min as int, t_max as int),
    {
        let s1 = slab_tighten(
            t_min as i128,
            1i128,
            t_max as i128,
            1i128,
            self.min.x,
            self.max.x,
            ray.a.x,
            ray.b.x,
        );
        if !s1.4 {
            proof {
                assert forall|p: int, q: int|
                    !hit_witness(*self, *ray, t_min as int, t_max as int, p, q) by {
                    if q > 0 {
                        assert(!(within(t_min as int, 1, t_max as int, 1, p, q) && slab_ok(
                            *self,
                            *ray,
                            0,
                            p,
                            q,
                        )));
                    }
                }
            }
            return false;
        }
        let s2 = slab_tighten(s1.0, s1.1, s1.2, s1.3, self.min.y, self.max.y, ray.a.y, ray.b.y);
        if !s2.4 {
            proof {
                assert forall|p: int, q: int|
                    !hit_witness(*self, *ray, t_min as int, t_max as int, p, q) by {
                    if q > 0 && hit_witness(*self, *ray, t_min as int, t_max as int, p, q) {
                        assert(within(s1.0 as int, s1.1 as int, s1.2 as int, s1.3 as int, p, q));
                        assert(!(within(s1.0 as int, s1.1 as int, s1.2 as int, s1.3 as int, p, q)
                            && slab_ok(*self, *ray, 1, p, q)));
                    }
                }
            }
            return false;
        }
        let s3 = slab_tighten(s2.0, s2.1, s2.2, s2.3, self.min.z, self.max.z, ray.a.z, ray.b.z);
        if !s3.4 {
            proof {
                assert forall|p: int, q: int|
                    !hit_witness(*self, *ray, t_min as int, t_max as int, p, q) by {
                    if q > 0 && hit_witness(*self, *ray, t_min as int, t_max as int, p, q) {
                        assert(within(s1.0 as int, s1.1 as int, s1.2 as int, s1.3 as int, p, q));
                        assert(within(s2.0 as int, s2.1 as int, s2.2 as int, s2.3 as int, p, q));
                        assert(!(within(s2.0 as int, s2.1 as int, s2.2 as int, s2.3 as int, p, q)
                            && slab_ok(*self, *ray, 2, p, q)));
                    }
                }
            }
            return false;
        }
        // The interval survived all three slabs; its midpoint is a witness.
        proof {
            lemma_midpoint(s3.0 as int, s3.1 as int, s3.2 as int, s3.3 as int);
            let p = (s3.0 as int) * (s3.3 as int) + (s3.2 as int) * (s3.1 as int);
            let q = 2 * (s3.1 as int) * (s3.3 as int);
            assert(within(s3.0 as int, s3.1 as int, s3.2 as int, s3.3 as int, p, q));
            assert(within(s2.0 as int, s2.1 as int, s2.2 as int, s2.3 as int, p, q));
            assert(within(s1.0 as int, s1.1 as int, s1.2 as int, s1.3 as int, p, q));
            assert(within(t_min as int, 1, t_max as int, 1, p, q));
            assert(hit_witness(*self, *ray, t_min as int, t_max as int, p, q));
        }
        true
    }
}

proof fn lemma_scale_diff_bound(de: int)
    by (nonlinear_arith)
    requires
        -0x2000_0000 <= de <= 0x2000_0000,
    ensures
        -0x2000_0000_0000 <= de * SCALE <= 0x2000_0000_0000,
{
}

} // verus!
