use vstd::prelude::*;

use crate::aabb::box_contains_box;
use crate::aabb::box_wf;
use crate::aabb::hits_between;
use crate::aabb::Aabb;
use crate::hitable::hit_record_wf;
use crate::hitable::hitable_wf;
use crate::hitable::interval_ok;
use crate::hitable::record_fields_match;
use crate::hitable::spec_hit_t;
use crate::hitable::spec_hitable_box;
use crate::hitable::time_ok;
use crate::hitable::HitRecord;
use crate::hitable::Hitable;
use crate::hitable_list::list_time_ok;
use crate::hitable_list::list_wf;
use crate::ray::ray_at_axis;
use crate::ray::ray_wf;
use crate::ray::Ray;
use crate::T_LIMIT;

verus! {

broadcast use vstd::seq_lib::group_to_multiset_ensures;

/// One arena entry: a leaf owning a surface, or an inner node addressing
/// its children by index. Children always sit at lower indices than their
/// parent, so the tree is built bottom-up and traversed without cycles.
pub enum BvhInner {
    Leaf { surface: Hitable, bbox: Aabb },
    Node { left: usize, right: usize, bbox: Aabb },
}

/// The bounding-volume hierarchy: an arena of nodes, the root's index,
/// and the motion interval the boxes were built for.
pub struct BvhNode {
    pub nodes: Vec<BvhInner>,
    pub root: usize,
    pub time0: i64,
    pub time1: i64,
}

pub open spec fn bbox_of(n: BvhInner) -> Aabb {
    match n {
        BvhInner::Leaf { bbox, .. } => bbox,
        BvhInner::Node { bbox, .. } => bbox,
    }
}

/// A well-formed subtree rooted at `i`: leaves hold well-formed surfaces
/// with their exact boxes, inner nodes address smaller indices and their
/// box contains both children's boxes.
pub open spec fn node_wf(nodes: Seq<BvhInner>, i: int, t0: int, t1: int) -> bool
    decreases i,
{
    &&& 0 <= i < nodes.len()
    &&& match nodes[i] {
        BvhInner::Leaf { surface, bbox } => {
            &&& hitable_wf(surface)
            &&& interval_ok(surface, t0, t1)
            &&& bbox == spec_hitable_box(surface, t0, t1)
            &&& box_wf(bbox)
        },
        BvhInner::Node { left, right, bbox } => {
            &&& left < i
            &&& right < i
            &&& node_wf(nodes, left as int, t0, t1)
            &&& node_wf(nodes, right as int, t0, t1)
            &&& box_wf(bbox)
            &&& box_contains_box(bbox, bbox_of(nodes[left as int]))
            &&& box_contains_box(bbox, bbox_of(nodes[right as int]))
        },
    }
}

/// The surfaces under a subtree, left to right.
pub open spec fn leaves(nodes: Seq<BvhInner>, i: int) -> Seq<Hitable>
    decreases i,
{
    if 0 <= i < nodes.len() {
        match nodes[i] {
            BvhInner::Leaf { surface, .. } => seq![surface],
            BvhInner::Node { left, right, .. } => {
                if left < i && right < i {
                    leaves(nodes, left as int) + leaves(nodes, right as int)
                } else {
                    Seq::empty()
                }
            },
        }
    } else {
        Seq::empty()
    }
}

/// The pruned traversal: if the node's box misses the window, nothing;
/// else the left child first, then the right child constrained to beat
/// the left child's hit.
pub open spec fn spec_bvh_hit_t(nodes: Seq<BvhInner>, i: int, r: Ray, t_min: int, t_max: int) -> Option<int>
    decreases i,
{
    if 0 <= i < nodes.len() {
        match nodes[i] {
            BvhInner::Leaf { surface, .. } => spec_hit_t(surface, r, t_min, t_max),
            BvhInner::Node { left, right, bbox } => {
                if left < i && right < i {
                    if !hits_between(bbox, r, t_min, t_max) {
                        None
                    } else {
                        match spec_bvh_hit_t(nodes, left as int, r, t_min, t_max) {
                            Some(tl) => match spec_bvh_hit_t(nodes, right as int, r, t_min, tl) {
                                Some(tr) => Some(tr),
                                None => Some(tl),
                            },
                            None => spec_bvh_hit_t(nodes, right as int, r, t_min, t_max),
                        }
                    }
                } else {
                    None
                }
            },
        }
    } else {
        None
    }
}

pub open spec fn bvh_wf(b: BvhNode) -> bool {
    &&& node_wf(b.nodes@, b.root as int, b.time0 as int, b.time1 as int)
    &&& -T_LIMIT <= b.time0 <= b.time1 <= T_LIMIT
}

/// Appending nodes to the arena leaves existing subtrees intact.
proof fn lemma_frame(s1: Seq<BvhInner>, s2: Seq<BvhInner>, i: int, t0: int, t1: int)
    requires
        node_wf(s1, i, t0, t1),
        s1.len() <= s2.len(),
        forall|k: int| 0 <= k < s1.len() ==> s2[k] == s1[k],
    ensures
        node_wf(s2, i, t0, t1),
        leaves(s2, i) == leaves(s1, i),
    decreases i,
{
    match s1[i] {
        BvhInner::Leaf { .. } => {},
        BvhInner::Node { left, right, .. } => {
            lemma_frame(s1, s2, left as int, t0, t1);
            lemma_frame(s1, s2, right as int, t0, t1);
        },
    }
}

/// A ray time inside every surface of a concatenation is inside every
/// surface of each half.
proof fn lemma_time_ok_split(a: Seq<Hitable>, b: Seq<Hitable>, time: int)
    requires
        list_time_ok(a + b, time),
    ensures
        list_time_ok(a, time),
        list_time_ok(b, time),
{
    assert forall|i: int| 0 <= i < a.len() implies time_ok(#[trigger] a[i], time) by {
        assert((a + b)[i] == a[i]);
    }
    assert forall|i: int| 0 <= i < b.len() implies time_ok(#[trigger] b[i], time) by {
        assert((a + b)[i + a.len()] == b[i]);
    }
}

/// The key a build round sorts by: the box minimum along the chosen axis.
fn box_key(h: &Hitable, axis: usize, t0: i64, t1: i64) -> (r: i64)
    requires
        hitable_wf(*h),
        interval_ok(*h, t0 as int, t1 as int),
        -T_LIMIT <= t0 <= t1 <= T_LIMIT,
        axis < 3,
    ensures
        true,
{
    match h.bounding_box(t0, t1) {
        Some(b) => b.min.get(axis),
        None => 0,
    }
}

/// Selection sort by box key. Only what matters to the tree's meaning is
/// stated: the result holds exactly the surfaces that went in.
fn sort_by_key(items: Vec<Hitable>, axis: usize, t0: i64, t1: i64) -> (r: Vec<Hitable>)
    requires
        list_wf(items@),
        forall|i: int|
            0 <= i < items@.len() ==> interval_ok(#[trigger] items@[i], t0 as int, t1 as int),
        -T_LIMIT <= t0 <= t1 <= T_LIMIT,
        axis < 3,
    ensures
        r@.to_multiset() == items@.to_multiset(),
        r@.len() == items@.len(),
        list_wf(r@),
        forall|i: int| 0 <= i < r@.len() ==> interval_ok(#[trigger] r@[i], t0 as int, t1 as int),
{
    let ghost orig = items@;
    let mut rem = items;
    let mut out: Vec<Hitable> = Vec::new();
    while rem.len() > 0
        invariant
            out@.to_multiset().add(rem@.to_multiset()) == orig.to_multiset(),
            out@.len() + rem@.len() == orig.len(),
            list_wf(rem@),
            list_wf(out@),
            forall|i: int|
                0 <= i < rem@.len() ==> interval_ok(#[trigger] rem@[i], t0 as int, t1 as int),
            forall|i: int|
                0 <= i < out@.len() ==> interval_ok(#[trigger] out@[i], t0 as int, t1 as int),
            -T_LIMIT <= t0 <= t1 <= T_LIMIT,
            axis < 3,
        decreases rem.len(),
    {
        let mut min_idx: usize = 0;
        let mut min_key = box_key(&rem[0], axis, t0, t1);
        let mut j: usize = 1;
        while j < rem.len()
            invariant
                min_idx < rem@.len(),
                j <= rem@.len(),
                rem@.len() > 0,
                list_wf(rem@),
                forall|i: int|
                    0 <= i < rem@.len() ==> interval_ok(#[trigger] rem@[i], t0 as int, t1 as int),
                -T_LIMIT <= t0 <= t1 <= T_LIMIT,
                axis < 3,
            decreases rem.len() - j,
        {
            let k = box_key(&rem[j], axis, t0, t1);
            if k < min_key {
                min_key = k;
                min_idx = j;
            }
            j = j + 1;
        }
        let ghost before = rem@;
        let e = rem.remove(min_idx);
        out.push(e);
        proof {
            assert(rem@ == before.remove(min_idx as int));
            assert(rem@.to_multiset() =~= before.to_multiset().remove(e));
            assert(out@.to_multiset().add(rem@.to_multiset()) =~= orig.to_multiset());
            assert forall|i: int| 0 <= i < rem@.len() implies hitable_wf(#[trigger] rem@[i])
                && interval_ok(rem@[i], t0 as int, t1 as int) by {
                if i < min_idx {
                    assert(rem@[i] == before[i]);
                } else {
                    assert(rem@[i] == before[i + 1]);
                }
            }
        }
    }
    out
}

/// Recursive build: sort the surfaces along a random axis, split in the
/// middle, build both halves, and cover them with the joint box. Returns
/// the new subtree's root index and its box.
fn build(
    nodes: &mut Vec<BvhInner>,
    items: Vec<Hitable>,
    t0: i64,
    t1: i64,
    rng: &mut rand::rngs::SmallRng,
) -> (r: (usize, Aabb))
    requires
        items@.len() >= 1,
        list_wf(items@),
        forall|i: int|
            0 <= i < items@.len() ==> interval_ok(#[trigger] items@[i], t0 as int, t1 as int),
        -T_LIMIT <= t0 <= t1 <= T_LIMIT,
    ensures
        final(nodes)@.len() > old(nodes)@.len(),
        forall|k: int| 0 <= k < old(nodes)@.len() ==> final(nodes)@[k] == old(nodes)@[k],
        r.0 == final(nodes)@.len() - 1,
        node_wf(final(nodes)@, r.0 as int, t0 as int, t1 as int),
        r.1 == bbox_of(final(nodes)@[r.0 as int]),
        leaves(final(nodes)@, r.0 as int).to_multiset() == items@.to_multiset(),
    decreases items@.len(),
{
    let ghost orig = items@;
    let mut items = items;
    if items.len() == 1 {
        let s = match items.pop() {
            Some(s) => s,
            None => vstd::pervasive::unreached(),
        };
        let bbox = match s.bounding_box(t0, t1) {
            Some(b) => b,
            None => vstd::pervasive::unreached(),
        };
        let idx = nodes.len();
        nodes.push(BvhInner::Leaf { surface: s, bbox });
        proof {
            assert(orig =~= seq![s]);
            assert(leaves(nodes@, idx as int) =~= seq![s]);
        }
        return (idx, bbox);
    }
    let axis = crate::rng::rand_below(rng, 3) as usize;
    let mut sorted = sort_by_key(items, axis, t0, t1);
    let ghost gs = sorted@;
    let mid = sorted.len() / 2;
    let right_items = sorted.split_off(mid);
    let left_items = sorted;
    let ghost gl = left_items@;
    let ghost gr = right_items@;
    proof {
        assert(gl + gr =~= gs);
        vstd::seq_lib::lemma_multiset_commutative(gl, gr);
        assert forall|i: int| 0 <= i < gl.len() implies hitable_wf(#[trigger] gl[i])
            && interval_ok(gl[i], t0 as int, t1 as int) by {
            assert(gl[i] == gs[i]);
        }
        assert forall|i: int| 0 <= i < gr.len() implies hitable_wf(#[trigger] gr[i])
            && interval_ok(gr[i], t0 as int, t1 as int) by {
            assert(gr[i] == gs[i + gl.len()]);
        }
    }
    let ghost nodes0 = nodes@;
    let (li, lbox) = build(nodes, left_items, t0, t1, rng);
    let ghost nodes1 = nodes@;
    let (ri, rbox) = build(nodes, right_items, t0, t1, rng);
    proof {
        lemma_frame(nodes1, nodes@, li as int, t0 as int, t1 as int);
    }
    let bbox = Aabb::surrounding_box(lbox, rbox);
    let idx = nodes.len();
    let ghost nodes2 = nodes@;
    nodes.push(BvhInner::Node { left: li, right: ri, bbox });
    proof {
        lemma_frame(nodes2, nodes@, li as int, t0 as int, t1 as int);
        lemma_frame(nodes2, nodes@, ri as int, t0 as int, t1 as int);
        assert(leaves(nodes@, idx as int) == leaves(nodes@, li as int) + leaves(
            nodes@,
            ri as int,
        ));
        vstd::seq_lib::lemma_multiset_commutative(leaves(nodes@, li as int), leaves(nodes@, ri as int));
    }
    (idx, bbox)
}

impl BvhNode {
    /// Build the hierarchy over a scene's surfaces for the motion
    /// interval `[time0, time1]`. The axis each level sorts along is
    /// drawn from the generator; whatever is drawn, the tree holds
    /// exactly the surfaces that went in.
    pub fn new(
        rng: &mut rand::rngs::SmallRng,
        world: Vec<Hitable>,
        time0: i64,
        time1: i64,
    ) -> (r: BvhNode)
        requires
            world@.len() >= 1,
            list_wf(world@),
            forall|i: int|
                0 <= i < world@.len() ==> interval_ok(
                    #[trigger] world@[i],
                    time0 as int,
                    time1 as int,
                ),
            -T_LIMIT <= time0 <= time1 <= T_LIMIT,
        ensures
            bvh_wf(r),
            r.time0 == time0,
            r.time1 == time1,
            leaves(r.nodes@, r.root as int).to_multiset() == world@.to_multiset(),
    {
        let mut nodes: Vec<BvhInner> = Vec::new();
        let (root, _bbox) = build(&mut nodes, world, time0, time1, rng);
        BvhNode { nodes, root, time0, time1 }
    }

    /// Traverse the hierarchy: the same closest hit the linear scan of
    /// the tree's surfaces would find, skipping subtrees whose box the
    /// ray misses.
    pub fn hit(&self, ray: &Ray, t_min: i64, t_max: i64) -> (r: Option<HitRecord>)
        requires
            bvh_wf(*self),
            ray_wf(*ray),
            list_time_ok(leaves(self.nodes@, self.root as int), ray.time as int),
            -T_LIMIT <= t_min <= T_LIMIT,
            -T_LIMIT <= t_max <= T_LIMIT,
        ensures
            (r is Some) <==> (spec_bvh_hit_t(
                self.nodes@,
                self.root as int,
                *ray,
                t_min as int,
                t_max as int,
            ) is Some),
            r is Some ==> Some(r->0.t as int) == spec_bvh_hit_t(
                self.nodes@,
                self.root as int,
                *ray,
                t_min as int,
                t_max as int,
            ),
            r is Some ==> t_min < r->0.t < t_max,
            r is Some ==> r->0.p.x == ray_at_axis(*ray, r->0.t as int, 0) && r->0.p.y
                == ray_at_axis(*ray, r->0.t as int, 1) && r->0.p.z == ray_at_axis(
                *ray,
                r->0.t as int,
                2,
            ),
            r is Some ==> hit_record_wf(r->0),
            r is Some ==> exists|k: int|
                0 <= k < leaves(self.nodes@, self.root as int).len() && hitable_wf(
                    #[trigger] leaves(self.nodes@, self.root as int)[k],
                ) && record_fields_match(leaves(self.nodes@, self.root as int)[k], *ray, r->0)
                    && spec_hit_t(
                    leaves(self.nodes@, self.root as int)[k],
                    *ray,
                    t_min as int,
                    t_max as int,
                ) == Some(r->0.t as int),
    {
        node_hit(&self.nodes, self.root, ray, t_min, t_max, Ghost(self.time0 as int), Ghost(self.time1 as int))
    }
}

/// The recursive traversal over the arena.
fn node_hit<'a>(
    nodes: &'a Vec<BvhInner>,
    i: usize,
    ray: &Ray,
    t_min: i64,
    t_max: i64,
    Ghost(t0): Ghost<int>,
    Ghost(t1): Ghost<int>,
) -> (r: Option<HitRecord<'a>>)
    requires
        node_wf(nodes@, i as int, t0, t1),
        ray_wf(*ray),
        list_time_ok(leaves(nodes@, i as int), ray.time as int),
        -T_LIMIT <= t_min <= T_LIMIT,
        -T_LIMIT <= t_max <= T_LIMIT,
    ensures
        (r is Some) <==> (spec_bvh_hit_t(nodes@, i as int, *ray, t_min as int, t_max as int) is Some),
        r is Some ==> Some(r->0.t as int) == spec_bvh_hit_t(
            nodes@,
            i as int,
            *ray,
            t_min as int,
            t_max as int,
        ),
        r is Some ==> t_min < r->0.t < t_max,
        r is Some ==> r->0.p.x == ray_at_axis(*ray, r->0.t as int, 0) && r->0.p.y == ray_at_axis(
            *ray,
            r->0.t as int,
            1,
        ) && r->0.p.z == ray_at_axis(*ray, r->0.t as int, 2),
        r is Some ==> hit_record_wf(r->0),
        r is Some ==> exists|k: int|
            0 <= k < leaves(nodes@, i as int).len() && hitable_wf(
                #[trigger] leaves(nodes@, i as int)[k],
            ) && record_fields_match(leaves(nodes@, i as int)[k], *ray, r->0) && spec_hit_t(
                leaves(nodes@, i as int)[k],
                *ray,
                t_min as int,
                t_max as int,
            ) == Some(r->0.t as int),
    decreases i,
{
    match &nodes[i] {
        BvhInner::Leaf { surface, .. } => {
            proof {
                assert(leaves(nodes@, i as int)[0] == *surface);
            }
            let r = surface.hit(ray, t_min, t_max);
            proof {
                if r is Some {
                    assert(hitable_wf(leaves(nodes@, i as int)[0]) && record_fields_match(
                        leaves(nodes@, i as int)[0],
                        *ray,
                        r->0,
                    ) && spec_hit_t(leaves(nodes@, i as int)[0], *ray, t_min as int, t_max as int)
                        == Some(r->0.t as int));
                }
            }
            r
        },
        BvhInner::Node { left, right, bbox } => {
            proof {
                lemma_time_ok_split(
                    leaves(nodes@, *left as int),
                    leaves(nodes@, *right as int),
                    ray.time as int,
                );
            }
            if !bbox.hit(ray, t_min, t_max) {
                return None;
            }
            let ghost sl = leaves(nodes@, *left as int);
            let ghost sr = leaves(nodes@, *right as int);
            let left_hit = node_hit(nodes, *left, ray, t_min, t_max, Ghost(t0), Ghost(t1));
            let out = match left_hit {
                Some(lrec) => {
                    let right_hit = node_hit(nodes, *right, ray, t_min, lrec.t, Ghost(t0), Ghost(t1));
                    match right_hit {
                        Some(rrec) => Some(rrec),
                        None => Some(lrec),
                    }
                },
                None => node_hit(nodes, *right, ray, t_min, t_max, Ghost(t0), Ghost(t1)),
            };
            proof {
                if out is Some {
                    let here = leaves(nodes@, i as int);
                    assert(here == sl + sr);
                    if exists|k: int|
                        0 <= k < sl.len() && hitable_wf(#[trigger] sl[k]) && record_fields_match(
                            sl[k],
                            *ray,
                            out->0,
                        ) && spec_hit_t(sl[k], *ray, t_min as int, t_max as int) == Some(
                            out->0.t as int,
                        ) {
                        let k = choose|k: int|
                            0 <= k < sl.len() && hitable_wf(#[trigger] sl[k])
                                && record_fields_match(sl[k], *ray, out->0) && spec_hit_t(
                                sl[k],
                                *ray,
                                t_min as int,
                                t_max as int,
                            ) == Some(out->0.t as int);
                        assert(here[k] == sl[k]);
                    } else {
                        // The record came from the right child; if its
                        // window was shrunk by a left hit, widen its hit
                        // back to the call's window.
                        if left_hit is Some {
                            let k = choose|k: int|
                                0 <= k < sr.len() && hitable_wf(#[trigger] sr[k])
                                    && record_fields_match(sr[k], *ray, out->0) && spec_hit_t(
                                    sr[k],
                                    *ray,
                                    t_min as int,
                                    left_hit->0.t as int,
                                ) == Some(out->0.t as int);
                            crate::hitable::lemma_hit_window(
                                sr[k],
                                *ray,
                                t_min as int,
                                t_max as int,
                                left_hit->0.t as int,
                            );
                            assert(here[k + sl.len()] == sr[k]);
                        } else {
                            let k = choose|k: int|
                                0 <= k < sr.len() && hitable_wf(#[trigger] sr[k])
                                    && record_fields_match(sr[k], *ray, out->0) && spec_hit_t(
                                    sr[k],
                                    *ray,
                                    t_min as int,
                                    t_max as int,
                                ) == Some(out->0.t as int);
                            assert(here[k + sl.len()] == sr[k]);
                        }
                    }
                }
            }
            out
        },
    }
}


/// A scan hit under a subtree means the ray passes the subtree's box:
/// the first surface the scan accepts is tested at the unshrunk window,
/// and its own box lies inside every ancestor box.
proof fn lemma_fold_in_box(
    nodes: Seq<BvhInner>,
    i: int,
    r: Ray,
    a: int,
    b: int,
    t0: int,
    t1: int,
)
    requires
        node_wf(nodes, i, t0, t1),
        crate::vec3::abs_bounded(r.a, crate::COORD_LIMIT as int),
        crate::vec3::abs_bounded(r.b, crate::COORD_LIMIT as int),
        crate::vec3::dot3(r.b, r.b) > 0,
        list_time_ok(leaves(nodes, i), r.time as int),
        t0 <= r.time <= t1,
        crate::hitable_list::spec_list_hit_t(leaves(nodes, i), r, a, b) is Some,
    ensures
        crate::aabb::hits_between(bbox_of(nodes[i]), r, a, b),
    decreases i,
{
    reveal_with_fuel(crate::hitable_list::spec_list_hit_t, 3);
    match nodes[i] {
        BvhInner::Leaf { surface, bbox } => {
            let s = leaves(nodes, i);
            assert(s =~= seq![surface]);
            assert(s.drop_first() =~= Seq::<Hitable>::empty());
            assert(time_ok(surface, r.time as int)) by {
                assert(s[0] == surface);
            }
            if spec_hit_t(surface, r, a, b) is None {
                assert(false);
            }
            crate::hitable::lemma_hit_in_box(surface, r, a, b, t0, t1);
        },
        BvhInner::Node { left, right, bbox } => {
            let sl = leaves(nodes, left as int);
            let sr = leaves(nodes, right as int);
            lemma_time_ok_split(sl, sr, r.time as int);
            crate::hitable_list::lemma_fold_append(sl, sr, r, a, b);
            match crate::hitable_list::spec_list_hit_t(sl, r, a, b) {
                Some(_) => {
                    lemma_fold_in_box(nodes, left as int, r, a, b, t0, t1);
                    crate::aabb::lemma_hits_widen(
                        bbox_of(nodes[left as int]),
                        bbox,
                        r,
                        a,
                        b,
                    );
                },
                None => {
                    lemma_fold_in_box(nodes, right as int, r, a, b, t0, t1);
                    crate::aabb::lemma_hits_widen(
                        bbox_of(nodes[right as int]),
                        bbox,
                        r,
                        a,
                        b,
                    );
                },
            }
        },
    }
}

/// The tree traversal and the linear scan of the subtree's surfaces
/// return the same hit parameter: pruning a subtree whose box the ray
/// misses loses nothing.
proof fn lemma_node_scan_eq(
    nodes: Seq<BvhInner>,
    i: int,
    r: Ray,
    a: int,
    b: int,
    t0: int,
    t1: int,
)
    requires
        node_wf(nodes, i, t0, t1),
        crate::vec3::abs_bounded(r.a, crate::COORD_LIMIT as int),
        crate::vec3::abs_bounded(r.b, crate::COORD_LIMIT as int),
        crate::vec3::dot3(r.b, r.b) > 0,
        list_time_ok(leaves(nodes, i), r.time as int),
        t0 <= r.time <= t1,
    ensures
        spec_bvh_hit_t(nodes, i, r, a, b) == crate::hitable_list::spec_list_hit_t(
            leaves(nodes, i),
            r,
            a,
            b,
        ),
    decreases i,
{
    reveal_with_fuel(crate::hitable_list::spec_list_hit_t, 3);
    match nodes[i] {
        BvhInner::Leaf { surface, bbox } => {
            let s = leaves(nodes, i);
            assert(s =~= seq![surface]);
            assert(s.drop_first() =~= Seq::<Hitable>::empty());
        },
        BvhInner::Node { left, right, bbox } => {
            let sl = leaves(nodes, left as int);
            let sr = leaves(nodes, right as int);
            lemma_time_ok_split(sl, sr, r.time as int);
            crate::hitable_list::lemma_fold_append(sl, sr, r, a, b);
            if !hits_between(bbox, r, a, b) {
                if crate::hitable_list::spec_list_hit_t(leaves(nodes, i), r, a, b) is Some {
                    lemma_fold_in_box(nodes, i, r, a, b, t0, t1);
                }
            } else {
                lemma_node_scan_eq(nodes, left as int, r, a, b, t0, t1);
                match spec_bvh_hit_t(nodes, left as int, r, a, b) {
                    Some(tl) => {
                        lemma_node_scan_eq(nodes, right as int, r, a, tl, t0, t1);
                    },
                    None => {
                        lemma_node_scan_eq(nodes, right as int, r, a, b, t0, t1);
                    },
                }
            }
        },
    }
}

/// The hierarchy is exactly as good as the brute-force scan: for every
/// ray and window, traversing the tree returns the same hit parameter
/// as scanning its surfaces one by one.
pub proof fn lemma_bvh_matches_scan(b: BvhNode, r: Ray, t_min: int, t_max: int)
    requires
        bvh_wf(b),
        crate::vec3::abs_bounded(r.a, crate::COORD_LIMIT as int),
        crate::vec3::abs_bounded(r.b, crate::COORD_LIMIT as int),
        crate::vec3::dot3(r.b, r.b) > 0,
        list_time_ok(leaves(b.nodes@, b.root as int), r.time as int),
        b.time0 <= r.time <= b.time1,
    ensures
        spec_bvh_hit_t(b.nodes@, b.root as int, r, t_min, t_max)
            == crate::hitable_list::spec_list_hit_t(
            leaves(b.nodes@, b.root as int),
            r,
            t_min,
            t_max,
        ),
{
    lemma_node_scan_eq(
        b.nodes@,
        b.root as int,
        r,
        t_min,
        t_max,
        b.time0 as int,
        b.time1 as int,
    );
}


/// The full accelerator law: traversing the hierarchy finds exactly what
/// the brute-force scan over the surfaces it was built from finds — in
/// whatever order they were supplied, for every ray, window, and
/// whatever axes the build drew. `BvhNode::new` supplies the multiset
/// premise for its own build input.
pub proof fn lemma_bvh_matches_any_order(
    b: BvhNode,
    world: Seq<Hitable>,
    r: Ray,
    t_min: int,
    t_max: int,
)
    requires
        bvh_wf(b),
        leaves(b.nodes@, b.root as int).to_multiset() == world.to_multiset(),
        crate::vec3::abs_bounded(r.a, crate::COORD_LIMIT as int),
        crate::vec3::abs_bounded(r.b, crate::COORD_LIMIT as int),
        crate::vec3::dot3(r.b, r.b) > 0,
        list_time_ok(leaves(b.nodes@, b.root as int), r.time as int),
        b.time0 <= r.time <= b.time1,
    ensures
        (spec_bvh_hit_t(b.nodes@, b.root as int, r, t_min, t_max) is Some)
            <==> (crate::hitable_list::spec_list_hit_t(world, r, t_min, t_max) is Some),
        spec_bvh_hit_t(b.nodes@, b.root as int, r, t_min, t_max) matches Some(t)
            ==> crate::hitable_list::spec_list_hit_t(world, r, t_min, t_max) == Some(t),
{
    lemma_bvh_matches_scan(b, r, t_min, t_max);
    crate::hitable_list::lemma_scan_order_free(
        leaves(b.nodes@, b.root as int),
        world,
        r,
        t_min,
        t_max,
    );
}

} // verus!
