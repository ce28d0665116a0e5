use vstd::prelude::*;

use crate::hitable::hit_record_wf;
use crate::hitable::hitable_wf;
use crate::hitable::record_fields_match;
use crate::hitable::spec_hit_t;
use crate::hitable::time_ok;
use crate::hitable::HitRecord;
use crate::hitable::Hitable;
use crate::ray::ray_at_axis;
use crate::ray::ray_wf;
use crate::ray::Ray;
use crate::T_LIMIT;

verus! {

/// A plain list of surfaces, tested one after the other.
pub struct HitableList {
    pub list: Vec<Hitable>,
}

pub open spec fn list_wf(s: Seq<Hitable>) -> bool {
    forall|i: int| 0 <= i < s.len() ==> hitable_wf(#[trigger] s[i])
}

pub open spec fn list_time_ok(s: Seq<Hitable>, time: int) -> bool {
    forall|i: int| 0 <= i < s.len() ==> time_ok(#[trigger] s[i], time)
}

/// The brute-force scan: test every surface in order, shrinking the upper
/// bound to the parameter of each accepted hit, so the last accepted hit
/// is the closest.
pub open spec fn spec_list_hit_t(s: Seq<Hitable>, r: Ray, t_min: int, t_max: int) -> Option<int>
    decreases s.len(),
{
    if s.len() == 0 {
        None
    } else {
        match spec_hit_t(s[0], r, t_min, t_max) {
            Some(t) => match spec_list_hit_t(s.drop_first(), r, t_min, t) {
                Some(t2) => Some(t2),
                None => Some(t),
            },
            None => spec_list_hit_t(s.drop_first(), r, t_min, t_max),
        }
    }
}

/// Peeling one element off the front of a suffix.
proof fn lemma_suffix_step(s: Seq<Hitable>, i: int)
    requires
        0 <= i < s.len(),
    ensures
        s.subrange(i, s.len() as int).len() == s.len() - i,
        s.subrange(i, s.len() as int)[0] == s[i],
        s.subrange(i, s.len() as int).drop_first() == s.subrange(i + 1, s.len() as int),
{
    assert(s.subrange(i, s.len() as int).drop_first() =~= s.subrange(i + 1, s.len() as int));
}

impl HitableList {
    pub fn new() -> (r: HitableList)
        ensures
            r.list@.len() == 0,
    {
        HitableList { list: Vec::new() }
    }

    pub fn push(&mut self, obj: Hitable)
        ensures
            final(self).list@ == old(self).list@.push(obj),
    {
        self.list.push(obj);
    }

    /// The closest hit over all surfaces, strictly inside
    /// `(t_min, t_max)`: the linear reference scan.
    pub fn hit(&self, ray: &Ray, t_min: i64, t_max: i64) -> (r: Option<HitRecord>)
        requires
            list_wf(self.list@),
            list_time_ok(self.list@, ray.time as int),
            ray_wf(*ray),
            -T_LIMIT <= t_min <= T_LIMIT,
            -T_LIMIT <= t_max <= T_LIMIT,
        ensures
            (r is Some) <==> (spec_list_hit_t(self.list@, *ray, t_min as int, t_max as int) is Some),
            r is Some ==> Some(r->0.t as int) == spec_list_hit_t(
                self.list@,
                *ray,
                t_min as int,
                t_max as int,
            ),
            r is Some ==> t_min < r->0.t < t_max,
            r is Some ==> r->0.p.x == ray_at_axis(*ray, r->0.t as int, 0) && r->0.p.y
                == ray_at_axis(*ray, r->0.t as int, 1) && r->0.p.z == ray_at_axis(
                *ray,
                r->0.t as int,
                2,
            ),
            r is Some ==> hit_record_wf(r->0),
            r is Some ==> exists|k: int|
                0 <= k < self.list@.len() && hitable_wf(#[trigger] self.list@[k])
                    && record_fields_match(self.list@[k], *ray, r->0) && spec_hit_t(
                    self.list@[k],
                    *ray,
                    t_min as int,
                    t_max as int,
                ) == Some(r->0.t as int),
    {
        list_hit_scan(&self.list, ray, t_min, t_max)
    }
}

/// The scan itself, shared with the tree code.
pub fn list_hit_scan<'a>(list: &'a Vec<Hitable>, ray: &Ray, t_min: i64, t_max: i64) -> (r: Option<
    HitRecord<'a>,
>)
    requires
        list_wf(list@),
        list_time_ok(list@, ray.time as int),
        ray_wf(*ray),
        -T_LIMIT <= t_min <= T_LIMIT,
        -T_LIMIT <= t_max <= T_LIMIT,
    ensures
        (r is Some) <==> (spec_list_hit_t(list@, *ray, t_min as int, t_max as int) is Some),
        r is Some ==> Some(r->0.t as int) == spec_list_hit_t(
            list@,
            *ray,
            t_min as int,
            t_max as int,
        ),
        r is Some ==> t_min < r->0.t < t_max,
        r is Some ==> r->0.p.x == ray_at_axis(*ray, r->0.t as int, 0) && r->0.p.y == ray_at_axis(
            *ray,
            r->0.t as int,
            1,
        ) && r->0.p.z == ray_at_axis(*ray, r->0.t as int, 2),
        r is Some ==> hit_record_wf(r->0),
        r is Some ==> exists|k: int|
            0 <= k < list@.len() && hitable_wf(#[trigger] list@[k]) && record_fields_match(
                list@[k],
                *ray,
                r->0,
            ) && spec_hit_t(list@[k], *ray, t_min as int, t_max as int) == Some(r->0.t as int),
{
    let ghost s = list@;
    let ghost n = list@.len() as int;
    let mut best: Option<HitRecord> = None;
    let mut closest_so_far = t_max;
    let mut i: usize = 0;
    proof {
        assert(s.subrange(0, n) =~= s);
    }
    while i < list.len()
        invariant
            list_wf(list@),
            list_time_ok(list@, ray.time as int),
            ray_wf(*ray),
            -T_LIMIT <= t_min <= T_LIMIT,
            -T_LIMIT <= t_max <= T_LIMIT,
            s == list@,
            n == list@.len() as int,
            i <= list.len(),
            best is None ==> closest_so_far == t_max,
            best is Some ==> closest_so_far == best->0.t,
            best is Some ==> t_min < best->0.t < t_max,
            best is Some ==> best->0.p.x == ray_at_axis(*ray, best->0.t as int, 0)
                && best->0.p.y == ray_at_axis(*ray, best->0.t as int, 1) && best->0.p.z
                == ray_at_axis(*ray, best->0.t as int, 2),
            best is Some ==> hit_record_wf(best->0),
            best is Some ==> exists|k: int|
                0 <= k < list@.len() && hitable_wf(#[trigger] list@[k]) && record_fields_match(
                    list@[k],
                    *ray,
                    best->0,
                ) && spec_hit_t(list@[k], *ray, t_min as int, t_max as int) == Some(
                    best->0.t as int,
                ),
            spec_list_hit_t(s, *ray, t_min as int, t_max as int) == (match spec_list_hit_t(
                s.subrange(i as int, n),
                *ray,
                t_min as int,
                closest_so_far as int,
            ) {
                Some(t) => Some(t),
                None => if best is Some {
                    Some(best->0.t as int)
                } else {
                    None
                },
            }),
        decreases list.len() - i,
    {
        proof {
            lemma_suffix_step(s, i as int);
        }
        let obj = &list[i];
        let ghost window_top = closest_so_far;
        match obj.hit(ray, t_min, closest_so_far) {
            Some(rec) => {
                closest_so_far = rec.t;
                best = Some(rec);
                proof {
                    // The hit found under the shrunk bound is the same
                    // hit under the caller's full window.
                    crate::hitable::lemma_hit_window(
                        list@[i as int],
                        *ray,
                        t_min as int,
                        t_max as int,
                        window_top as int,
                    );
                    assert(hitable_wf(list@[i as int]) && record_fields_match(
                        list@[i as int],
                        *ray,
                        best->0,
                    ) && spec_hit_t(list@[i as int], *ray, t_min as int, t_max as int) == Some(
                        best->0.t as int,
                    ));
                }
            },
            None => {},
        }
        i = i + 1;
    }
    proof {
        assert(s.subrange(n, n).len() == 0);
    }
    best
}


/// The scan over a concatenation: scan the first part, then the second
/// part against the first part's best hit.
pub proof fn lemma_fold_append(s1: Seq<Hitable>, s2: Seq<Hitable>, r: Ray, a: int, b: int)
    ensures
        spec_list_hit_t(s1 + s2, r, a, b) == (match spec_list_hit_t(s1, r, a, b) {
            Some(t) => match spec_list_hit_t(s2, r, a, t) {
                Some(t2) => Some(t2),
                None => Some(t),
            },
            None => spec_list_hit_t(s2, r, a, b),
        }),
    decreases s1.len(),
{
    if s1.len() == 0 {
        assert(s1 + s2 =~= s2);
    } else {
        assert((s1 + s2).len() > 0);
        assert((s1 + s2)[0] == s1[0]);
        assert((s1 + s2).drop_first() =~= s1.drop_first() + s2);
        match spec_hit_t(s1[0], r, a, b) {
            Some(t) => {
                lemma_fold_append(s1.drop_first(), s2, r, a, t);
            },
            None => {
                lemma_fold_append(s1.drop_first(), s2, r, a, b);
            },
        }
    }
}


/// Some surface of the sequence hits inside the window.
pub open spec fn some_hit(s: Seq<Hitable>, r: Ray, a: int, b: int) -> bool {
    exists|i: int| 0 <= i < s.len() && (#[trigger] spec_hit_t(s[i], r, a, b)) is Some
}

/// `t` is the parameter of some surface's hit, and no surface hits
/// closer, all judged at the full window.
pub open spec fn is_closest(s: Seq<Hitable>, r: Ray, a: int, b: int, t: int) -> bool {
    &&& exists|i: int| 0 <= i < s.len() && (#[trigger] spec_hit_t(s[i], r, a, b)) == Some(t)
    &&& forall|i: int|
        0 <= i < s.len() && (#[trigger] spec_hit_t(s[i], r, a, b)) is Some ==> t <= spec_hit_t(
            s[i],
            r,
            a,
            b,
        )->0
}

/// The scan answers exactly the closest hit: it is empty-handed only
/// when every surface misses, and its parameter is minimal among the
/// surfaces' own full-window hits.
pub proof fn lemma_fold_closest(s: Seq<Hitable>, r: Ray, a: int, b: int)
    requires
        crate::vec3::dot3(r.b, r.b) > 0,
    ensures
        (spec_list_hit_t(s, r, a, b) is Some) <==> some_hit(s, r, a, b),
        spec_list_hit_t(s, r, a, b) matches Some(t) ==> is_closest(s, r, a, b, t),
    decreases s.len(),
{
    if s.len() == 0 {
        assert(!some_hit(s, r, a, b));
    } else {
        let h0 = s[0];
        let rest = s.drop_first();
        match spec_hit_t(h0, r, a, b) {
            None => {
                lemma_fold_closest(rest, r, a, b);
                if some_hit(s, r, a, b) {
                    let i = choose|i: int|
                        0 <= i < s.len() && (#[trigger] spec_hit_t(s[i], r, a, b)) is Some;
                    assert(i >= 1 && rest[i - 1] == s[i]);
                    assert(some_hit(rest, r, a, b));
                }
                if some_hit(rest, r, a, b) {
                    let i = choose|i: int|
                        0 <= i < rest.len() && (#[trigger] spec_hit_t(rest[i], r, a, b)) is Some;
                    assert(s[i + 1] == rest[i]);
                    assert(some_hit(s, r, a, b));
                }
                if spec_list_hit_t(s, r, a, b) is Some {
                    let t = spec_list_hit_t(s, r, a, b)->0;
                    let i = choose|i: int|
                        0 <= i < rest.len() && (#[trigger] spec_hit_t(rest[i], r, a, b)) == Some(t);
                    assert(s[i + 1] == rest[i]);
                    assert forall|i2: int|
                        0 <= i2 < s.len() && (#[trigger] spec_hit_t(s[i2], r, a, b)) is Some
                        implies t <= spec_hit_t(s[i2], r, a, b)->0 by {
                        if i2 >= 1 {
                            assert(rest[i2 - 1] == s[i2]);
                        }
                    }
                }
            },
            Some(t0) => {
                crate::hitable::lemma_hit_in_window(h0, r, a, b);
                lemma_fold_closest(rest, r, a, t0);
                match spec_list_hit_t(rest, r, a, t0) {
                    Some(t2) => {
                        // The rest found something even closer; widen its
                        // witness back to the full window.
                        let j = choose|j: int|
                            0 <= j < rest.len() && (#[trigger] spec_hit_t(rest[j], r, a, t0))
                                == Some(t2);
                        crate::hitable::lemma_hit_in_window(rest[j], r, a, t0);
                        crate::hitable::lemma_hit_window(rest[j], r, a, b, t0);
                        assert(spec_hit_t(rest[j], r, a, b) == Some(t2));
                        assert(s[j + 1] == rest[j]);
                        assert(some_hit(s, r, a, b));
                        assert forall|i2: int|
                            0 <= i2 < s.len() && (#[trigger] spec_hit_t(s[i2], r, a, b)) is Some
                            implies t2 <= spec_hit_t(s[i2], r, a, b)->0 by {
                            if i2 == 0 {
                                assert(t2 < t0);
                            } else {
                                assert(rest[i2 - 1] == s[i2]);
                                let ti = spec_hit_t(s[i2], r, a, b)->0;
                                if ti < t0 {
                                    crate::hitable::lemma_hit_window(rest[i2 - 1], r, a, b, t0);
                                    assert(spec_hit_t(rest[i2 - 1], r, a, t0) == Some(ti));
                                }
                            }
                        }
                    },
                    None => {
                        assert(spec_list_hit_t(s, r, a, b) == Some(t0));
                        assert(spec_hit_t(s[0], r, a, b) == Some(t0));
                        assert(some_hit(s, r, a, b));
                        assert forall|i2: int|
                            0 <= i2 < s.len() && (#[trigger] spec_hit_t(s[i2], r, a, b)) is Some
                            implies t0 <= spec_hit_t(s[i2], r, a, b)->0 by {
                            if i2 >= 1 {
                                assert(rest[i2 - 1] == s[i2]);
                                let ti = spec_hit_t(s[i2], r, a, b)->0;
                                if ti < t0 {
                                    crate::hitable::lemma_hit_window(rest[i2 - 1], r, a, b, t0);
                                    assert(spec_hit_t(rest[i2 - 1], r, a, t0) == Some(ti));
                                    assert(some_hit(rest, r, a, t0));
                                }
                            }
                        }
                    },
                }
            },
        }
    }
}

/// The closest hit depends only on which surfaces are in the scene, not
/// on the order they are listed in.
pub proof fn lemma_scan_order_free(s1: Seq<Hitable>, s2: Seq<Hitable>, r: Ray, a: int, b: int)
    requires
        crate::vec3::dot3(r.b, r.b) > 0,
        s1.to_multiset() == s2.to_multiset(),
    ensures
        (spec_list_hit_t(s1, r, a, b) is Some) <==> (spec_list_hit_t(s2, r, a, b) is Some),
        spec_list_hit_t(s1, r, a, b) matches Some(t) ==> spec_list_hit_t(s2, r, a, b) == Some(t),
{
    broadcast use vstd::seq_lib::group_to_multiset_ensures;

    lemma_fold_closest(s1, r, a, b);
    lemma_fold_closest(s2, r, a, b);
    if some_hit(s1, r, a, b) {
        lemma_some_hit_transfer(s1, s2, r, a, b);
    }
    if some_hit(s2, r, a, b) {
        lemma_some_hit_transfer(s2, s1, r, a, b);
    }
    if spec_list_hit_t(s1, r, a, b) is Some {
        let t1 = spec_list_hit_t(s1, r, a, b)->0;
        let t2 = spec_list_hit_t(s2, r, a, b)->0;
        lemma_closest_le_transfer(s1, s2, r, a, b, t1, t2);
        lemma_closest_le_transfer(s2, s1, r, a, b, t2, t1);
    }
}

/// A hit witness survives reordering: the same surface sits somewhere in
/// the other sequence.
proof fn lemma_some_hit_transfer(s1: Seq<Hitable>, s2: Seq<Hitable>, r: Ray, a: int, b: int)
    requires
        s1.to_multiset() == s2.to_multiset(),
        some_hit(s1, r, a, b),
    ensures
        some_hit(s2, r, a, b),
{
    broadcast use vstd::seq_lib::group_to_multiset_ensures;

    let i = choose|i: int| 0 <= i < s1.len() && (#[trigger] spec_hit_t(s1[i], r, a, b)) is Some;
    let h = s1[i];
    assert(s1.contains(h));
    assert(s1.to_multiset().count(h) > 0);
    assert(s2.to_multiset().count(h) > 0);
    assert(s2.contains(h));
    let j = choose|j: int| 0 <= j < s2.len() && s2[j] == h;
    assert(spec_hit_t(s2[j], r, a, b) is Some);
}

/// A closest value never exceeds the other order's closest value.
proof fn lemma_closest_le_transfer(
    s1: Seq<Hitable>,
    s2: Seq<Hitable>,
    r: Ray,
    a: int,
    b: int,
    t1: int,
    t2: int,
)
    requires
        s1.to_multiset() == s2.to_multiset(),
        is_closest(s1, r, a, b, t1),
        is_closest(s2, r, a, b, t2),
    ensures
        t2 <= t1,
{
    broadcast use vstd::seq_lib::group_to_multiset_ensures;

    let i = choose|i: int| 0 <= i < s1.len() && (#[trigger] spec_hit_t(s1[i], r, a, b)) == Some(t1);
    let h = s1[i];
    assert(s1.contains(h));
    assert(s1.to_multiset().count(h) > 0);
    assert(s2.to_multiset().count(h) > 0);
    assert(s2.contains(h));
    let j = choose|j: int| 0 <= j < s2.len() && s2[j] == h;
    assert(spec_hit_t(s2[j], r, a, b) == Some(t1));
}

} // verus!
