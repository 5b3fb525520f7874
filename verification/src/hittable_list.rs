//! The scene aggregator: an ordered collection of spheres queried as one
//! composite, reporting the globally closest intersection by narrowing the
//! acceptable parameter range as it walks its members.

use vstd::prelude::*;
use crate::fixed::T_MAX;
use crate::ray::{Ray, ray_wf};
use crate::interval::Interval;
use crate::hittable::HitRecord;
use crate::sphere::{Sphere, sphere_hit_t, is_record_for};

verus! {

/// An ordered scene of spheres.
pub struct HittableList {
    pub objects: Vec<Sphere>,
}

/// Every member fits the intersection solver's coordinate range.
pub open spec fn all_wf(objs: Seq<Sphere>) -> bool {
    forall|k: int| 0 <= k < objs.len() ==> (#[trigger] objs[k]).wf()
}

/// The member index and parameter of the hit the list reports within
/// `[lo, hi]`: members are tried in order, each against the range narrowed
/// to the closest parameter found so far, so the survivor is the nearest
/// hit (the last member attaining it, on an exact tie).
pub open spec fn list_hit(objs: Seq<Sphere>, r: Ray, lo: int, hi: int) -> Option<(int, int)>
    decreases objs.len(),
{
    if objs.len() == 0 {
        None
    } else {
        let prev = list_hit(objs.drop_last(), r, lo, hi);
        let cur_hi = match prev {
            Some(ih) => ih.1,
            None => hi,
        };
        match sphere_hit_t(objs.last(), r, lo, cur_hi) {
            Some(t) => Some((objs.len() - 1, t)),
            None => prev,
        }
    }
}

/// The parameter of the list's hit, without the member index.
pub open spec fn list_hit_t(objs: Seq<Sphere>, r: Ray, lo: int, hi: int) -> Option<int> {
    match list_hit(objs, r, lo, hi) {
        Some(ih) => Some(ih.1),
        None => None,
    }
}

/// A reported list hit names a real member and a parameter within the
/// queried range.
pub proof fn lemma_list_hit_in_range(objs: Seq<Sphere>, r: Ray, lo: int, hi: int)
    ensures
        match list_hit(objs, r, lo, hi) {
            Some(ih) => 0 <= ih.0 < objs.len() && lo <= ih.1 <= hi,
            None => true,
        },
    decreases objs.len(),
{
    if objs.len() > 0 {
        lemma_list_hit_in_range(objs.drop_last(), r, lo, hi);
    }
}

/// The smaller of two optional parameters; a missing one loses to any
/// present one, and on a tie the second wins — matching the aggregator,
/// where a later member overwrites the record at an equal parameter.
pub open spec fn opt_min(x: Option<int>, y: Option<int>) -> Option<int> {
    match (x, y) {
        (Some(xv), Some(yv)) => if yv <= xv {
            Some(yv)
        } else {
            Some(xv)
        },
        (Some(xv), None) => Some(xv),
        (None, other) => other,
    }
}

/// The smallest parameter any single member reports when queried alone
/// over the full range `[lo, hi]`.
pub open spec fn min_member_hit_t(objs: Seq<Sphere>, r: Ray, lo: int, hi: int) -> Option<
    int,
>
    decreases objs.len(),
{
    if objs.len() == 0 {
        None
    } else {
        opt_min(
            min_member_hit_t(objs.drop_last(), r, lo, hi),
            sphere_hit_t(objs.last(), r, lo, hi),
        )
    }
}

/// The progressive narrowing of the closest-hit search returns exactly the
/// smallest parameter that any member would report on its own over the
/// full range: the nearest hit, independent of the order in which the
/// members were added.
pub proof fn lemma_list_hit_is_nearest(objs: Seq<Sphere>, r: Ray, lo: int, hi: int)
    requires
        ray_wf(r),
    ensures
        list_hit_t(objs, r, lo, hi) == min_member_hit_t(objs, r, lo, hi),
    decreases objs.len(),
{
    if objs.len() > 0 {
        let rest = objs.drop_last();
        lemma_list_hit_is_nearest(rest, r, lo, hi);
        lemma_list_hit_in_range(rest, r, lo, hi);
        let cur_hi = match list_hit(rest, r, lo, hi) {
            Some(ih) => ih.1,
            None => hi,
        };
        crate::sphere::lemma_sphere_hit_narrow(objs.last(), r, lo, hi, cur_hi);
    }
}

/// A scene of two spheres reports the same nearest parameter whichever
/// order the two were added in.
pub proof fn lemma_two_member_order_irrelevant(
    s0: Sphere,
    s1: Sphere,
    r: Ray,
    lo: int,
    hi: int,
)
    requires
        ray_wf(r),
    ensures
        list_hit_t(seq![s0, s1], r, lo, hi) == list_hit_t(seq![s1, s0], r, lo, hi),
{
    lemma_list_hit_is_nearest(seq![s0, s1], r, lo, hi);
    lemma_list_hit_is_nearest(seq![s1, s0], r, lo, hi);
    assert(seq![s0, s1].drop_last() =~= seq![s0]);
    assert(seq![s1, s0].drop_last() =~= seq![s1]);
    assert(seq![s0].drop_last() =~= Seq::<Sphere>::empty());
    assert(seq![s1].drop_last() =~= Seq::<Sphere>::empty());
    let h0 = sphere_hit_t(s0, r, lo, hi);
    let h1 = sphere_hit_t(s1, r, lo, hi);
    assert(seq![s0, s1].last() == s1);
    assert(seq![s1, s0].last() == s0);
    assert(seq![s0].last() == s0);
    assert(seq![s1].last() == s1);
    assert(min_member_hit_t(Seq::<Sphere>::empty(), r, lo, hi) is None);
    assert(min_member_hit_t(seq![s0], r, lo, hi) == opt_min(None, h0));
    assert(min_member_hit_t(seq![s1], r, lo, hi) == opt_min(None, h1));
    assert(min_member_hit_t(seq![s0, s1], r, lo, hi) == opt_min(opt_min(None, h0), h1));
    assert(min_member_hit_t(seq![s1, s0], r, lo, hi) == opt_min(opt_min(None, h1), h0));
    assert(opt_min(opt_min(None, h0), h1) == opt_min(opt_min(None, h1), h0));
}

impl HittableList {
    /// Every member fits the intersection solver's coordinate range.
    pub open spec fn wf(self) -> bool {
        all_wf(self.objects@)
    }

    /// An empty scene.
    pub fn new() -> (l: HittableList)
        ensures
            l.objects@.len() == 0,
    {
        HittableList { objects: Vec::new() }
    }

    /// Empties the scene.
    pub fn clear(&mut self)
        ensures
            final(self).objects@.len() == 0,
    {
        self.objects.clear();
    }

    /// Appends a sphere to the scene.
    pub fn add(&mut self, object: Sphere)
        ensures
            final(self).objects@ == old(self).objects@.push(object),
    {
        self.objects.push(object);
    }

    /// Reports the intersection nearest to `t_range.min` across all
    /// members: each member is queried with the upper bound narrowed to the
    /// closest parameter found so far, so the record left in `rec` is the
    /// globally nearest hit, and `rec` is untouched when nothing is hit.
    pub fn hit(&self, r: &Ray, t_range: Interval, rec: &mut HitRecord) -> (b: bool)
        requires
            self.wf(),
            ray_wf(*r),
            -T_MAX <= t_range.min <= T_MAX,
            -T_MAX <= t_range.max <= T_MAX,
        ensures
            b == (list_hit(self.objects@, *r, t_range.min as int, t_range.max as int)
                is Some),
            !b ==> *final(rec) == *old(rec),
            b ==> match list_hit(self.objects@, *r, t_range.min as int,
                t_range.max as int) {
                Some(ih) => {
                    &&& 0 <= ih.0 < self.objects@.len()
                    &&& final(rec).t == ih.1
                    &&& t_range.min <= ih.1 <= t_range.max
                    &&& is_record_for(*final(rec), self.objects@[ih.0], *r, ih.1)
                },
                None => false,
            },
    {
        let ghost rec0 = *rec;
        let ghost lo = t_range.min as int;
        let ghost hi = t_range.max as int;
        let mut hit_anything = false;
        let mut closest_so_far = t_range.max;
        let n = self.objects.len();
        let mut i: usize = 0;
        while i < n
            invariant
                0 <= i <= n,
                n == self.objects@.len(),
                all_wf(self.objects@),
                ray_wf(*r),
                lo == t_range.min as int,
                hi == t_range.max as int,
                -T_MAX <= t_range.min <= T_MAX,
                -T_MAX <= t_range.max <= T_MAX,
                -T_MAX <= closest_so_far <= T_MAX,
                hit_anything == (list_hit(self.objects@.take(i as int), *r, lo, hi)
                    is Some),
                !hit_anything ==> closest_so_far == t_range.max && *rec == rec0,
                hit_anything ==> match list_hit(self.objects@.take(i as int), *r, lo,
                    hi) {
                    Some(ih) => {
                        &&& 0 <= ih.0 < i
                        &&& closest_so_far == ih.1
                        &&& rec.t == ih.1
                        &&& lo <= ih.1 <= hi
                        &&& is_record_for(*rec, self.objects@[ih.0], *r, ih.1)
                    },
                    None => false,
                },
            decreases n - i,
        {
            let obj = self.objects[i];
            let ghost taken_next = self.objects@.take(i + 1 as int);
            proof {
                assert(taken_next.drop_last() =~= self.objects@.take(i as int));
                assert(taken_next.last() == self.objects@[i as int]);
            }
            if obj.hit(r, Interval::new(t_range.min, closest_so_far), rec) {
                hit_anything = true;
                closest_so_far = rec.t;
            }
            i = i + 1;
        }
        proof {
            assert(self.objects@.take(n as int) =~= self.objects@);
        }
        hit_anything
    }
}

} // verus!
