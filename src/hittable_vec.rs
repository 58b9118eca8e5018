use vstd::prelude::*;
use crate::hittable::{HitRecord, Hittable, below};
use crate::interval::Interval;
use crate::ray::Ray;

verus! {

/// An ordered collection of primitives; a ray sees the nearest of their hits.
pub struct HittableVec<T: Hittable> {
    pub objects: Vec<T>,
}

/// The upper bound left for later primitives: the nearest hit so far, or the interval's end.
pub open spec fn bound_after(found: Option<HitRecord>, max: i64) -> i64 {
    match found {
        Some(rec) => rec.t,
        None => max,
    }
}

/// The linear sweep over `objs`: each primitive is asked over the interval cut at the nearest
/// hit found before it, and a hit it reports replaces the earlier one.
pub open spec fn scan_hit<T: Hittable>(objs: Seq<T>, ray: Ray, iv: Interval) -> Option<
    HitRecord,
>
    decreases objs.len(),
{
    if objs.len() == 0 {
        None
    } else {
        let prev = scan_hit(objs.drop_last(), ray, iv);
        let cut = Interval { min: iv.min, max: bound_after(prev, iv.max) };
        match objs.last().hit_spec(ray, cut) {
            Some(rec) => Some(rec),
            None => prev,
        }
    }
}

/// A hit of the sweep is well formed and lies strictly inside the interval.
pub proof fn lemma_scan_wf<T: Hittable>(objs: Seq<T>, ray: Ray, iv: Interval)
    requires
        forall|i: int| 0 <= i < objs.len() ==> (#[trigger] objs[i]).hittable_wf(),
        ray.wf(),
    ensures
        scan_hit(objs, ray, iv) matches Some(rec) ==> rec.wf() && iv.surrounds_spec(rec.t as int),
    decreases objs.len(),
{
    if objs.len() > 0 {
        let prev = scan_hit(objs.drop_last(), ray, iv);
        assert forall|i: int| 0 <= i < objs.drop_last().len() implies (
        #[trigger] objs.drop_last()[i]).hittable_wf() by {
            assert(objs.drop_last()[i] == objs[i]);
        }
        lemma_scan_wf(objs.drop_last(), ray, iv);
        let cut = Interval { min: iv.min, max: bound_after(prev, iv.max) };
        assert(objs[objs.len() - 1].hittable_wf());
        objs.last().lemma_hit_wf(ray, cut);
    }
}

/// Appending a primitive whose own hit over the interval (if any) is not nearer than the
/// scene's current nearest hit leaves the scene's answer unchanged.
pub proof fn lemma_append_farther<T: Hittable>(objs: Seq<T>, o: T, ray: Ray, iv: Interval)
    requires
        forall|i: int| 0 <= i < objs.len() ==> (#[trigger] objs[i]).hittable_wf(),
        o.hittable_wf(),
        ray.wf(),
        o.hit_spec(ray, iv) matches Some(r) ==> r.t >= bound_after(scan_hit(objs, ray, iv), iv.max),
    ensures
        scan_hit(objs.push(o), ray, iv) == scan_hit(objs, ray, iv),
{
    assert(objs.push(o).drop_last() =~= objs);
    let prev = scan_hit(objs, ray, iv);
    lemma_scan_wf(objs, ray, iv);
    o.lemma_hit_narrower(ray, iv, bound_after(prev, iv.max));
}

/// Appending a primitive whose own hit over the interval is strictly nearer than the
/// scene's current nearest hit (or, with none, any hit) makes that hit the scene's answer,
/// which therefore changes.
pub proof fn lemma_append_nearer<T: Hittable>(objs: Seq<T>, o: T, ray: Ray, iv: Interval)
    requires
        forall|i: int| 0 <= i < objs.len() ==> (#[trigger] objs[i]).hittable_wf(),
        o.hittable_wf(),
        ray.wf(),
        o.hit_spec(ray, iv) matches Some(r) && r.t < bound_after(scan_hit(objs, ray, iv), iv.max),
    ensures
        scan_hit(objs.push(o), ray, iv) == o.hit_spec(ray, iv),
        scan_hit(objs.push(o), ray, iv) != scan_hit(objs, ray, iv),
{
    assert(objs.push(o).drop_last() =~= objs);
    let prev = scan_hit(objs, ray, iv);
    lemma_scan_wf(objs, ray, iv);
    o.lemma_hit_narrower(ray, iv, bound_after(prev, iv.max));
}

/// Cutting the interval's upper end to `m` filters the sweep's answer by `m`.
pub proof fn lemma_scan_narrower<T: Hittable>(objs: Seq<T>, ray: Ray, iv: Interval, m: i64)
    requires
        forall|i: int| 0 <= i < objs.len() ==> (#[trigger] objs[i]).hittable_wf(),
        ray.wf(),
        m <= iv.max,
    ensures
        scan_hit(objs, ray, Interval { min: iv.min, max: m }) == below(scan_hit(objs, ray, iv), m),
    decreases objs.len(),
{
    if objs.len() > 0 {
        let rest = objs.drop_last();
        assert forall|i: int| 0 <= i < rest.len() implies (#[trigger] rest[i]).hittable_wf() by {
            assert(rest[i] == objs[i]);
        }
        lemma_scan_narrower(rest, ray, iv, m);
        lemma_scan_wf(rest, ray, iv);
        let prev = scan_hit(rest, ray, iv);
        let cut = Interval { min: iv.min, max: bound_after(prev, iv.max) };
        assert(objs[objs.len() - 1].hittable_wf());
        let last = objs.last();
        match prev {
            Some(p) => {
                if p.t < m {
                } else {
                    last.lemma_hit_narrower(ray, cut, m);
                }
            },
            None => {
                last.lemma_hit_narrower(ray, cut, m);
            },
        }
        last.lemma_hit_wf(ray, cut);
    }
}

impl<T: Hittable> HittableVec<T> {
    pub fn new() -> (r: HittableVec<T>)
        ensures
            r.objects@ == Seq::<T>::empty(),
    {
        HittableVec { objects: Vec::new() }
    }

    pub fn with_one(object: T) -> (r: HittableVec<T>)
        ensures
            r.objects@ == seq![object],
    {
        let mut objects = Vec::new();
        objects.push(object);
        HittableVec { objects }
    }

    pub fn add(&mut self, object: T)
        ensures
            final(self).objects@ == old(self).objects@.push(object),
    {
        self.objects.push(object);
    }

    pub fn clear(&mut self)
        ensures
            final(self).objects@ == Seq::<T>::empty(),
    {
        self.objects.clear();
    }
}

impl<T: Hittable> Hittable for HittableVec<T> {
    open spec fn hittable_wf(&self) -> bool {
        forall|i: int| 0 <= i < self.objects@.len() ==> (#[trigger] self.objects@[i]).hittable_wf()
    }

    open spec fn hit_spec(&self, ray: Ray, interval: Interval) -> Option<HitRecord> {
        scan_hit(self.objects@, ray, interval)
    }

    proof fn lemma_hit_wf(&self, ray: Ray, interval: Interval) {
        lemma_scan_wf(self.objects@, ray, interval);
    }

    proof fn lemma_hit_narrower(&self, ray: Ray, interval: Interval, m: i64) {
        lemma_scan_narrower(self.objects@, ray, interval, m);
    }

    fn hit(&self, ray: &Ray, interval: Interval) -> (r: Option<HitRecord>) {
        let tmin = interval.min;
        let mut hit_rec: Option<HitRecord> = None;
        let mut closest_so_far = interval.max;
        let mut i: usize = 0;
        while i < self.objects.len()
            invariant
                i <= self.objects@.len(),
                self.hittable_wf(),
                ray.wf(),
                tmin == interval.min,
                hit_rec == scan_hit(self.objects@.subrange(0, i as int), *ray, interval),
                closest_so_far == bound_after(hit_rec, interval.max),
            decreases self.objects@.len() - i,
        {
            let ghost prefix = self.objects@.subrange(0, i as int);
            let ghost next = self.objects@.subrange(0, i + 1);
            assert(next.drop_last() == prefix);
            assert(next.last() == self.objects@[i as int]);
            if let Some(elem_hit) = self.objects[i].hit(ray, Interval::new(tmin, closest_so_far)) {
                closest_so_far = elem_hit.t;
                hit_rec = Some(elem_hit);
            }
            i = i + 1;
        }
        assert(self.objects@.subrange(0, self.objects@.len() as int) == self.objects@);
        hit_rec
    }
}

} // verus!
