use vstd::prelude::*;
use crate::fixed::{Vec3, dot, dot_of, neg_of};
use crate::interval::Interval;
use crate::material::MaterialKind;
use crate::ray::Ray;

verus! {

/// The result of one successful intersection.
#[derive(Clone, Copy, Debug, PartialEq, Eq)]
pub struct HitRecord {
    pub p: Vec3,
    pub normal: Vec3,
    pub t: i64,
    pub front_face: bool,
    pub material: MaterialKind,
}

/// The record at parameter `t`, its normal turned against the incoming direction.
pub open spec fn record_of(
    t: int,
    p: Vec3,
    dir: Vec3,
    outward_normal: Vec3,
    material: MaterialKind,
) -> HitRecord {
    let front = dot_of(dir, outward_normal) < 0;
    HitRecord {
        p,
        normal: if front { outward_normal } else { neg_of(outward_normal) },
        t: t as i64,
        front_face: front,
        material,
    }
}

/// The recorded normal never points along the incoming direction, and the front-face flag
/// says whether it is the outward normal.
pub proof fn lemma_normal_against_ray(
    t: int,
    p: Vec3,
    dir: Vec3,
    outward_normal: Vec3,
    material: MaterialKind,
)
    requires
        outward_normal.is_unit_bounded(),
    ensures
        dot_of(dir, record_of(t, p, dir, outward_normal, material).normal) <= 0,
        record_of(t, p, dir, outward_normal, material).front_face <==> dot_of(dir, outward_normal)
            < 0,
{
    let o = outward_normal;
    let n = neg_of(o);
    assert(n.x == -o.x && n.y == -o.y && n.z == -o.z);
    assert(dot_of(dir, n) == -dot_of(dir, o)) by (nonlinear_arith)
        requires
            n.x == -o.x,
            n.y == -o.y,
            n.z == -o.z,
            dot_of(dir, n) == dir.x * n.x + dir.y * n.y + dir.z * n.z,
            dot_of(dir, o) == dir.x * o.x + dir.y * o.y + dir.z * o.z,
    ;
}

impl HitRecord {
    /// A point in the world, a normal within unit bounds, and a usable material.
    pub open spec fn wf(&self) -> bool {
        self.p.wf() && self.normal.is_unit_bounded() && self.material.wf()
    }

    fn set_face_normal(&mut self, dir: &Vec3, outward_normal: &Vec3)
        requires
            dir.wide(),
            outward_normal.is_unit_bounded(),
        ensures
            final(self).front_face == (dot_of(*dir, *outward_normal) < 0),
            final(self).normal == (if final(self).front_face {
                *outward_normal
            } else {
                neg_of(*outward_normal)
            }),
            final(self).p == old(self).p,
            final(self).t == old(self).t,
            final(self).material == old(self).material,
    {
        self.front_face = dot(dir, outward_normal) < 0;
        self.normal = if self.front_face {
            *outward_normal
        } else {
            outward_normal.negated()
        };
    }

    pub fn new(
        t: i64,
        p: &Vec3,
        dir: &Vec3,
        outward_normal: &Vec3,
        material: &MaterialKind,
    ) -> (r: HitRecord)
        requires
            dir.wide(),
            outward_normal.is_unit_bounded(),
        ensures
            r == record_of(t as int, *p, *dir, *outward_normal, *material),
    {
        let mut rec = HitRecord {
            p: *p,
            t,
            normal: *outward_normal,
            front_face: true,
            material: *material,
        };
        rec.set_face_normal(dir, outward_normal);
        rec
    }
}

/// A hit kept only if its parameter lies below `m`.
pub open spec fn below(found: Option<HitRecord>, m: i64) -> Option<HitRecord> {
    match found {
        Some(rec) => if rec.t < m {
            Some(rec)
        } else {
            None
        },
        None => None,
    }
}

/// Ray intersection: the nearest hit with a parameter strictly inside the interval.
pub trait Hittable {
    spec fn hittable_wf(&self) -> bool;

    spec fn hit_spec(&self, ray: Ray, interval: Interval) -> Option<HitRecord>;

    /// Every hit of the spec lies strictly inside the interval and is well formed.
    proof fn lemma_hit_wf(&self, ray: Ray, interval: Interval)
        requires
            self.hittable_wf(),
            ray.wf(),
        ensures
            self.hit_spec(ray, interval) matches Some(rec) ==> rec.wf() && interval.surrounds_spec(
                rec.t as int,
            ),
    ;

    /// Cutting the interval's upper end to `m` keeps the answer if it lies below `m`, and
    /// otherwise leaves no hit: the answer is the nearest hit.
    proof fn lemma_hit_narrower(&self, ray: Ray, interval: Interval, m: i64)
        requires
            self.hittable_wf(),
            ray.wf(),
            m <= interval.max,
        ensures
            self.hit_spec(ray, Interval { min: interval.min, max: m }) == below(
                self.hit_spec(ray, interval),
                m,
            ),
    ;

    fn hit(&self, ray: &Ray, interval: Interval) -> (r: Option<HitRecord>)
        requires
            self.hittable_wf(),
            ray.wf(),
        ensures
            r == self.hit_spec(*ray, interval),
    ;
}

} // verus!
