use vstd::prelude::*;
use crate::fixed::{Vec3, ONE, LIMIT, in_range, div_floor};

verus! {

/// A parametric line `orig + t * dir`; the direction keeps its length.
#[derive(Clone, Copy, Debug, PartialEq, Eq)]
pub struct Ray {
    pub orig: Vec3,
    pub dir: Vec3,
}

/// One coordinate of the point at parameter `t` (fixed point), rounded down.
pub open spec fn coord_at(o: int, d: int, t: int) -> int {
    o + (d * t) / (ONE as int)
}

/// The point at parameter `t`, if each of its coordinates is representable.
pub open spec fn point_at(r: Ray, t: int) -> Option<Vec3> {
    let x = coord_at(r.orig.x as int, r.dir.x as int, t);
    let y = coord_at(r.orig.y as int, r.dir.y as int, t);
    let z = coord_at(r.orig.z as int, r.dir.z as int, t);
    if in_range(x) && in_range(y) && in_range(z) {
        Some(Vec3 { x: x as i64, y: y as i64, z: z as i64 })
    } else {
        None
    }
}

fn coord(o: i64, d: i64, t: i64) -> (r: Option<i64>)
    requires
        in_range(o as int),
        in_range(d as int),
    ensures
        r matches Some(c) ==> c == coord_at(o as int, d as int, t as int),
        r is None <==> !in_range(coord_at(o as int, d as int, t as int)),
{
    proof {
        assert(-0x4000_0000_0000_0000_0000_0000 <= d * t <= 0x4000_0000_0000_0000_0000_0000)
            by (nonlinear_arith)
            requires
                -0x4000_0000 <= d <= 0x4000_0000,
                -0x8000_0000_0000_0000 <= t <= 0x8000_0000_0000_0000,
        ;
    }
    let p: i128 = (d as i128) * (t as i128);
    let q = div_floor(p, ONE as i128);
    let c: i128 = (o as i128) + q;
    if -(LIMIT as i128) <= c && c <= LIMIT as i128 {
        Some(c as i64)
    } else {
        None
    }
}

impl Ray {
    /// A representable origin and a direction within the direction range.
    pub open spec fn wf(&self) -> bool {
        self.orig.wf() && self.dir.is_direction()
    }

    /// A representable origin and direction, as a material hands a scattered ray out; the
    /// direction may be longer than a traced ray's.
    pub open spec fn is_outgoing(&self) -> bool {
        self.orig.wf() && self.dir.wf()
    }

    pub fn new(orig: Vec3, dir: Vec3) -> (r: Ray)
        ensures
            r.orig == orig,
            r.dir == dir,
    {
        Ray { orig, dir }
    }

    /// The point at parameter `t`, or `None` where it leaves the representable world.
    pub fn at(&self, t: i64) -> (r: Option<Vec3>)
        requires
            self.wf(),
        ensures
            r == point_at(*self, t as int),
            r matches Some(p) ==> p.wf(),
    {
        let x = coord(self.orig.x, self.dir.x, t);
        let y = coord(self.orig.y, self.dir.y, t);
        let z = coord(self.orig.z, self.dir.z, t);
        match (x, y, z) {
            (Some(x), Some(y), Some(z)) => Some(Vec3 { x, y, z }),
            _ => None,
        }
    }
}

} // verus!
