use vstd::prelude::*;
use crate::fixed::{
    Vec3, ONE, LIMIT, dot, dot_of, diff_of, unit_of, sqrt_floor, isqrt, div_floor, lemma_dot_bound,
    lemma_unit_bounded,
};
use crate::hittable::{HitRecord, Hittable, record_of};
use crate::interval::Interval;
use crate::material::MaterialKind;
use crate::ray::{Ray, point_at, coord_at};

verus! {

/// A sphere with its own material. The radius is never negative.
#[derive(Clone, Copy, Debug, PartialEq, Eq)]
pub struct Sphere {
    pub center: Vec3,
    pub radius: i64,
    pub material: MaterialKind,
}

/// The smaller and the larger root parameter (fixed point) of the ray's quadratic, if the
/// discriminant is not negative and the direction is not zero.
pub open spec fn roots_of(s: Sphere, ray: Ray) -> Option<(int, int)> {
    let oc = diff_of(s.center, ray.orig);
    let a = dot_of(ray.dir, ray.dir);
    let h = dot_of(ray.dir, oc);
    let c = dot_of(oc, oc) - s.radius * s.radius;
    let disc = h * h - a * c;
    if a == 0 || disc < 0 {
        None
    } else {
        let sq = sqrt_floor(disc);
        Some(((h - sq) * ONE / a, (h + sq) * ONE / a))
    }
}

/// The root the sphere reports: the nearer one if strictly inside the interval, else the
/// farther one if strictly inside.
pub open spec fn root_in(s: Sphere, ray: Ray, iv: Interval) -> Option<int> {
    match roots_of(s, ray) {
        None => None,
        Some((near, far)) => if iv.surrounds_spec(near) {
            Some(near)
        } else if iv.surrounds_spec(far) {
            Some(far)
        } else {
            None
        },
    }
}

/// The sphere's answer to a ray over an interval. A hit point that leaves the representable
/// world, or that coincides with the centre, is no hit.
pub open spec fn sphere_hit_of(s: Sphere, ray: Ray, iv: Interval) -> Option<HitRecord> {
    match root_in(s, ray, iv) {
        None => None,
        Some(t) => match point_at(ray, t) {
            None => None,
            Some(p) => {
                let out = diff_of(p, s.center);
                if out.is_zero() {
                    None
                } else {
                    Some(record_of(t, p, ray.dir, unit_of(out), s.material))
                }
            },
        },
    }
}

/// The sphere `Sphere::new` builds: a negative radius becomes zero.
pub open spec fn sphere_of(center: Vec3, radius: i64, material: MaterialKind) -> Sphere {
    Sphere { center, radius: if radius < 0 { 0 } else { radius }, material }
}

/// A sphere built with a negative radius answers every ray exactly as one built with radius
/// zero.
pub proof fn lemma_negative_radius_is_zero(
    center: Vec3,
    radius: i64,
    material: MaterialKind,
    ray: Ray,
    iv: Interval,
)
    requires
        radius < 0,
    ensures
        sphere_hit_of(sphere_of(center, radius, material), ray, iv) == sphere_hit_of(
            sphere_of(center, 0, material),
            ray,
            iv,
        ),
{
}

/// A hit of a sphere lies strictly inside the interval, at one of the two roots of the ray's
/// quadratic, and its point is the ray's point at that parameter.
pub proof fn lemma_hit_on_root(s: Sphere, ray: Ray, iv: Interval)
    requires
        s.wf(),
        ray.wf(),
    ensures
        sphere_hit_of(s, ray, iv) matches Some(rec) ==> {
            &&& iv.surrounds_spec(rec.t as int)
            &&& root_in(s, ray, iv) == Some(rec.t as int)
            &&& roots_of(s, ray) matches Some((near, far)) && (rec.t == near || rec.t == far)
            &&& point_at(ray, rec.t as int) == Some(rec.p)
        },
{
}

/// One coordinate of a hit point against the exact point at the unrounded root `n / a`:
/// with `e = n d - a (c - o)` (`a` times the exact point minus the centre), the rounded point
/// satisfies `|a ONE (p - c) - ONE e| < a (|d| + ONE)`, that is, it lies within `1 + |d| / ONE`
/// units of the exact point.
pub proof fn lemma_point_close(o: int, d: int, c: int, n: int, a: int)
    requires
        a > 0,
    ensures
        ({
            let t = n * ONE / a;
            let p = coord_at(o, d, t);
            let q = a * ONE * (p - c) - ONE * (n * d - a * (c - o));
            &&& -a * (abs_of(d) + ONE) < q < a * (abs_of(d) + ONE)
        }),
{
    let one = ONE as int;
    let t = n * one / a;
    let rho = n * one % a;
    vstd::arithmetic::div_mod::lemma_fundamental_div_mod(n * one, a);
    let f = d * t / one;
    let sigma = d * t % one;
    vstd::arithmetic::div_mod::lemma_fundamental_div_mod(d * t, one);
    let p = o + f;
    let q = a * one * (p - c) - one * (n * d - a * (c - o));
    assert(a * one * (p - c) == a * one * f + a * one * (o - c)) by (nonlinear_arith)
        requires
            p == o + f,
    ;
    assert(one * (n * d - a * (c - o)) == one * n * d + a * one * (o - c)) by (nonlinear_arith);
    assert(one * n * d == d * (n * one)) by (nonlinear_arith);
    assert(d * (n * one) == a * (d * t) + d * rho) by (nonlinear_arith)
        requires
            n * one == a * t + rho,
    ;
    assert(a * one * f == a * (one * f)) by (nonlinear_arith);
    assert(a * (one * f) == a * (d * t) - a * sigma) by (nonlinear_arith)
        requires
            d * t == one * f + sigma,
    ;
    assert(q == -(d * rho) - a * sigma);
    assert(-(d * rho) == -d * rho) by (nonlinear_arith);
    let ad = abs_of(d);
    assert(-a * (ad + one) < -d * rho - a * sigma < a * (ad + one)) by (nonlinear_arith)
        requires
            0 <= rho < a,
            0 <= sigma < one,
            ad == (if d >= 0 { d } else { -d }),
            a > 0,
            one > 0,
    {
        assert(-ad * a <= -d * rho <= ad * a) by {
            if d >= 0 {
                assert(0 <= d * rho <= d * a);
            } else {
                assert(0 <= -d * rho <= -d * a);
            }
        }
        assert(0 <= a * sigma < a * one);
    }
}

pub open spec fn abs_of(x: int) -> int {
    if x >= 0 {
        x
    } else {
        -x
    }
}

/// `rec` comes from the root `n / a` of the ray's quadratic: its parameter is that root
/// rounded down; each coordinate of its point lies within `1 + |d| / ONE` units of the exact
/// point (scaled: `|a ONE (p - c) - ONE e| < a (|d| + ONE)` with `e = n d - a (c - o)`); and
/// the exact point lies on the sphere up to the square root's rounding,
/// `|e|^2 - a^2 r^2 == a (sq^2 - disc)` with `-(2 sq + 1) < sq^2 - disc <= 0`.
pub open spec fn close_to_root(s: Sphere, ray: Ray, rec: HitRecord, n: int) -> bool {
    let oc = diff_of(s.center, ray.orig);
    let a = dot_of(ray.dir, ray.dir);
    let h = dot_of(ray.dir, oc);
    let disc = h * h - a * (dot_of(oc, oc) - s.radius * s.radius);
    let sq = sqrt_floor(disc);
    let (o, d, c) = (ray.orig, ray.dir, s.center);
    let ex = n * d.x - a * (c.x - o.x);
    let ey = n * d.y - a * (c.y - o.y);
    let ez = n * d.z - a * (c.z - o.z);
    &&& rec.t == n * ONE / a
    &&& -a * (abs_of(d.x as int) + ONE) < a * ONE * (rec.p.x - c.x) - ONE * ex < a * (abs_of(d.x as int) + ONE)
    &&& -a * (abs_of(d.y as int) + ONE) < a * ONE * (rec.p.y - c.y) - ONE * ey < a * (abs_of(d.y as int) + ONE)
    &&& -a * (abs_of(d.z as int) + ONE) < a * ONE * (rec.p.z - c.z) - ONE * ez < a * (abs_of(d.z as int) + ONE)
    &&& ex * ex + ey * ey + ez * ez - a * a * (s.radius * s.radius) == a * (sq * sq - disc)
    &&& -(2 * sq + 1) < sq * sq - disc <= 0
}

/// Every hit of a sphere is close to one of the two roots of the ray's quadratic: its point is
/// on the sphere up to the rounding of the square root, of the parameter and of the point.
pub proof fn lemma_hit_near_sphere(s: Sphere, ray: Ray, iv: Interval)
    requires
        s.wf(),
        ray.wf(),
    ensures
        sphere_hit_of(s, ray, iv) matches Some(rec) ==> {
            let oc = diff_of(s.center, ray.orig);
            let a = dot_of(ray.dir, ray.dir);
            let h = dot_of(ray.dir, oc);
            let disc = h * h - a * (dot_of(oc, oc) - s.radius * s.radius);
            close_to_root(s, ray, rec, h - sqrt_floor(disc)) || close_to_root(
                s,
                ray,
                rec,
                h + sqrt_floor(disc),
            )
        },
{
    if let Some(rec) = sphere_hit_of(s, ray, iv) {
        let oc = diff_of(s.center, ray.orig);
        let a = dot_of(ray.dir, ray.dir);
        let h = dot_of(ray.dir, oc);
        let disc = h * h - a * (dot_of(oc, oc) - s.radius * s.radius);
        let sq = sqrt_floor(disc);
        assert(a >= 0) by (nonlinear_arith)
            requires
                a == ray.dir.x * ray.dir.x + ray.dir.y * ray.dir.y + ray.dir.z * ray.dir.z,
        ;
        let n = if rec.t == (h - sq) * ONE / a { h - sq } else { h + sq };
        let (o, d, c) = (ray.orig, ray.dir, s.center);
        assert(oc.x == c.x - o.x && oc.y == c.y - o.y && oc.z == c.z - o.z);
        lemma_root_on_sphere(s, ray, n);
        lemma_point_close(o.x as int, d.x as int, c.x as int, n, a);
        lemma_point_close(o.y as int, d.y as int, c.y as int, n, a);
        lemma_point_close(o.z as int, d.z as int, c.z as int, n, a);
        assert(close_to_root(s, ray, rec, n));
    }
}

proof fn lemma_offset_square(n: int, a: int, d: int, o: int)
    ensures
        (n * d - a * o) * (n * d - a * o) == n * n * (d * d) - 2 * n * a * (d * o) + a * a * (o * o),
{
    let x = n * d;
    let y = a * o;
    assert((x - y) * (x - y) == x * x - 2 * (x * y) + y * y) by (nonlinear_arith);
    assert(x * x == n * n * (d * d)) by (nonlinear_arith)
        requires
            x == n * d,
    ;
    assert(x * y == n * a * (d * o)) by (nonlinear_arith)
        requires
            x == n * d,
            y == a * o,
    ;
    assert(y * y == a * a * (o * o)) by (nonlinear_arith)
        requires
            y == a * o,
    ;
    assert(2 * (x * y) == 2 * n * a * (d * o)) by (nonlinear_arith)
        requires
            x * y == n * a * (d * o),
    ;
}

proof fn lemma_factor_sum(k: int, x: int, y: int, z: int)
    ensures
        k * x + k * y + k * z == k * (x + y + z),
{
    vstd::arithmetic::mul::lemma_mul_is_distributive_add(k, x, y);
    vstd::arithmetic::mul::lemma_mul_is_distributive_add(k, x + y, z);
}

/// At either root parameter `t = n / a` of the ray's quadratic, before rounding to fixed point,
/// the distance from the ray's point to the centre equals the radius up to the integer square
/// root's rounding: with `e = n d - a oc` (that is, `a` times the point minus the centre),
/// `|e|^2 - a^2 r^2 == a (sq^2 - disc)`, where `-(2 sq + 1) < sq^2 - disc <= 0`.
pub proof fn lemma_root_on_sphere(s: Sphere, ray: Ray, n: int)
    requires
        s.wf(),
        ray.wf(),
        ({
            let oc = diff_of(s.center, ray.orig);
            let a = dot_of(ray.dir, ray.dir);
            let h = dot_of(ray.dir, oc);
            let disc = h * h - a * (dot_of(oc, oc) - s.radius * s.radius);
            a != 0 && disc >= 0 && (n == h - sqrt_floor(disc) || n == h + sqrt_floor(disc))
        }),
    ensures
        ({
            let oc = diff_of(s.center, ray.orig);
            let a = dot_of(ray.dir, ray.dir);
            let h = dot_of(ray.dir, oc);
            let disc = h * h - a * (dot_of(oc, oc) - s.radius * s.radius);
            let sq = sqrt_floor(disc);
            let ex = n * ray.dir.x - a * oc.x;
            let ey = n * ray.dir.y - a * oc.y;
            let ez = n * ray.dir.z - a * oc.z;
            &&& ex * ex + ey * ey + ez * ez - a * a * (s.radius * s.radius) == a * (sq * sq - disc)
            &&& -(2 * sq + 1) < sq * sq - disc <= 0
        }),
{
    let oc = diff_of(s.center, ray.orig);
    let d = ray.dir;
    let a = dot_of(d, d);
    let h = dot_of(d, oc);
    let c = dot_of(oc, oc) - s.radius * s.radius;
    let disc = h * h - a * c;
    let sq = sqrt_floor(disc);
    let rr = s.radius * s.radius;
    crate::fixed::lemma_dot_bound(d, oc);
    crate::fixed::lemma_dot_bound(d, d);
    crate::fixed::lemma_dot_bound(oc, oc);
    assert(0 <= rr <= 0x100_0000_0000_0000) by (nonlinear_arith)
        requires
            rr == s.radius * s.radius,
            0 <= s.radius <= 0x1000_0000,
    ;
    assert(dot_of(d, d) >= 0 && dot_of(oc, oc) >= 0) by (nonlinear_arith)
        requires
            dot_of(d, d) == d.x * d.x + d.y * d.y + d.z * d.z,
            dot_of(oc, oc) == oc.x * oc.x + oc.y * oc.y + oc.z * oc.z,
    ;
    assert(0 <= h * h <= 0x900_0000_0000_0000_0000_0000_0000_0000) by (nonlinear_arith)
        requires
            -0x3000_0000_0000_0000 <= h <= 0x3000_0000_0000_0000,
    ;
    assert(-0x30_0000_0000_0000_0000_0000_0000_0000 <= a * c <= 0x900_0000_0000_0000_0000_0000_0000_0000)
        by (nonlinear_arith)
        requires
            0 <= a <= 0x3000_0000_0000_0000,
            -0x100_0000_0000_0000 <= c <= 0x3000_0000_0000_0000,
    {
    }
    crate::fixed::lemma_isqrt_exists(disc);
    lemma_offset_square(n, a, d.x as int, oc.x as int);
    lemma_offset_square(n, a, d.y as int, oc.y as int);
    lemma_offset_square(n, a, d.z as int, oc.z as int);
    lemma_factor_sum(n * n, d.x * d.x, d.y * d.y, d.z * d.z);
    lemma_factor_sum(2 * n * a, d.x * oc.x, d.y * oc.y, d.z * oc.z);
    lemma_factor_sum(a * a, oc.x * oc.x, oc.y * oc.y, oc.z * oc.z);
    let e2 = n * n * a - 2 * n * a * h + a * a * (c + rr);
    assert(e2 - a * a * rr == a * (n * n - 2 * n * h + a * c)) by (nonlinear_arith)
        requires
            e2 == n * n * a - 2 * n * a * h + a * a * (c + rr),
    ;
    assert(n * n - 2 * n * h == sq * sq - h * h) by (nonlinear_arith)
        requires
            n == h - sq || n == h + sq,
    ;
    assert(-(2 * sq + 1) < sq * sq - disc <= 0) by (nonlinear_arith)
        requires
            sq * sq <= disc < (sq + 1) * (sq + 1),
    ;
}

/// The nearer root is never above the farther one.
pub proof fn lemma_roots_ordered(s: Sphere, ray: Ray)
    ensures
        roots_of(s, ray) matches Some((near, far)) ==> near <= far,
{
    if let Some((near, far)) = roots_of(s, ray) {
        let oc = diff_of(s.center, ray.orig);
        let a = dot_of(ray.dir, ray.dir);
        let h = dot_of(ray.dir, oc);
        let c = dot_of(oc, oc) - s.radius * s.radius;
        let disc = h * h - a * c;
        let sq = sqrt_floor(disc);
        assert(a >= 0) by (nonlinear_arith)
            requires
                a == ray.dir.x * ray.dir.x + ray.dir.y * ray.dir.y + ray.dir.z * ray.dir.z,
        ;
        crate::fixed::lemma_isqrt_exists_any(disc);
        assert((h - sq) * ONE <= (h + sq) * ONE) by (nonlinear_arith)
            requires
                sq >= 0,
        ;
        vstd::arithmetic::div_mod::lemma_div_is_ordered((h - sq) * ONE, (h + sq) * ONE, a);
    }
}

impl Sphere {
    /// The whole sphere lies within half the world's extent on every axis, which leaves room
    /// for the rounding of its hit points; the material is usable.
    pub open spec fn wf(&self) -> bool {
        self.center.wf() && 0 <= self.radius <= LIMIT && self.material.wf()
            && -LIMIT / 2 <= self.center.x - self.radius && self.center.x + self.radius <= LIMIT / 2
            && -LIMIT / 2 <= self.center.y - self.radius && self.center.y + self.radius <= LIMIT / 2
            && -LIMIT / 2 <= self.center.z - self.radius && self.center.z + self.radius <= LIMIT / 2
    }

    /// A negative radius is taken as zero.
    pub fn new(center: Vec3, radius: i64, material: MaterialKind) -> (r: Sphere)
        ensures
            r == sphere_of(center, radius, material),
    {
        Sphere { center, radius: if radius < 0 { 0 } else { radius }, material }
    }

    fn roots(&self, ray: &Ray) -> (r: Option<(i128, i128)>)
        requires
            self.wf(),
            ray.wf(),
        ensures
            r matches Some((a, b)) ==> roots_of(*self, *ray) == Some((a as int, b as int)),
            r is None ==> roots_of(*self, *ray) is None,
    {
        let oc = self.center.minus(&ray.orig);
        let a = ray.dir.norm();
        let h = dot(&ray.dir, &oc);
        let on = oc.norm();
        proof {
            lemma_dot_bound(ray.dir, oc);
            assert(0 <= self.radius * self.radius <= 0x100_0000_0000_0000) by (nonlinear_arith)
                requires
                    0 <= self.radius <= 0x1000_0000,
            ;
        }
        let rr: i128 = (self.radius as i128) * (self.radius as i128);
        let c = on - rr;
        proof {
            assert(0 <= h * h <= 0x900_0000_0000_0000_0000_0000_0000_0000) by (nonlinear_arith)
                requires
                    -0x3000_0000_0000_0000 <= h <= 0x3000_0000_0000_0000,
            ;
            assert(-0x30_0000_0000_0000_0000_0000_0000_0000 <= a * c
                <= 0x900_0000_0000_0000_0000_0000_0000_0000) by (nonlinear_arith)
                requires
                    0 <= a <= 0x3000_0000_0000_0000,
                    -0x100_0000_0000_0000 <= c <= 0x3000_0000_0000_0000,
            ;
        }
        let disc = h * h - a * c;
        if a == 0 || disc < 0 {
            return None;
        }
        let sq = isqrt(disc as u128);
        proof {
            assert(sq <= 0x4000_0000_0000_0000) by (nonlinear_arith)
                requires
                    sq * sq <= disc,
                    disc <= 0xA00_0000_0000_0000_0000_0000_0000_0000,
                    0 <= sq,
            {
                if sq > 0x4000_0000_0000_0000 {
                    assert(sq * sq > 0x4000_0000_0000_0000 * 0x4000_0000_0000_0000);
                }
            }
        }
        let s: i128 = sq as i128;
        assert(-0x8000_0000_0000_0000 * ONE <= (h - s) * ONE <= 0x8000_0000_0000_0000 * ONE
            && -0x8000_0000_0000_0000 * ONE <= (h + s) * ONE <= 0x8000_0000_0000_0000 * ONE)
            by (nonlinear_arith)
            requires
                -0x3000_0000_0000_0000 <= h <= 0x3000_0000_0000_0000,
                0 <= s <= 0x4000_0000_0000_0000,
        ;
        let near = div_floor((h - s) * (ONE as i128), a);
        let far = div_floor((h + s) * (ONE as i128), a);
        Some((near, far))
    }
}

impl Hittable for Sphere {
    open spec fn hittable_wf(&self) -> bool {
        self.wf()
    }

    open spec fn hit_spec(&self, ray: Ray, interval: Interval) -> Option<HitRecord> {
        sphere_hit_of(*self, ray, interval)
    }

    proof fn lemma_hit_wf(&self, ray: Ray, interval: Interval) {
        if let Some(t) = root_in(*self, ray, interval) {
            if let Some(p) = point_at(ray, t) {
                let out = diff_of(p, self.center);
                if !out.is_zero() {
                    lemma_unit_bounded(out);
                }
            }
        }
    }

    proof fn lemma_hit_narrower(&self, ray: Ray, interval: Interval, m: i64) {
        if let Some((near, far)) = roots_of(*self, ray) {
            lemma_roots_ordered(*self, ray);
            assert(near <= far);
        }
    }

    fn hit(&self, ray: &Ray, interval: Interval) -> (r: Option<HitRecord>) {
        let (near, far) = match self.roots(ray) {
            None => return None,
            Some(rs) => rs,
        };
        let root: i128 = if (interval.min as i128) < near && near < (interval.max as i128) {
            near
        } else if (interval.min as i128) < far && far < (interval.max as i128) {
            far
        } else {
            return None;
        };
        let p = match ray.at(root as i64) {
            None => return None,
            Some(p) => p,
        };
        let out = p.minus(&self.center);
        if out.near_zero() {
            return None;
        }
        let normal = out.unit();
        Some(HitRecord::new(root as i64, &p, &ray.dir, &normal, &self.material))
    }
}

} // verus!
