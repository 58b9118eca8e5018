use raytracer::fixed::{cross, deg_to_rad, div_floor, dot, isqrt, Vec3, ONE, PI};
use raytracer::hittable::{HitRecord, Hittable};
use raytracer::hittable_vec::HittableVec;
use raytracer::interval::{Interval, UNBOUNDED};
use raytracer::material::MaterialKind;
use raytracer::ray::Ray;
use raytracer::sphere::Sphere;

fn grey() -> MaterialKind {
    MaterialKind::lambertian(ONE / 2, ONE / 2, ONE / 2)
}

fn forward_ray() -> Ray {
    Ray::new(Vec3::new(0, 0, 0), Vec3::new(0, 0, -ONE))
}

#[test]
fn isqrt_is_floor_of_root() {
    assert_eq!(isqrt(0), 0);
    assert_eq!(isqrt(1), 1);
    assert_eq!(isqrt(15), 3);
    assert_eq!(isqrt(16), 4);
    assert_eq!(isqrt(1 << 64), 1 << 32);
}

#[test]
fn div_floor_rounds_down() {
    assert_eq!(div_floor(7, 2), 3);
    assert_eq!(div_floor(-7, 2), -4);
    assert_eq!(div_floor(-8, 2), -4);
    assert_eq!(div_floor(0, 5), 0);
}

#[test]
fn vector_arithmetic() {
    let a = Vec3::new(ONE, 2 * ONE, 3 * ONE);
    let b = Vec3::new(-ONE, ONE, 0);
    assert_eq!(a.plus(&b), Vec3::new(0, 3 * ONE, 3 * ONE));
    assert_eq!(a.minus(&b), Vec3::new(2 * ONE, ONE, 3 * ONE));
    assert_eq!(b.negated(), Vec3::new(ONE, -ONE, 0));
    assert_eq!(dot(&a, &b), (ONE as i128) * (ONE as i128));
    assert_eq!(Vec3::new(3 * ONE, 4 * ONE, 0).norm(), 25 * (ONE as i128) * (ONE as i128));
    assert_eq!(Vec3::new(3 * ONE, 4 * ONE, 0).length(), 5 * ONE);
}

#[test]
fn unit_scales_to_one() {
    assert_eq!(Vec3::new(0, 0, -5 * ONE).unit(), Vec3::new(0, 0, -ONE));
    assert_eq!(Vec3::new(3, 4, 0).unit(), Vec3::new(3 * ONE / 5, 4 * ONE / 5, 0));
}

#[test]
fn near_zero_only_for_zero_vector() {
    assert!(Vec3::new(0, 0, 0).near_zero());
    assert!(!Vec3::new(0, -1, 0).near_zero());
    assert!(!Vec3::new(1, 0, 0).near_zero());
}

#[test]
fn cross_of_axes() {
    let x = Vec3::new(ONE, 0, 0);
    let y = Vec3::new(0, ONE, 0);
    assert_eq!(cross(x, y), Vec3::new(0, 0, ONE));
    assert_eq!(cross(y, x), Vec3::new(0, 0, -ONE));
}

#[test]
fn degrees_to_radians() {
    assert_eq!(deg_to_rad(180), PI);
    assert_eq!(deg_to_rad(0), 0);
    assert_eq!(deg_to_rad(-180), -PI);
}

#[test]
fn interval_surrounds_is_strict() {
    let i = Interval::new(10, 20);
    assert!(!i.surrounds(10));
    assert!(i.surrounds(11));
    assert!(i.surrounds(19));
    assert!(!i.surrounds(20));
}

#[test]
fn interval_clamp_saturates() {
    let i = Interval::new(0, 100);
    assert_eq!(i.clamp(-5), 0);
    assert_eq!(i.clamp(50), 50);
    assert_eq!(i.clamp(101), 100);
}

#[test]
fn ray_at_keeps_direction_length() {
    let r = Ray::new(Vec3::new(ONE, 0, 0), Vec3::new(0, 2 * ONE, 0));
    assert_eq!(r.at(ONE / 2), Some(Vec3::new(ONE, ONE, 0)));
    assert_eq!(r.at(-ONE), Some(Vec3::new(ONE, -2 * ONE, 0)));
    assert_eq!(r.at(i64::MAX), None);
}

#[test]
fn sphere_hit_in_front() {
    let s = Sphere::new(Vec3::new(0, 0, -ONE), ONE / 2, grey());
    let rec = s.hit(&forward_ray(), Interval::new(0, UNBOUNDED)).unwrap();
    assert_eq!(rec.t, ONE / 2);
    assert_eq!(rec.p, Vec3::new(0, 0, -ONE / 2));
    assert_eq!(rec.normal, Vec3::new(0, 0, ONE));
    assert!(rec.front_face);
    assert_eq!(rec.material, grey());
}

#[test]
fn sphere_hit_takes_far_root_when_near_is_outside() {
    let s = Sphere::new(Vec3::new(0, 0, -ONE), ONE / 2, grey());
    let rec = s.hit(&forward_ray(), Interval::new(ONE, UNBOUNDED)).unwrap();
    assert_eq!(rec.t, 3 * ONE / 2);
    assert!(!rec.front_face);
    assert_eq!(rec.normal, Vec3::new(0, 0, ONE));
}

#[test]
fn sphere_miss_and_interval_miss() {
    let s = Sphere::new(Vec3::new(0, 0, -ONE), ONE / 2, grey());
    let aside = Ray::new(Vec3::new(ONE, 0, 0), Vec3::new(0, 0, -ONE));
    assert!(s.hit(&aside, Interval::new(0, UNBOUNDED)).is_none());
    assert!(s.hit(&forward_ray(), Interval::new(0, ONE / 2)).is_none());
    assert!(s.hit(&forward_ray(), Interval::new(2 * ONE, UNBOUNDED)).is_none());
}

#[test]
fn sphere_hit_point_on_surface() {
    let s = Sphere::new(Vec3::new(ONE, 2 * ONE, -3 * ONE), ONE, grey());
    let r = Ray::new(Vec3::new(0, 0, 0), Vec3::new(ONE, 2 * ONE, -3 * ONE));
    let rec = s.hit(&r, Interval::new(0, UNBOUNDED)).unwrap();
    let d = rec.p.minus(&s.center);
    let dist2 = d.norm();
    let r2 = (ONE as i128) * (ONE as i128);
    assert!((dist2 - r2).abs() < 64 * ONE as i128);
    assert!(rec.t > 0);
}

#[test]
fn negative_radius_is_zero_radius() {
    let neg = Sphere::new(Vec3::new(0, 0, -ONE), -ONE, grey());
    let zero = Sphere::new(Vec3::new(0, 0, -ONE), 0, grey());
    assert_eq!(neg.radius, 0);
    assert_eq!(neg, zero);
    let rays = [
        forward_ray(),
        Ray::new(Vec3::new(ONE, 0, 0), Vec3::new(-ONE, 0, -ONE)),
        Ray::new(Vec3::new(0, 0, 0), Vec3::new(0, ONE, 0)),
    ];
    for r in rays.iter() {
        assert_eq!(neg.hit(r, Interval::new(0, UNBOUNDED)), zero.hit(r, Interval::new(0, UNBOUNDED)));
    }
}

#[test]
fn hit_record_faces_against_ray() {
    let n = Vec3::new(0, 0, ONE);
    let toward = HitRecord::new(5, &Vec3::new(0, 0, 0), &Vec3::new(0, 0, -ONE), &n, &grey());
    assert!(toward.front_face);
    assert_eq!(toward.normal, n);
    let away = HitRecord::new(5, &Vec3::new(0, 0, 0), &Vec3::new(0, 0, ONE), &n, &grey());
    assert!(!away.front_face);
    assert_eq!(away.normal, Vec3::new(0, 0, -ONE));
}

#[test]
fn scene_keeps_nearest_hit() {
    let near = Sphere::new(Vec3::new(0, 0, -ONE), ONE / 2, grey());
    let far = Sphere::new(Vec3::new(0, 0, -4 * ONE), ONE / 2, MaterialKind::metal(ONE, ONE, ONE, 0));
    let iv = Interval::new(0, UNBOUNDED);
    let mut a = HittableVec::new();
    a.add(near);
    a.add(far);
    let mut b = HittableVec::with_one(far);
    b.add(near);
    let ha = a.hit(&forward_ray(), iv).unwrap();
    let hb = b.hit(&forward_ray(), iv).unwrap();
    assert_eq!(ha, hb);
    assert_eq!(ha.t, ONE / 2);
}

#[test]
fn appending_farther_primitive_changes_nothing() {
    let iv = Interval::new(0, UNBOUNDED);
    let mut w = HittableVec::with_one(Sphere::new(Vec3::new(0, 0, -ONE), ONE / 2, grey()));
    let before = w.hit(&forward_ray(), iv);
    w.add(Sphere::new(Vec3::new(0, 0, -5 * ONE), ONE / 2, grey()));
    assert_eq!(w.hit(&forward_ray(), iv), before);
}

#[test]
fn appending_nearer_primitive_changes_hit() {
    let iv = Interval::new(0, UNBOUNDED);
    let mut w = HittableVec::with_one(Sphere::new(Vec3::new(0, 0, -5 * ONE), ONE / 2, grey()));
    let before = w.hit(&forward_ray(), iv);
    w.add(Sphere::new(Vec3::new(0, 0, -2 * ONE), ONE / 2, grey()));
    let after = w.hit(&forward_ray(), iv);
    assert_ne!(after, before);
    assert_eq!(after.unwrap().t, 3 * ONE / 2);
}

#[test]
fn empty_and_cleared_scene_misses() {
    let iv = Interval::new(0, UNBOUNDED);
    let w: HittableVec<Sphere> = HittableVec::new();
    assert!(w.hit(&forward_ray(), iv).is_none());
    let mut v = HittableVec::with_one(Sphere::new(Vec3::new(0, 0, -ONE), ONE / 2, grey()));
    assert!(v.hit(&forward_ray(), iv).is_some());
    v.clear();
    assert!(v.hit(&forward_ray(), iv).is_none());
}

#[test]
fn cross_is_anti_symmetric() {
    let a = Vec3::new(1, 0, 0);
    let b = Vec3::new(0, 1, 0);
    assert_eq!(cross(a, b), Vec3::new(0, 0, 0));
    assert_eq!(cross(b, a), Vec3::new(0, 0, 0));
    let p = Vec3::new(3 * ONE + 7, -ONE / 3, 5);
    let q = Vec3::new(-ONE / 7, 2 * ONE + 1, ONE / 5);
    assert_eq!(cross(q, p), cross(p, q).negated());
}

#[test]
fn scaled_and_divided() {
    let v = Vec3::new(ONE, -2 * ONE, 3);
    assert_eq!(v.scaled(ONE / 2), Vec3::new(ONE / 2, -ONE, 1));
    assert_eq!(v.scaled(-2 * ONE), Vec3::new(-2 * ONE, 4 * ONE, -6));
    assert_eq!(v.divided(2), Vec3::new(ONE / 2, -ONE, 1));
    assert_eq!(Vec3::new(-3, 3, 0).divided(2), Vec3::new(-2, 1, 0));
}
