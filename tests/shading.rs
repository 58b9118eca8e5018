use raytracer::camera::{normal_color, ray_color, sample_square, sky, traced, Camera, T_MIN};
use raytracer::color::{encode_channel, lin_to_gamma, Color, INTENSITY_MAX};
use raytracer::fixed::{dot, isqrt, Vec3, DIR_LIMIT, ONE};
use raytracer::hittable::HitRecord;
use raytracer::hittable_vec::HittableVec;
use raytracer::material::{diffuse_dir, mirror_dir, reflect, Material, MaterialKind};
use raytracer::rng::accept_candidate;
use raytracer::ray::Ray;
use raytracer::sphere::Sphere;
use rand::rngs::SmallRng;
use rand::SeedableRng;

fn seeded_rng(seed: u64) -> SmallRng {
    SmallRng::seed_from_u64(seed)
}

fn one_sphere_world() -> HittableVec<Sphere> {
    HittableVec::with_one(Sphere::new(
        Vec3::new(0, 0, -ONE),
        ONE / 2,
        MaterialKind::lambertian(ONE / 2, ONE / 2, ONE / 2),
    ))
}

fn record_at(normal: Vec3, material: MaterialKind) -> HitRecord {
    HitRecord::new(ONE, &Vec3::new(0, 0, -ONE), &Vec3::new(0, 0, -ONE), &normal, &material)
}

#[test]
fn gamma_is_square_root() {
    assert_eq!(lin_to_gamma(0), 0);
    assert_eq!(lin_to_gamma(ONE / 4), ONE / 2);
    assert_eq!(lin_to_gamma(ONE), ONE);
}

#[test]
fn encoding_clamps_then_encodes() {
    assert_eq!(encode_channel(-5), 0);
    assert_eq!(encode_channel(0), 0);
    assert_eq!(encode_channel(ONE / 4), 127);
    assert_eq!(encode_channel(ONE), encode_channel(INTENSITY_MAX));
    assert_eq!(encode_channel(10 * ONE), 255);
    let top = isqrt((INTENSITY_MAX as u128) * (ONE as u128)) as i64;
    assert_eq!(top, 65502);
    assert_eq!(lin_to_gamma(INTENSITY_MAX), top);
}

#[test]
fn color_multiply_attenuates() {
    let a = Color::new(ONE / 2, ONE, 0);
    let b = Color::new(ONE / 2, ONE / 4, ONE);
    assert_eq!(a.mul(&b), Color::new(ONE / 4, ONE / 4, 0));
    assert_eq!(a.mul(&Color::black()), Color::new(0, 0, 0));
}

#[test]
fn sky_gradient_ends() {
    assert_eq!(sky(&Vec3::new(0, ONE, 0)), Color::new(32768, 45875, ONE));
    assert_eq!(sky(&Vec3::new(0, -ONE, 0)), Color::new(ONE, ONE, ONE));
    assert_eq!(sky(&Vec3::new(0, 0, -ONE)), Color::new(49152, 55705, ONE));
    assert_eq!(sky(&Vec3::new(0, 0, 0)), sky(&Vec3::new(ONE, 0, 0)));
}

#[test]
fn diffuse_falls_back_to_normal() {
    let n = Vec3::new(0, ONE, 0);
    assert_eq!(diffuse_dir(&n, &Vec3::new(0, -ONE, 0)), n);
    assert_eq!(diffuse_dir(&n, &Vec3::new(ONE, 0, 0)), Vec3::new(ONE, ONE, 0));
}

#[test]
fn lambertian_always_scatters() {
    let m = MaterialKind::lambertian(ONE / 2, ONE / 4, ONE);
    let n = Vec3::new(0, 0, ONE);
    let rec = record_at(n, m);
    let r_in = Ray::new(Vec3::new(0, 0, 0), Vec3::new(0, 0, -ONE));
    let (att, out) = m.scatter_with(&r_in, &rec, &Vec3::new(0, 0, -ONE));
    assert_eq!(att, Color::new(ONE / 2, ONE / 4, ONE));
    assert_eq!(out, Some(Ray::new(rec.p, n)));
    let mut rng = seeded_rng(7);
    for _ in 0..50 {
        let (_, out) = m.scatter(&r_in, &rec, &mut rng);
        assert!(out.is_some());
    }
}

#[test]
fn metal_mirror_law() {
    let v = Vec3::new(ONE, -ONE, 0);
    let n = Vec3::new(0, ONE, 0);
    assert_eq!(reflect(&v, &n), Some(Vec3::new(ONE, ONE, 0)));
    let m = MaterialKind::metal(ONE, ONE / 2, 0, ONE / 3);
    let rec = record_at(n, m);
    let (att, out) = m.scatter_with(&Ray::new(Vec3::new(0, 0, 0), v), &rec, &Vec3::new(0, 0, 0));
    assert_eq!(att, Color::new(ONE, ONE / 2, 0));
    assert_eq!(out, Some(Ray::new(rec.p, Vec3::new(ONE, ONE, 0))));
}

#[test]
fn metal_oblique_reflection_is_close() {
    let n = Vec3::new(0, 0, ONE).unit();
    let v = Vec3::new(3 * ONE, 5 * ONE, -7 * ONE);
    let r = reflect(&v, &n).unwrap();
    assert_eq!(r, Vec3::new(3 * ONE, 5 * ONE, 7 * ONE));
}

#[test]
fn random_unit_is_unit() {
    let mut rng = seeded_rng(3);
    for _ in 0..100 {
        let u = Vec3::random_unit(&mut rng);
        let l = u.length();
        assert!((l - ONE).abs() <= 2, "length {}", l);
        let h = Vec3::random_on_hemisphere(&Vec3::new(0, ONE, 0), &mut rng);
        assert!(h.y >= 0);
        let p = Vec3::random(&mut rng);
        assert!(p.x >= 0 && p.x < ONE && p.y >= 0 && p.y < ONE && p.z >= 0 && p.z < ONE);
    }
}

#[test]
fn jitter_within_half_pixel() {
    let mut rng = seeded_rng(11);
    let mut seen_negative = false;
    let mut seen_positive = false;
    for _ in 0..100 {
        let (x, y) = sample_square(&mut rng);
        assert!(-ONE / 2 <= x && x < ONE / 2);
        assert!(-ONE / 2 <= y && y < ONE / 2);
        seen_negative = seen_negative || x < 0;
        seen_positive = seen_positive || y > 0;
    }
    assert!(seen_negative && seen_positive);
}

#[test]
fn depth_zero_is_black() {
    let world = one_sphere_world();
    let mut rng = seeded_rng(1);
    let rays = [
        Ray::new(Vec3::new(0, 0, 0), Vec3::new(0, 0, -ONE)),
        Ray::new(Vec3::new(0, 0, 0), Vec3::new(0, ONE, 0)),
    ];
    for r in rays.iter() {
        assert_eq!(ray_color(r, &world, 0, &mut rng), Color::new(0, 0, 0));
    }
}

#[test]
fn miss_sees_sky() {
    let world = one_sphere_world();
    let mut rng = seeded_rng(1);
    let up = Ray::new(Vec3::new(0, 0, 0), Vec3::new(0, ONE, 0));
    assert_eq!(ray_color(&up, &world, 5, &mut rng), Color::new(32768, 45875, ONE));
}

#[test]
fn apex_pixel_scenario() {
    let world = one_sphere_world();
    let cam = Camera::new(2, 2, 1, 1, ONE, Vec3::new(0, 0, 0));
    let ray = cam.ray_through(1, 1, -ONE / 2, -ONE / 2);
    assert_eq!(ray, Ray::new(Vec3::new(0, 0, 0), Vec3::new(0, 0, -ONE)));
    assert_eq!(normal_color(&ray, &world), Color::new(ONE / 2, ONE / 2, ONE));
    let mut rng = seeded_rng(0);
    assert_eq!(ray_color(&ray, &world, 1, &mut rng), Color::new(0, 0, 0));
    assert!(T_MIN < ONE / 2);
}

#[test]
fn depth_one_pixel_on_sphere_is_black() {
    let world = one_sphere_world();
    let cam = Camera::new(100, 100, 1, 1, ONE, Vec3::new(0, 0, 0));
    let mut rng = seeded_rng(50);
    assert_eq!(cam.render_pixel(&world, 50, 50, &mut rng), (0, 0, 0));
}

#[test]
fn camera_corner_rays() {
    let cam = Camera::new(4, 2, 1, 1, ONE, Vec3::new(0, 0, 0));
    let top_left = cam.ray_through(0, 0, -ONE / 2, -ONE / 2);
    assert_eq!(top_left.dir, Vec3::new(-2 * ONE, ONE, -ONE));
    let centre = cam.ray_through(1, 0, 0, 0);
    assert_eq!(centre.dir, Vec3::new(-ONE / 2, ONE / 2, -ONE));
}

#[test]
fn default_camera_settings() {
    let cam = Camera::default();
    assert_eq!(cam.width, 1920);
    assert_eq!(cam.height, 1080);
    assert_eq!(cam.samples_per_pixel, 100);
    assert_eq!(cam.max_ray_bounces, 10);
    assert_eq!(cam.focal_length, ONE);
    assert_eq!(cam.center, Vec3::new(0, 0, 0));
}

#[test]
fn rows_are_deterministic_in_any_order() {
    let mut world = one_sphere_world();
    world.add(Sphere::new(
        Vec3::new(0, -100 * ONE - ONE / 2, -ONE),
        100 * ONE,
        MaterialKind::metal(ONE * 8 / 10, ONE * 8 / 10, 0, 0),
    ));
    let cam = Camera::new(16, 8, 4, 5, ONE, Vec3::new(0, 0, 0));
    let forward: Vec<_> = (0..8).map(|j| cam.render_row(&world, j)).collect();
    let mut backward: Vec<_> = (0..8).rev().map(|j| (j, cam.render_row(&world, j))).collect();
    backward.sort_by_key(|(j, _)| *j);
    for (j, row) in backward.into_iter() {
        assert_eq!(row.len(), 16);
        assert_eq!(row, forward[j as usize]);
    }
}

#[test]
fn full_render_matches_rows() {
    let world = one_sphere_world();
    let cam = Camera::new(6, 4, 2, 3, ONE, Vec3::new(0, 0, 0));
    let img = cam.render(&world);
    assert_eq!(img.len(), 4);
    for (j, row) in img.iter().enumerate() {
        assert_eq!(row.len(), 6);
        assert_eq!(*row, cam.render_row(&world, j as u32));
    }
    assert_eq!(img, cam.render(&world));
}

#[test]
fn sky_pixel_of_top_row() {
    let world: HittableVec<Sphere> = HittableVec::new();
    let cam = Camera::new(1, 1, 1, 1, ONE, Vec3::new(0, 0, 0));
    let p = cam.render_pixel(&world, 0, 0, &mut seeded_rng(0));
    assert!(p.2 == 255);
    assert!(p.0 >= 200 && p.1 >= 200);
}

#[test]
fn candidate_acceptance() {
    assert_eq!(accept_candidate(&Vec3::new(0, 0, 0)), None);
    assert_eq!(accept_candidate(&Vec3::new(ONE / 2, 0, 0)), Some(Vec3::new(ONE, 0, 0)));
    assert_eq!(accept_candidate(&Vec3::new(0, -ONE, 0)), Some(Vec3::new(0, -ONE, 0)));
    assert_eq!(accept_candidate(&Vec3::new(ONE, 1, 0)), None);
    assert_eq!(accept_candidate(&Vec3::new(-ONE + 1, -ONE + 1, 0)), None);
}

#[test]
fn metal_scatters_long_diagonal_directions() {
    let n = Vec3::new(1, 1, 0).unit();
    let d = mirror_dir(&Vec3::new(DIR_LIMIT, 0, 0), &n);
    assert_eq!(Some(d), reflect(&Vec3::new(DIR_LIMIT, 0, 0), &n));
    assert!((d.y + DIR_LIMIT).abs() <= DIR_LIMIT / 1000 && d.x.abs() <= DIR_LIMIT / 1000, "{:?}", d);
    let m = MaterialKind::metal(ONE, ONE, ONE, 0);
    let rec = record_at(n, m);
    let r_in = Ray::new(Vec3::new(0, 0, 0), Vec3::new(DIR_LIMIT, DIR_LIMIT, DIR_LIMIT));
    let mut rng = seeded_rng(5);
    let before = rng.clone();
    let (_, out) = m.scatter(&r_in, &rec, &mut rng);
    assert_eq!(out, Some(Ray::new(rec.p, reflect(&r_in.dir, &n).unwrap())));
    assert_eq!(rng, before);
}

#[test]
fn metal_keeps_length_of_long_directions() {
    let n = Vec3::new(0, -383 * 64, 924 * 64).unit();
    let v = Vec3::new(0, DIR_LIMIT, DIR_LIMIT);
    let d = mirror_dir(&v, &n);
    assert_eq!(Some(d), reflect(&v, &n));
    assert!(d.y > DIR_LIMIT);
    let vn = dot(&v, &n);
    let dn = dot(&d, &n);
    assert!(((dn + vn) as f64).abs() <= 1e-3 * (vn as f64).abs());
    let lv = v.length() as f64;
    let ld = d.length() as f64;
    assert!((lv - ld).abs() <= 1e-3 * lv);
    let out = Ray::new(Vec3::new(0, 0, 0), d);
    let t = traced(&out);
    assert_eq!(t.dir, Vec3::new(d.x.div_euclid(8), d.y.div_euclid(8), d.z.div_euclid(8)));
    assert_eq!(traced(&r_short()), r_short());
}

fn r_short() -> Ray {
    Ray::new(Vec3::new(ONE, 0, 0), Vec3::new(0, 0, -ONE))
}

#[test]
fn miss_and_depth_zero_leave_generator() {
    let world = one_sphere_world();
    let mut rng = seeded_rng(9);
    let before = rng.clone();
    let up = Ray::new(Vec3::new(0, 0, 0), Vec3::new(0, ONE, 0));
    ray_color(&up, &world, 4, &mut rng);
    assert_eq!(rng, before);
    let ahead = Ray::new(Vec3::new(0, 0, 0), Vec3::new(0, 0, -ONE));
    ray_color(&ahead, &world, 0, &mut rng);
    assert_eq!(rng, before);
}
