use vstd::prelude::*;
use rand::rngs::SmallRng;
use crate::color::Color;
use crate::fixed::{Vec3, ONE, LIMIT, DIR_LIMIT, unit_of, dot_of, sum_of, neg_of, in_range, div_floor, dot};
use crate::hittable::HitRecord;
use crate::ray::Ray;
use crate::rng::is_drawn_unit;

verus! {

/// Diffuse reflectance.
#[derive(Clone, Copy, Debug, PartialEq, Eq)]
pub struct Lambertian {
    pub albedo: Color,
}

/// Mirror reflectance. `fuzz` is kept with the material but does not perturb the reflection.
#[derive(Clone, Copy, Debug, PartialEq, Eq)]
pub struct Metal {
    pub albedo: Color,
    pub fuzz: i64,
}

/// The closed set of materials a surface can have.
#[derive(Clone, Copy, Debug, PartialEq, Eq)]
pub enum MaterialKind {
    Lambertian(Lambertian),
    Metal(Metal),
}

/// Diffuse direction: the normal plus a random unit vector, or the normal itself where the
/// sum vanishes.
pub open spec fn diffuse_dir_of(normal: Vec3, u: Vec3) -> Vec3 {
    let s = sum_of(normal, u);
    if s.is_zero() {
        normal
    } else {
        s
    }
}

/// One component of the mirror direction: `v - 2 * k * n / ONE`, rounded down.
pub open spec fn reflect_coord(v: int, k: int, n: int) -> int {
    v - (2 * k * n) / (ONE as int)
}

/// Mirror reflection of `v` about the normal `n`, where it stays representable.
pub open spec fn reflect_of(v: Vec3, n: Vec3) -> Option<Vec3> {
    let k = dot_of(v, n) / (ONE as int);
    let x = reflect_coord(v.x as int, k, n.x as int);
    let y = reflect_coord(v.y as int, k, n.y as int);
    let z = reflect_coord(v.z as int, k, n.z as int);
    if in_range(x) && in_range(y) && in_range(z) {
        Some(Vec3 { x: x as i64, y: y as i64, z: z as i64 })
    } else {
        None
    }
}

/// The metal's outgoing direction: the mirror reflection of `v` about `n`. For every
/// direction a ray admits the reflection exists (`lemma_metal_scatters`); `v` is only the
/// value where it would not.
pub open spec fn mirror_dir_of(v: Vec3, n: Vec3) -> Vec3 {
    match reflect_of(v, n) {
        Some(r) => r,
        None => v,
    }
}

/// Scattering with the random unit vector `u` (which only the diffuse material uses).
pub open spec fn scatter_of(m: MaterialKind, r_in: Ray, rec: HitRecord, u: Vec3) -> (
    Color,
    Option<Ray>,
) {
    match m {
        MaterialKind::Lambertian(l) => (
            l.albedo,
            Some(Ray { orig: rec.p, dir: diffuse_dir_of(rec.normal, u) }),
        ),
        MaterialKind::Metal(mt) => (
            mt.albedo,
            Some(Ray { orig: rec.p, dir: mirror_dir_of(r_in.dir, rec.normal) }),
        ),
    }
}

/// The diffuse material always scatters; where the random vector cancels the normal, the
/// outgoing direction is the normal itself.
pub proof fn lemma_diffuse_always_scatters(l: Lambertian, r_in: Ray, rec: HitRecord, u: Vec3)
    requires
        rec.normal.is_unit_bounded(),
        u.is_unit_bounded(),
    ensures
        scatter_of(MaterialKind::Lambertian(l), r_in, rec, u).1 is Some,
        sum_of(rec.normal, u).is_zero() ==> scatter_of(MaterialKind::Lambertian(l), r_in, rec, u).1
            == Some(Ray { orig: rec.p, dir: rec.normal }),
        u == neg_of(rec.normal) ==> scatter_of(MaterialKind::Lambertian(l), r_in, rec, u).1
            == Some(Ray { orig: rec.p, dir: rec.normal }),
{
}

/// The exact mirror image of `v` about `n`, scaled by `ONE * ONE`:
/// `ONE^2 * v - 2 * (v . n) * n`, one component.
pub open spec fn mirror_scaled(vc: int, vn: int, nc: int) -> int {
    ONE * ONE * vc - 2 * vn * nc
}

/// Mirror law of the exact reflection about any normal `n`, with `e = ONE^2 - n . n` the
/// normal's departure from unit length: the component along the normal is negated up to
/// `2 (v . n) e`, `R . n == -ONE^2 (v . n) + 2 (v . n) e`, and the tangential component is kept
/// up to `2 (v . n) e n`, `ONE^2 R - (R . n) n == ONE^2 (ONE^2 v - (v . n) n) - 2 (v . n) e n`
/// in each coordinate. For a normal of exactly unit length (`e == 0`) both hold exactly.
pub proof fn lemma_mirror_law(v: Vec3, n: Vec3)
    ensures
        ({
            let vn = dot_of(v, n);
            let e = ONE * ONE - dot_of(n, n);
            let rx = mirror_scaled(v.x as int, vn, n.x as int);
            let ry = mirror_scaled(v.y as int, vn, n.y as int);
            let rz = mirror_scaled(v.z as int, vn, n.z as int);
            let rn = rx * n.x + ry * n.y + rz * n.z;
            &&& rn == -(ONE * ONE) * vn + 2 * vn * e
            &&& ONE * ONE * rx - rn * n.x == ONE * ONE * (ONE * ONE * v.x - vn * n.x) - 2 * vn * e * n.x
            &&& ONE * ONE * ry - rn * n.y == ONE * ONE * (ONE * ONE * v.y - vn * n.y) - 2 * vn * e * n.y
            &&& ONE * ONE * rz - rn * n.z == ONE * ONE * (ONE * ONE * v.z - vn * n.z) - 2 * vn * e * n.z
        }),
{
    let vn = dot_of(v, n);
    let (vx, vy, vz, nx, ny, nz) = (v.x as int, v.y as int, v.z as int, n.x as int, n.y as int, n.z as int);
    let s = 65536int * 65536int;
    let nn = nx * nx + ny * ny + nz * nz;
    let e = s - nn;
    lemma_mirror_term(s, vx, vn, nx);
    lemma_mirror_term(s, vy, vn, ny);
    lemma_mirror_term(s, vz, vn, nz);
    lemma_scaled_sum(s, vx * nx, vy * ny, vz * nz);
    vstd::arithmetic::mul::lemma_mul_is_associative(s, vx, nx);
    vstd::arithmetic::mul::lemma_mul_is_associative(s, vy, ny);
    vstd::arithmetic::mul::lemma_mul_is_associative(s, vz, nz);
    lemma_scaled_sum(2 * vn, nx * nx, ny * ny, nz * nz);
    assert(s * vn - 2 * vn * nn == -s * vn + 2 * vn * e) by (nonlinear_arith)
        requires
            e == s - nn,
    ;
    let rn = -s * vn + 2 * vn * e;
    lemma_tangent(s, vx, vn, nx, e, rn);
    lemma_tangent(s, vy, vn, ny, e, rn);
    lemma_tangent(s, vz, vn, nz, e, rn);
}

/// For a normal computed by `unit`, the departure `e` of the mirror law is small:
/// `-(8 ONE + 4) < e <= 6 ONE`, about one part in ten thousand of `ONE^2`. So the exact
/// reflection negates the normal component and keeps the tangential one up to that relative
/// error.
pub proof fn lemma_mirror_law_unit_normal(v: Vec3, w: Vec3)
    requires
        w.wide(),
        !w.is_zero(),
    ensures
        ({
            let n = unit_of(w);
            let vn = dot_of(v, n);
            let e = ONE * ONE - dot_of(n, n);
            let rn = mirror_scaled(v.x as int, vn, n.x as int) * n.x + mirror_scaled(
                v.y as int,
                vn,
                n.y as int,
            ) * n.y + mirror_scaled(v.z as int, vn, n.z as int) * n.z;
            &&& -(8 * ONE + 4) < e <= 6 * ONE
            &&& rn == -(ONE * ONE) * vn + 2 * vn * e
        }),
{
    crate::fixed::lemma_unit_norm_close(w);
    lemma_mirror_law(v, unit_of(w));
}

proof fn lemma_tangent(s: int, vc: int, vn: int, nc: int, e: int, rn: int)
    requires
        rn == -s * vn + 2 * vn * e,
    ensures
        s * (s * vc - 2 * vn * nc) - rn * nc == s * (s * vc - vn * nc) - 2 * vn * e * nc,
{
    assert(s * (s * vc - 2 * vn * nc) - rn * nc == s * (s * vc - vn * nc) - 2 * vn * e * nc)
        by (nonlinear_arith)
        requires
            rn == -s * vn + 2 * vn * e,
    ;
}

proof fn lemma_scaled_sum(s: int, a: int, b: int, c: int)
    ensures
        s * a + s * b + s * c == s * (a + b + c),
{
    vstd::arithmetic::mul::lemma_mul_is_distributive_add(s, a, b);
    vstd::arithmetic::mul::lemma_mul_is_distributive_add(s, a + b, c);
}

proof fn lemma_mirror_term(s: int, vc: int, vn: int, nc: int)
    ensures
        (s * vc - 2 * vn * nc) * nc == s * vc * nc - 2 * vn * (nc * nc),
{
    assert((s * vc - 2 * vn * nc) * nc == s * vc * nc - 2 * vn * (nc * nc)) by (nonlinear_arith);
}

/// One component of the computed reflection lies within three units of the exact mirror
/// image (`|ONE^2 r - R| < 3 ONE^2`).
pub proof fn lemma_reflect_coord_close(vc: int, vn: int, nc: int)
    requires
        -ONE <= nc <= ONE,
    ensures
        -3 * ONE * ONE < ONE * ONE * reflect_coord(vc, vn / (ONE as int), nc) - mirror_scaled(vc, vn, nc)
            < 3 * ONE * ONE,
{
    let o = ONE as int;
    let k = vn / o;
    let e1 = vn % o;
    vstd::arithmetic::div_mod::lemma_fundamental_div_mod(vn, o);
    let q = (2 * k * nc) / o;
    let e2 = (2 * k * nc) % o;
    vstd::arithmetic::div_mod::lemma_fundamental_div_mod(2 * k * nc, o);
    assert(-3 * o * o < o * o * (vc - q) - (o * o * vc - 2 * vn * nc) < 3 * o * o) by (nonlinear_arith)
        requires
            vn == o * k + e1,
            0 <= e1 < o,
            2 * k * nc == o * q + e2,
            0 <= e2 < o,
            -o <= nc <= o,
            o == 65536,
    {
        assert(o * o * (vc - q) - (o * o * vc - 2 * vn * nc) == 2 * e1 * nc + o * e2);
        assert(-o * o <= e1 * nc <= o * o);
    }
}

/// The metal's outgoing direction, where it has one, is within three units per coordinate of
/// the exact mirror image of the incoming direction.
pub proof fn lemma_reflect_close(v: Vec3, n: Vec3)
    requires
        n.is_unit_bounded(),
    ensures
        reflect_of(v, n) matches Some(r) ==> {
            let vn = dot_of(v, n);
            &&& -3 * ONE * ONE < ONE * ONE * r.x - mirror_scaled(v.x as int, vn, n.x as int) < 3 * ONE * ONE
            &&& -3 * ONE * ONE < ONE * ONE * r.y - mirror_scaled(v.y as int, vn, n.y as int) < 3 * ONE * ONE
            &&& -3 * ONE * ONE < ONE * ONE * r.z - mirror_scaled(v.z as int, vn, n.z as int) < 3 * ONE * ONE
        },
{
    let vn = dot_of(v, n);
    lemma_reflect_coord_close(v.x as int, vn, n.x as int);
    lemma_reflect_coord_close(v.y as int, vn, n.y as int);
    lemma_reflect_coord_close(v.z as int, vn, n.z as int);
}

/// One mirror component stays representable when the incoming component and the normal's
/// projection are moderate.
proof fn lemma_reflect_coord_in_range(v: int, vn: int, n: int)
    requires
        -LIMIT / 8 <= v <= LIMIT / 8,
        -3 * (LIMIT / 8) * ONE <= vn <= 3 * (LIMIT / 8) * ONE,
        -ONE <= n <= ONE,
    ensures
        in_range(reflect_coord(v, vn / (ONE as int), n)),
{
    let o = ONE as int;
    let k = vn / o;
    let q = (2 * k * n) / o;
    vstd::arithmetic::div_mod::lemma_fundamental_div_mod(vn, o);
    vstd::arithmetic::div_mod::lemma_fundamental_div_mod(2 * k * n, o);
    let b = 3 * (LIMIT / 8);
    assert(-b - 1 <= k <= b) by (nonlinear_arith)
        requires
            vn == o * k + vn % o,
            0 <= vn % o < o,
            -b * o <= vn <= b * o,
            o == 65536,
    ;
    assert(-2 * (b + 1) * o <= 2 * k * n <= 2 * (b + 1) * o) by (nonlinear_arith)
        requires
            -b - 1 <= k <= b,
            -o <= n <= o,
            b > 0,
    ;
    assert(-2 * (b + 1) - 1 <= q <= 2 * (b + 1)) by (nonlinear_arith)
        requires
            2 * k * n == o * q + (2 * k * n) % o,
            0 <= (2 * k * n) % o < o,
            -2 * (b + 1) * o <= 2 * k * n <= 2 * (b + 1) * o,
            o == 65536,
    ;
}

/// The metal always scatters a direction whose components are within an eighth of the world's
/// extent (512 world units): its reflection about a normal within unit bounds stays
/// representable.
pub proof fn lemma_metal_scatters(v: Vec3, n: Vec3)
    requires
        -LIMIT / 8 <= v.x <= LIMIT / 8,
        -LIMIT / 8 <= v.y <= LIMIT / 8,
        -LIMIT / 8 <= v.z <= LIMIT / 8,
        n.is_unit_bounded(),
    ensures
        reflect_of(v, n) is Some,
{
    let vn = dot_of(v, n);
    let b = LIMIT / 8;
    assert(-3 * b * ONE <= vn <= 3 * b * ONE) by (nonlinear_arith)
        requires
            -b <= v.x <= b,
            -b <= v.y <= b,
            -b <= v.z <= b,
            -ONE <= n.x <= ONE,
            -ONE <= n.y <= ONE,
            -ONE <= n.z <= ONE,
            vn == v.x * n.x + v.y * n.y + v.z * n.z,
            b > 0,
    ;
    lemma_reflect_coord_in_range(v.x as int, vn, n.x as int);
    lemma_reflect_coord_in_range(v.y as int, vn, n.y as int);
    lemma_reflect_coord_in_range(v.z as int, vn, n.z as int);
}

fn reflect_component(v: i64, k: i128, n: i64) -> (r: i128)
    requires
        -0x3000_0000 <= k <= 0x3000_0000,
        -ONE <= n <= ONE,
        in_range(v as int),
    ensures
        r == reflect_coord(v as int, k as int, n as int),
{
    proof {
        assert(-0x6000_0000 * ONE <= 2 * k * n <= 0x6000_0000 * ONE) by (nonlinear_arith)
            requires
                -0x3000_0000 <= k <= 0x3000_0000,
                -ONE <= n <= ONE,
        ;
    }
    let q = div_floor(2 * k * (n as i128), ONE as i128);
    (v as i128) - q
}

/// Mirror reflection of a direction about a normal within unit bounds.
pub fn reflect(v: &Vec3, n: &Vec3) -> (r: Option<Vec3>)
    requires
        v.wf(),
        n.is_unit_bounded(),
    ensures
        r == reflect_of(*v, *n),
{
    let vn = dot(v, n);
    proof {
        assert(-0x3000_0000 * ONE <= dot_of(*v, *n) <= 0x3000_0000 * ONE) by (nonlinear_arith)
            requires
                -0x1000_0000 <= v.x <= 0x1000_0000,
                -0x1000_0000 <= v.y <= 0x1000_0000,
                -0x1000_0000 <= v.z <= 0x1000_0000,
                -ONE <= n.x <= ONE,
                -ONE <= n.y <= ONE,
                -ONE <= n.z <= ONE,
                dot_of(*v, *n) == v.x * n.x + v.y * n.y + v.z * n.z,
        ;
    }
    let k = div_floor(vn, ONE as i128);
    proof {
        vstd::arithmetic::div_mod::lemma_div_is_ordered(vn as int, 0x3000_0000 * ONE, ONE as int);
        vstd::arithmetic::div_mod::lemma_div_is_ordered(-0x3000_0000 * ONE, vn as int, ONE as int);
        vstd::arithmetic::div_mod::lemma_div_multiples_vanish(0x3000_0000, ONE as int);
        vstd::arithmetic::div_mod::lemma_div_multiples_vanish(-0x3000_0000, ONE as int);
        assert(0x3000_0000 * ONE == ONE * 0x3000_0000);
        assert(-0x3000_0000 * ONE == ONE * (-0x3000_0000));
    }
    let x = reflect_component(v.x, k, n.x);
    let y = reflect_component(v.y, k, n.y);
    let z = reflect_component(v.z, k, n.z);
    let lim = crate::fixed::LIMIT as i128;
    if -lim <= x && x <= lim && -lim <= y && y <= lim && -lim <= z && z <= lim {
        Some(Vec3 { x: x as i64, y: y as i64, z: z as i64 })
    } else {
        None
    }
}

/// The metal's outgoing direction for an incoming direction and a normal within unit bounds:
/// exactly the mirror reflection.
pub fn mirror_dir(v: &Vec3, n: &Vec3) -> (r: Vec3)
    requires
        v.is_direction(),
        n.is_unit_bounded(),
    ensures
        r == mirror_dir_of(*v, *n),
        reflect_of(*v, *n) == Some(r),
        r.wf(),
{
    proof {
        lemma_metal_scatters(*v, *n);
    }
    match reflect(v, n) {
        Some(d) => d,
        None => *v,
    }
}

/// The metal scatters along the exact mirror reflection of every direction a ray admits.
pub proof fn lemma_metal_reflects(m: Metal, r_in: Ray, rec: HitRecord, u: Vec3)
    requires
        r_in.wf(),
        rec.normal.is_unit_bounded(),
    ensures
        reflect_of(r_in.dir, rec.normal) matches Some(d) && scatter_of(MaterialKind::Metal(m), r_in, rec, u)
            == (m.albedo, Some(Ray { orig: rec.p, dir: d })),
{
    lemma_metal_scatters(r_in.dir, rec.normal);
}

/// Diffuse direction from a normal and a random unit vector.
pub fn diffuse_dir(normal: &Vec3, u: &Vec3) -> (r: Vec3)
    requires
        normal.is_unit_bounded(),
        u.is_unit_bounded(),
    ensures
        r == diffuse_dir_of(*normal, *u),
        r.wf(),
        r.is_direction(),
{
    let s = normal.plus(u);
    if s.near_zero() {
        *normal
    } else {
        s
    }
}

impl MaterialKind {
    pub open spec fn wf(&self) -> bool {
        match self {
            MaterialKind::Lambertian(l) => l.albedo.is_fractional(),
            MaterialKind::Metal(m) => m.albedo.is_fractional(),
        }
    }

    pub open spec fn albedo(&self) -> Color {
        match self {
            MaterialKind::Lambertian(l) => l.albedo,
            MaterialKind::Metal(m) => m.albedo,
        }
    }

    pub fn lambertian(r: i64, g: i64, b: i64) -> (m: MaterialKind)
        ensures
            m == MaterialKind::Lambertian(Lambertian { albedo: Color { r, g, b } }),
    {
        MaterialKind::Lambertian(Lambertian { albedo: Color::new(r, g, b) })
    }

    pub fn metal(r: i64, g: i64, b: i64, fuzz: i64) -> (m: MaterialKind)
        ensures
            m == MaterialKind::Metal(Metal { albedo: Color { r, g, b }, fuzz }),
    {
        MaterialKind::Metal(Metal { albedo: Color::new(r, g, b), fuzz })
    }

    /// Scattering once the random unit vector has been drawn.
    pub fn scatter_with(&self, r_in: &Ray, rec: &HitRecord, u: &Vec3) -> (r: (Color, Option<Ray>))
        requires
            r_in.wf(),
            rec.wf(),
            u.is_unit_bounded(),
        ensures
            r == scatter_of(*self, *r_in, *rec, *u),
            r.1 is Some,
            r.1 matches Some(s) ==> s.is_outgoing(),
    {
        match self {
            MaterialKind::Lambertian(l) => {
                let d = diffuse_dir(&rec.normal, u);
                (l.albedo, Some(Ray::new(rec.p, d)))
            },
            MaterialKind::Metal(m) => (m.albedo, Some(Ray::new(rec.p, mirror_dir(&r_in.dir, &rec.normal)))),
        }
    }
}

/// Scattering at a surface: an attenuation and an outgoing ray (every material here scatters;
/// the optional ray leaves room for one that absorbs).
pub trait Material {
    spec fn material_wf(&self) -> bool;

    /// Whether scattering draws a random unit vector from the generator.
    spec fn draws_vector(&self) -> bool;

    /// The answer when the random unit vector drawn (if any) is `u`.
    spec fn scatter_spec(&self, r_in: Ray, rec: HitRecord, u: Vec3) -> (Color, Option<Ray>);

    fn scatter(&self, r_in: &Ray, rec: &HitRecord, rng: &mut SmallRng) -> (r: (
        Color,
        Option<Ray>,
    ))
        requires
            self.material_wf(),
            r_in.wf(),
            rec.wf(),
        ensures
            exists|u: Vec3| is_drawn_unit(u) && r == #[trigger] self.scatter_spec(*r_in, *rec, u),
            !self.draws_vector() ==> *final(rng) == *old(rng),
            r.1 is Some,
            r.1 matches Some(s) ==> s.is_outgoing(),
    ;
}

impl Material for Lambertian {
    open spec fn material_wf(&self) -> bool {
        self.albedo.is_fractional()
    }

    open spec fn draws_vector(&self) -> bool {
        true
    }

    open spec fn scatter_spec(&self, r_in: Ray, rec: HitRecord, u: Vec3) -> (Color, Option<Ray>) {
        scatter_of(MaterialKind::Lambertian(*self), r_in, rec, u)
    }

    fn scatter(&self, r_in: &Ray, rec: &HitRecord, rng: &mut SmallRng) -> (r: (
        Color,
        Option<Ray>,
    )) {
        let u = Vec3::random_unit(rng);
        let dir = diffuse_dir(&rec.normal, &u);
        let r = (self.albedo, Some(Ray::new(rec.p, dir)));
        assert(r == self.scatter_spec(*r_in, *rec, u));
        r
    }
}

impl Material for Metal {
    open spec fn material_wf(&self) -> bool {
        self.albedo.is_fractional()
    }

    open spec fn draws_vector(&self) -> bool {
        false
    }

    open spec fn scatter_spec(&self, r_in: Ray, rec: HitRecord, u: Vec3) -> (Color, Option<Ray>) {
        scatter_of(MaterialKind::Metal(*self), r_in, rec, u)
    }

    fn scatter(&self, r_in: &Ray, rec: &HitRecord, rng: &mut SmallRng) -> (r: (
        Color,
        Option<Ray>,
    )) {
        let r = (self.albedo, Some(Ray::new(rec.p, mirror_dir(&r_in.dir, &rec.normal))));
        assert(r == self.scatter_spec(*r_in, *rec, Vec3 { x: 0, y: ONE, z: 0 }));
        assert(is_drawn_unit(Vec3 { x: 0, y: ONE, z: 0 }));
        r
    }
}

impl Material for MaterialKind {
    open spec fn material_wf(&self) -> bool {
        self.wf()
    }

    open spec fn draws_vector(&self) -> bool {
        self is Lambertian
    }

    open spec fn scatter_spec(&self, r_in: Ray, rec: HitRecord, u: Vec3) -> (Color, Option<Ray>) {
        scatter_of(*self, r_in, rec, u)
    }

    /// Dispatch to the variant; only the diffuse material draws from the generator.
    fn scatter(&self, r_in: &Ray, rec: &HitRecord, rng: &mut SmallRng) -> (r: (
        Color,
        Option<Ray>,
    )) {
        match self {
            MaterialKind::Lambertian(m) => {
                let r = m.scatter(r_in, rec, rng);
                let ghost u = choose|u: Vec3| is_drawn_unit(u) && r == #[trigger] m.scatter_spec(*r_in, *rec, u);
                assert(r == self.scatter_spec(*r_in, *rec, u));
                r
            },
            MaterialKind::Metal(m) => {
                let r = m.scatter(r_in, rec, rng);
                let ghost u = choose|u: Vec3| is_drawn_unit(u) && r == #[trigger] m.scatter_spec(*r_in, *rec, u);
                assert(r == self.scatter_spec(*r_in, *rec, u));
                r
            },
        }
    }
}

} // verus!
