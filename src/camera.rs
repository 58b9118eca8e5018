use vstd::prelude::*;
use rand::rngs::SmallRng;
use crate::color::{Color, black, attenuate_of, is_fraction, byte_of, gamma_of, encode_channel};
use crate::fixed::{Vec3, ONE, DIR_LIMIT, unit_of, lemma_unit_bounded, div_floor};
use crate::hittable::Hittable;
use crate::interval::{Interval, UNBOUNDED};
use crate::material::{Material, scatter_of};
use crate::ray::Ray;
use crate::rng::{draw_in, seeded_rng, all_drawn, is_drawn_unit};

verus! {

/// Smallest ray parameter a bounce accepts (0.001, rounded down), against self-intersection.
pub const T_MIN: i64 = 65;

/// The parameters a bounce accepts: strictly above `T_MIN`, without upper bound.
pub open spec fn render_interval() -> Interval {
    Interval { min: T_MIN, max: UNBOUNDED }
}

/// `(1 - a) * lo + a * hi` for a blend factor `a` in `[0, ONE]`, rounded down.
pub open spec fn lerp_of(a: int, lo: int, hi: int) -> int {
    ((ONE - a) * lo + a * hi) / (ONE as int)
}

/// The blend factor of the background: `(y + 1) / 2` of the unit direction. A zero direction
/// sees the horizon.
pub open spec fn sky_factor(dir: Vec3) -> int {
    if dir.is_zero() {
        ONE / 2
    } else {
        (unit_of(dir).y + ONE) / 2
    }
}

/// Background: white at the bottom of the view, sky blue `(0.5, 0.7, 1.0)` at the top.
pub open spec fn sky_of(dir: Vec3) -> Color {
    let a = sky_factor(dir);
    Color {
        r: lerp_of(a, ONE as int, 32768) as i64,
        g: lerp_of(a, ONE as int, 45875) as i64,
        b: lerp_of(a, ONE as int, ONE as int) as i64,
    }
}

/// The ray a bounce traces for a scattered ray: the ray itself, or, where its direction is
/// longer than the direction range, the same line with the direction at an eighth of its
/// length (each component rounded down).
pub open spec fn traced_of(s: Ray) -> Ray {
    if s.dir.is_direction() {
        s
    } else {
        Ray {
            orig: s.orig,
            dir: Vec3 { x: (s.dir.x / 8) as i64, y: (s.dir.y / 8) as i64, z: (s.dir.z / 8) as i64 },
        }
    }
}

/// The scattered ray as the next bounce traces it.
pub fn traced(s: &Ray) -> (r: Ray)
    requires
        s.is_outgoing(),
    ensures
        r == traced_of(*s),
        r.wf(),
{
    let d = s.dir;
    if -DIR_LIMIT <= d.x && d.x <= DIR_LIMIT && -DIR_LIMIT <= d.y && d.y <= DIR_LIMIT
        && -DIR_LIMIT <= d.z && d.z <= DIR_LIMIT {
        *s
    } else {
        Ray::new(
            s.orig,
            Vec3::new(
                div_floor(d.x as i128, 8) as i64,
                div_floor(d.y as i128, 8) as i64,
                div_floor(d.z as i128, 8) as i64,
            ),
        )
    }
}

/// The recursive radiance estimate of `ray` with `depth` bounces left, where `draws[k]` is the
/// random unit vector offered to the material at bounce `k`.
pub open spec fn radiance<T: Hittable>(world: T, ray: Ray, depth: nat, draws: Seq<Vec3>) -> Color
    decreases depth,
{
    if depth == 0 {
        black()
    } else {
        match world.hit_spec(ray, render_interval()) {
            None => sky_of(ray.dir),
            Some(rec) => {
                let (att, scattered) = scatter_of(rec.material, ray, rec, draws[0]);
                match scattered {
                    None => black(),
                    Some(s) => attenuate_of(att, radiance(world, traced_of(s), (depth - 1) as nat, draws.drop_first())),
                }
            },
        }
    }
}

/// With no bounce left the estimate is black, whatever the ray and the draws.
pub proof fn lemma_depth_zero_is_black<T: Hittable>(world: T, ray: Ray, draws: Seq<Vec3>)
    ensures
        radiance(world, ray, 0, draws) == black(),
{
}

/// With one bounce left, a ray that hits the scene comes back black: the scattered ray, if
/// any, has no bounce left, and attenuating black leaves black.
pub proof fn lemma_one_bounce_hit_is_black<T: Hittable>(world: T, ray: Ray, draws: Seq<Vec3>)
    requires
        world.hit_spec(ray, render_interval()) is Some,
    ensures
        radiance(world, ray, 1, draws) == black(),
{
    let rec = world.hit_spec(ray, render_interval()).unwrap();
    let (att, scattered) = scatter_of(rec.material, ray, rec, draws[0]);
    if let Some(s) = scattered {
        assert(radiance(world, traced_of(s), 0, draws.drop_first()) == black());
        assert(attenuate_of(att, black()) == black()) by {
            assert(0 * att.r / (ONE as int) == 0);
            assert(att.r * 0 == 0 && att.g * 0 == 0 && att.b * 0 == 0);
        }
    }
}

/// Normal visualisation: `(n + 1) / 2` of the hit normal, or the background on a miss.
pub open spec fn normal_shade_of<T: Hittable>(world: T, ray: Ray) -> Color {
    match world.hit_spec(ray, render_interval()) {
        None => sky_of(ray.dir),
        Some(rec) => Color {
            r: ((rec.normal.x + ONE) / 2) as i64,
            g: ((rec.normal.y + ONE) / 2) as i64,
            b: ((rec.normal.z + ONE) / 2) as i64,
        },
    }
}

fn lerp(a: i64, lo: i64, hi: i64) -> (r: i64)
    requires
        is_fraction(a as int),
        is_fraction(lo as int),
        is_fraction(hi as int),
    ensures
        r == lerp_of(a as int, lo as int, hi as int),
        is_fraction(r as int),
{
    proof {
        assert(0 <= (ONE - a) * lo + a * hi <= ONE * ONE) by (nonlinear_arith)
            requires
                0 <= a <= ONE,
                0 <= lo <= ONE,
                0 <= hi <= ONE,
        {
            assert((ONE - a) * lo <= (ONE - a) * ONE);
            assert(a * hi <= a * ONE);
        }
        let n = (ONE - a) * lo + a * hi;
        vstd::arithmetic::div_mod::lemma_div_is_ordered(n, ONE * ONE, ONE as int);
        vstd::arithmetic::div_mod::lemma_div_multiples_vanish(ONE as int, ONE as int);
        vstd::arithmetic::div_mod::lemma_div_pos_is_pos(n, ONE as int);
    }
    (((ONE - a) as i128 * lo as i128 + a as i128 * hi as i128) / (ONE as i128)) as i64
}

/// The background colour seen along `dir`.
pub fn sky(dir: &Vec3) -> (c: Color)
    requires
        dir.wf(),
    ensures
        c == sky_of(*dir),
        c.is_fractional(),
{
    let a: i64 = if dir.near_zero() {
        ONE / 2
    } else {
        proof {
            lemma_unit_bounded(*dir);
        }
        let u = dir.unit();
        (u.y + ONE) / 2
    };
    Color::new(lerp(a, ONE, 32768), lerp(a, ONE, 45875), lerp(a, ONE, ONE))
}

/// The recursive estimator: black once the bounces are spent, the background on a miss, and
/// otherwise the material's attenuation times the estimate along the scattered ray, traced as
/// `traced_of` gives it (black if the material absorbs the ray, which none of the materials
/// here does).
pub fn ray_color<T: Hittable>(ray: &Ray, world: &T, depth: u32, rng: &mut SmallRng) -> (c: Color)
    requires
        world.hittable_wf(),
        ray.wf(),
    ensures
        c.is_fractional(),
        depth == 0 ==> c == black(),
        depth == 0 ==> *final(rng) == *old(rng),
        depth > 0 && world.hit_spec(*ray, render_interval()) is None ==> *final(rng) == *old(rng),
        exists|draws: Seq<Vec3>|
            all_drawn(draws) && c == #[trigger] radiance(*world, *ray, depth as nat, draws),
    decreases depth,
{
    if depth == 0 {
        proof {
            assert(black() == radiance(*world, *ray, 0, Seq::<Vec3>::empty()));
        }
        return Color::black();
    }
    match world.hit(ray, Interval::new(T_MIN, UNBOUNDED)) {
        None => {
            let c = sky(&ray.dir);
            proof {
                assert(c == radiance(*world, *ray, depth as nat, Seq::<Vec3>::empty()));
            }
            c
        },
        Some(rec) => {
            proof {
                world.lemma_hit_wf(*ray, render_interval());
            }
            let (att, scattered) = rec.material.scatter(ray, &rec, rng);
            let ghost u = choose|u: Vec3|
                is_drawn_unit(u) && (att, scattered) == #[trigger] scatter_of(
                    rec.material,
                    *ray,
                    rec,
                    u,
                );
            assert(att == rec.material.albedo());
            match scattered {
                None => {
                    proof {
                        let draws = seq![u];
                        assert(draws[0] == u);
                        assert(all_drawn(draws));
                        assert(black() == radiance(*world, *ray, depth as nat, draws));
                    }
                    Color::black()
                },
                Some(s) => {
                    let next = traced(&s);
                    let inner = ray_color(&next, world, depth - 1, rng);
                    let ghost rest = choose|d: Seq<Vec3>|
                        all_drawn(d) && inner == #[trigger] radiance(*world, next, (depth - 1) as nat, d);
                    let c = att.mul(&inner);
                    proof {
                        let draws = seq![u] + rest;
                        assert(draws[0] == u);
                        assert(draws.drop_first() =~= rest);
                        assert forall|k: int| 0 <= k < draws.len() implies is_drawn_unit(#[trigger] draws[k]) by {
                            if k > 0 {
                                assert(draws[k] == rest[k - 1]);
                            }
                        }
                        assert(c == radiance(*world, *ray, depth as nat, draws));
                    }
                    c
                },
            }
        },
    }
}

/// The normal-visualisation estimator: the hit normal mapped from `[-1, 1]` to `[0, 1]`, or
/// the background on a miss.
pub fn normal_color<T: Hittable>(ray: &Ray, world: &T) -> (c: Color)
    requires
        world.hittable_wf(),
        ray.wf(),
    ensures
        c == normal_shade_of(*world, *ray),
        c.is_fractional(),
{
    match world.hit(ray, Interval::new(T_MIN, UNBOUNDED)) {
        None => sky(&ray.dir),
        Some(rec) => {
            proof {
                world.lemma_hit_wf(*ray, render_interval());
            }
            Color::new(
                (rec.normal.x + ONE) / 2,
                (rec.normal.y + ONE) / 2,
                (rec.normal.z + ONE) / 2,
            )
        },
    }
}

/// Viewport geometry and sampling settings. The viewport is 2 world units high and as wide as
/// the image's aspect ratio asks; it stands `focal_length` in front of `center`, looking
/// down negative `z`.
#[derive(Clone, Copy, Debug, PartialEq, Eq)]
pub struct Camera {
    pub width: u32,
    pub height: u32,
    pub samples_per_pixel: u32,
    pub max_ray_bounces: u32,
    pub focal_length: i64,
    pub center: Vec3,
}

/// Widest aspect ratio of the viewport, so that every camera ray is representable.
pub const MAX_ASPECT: u32 = 256;

/// Largest image side.
pub const MAX_SIDE: u32 = 65536;

/// Sub-pixel position (in units of `ONE` per pixel) of sample offset `o` in pixel `i`.
pub open spec fn sub_pixel(i: int, o: int) -> int {
    i * ONE + ONE / 2 + o
}

/// The camera ray through pixel `(i, j)`, displaced by `(ox, oy)` (fractions of a pixel, in
/// fixed point).
pub open spec fn camera_ray_of(cam: Camera, i: int, j: int, ox: int, oy: int) -> Ray {
    let w = cam.width as int;
    let h = cam.height as int;
    Ray {
        orig: cam.center,
        dir: Vec3 {
            x: ((2 * sub_pixel(i, ox) - w * ONE) / h) as i64,
            y: ((h * ONE - 2 * sub_pixel(j, oy)) / h) as i64,
            z: -cam.focal_length as i64,
        },
    }
}

/// A jitter offset of the box filter: within `[-1/2, 1/2)` of a pixel.
pub open spec fn is_offset(o: int) -> bool {
    -ONE / 2 <= o < ONE / 2
}

/// `c` is one sample's estimate for pixel `(i, j)`: some jitter and some random draws.
pub open spec fn is_sample_of<T: Hittable>(cam: Camera, world: T, i: int, j: int, c: Color) -> bool {
    exists|ox: int, oy: int, draws: Seq<Vec3>|
        is_offset(ox) && is_offset(oy) && all_drawn(draws) && c == #[trigger] radiance(
            world,
            camera_ray_of(cam, i, j, ox, oy),
            cam.max_ray_bounces as nat,
            draws,
        )
}

/// Channel sums of a sequence of colours.
pub open spec fn channel_sums(cs: Seq<Color>) -> (int, int, int)
    decreases cs.len(),
{
    if cs.len() == 0 {
        (0, 0, 0)
    } else {
        let p = channel_sums(cs.drop_last());
        (p.0 + cs.last().r, p.1 + cs.last().g, p.2 + cs.last().b)
    }
}

/// The displayed pixel of a set of sample estimates: the average, clamped, gamma encoded and
/// quantised per channel.
pub open spec fn pixel_of(cs: Seq<Color>) -> (u8, u8, u8) {
    let s = channel_sums(cs);
    let n = cs.len() as int;
    (
        byte_of(gamma_of(s.0 / n)) as u8,
        byte_of(gamma_of(s.1 / n)) as u8,
        byte_of(gamma_of(s.2 / n)) as u8,
    )
}

/// `c` is the pixel `(i, j)` as the camera renders it, for some samples.
pub open spec fn is_pixel_of<T: Hittable>(
    cam: Camera,
    world: T,
    i: int,
    j: int,
    p: (u8, u8, u8),
) -> bool {
    exists|cs: Seq<Color>|
        cs.len() == cam.samples_per_pixel && (forall|k: int|
            0 <= k < cs.len() ==> is_sample_of(cam, world, i, j, #[trigger] cs[k])) && p
            == #[trigger] pixel_of(cs)
}

/// A jitter offset in `[-1/2, 1/2)` along each image axis.
pub fn sample_square(rng: &mut SmallRng) -> (r: (i64, i64))
    ensures
        is_offset(r.0 as int),
        is_offset(r.1 as int),
{
    let x = draw_in(rng, -ONE / 2, ONE / 2);
    let y = draw_in(rng, -ONE / 2, ONE / 2);
    (x, y)
}

fn grid_coord(num: i64, h: i64) -> (r: i64)
    requires
        1 <= h,
        -(MAX_ASPECT as int) * ONE * h <= num <= (MAX_ASPECT as int) * ONE * h,
    ensures
        r == (num as int) / (h as int),
        -(MAX_ASPECT as int) * ONE <= r <= (MAX_ASPECT as int) * ONE,
{
    let q = div_floor(num as i128, h as i128);
    proof {
        let m = (MAX_ASPECT as int) * ONE;
        vstd::arithmetic::div_mod::lemma_div_is_ordered(num as int, m * h, h as int);
        vstd::arithmetic::div_mod::lemma_div_is_ordered(-m * h, num as int, h as int);
        vstd::arithmetic::div_mod::lemma_div_multiples_vanish(m, h as int);
        vstd::arithmetic::div_mod::lemma_div_multiples_vanish(-m, h as int);
        assert(m * h == h * m) by (nonlinear_arith);
        assert(-m * h == h * (-m)) by (nonlinear_arith);
    }
    q as i64
}

impl Camera {
    pub open spec fn wf(&self) -> bool {
        1 <= self.width <= MAX_SIDE && 1 <= self.height <= MAX_SIDE && self.width <= MAX_ASPECT
            * self.height && 1 <= self.samples_per_pixel && 0 < self.focal_length <= DIR_LIMIT
            && self.center.wf()
    }

    /// A camera from its settings.
    pub fn new(
        width: u32,
        height: u32,
        samples_per_pixel: u32,
        max_ray_bounces: u32,
        focal_length: i64,
        center: Vec3,
    ) -> (r: Camera)
        ensures
            r == (Camera { width, height, samples_per_pixel, max_ray_bounces, focal_length, center }),
    {
        Camera { width, height, samples_per_pixel, max_ray_bounces, focal_length, center }
    }

    /// 1920 by 1080 pixels, 100 samples per pixel, 10 bounces, focal length 1, at the origin.
    pub fn default() -> (r: Camera)
        ensures
            r == (Camera {
                width: 1920,
                height: 1080,
                samples_per_pixel: 100,
                max_ray_bounces: 10,
                focal_length: ONE,
                center: Vec3 { x: 0, y: 0, z: 0 },
            }),
            r.wf(),
    {
        Camera::new(1920, 1080, 100, 10, ONE, Vec3::new(0, 0, 0))
    }

    /// The ray through pixel `(i, j)` displaced by the jitter `(ox, oy)`.
    pub fn ray_through(&self, i: u32, j: u32, ox: i64, oy: i64) -> (r: Ray)
        requires
            self.wf(),
            i < self.width,
            j < self.height,
            is_offset(ox as int),
            is_offset(oy as int),
        ensures
            r == camera_ray_of(*self, i as int, j as int, ox as int, oy as int),
            r.wf(),
    {
        let w = self.width as i64;
        let h = self.height as i64;
        let xs: i64 = (i as i64) * ONE + ONE / 2 + ox;
        let ys: i64 = (j as i64) * ONE + ONE / 2 + oy;
        proof {
            assert(0 <= xs <= w * ONE && 0 <= ys <= h * ONE) by (nonlinear_arith)
                requires
                    xs == i * ONE + ONE / 2 + ox,
                    ys == j * ONE + ONE / 2 + oy,
                    0 <= i < w,
                    0 <= j < h,
                    -ONE / 2 <= ox < ONE / 2,
                    -ONE / 2 <= oy < ONE / 2,
            ;
            assert(w * ONE <= (MAX_ASPECT as int) * ONE * h) by (nonlinear_arith)
                requires
                    w <= MAX_ASPECT * h,
            ;
            assert(h * ONE <= (MAX_ASPECT as int) * ONE * h) by (nonlinear_arith)
                requires
                    1 <= h,
            ;
        }
        let ghost m: int = (MAX_ASPECT as int) * ONE;
        assert(-m * h <= 2 * xs - w * ONE <= m * h);
        assert(-m * h <= h * ONE - 2 * ys <= m * h);
        let x = grid_coord(2 * xs - w * ONE, h);
        let y = grid_coord(h * ONE - 2 * ys, h);
        Ray::new(self.center, Vec3::new(x, y, -self.focal_length))
    }

    /// A jittered camera ray through pixel `(i, j)`.
    pub fn get_ray(&self, i: u32, j: u32, rng: &mut SmallRng) -> (r: Ray)
        requires
            self.wf(),
            i < self.width,
            j < self.height,
        ensures
            exists|ox: int, oy: int|
                is_offset(ox) && is_offset(oy) && r == #[trigger] camera_ray_of(
                    *self,
                    i as int,
                    j as int,
                    ox,
                    oy,
                ),
            r.wf(),
    {
        let (ox, oy) = sample_square(rng);
        self.ray_through(i, j, ox, oy)
    }
}

impl Camera {
    /// Pixel `(i, j)`: `samples_per_pixel` jittered estimates, averaged and encoded.
    pub fn render_pixel<T: Hittable>(&self, world: &T, i: u32, j: u32, rng: &mut SmallRng) -> (r: (
        u8,
        u8,
        u8,
    ))
        requires
            self.wf(),
            world.hittable_wf(),
            i < self.width,
            j < self.height,
        ensures
            is_pixel_of(*self, *world, i as int, j as int, r),
    {
        let ghost mut cs: Seq<Color> = Seq::empty();
        let mut sr: i64 = 0;
        let mut sg: i64 = 0;
        let mut sb: i64 = 0;
        let mut k: u32 = 0;
        while k < self.samples_per_pixel
            invariant
                self.wf(),
                world.hittable_wf(),
                i < self.width,
                j < self.height,
                k <= self.samples_per_pixel,
                cs.len() == k,
                (sr as int, sg as int, sb as int) == channel_sums(cs),
                0 <= sr <= k * ONE,
                0 <= sg <= k * ONE,
                0 <= sb <= k * ONE,
                forall|m: int| 0 <= m < cs.len() ==> is_sample_of(*self, *world, i as int, j as int, #[trigger] cs[m]),
            decreases self.samples_per_pixel - k,
        {
            let ray = self.get_ray(i, j, rng);
            let c = ray_color(&ray, world, self.max_ray_bounces, rng);
            proof {
                let (ox, oy) = choose|ox: int, oy: int|
                    is_offset(ox) && is_offset(oy) && ray == #[trigger] camera_ray_of(*self, i as int, j as int, ox, oy);
                let d = choose|d: Seq<Vec3>| all_drawn(d) && c == #[trigger] radiance(*world, ray, self.max_ray_bounces as nat, d);
                assert(c == radiance(*world, camera_ray_of(*self, i as int, j as int, ox, oy), self.max_ray_bounces as nat, d));
                assert(is_sample_of(*self, *world, i as int, j as int, c));
                let next = cs.push(c);
                assert(next.drop_last() =~= cs);
                assert forall|m: int| 0 <= m < next.len() implies is_sample_of(*self, *world, i as int, j as int, #[trigger] next[m]) by {
                    if m < cs.len() {
                        assert(next[m] == cs[m]);
                    }
                }
                cs = next;
            }
            sr = sr + c.r;
            sg = sg + c.g;
            sb = sb + c.b;
            k = k + 1;
        }
        let n = self.samples_per_pixel as i64;
        let r = (encode_channel(sr / n), encode_channel(sg / n), encode_channel(sb / n));
        proof {
            assert(cs.len() as int == n as int);
            assert(r == pixel_of(cs));
        }
        r
    }

    /// One image row, its generator seeded by the row index alone: the row depends on no
    /// other row and on no order of work.
    pub fn render_row<T: Hittable>(&self, world: &T, j: u32) -> (r: Vec<(u8, u8, u8)>)
        requires
            self.wf(),
            world.hittable_wf(),
            j < self.height,
        ensures
            r@.len() == self.width,
            forall|i: int| 0 <= i < r@.len() ==> is_pixel_of(*self, *world, i, j as int, #[trigger] r@[i]),
    {
        let mut rng = seeded_rng(j as u64);
        let mut row: Vec<(u8, u8, u8)> = Vec::new();
        let mut i: u32 = 0;
        while i < self.width
            invariant
                self.wf(),
                world.hittable_wf(),
                j < self.height,
                i <= self.width,
                row@.len() == i,
                forall|m: int| 0 <= m < row@.len() ==> is_pixel_of(*self, *world, m, j as int, #[trigger] row@[m]),
            decreases self.width - i,
        {
            let p = self.render_pixel(world, i, j, &mut rng);
            row.push(p);
            i = i + 1;
        }
        row
    }
}

impl Camera {
    /// The whole image, row by row from the top. Each row comes from `render_row`, so the
    /// image is the same whatever order (or however many workers) the rows are rendered in.
    pub fn render<T: Hittable>(&self, world: &T) -> (img: Vec<Vec<(u8, u8, u8)>>)
        requires
            self.wf(),
            world.hittable_wf(),
        ensures
            img@.len() == self.height,
            forall|j: int|
                0 <= j < img@.len() ==> (#[trigger] img@[j])@.len() == self.width && (forall|i: int|
                    0 <= i < self.width ==> is_pixel_of(*self, *world, i, j, #[trigger] img@[j]@[i])),
    {
        let mut img: Vec<Vec<(u8, u8, u8)>> = Vec::new();
        let mut j: u32 = 0;
        while j < self.height
            invariant
                self.wf(),
                world.hittable_wf(),
                j <= self.height,
                img@.len() == j,
                forall|m: int|
                    0 <= m < img@.len() ==> (#[trigger] img@[m])@.len() == self.width && (forall|i: int|
                        0 <= i < self.width ==> is_pixel_of(*self, *world, i, m, #[trigger] img@[m]@[i])),
            decreases self.height - j,
        {
            let row = self.render_row(world, j);
            img.push(row);
            j = j + 1;
        }
        img
    }
}

/// The channel sums of black samples are zero.
proof fn lemma_black_sums(cs: Seq<Color>)
    requires
        forall|k: int| 0 <= k < cs.len() ==> #[trigger] cs[k] == black(),
    ensures
        channel_sums(cs) == (0int, 0int, 0int),
    decreases cs.len(),
{
    if cs.len() > 0 {
        let rest = cs.drop_last();
        assert forall|k: int| 0 <= k < rest.len() implies #[trigger] rest[k] == black() by {
            assert(rest[k] == cs[k]);
        }
        lemma_black_sums(rest);
        assert(cs.last() == cs[cs.len() - 1]);
    }
}

/// With one bounce, a pixel every one of whose jittered camera rays hits the scene is
/// rendered black.
pub proof fn lemma_one_bounce_pixel_on_scene_is_black<T: Hittable>(
    cam: Camera,
    world: T,
    i: int,
    j: int,
    p: (u8, u8, u8),
)
    requires
        cam.wf(),
        cam.max_ray_bounces == 1,
        is_pixel_of(cam, world, i, j, p),
        forall|ox: int, oy: int|
            is_offset(ox) && is_offset(oy) ==> (#[trigger] world.hit_spec(
                camera_ray_of(cam, i, j, ox, oy),
                render_interval(),
            )) is Some,
    ensures
        p == (0u8, 0u8, 0u8),
{
    let cs = choose|cs: Seq<Color>|
        cs.len() == cam.samples_per_pixel && (forall|k: int|
            0 <= k < cs.len() ==> is_sample_of(cam, world, i, j, #[trigger] cs[k])) && p
            == #[trigger] pixel_of(cs);
    assert forall|k: int| 0 <= k < cs.len() implies #[trigger] cs[k] == black() by {
        assert(is_sample_of(cam, world, i, j, cs[k]));
        let (ox, oy, d) = choose|ox: int, oy: int, draws: Seq<Vec3>|
            is_offset(ox) && is_offset(oy) && all_drawn(draws) && cs[k] == #[trigger] radiance(
                world,
                camera_ray_of(cam, i, j, ox, oy),
                cam.max_ray_bounces as nat,
                draws,
            );
        assert(world.hit_spec(camera_ray_of(cam, i, j, ox, oy), render_interval()) is Some);
        lemma_one_bounce_hit_is_black(world, camera_ray_of(cam, i, j, ox, oy), d);
    }
    lemma_black_sums(cs);
    crate::fixed::lemma_isqrt_unique(0, 0);
    assert(gamma_of(0) == 0);
    assert(byte_of(0) == 0);
    let n = cs.len() as int;
    assert(n >= 1);
    assert(0int / n == 0) by {
        vstd::arithmetic::div_mod::lemma_div_basics(n);
    }
    assert(pixel_of(cs) == (0u8, 0u8, 0u8));
}

} // verus!
