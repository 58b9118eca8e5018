use vstd::prelude::*;
use rand::rngs::SmallRng;
use crate::fixed::{Vec3, ONE, dot, dot_of, neg_of, unit_of, lemma_unit_bounded};

verus! {

#[verifier::external_type_specification]
#[verifier::external_body]
pub struct ExSmallRng(SmallRng);

/// Relies on rand's `SeedableRng::seed_from_u64` for `SmallRng`: a generator whose stream
/// depends on the seed alone.
#[verifier::external_body]
pub(crate) fn seeded_rng(seed: u64) -> (r: SmallRng) {
    <SmallRng as rand::SeedableRng>::seed_from_u64(seed)
}

/// Relies on rand's `Rng::random_range` over `lo..hi`: a value in the half-open range
/// (it panics on an empty range, which `requires` excludes).
#[verifier::external_body]
pub(crate) fn draw_in(rng: &mut SmallRng, lo: i64, hi: i64) -> (r: i64)
    requires
        lo < hi,
    ensures
        lo <= r < hi,
{
    rand::Rng::random_range(rng, lo..hi)
}

/// A random unit vector as the diffuse material samples it: a candidate accepted with
/// squared length in `(0, ONE * ONE]`, then normalised.
pub open spec fn is_sampled_unit(u: Vec3) -> bool {
    exists|p: Vec3| #[trigger] unit_of(p) == u && 0 < dot_of(p, p) <= ONE * ONE && p.wf()
}

/// A vector `random_unit` can return: a sampled unit vector, or the fallback along `y`.
pub open spec fn is_drawn_unit(u: Vec3) -> bool {
    is_sampled_unit(u) || u == (Vec3 { x: 0, y: ONE, z: 0 })
}

/// Every vector of `draws` is one `random_unit` can return.
pub open spec fn all_drawn(draws: Seq<Vec3>) -> bool {
    forall|k: int| 0 <= k < draws.len() ==> is_drawn_unit(#[trigger] draws[k])
}

/// The result of rejection sampling on one candidate.
pub open spec fn accepted_of(p: Vec3) -> Option<Vec3> {
    if 0 < dot_of(p, p) <= ONE * ONE {
        Some(unit_of(p))
    } else {
        None
    }
}

/// A vector `random_unit` can return lies within unit bounds.
pub proof fn lemma_drawn_unit_bounded(u: Vec3)
    requires
        is_drawn_unit(u),
    ensures
        u.is_unit_bounded(),
        u.wf(),
{
    if is_sampled_unit(u) {
        let p = choose|p: Vec3| #[trigger] unit_of(p) == u && 0 < dot_of(p, p) <= ONE * ONE && p.wf();
        assert(!p.is_zero()) by {
            if p.is_zero() {
                assert(p.x * p.x + p.y * p.y + p.z * p.z == 0) by (nonlinear_arith)
                    requires
                        p.x == 0,
                        p.y == 0,
                        p.z == 0,
                ;
            }
        }
        lemma_unit_bounded(p);
    }
}

/// The acceptance test of rejection sampling: a candidate whose squared length lies in
/// `(0, ONE * ONE]` is kept and normalised; any other is rejected.
pub fn accept_candidate(p: &Vec3) -> (r: Option<Vec3>)
    requires
        p.wide(),
    ensures
        r == accepted_of(*p),
        p.wf() ==> (r matches Some(u) ==> is_sampled_unit(u)),
{
    let l = p.norm();
    if 0 < l && l <= 0x1_0000_0000 {
        assert(!p.is_zero()) by {
            if p.is_zero() {
                assert(p.x * p.x + p.y * p.y + p.z * p.z == 0) by (nonlinear_arith)
                    requires
                        p.x == 0,
                        p.y == 0,
                        p.z == 0,
                ;
            }
        }
        let u = p.unit();
        assert(unit_of(*p) == u);
        Some(u)
    } else {
        None
    }
}

/// Most candidates drawn before giving up on rejection sampling.
pub const MAX_TRIES: u32 = 1000;

impl Vec3 {
    /// A random unit vector: uniform candidates in the cube `[-1, 1)^3`, rejected until one
    /// lies in the unit ball (and is not the origin), then normalised. After `MAX_TRIES`
    /// rejections (probability below 10^-300) the unit vector along `y` is returned.
    pub fn random_unit(rng: &mut SmallRng) -> (r: Vec3)
        ensures
            r.is_unit_bounded(),
            r.wf(),
            is_drawn_unit(r),
    {
        let mut tries: u32 = 0;
        while tries < MAX_TRIES
            invariant
                tries <= MAX_TRIES,
            decreases MAX_TRIES - tries,
        {
            let p = Vec3::random_range(-ONE, ONE, rng);
            assert(p.wf() && p.wide());
            if let Some(u) = accept_candidate(&p) {
                proof {
                    lemma_drawn_unit_bounded(u);
                }
                return u;
            }
            tries = tries + 1;
        }
        Vec3::new(0, ONE, 0)
    }

    /// A vector with each component drawn uniformly from `[0, 1)`.
    pub fn random(rng: &mut SmallRng) -> (r: Vec3)
        ensures
            0 <= r.x < ONE,
            0 <= r.y < ONE,
            0 <= r.z < ONE,
    {
        Vec3::random_range(0, ONE, rng)
    }

    /// A random unit vector turned into the hemisphere around `normal`.
    pub fn random_on_hemisphere(normal: &Vec3, rng: &mut SmallRng) -> (r: Vec3)
        requires
            normal.wide(),
        ensures
            r.is_unit_bounded(),
            dot_of(r, *normal) >= 0,
            exists|u: Vec3|
                is_drawn_unit(u) && r == (if dot_of(u, *normal) < 0 {
                    neg_of(u)
                } else {
                    u
                }),
    {
        let u = Vec3::random_unit(rng);
        if dot(&u, normal) < 0 {
            assert(dot_of(neg_of(u), *normal) == -dot_of(u, *normal)) by (nonlinear_arith)
                requires
                    neg_of(u).x == -u.x,
                    neg_of(u).y == -u.y,
                    neg_of(u).z == -u.z,
            ;
            u.negated()
        } else {
            u
        }
    }

    /// A vector with each component drawn uniformly from `[min, max)`.
    pub fn random_range(min: i64, max: i64, rng: &mut SmallRng) -> (r: Vec3)
        requires
            min < max,
        ensures
            min <= r.x < max,
            min <= r.y < max,
            min <= r.z < max,
    {
        let x = draw_in(rng, min, max);
        let y = draw_in(rng, min, max);
        let z = draw_in(rng, min, max);
        Vec3::new(x, y, z)
    }
}

} // verus!
