use vstd::prelude::*;

verus! {

/// Fixed-point scale: a real value `x` is held as the integer `x * ONE`.
pub const ONE: i64 = 65536;

/// Largest magnitude of a coordinate of a point or a direction (4096 world units).
pub const LIMIT: i64 = 268435456;

/// Largest magnitude of a component of a ray direction (512 world units): an eighth of
/// `LIMIT`, so that a mirror reflection of a direction stays representable.
pub const DIR_LIMIT: i64 = 33554432;

/// Largest magnitude of a component of an intermediate vector, such as a difference of points.
pub const WIDE_LIMIT: i64 = 1073741824;

/// `n / d` rounded toward negative infinity (Verus's `/` on `int` for a positive divisor).
pub fn div_floor(n: i128, d: i128) -> (r: i128)
    requires
        d > 0,
        n > i128::MIN,
    ensures
        r == n / d,
{
    if n >= 0 {
        n / d
    } else {
        let m: i128 = -n - 1;
        let q: i128 = m / d;
        proof {
            let qi = m as int / d as int;
            let ri = m as int % d as int;
            assert(m == d * qi + ri && 0 <= ri < d) by {
                vstd::arithmetic::div_mod::lemma_fundamental_div_mod(m as int, d as int);
            }
            assert(n == d * (-qi - 1) + (d - 1 - ri)) by (nonlinear_arith)
                requires
                    m == d * qi + ri,
                    m == -n - 1,
            ;
            vstd::arithmetic::div_mod::lemma_fundamental_div_mod_converse(
                n as int,
                d as int,
                -qi - 1,
                d - 1 - ri,
            );
        }
        -q - 1
    }
}

/// The integer square root: the largest `s` with `s * s <= n`.
pub open spec fn is_isqrt(n: int, s: int) -> bool {
    0 <= s && s * s <= n < (s + 1) * (s + 1)
}

/// The integer square root of a non-negative `n`.
pub open spec fn sqrt_floor(n: int) -> int {
    choose|s: int| is_isqrt(n, s)
}

/// The integer square root is unique.
pub proof fn lemma_isqrt_unique(n: int, s: int)
    requires
        is_isqrt(n, s),
    ensures
        sqrt_floor(n) == s,
{
    let t = sqrt_floor(n);
    assert(is_isqrt(n, t));
    assert(t == s) by (nonlinear_arith)
        requires
            0 <= s,
            s * s <= n < (s + 1) * (s + 1),
            0 <= t,
            t * t <= n < (t + 1) * (t + 1),
    {
        if t < s {
            assert((t + 1) * (t + 1) <= s * s);
        } else if s < t {
            assert((s + 1) * (s + 1) <= t * t);
        }
    }
}

/// A component no larger in magnitude than the integer square root of a sum of squares
/// that holds its own square.
pub proof fn lemma_component_below_root(c: int, n: int)
    requires
        c * c <= n,
        is_isqrt(n, sqrt_floor(n)),
    ensures
        -sqrt_floor(n) <= c <= sqrt_floor(n),
{
    let l = sqrt_floor(n);
    assert(-l <= c <= l) by (nonlinear_arith)
        requires
            c * c <= n < (l + 1) * (l + 1),
            0 <= l,
    {
        if c > l {
            assert(c * c >= (l + 1) * (l + 1));
        } else if c < -l {
            assert(c * c >= (l + 1) * (l + 1));
        }
    }
}

/// Integer square root by bisection.
pub fn isqrt(n: u128) -> (r: u128)
    requires
        n < 0x4000_0000_0000_0000_0000_0000_0000_0000,
    ensures
        is_isqrt(n as int, r as int),
        r == sqrt_floor(n as int),
        r < 0x8000_0000_0000_0000,
{
    let mut lo: u128 = 0;
    let mut hi: u128 = 0x8000_0000_0000_0000;
    assert(hi * hi == 0x4000_0000_0000_0000_0000_0000_0000_0000);
    while hi - lo > 1
        invariant
            lo < hi <= 0x8000_0000_0000_0000,
            lo * lo <= n < hi * hi,
        decreases hi - lo,
    {
        let mid: u128 = lo + (hi - lo) / 2;
        assert(mid * mid <= 0x4000_0000_0000_0000_0000_0000_0000_0000) by (nonlinear_arith)
            requires
                mid <= 0x8000_0000_0000_0000,
        ;
        if mid * mid <= n {
            lo = mid;
        } else {
            hi = mid;
        }
    }
    assert(hi == lo + 1);
    proof {
        lemma_isqrt_unique(n as int, lo as int);
    }
    lo
}

/// A vector of three fixed-point components: a point, a direction or a normal.
#[derive(Clone, Copy, Debug, PartialEq, Eq)]
pub struct Vec3 {
    pub x: i64,
    pub y: i64,
    pub z: i64,
}

/// A coordinate that stays within the representable world.
pub open spec fn in_range(c: int) -> bool {
    -LIMIT <= c <= LIMIT
}

/// A component of an intermediate vector.
pub open spec fn in_wide_range(c: int) -> bool {
    -WIDE_LIMIT <= c <= WIDE_LIMIT
}

/// Dot product of two vectors, in squared units.
pub open spec fn dot_of(a: Vec3, b: Vec3) -> int {
    a.x * b.x + a.y * b.y + a.z * b.z
}

pub proof fn lemma_component_product(a: int, b: int)
    requires
        in_wide_range(a),
        in_wide_range(b),
    ensures
        -0x1000_0000_0000_0000 <= a * b <= 0x1000_0000_0000_0000,
{
    assert(-0x1000_0000_0000_0000 <= a * b <= 0x1000_0000_0000_0000) by (nonlinear_arith)
        requires
            -0x4000_0000 <= a <= 0x4000_0000,
            -0x4000_0000 <= b <= 0x4000_0000,
    ;
}

pub proof fn lemma_dot_bound(a: Vec3, b: Vec3)
    requires
        a.wide(),
        b.wide(),
    ensures
        -0x3000_0000_0000_0000 <= dot_of(a, b) <= 0x3000_0000_0000_0000,
{
    lemma_component_product(a.x as int, b.x as int);
    lemma_component_product(a.y as int, b.y as int);
    lemma_component_product(a.z as int, b.z as int);
}

impl Vec3 {
    pub open spec fn wf(&self) -> bool {
        in_range(self.x as int) && in_range(self.y as int) && in_range(self.z as int)
    }

    pub open spec fn wide(&self) -> bool {
        in_wide_range(self.x as int) && in_wide_range(self.y as int) && in_wide_range(self.z as int)
    }

    /// Each component lies within the range of a ray direction.
    pub open spec fn is_direction(&self) -> bool {
        -DIR_LIMIT <= self.x <= DIR_LIMIT && -DIR_LIMIT <= self.y <= DIR_LIMIT && -DIR_LIMIT
            <= self.z <= DIR_LIMIT
    }

    pub open spec fn is_zero(&self) -> bool {
        self.x == 0 && self.y == 0 && self.z == 0
    }

    pub fn new(x: i64, y: i64, z: i64) -> (r: Vec3)
        ensures
            r.x == x,
            r.y == y,
            r.z == z,
    {
        Vec3 { x, y, z }
    }

    /// Squared length, in squared units.
    pub fn norm(&self) -> (r: i128)
        requires
            self.wide(),
        ensures
            r == dot_of(*self, *self),
            0 <= r <= 0x3000_0000_0000_0000,
    {
        proof {
            lemma_dot_bound(*self, *self);
            assert(dot_of(*self, *self) >= 0) by (nonlinear_arith);
        }
        dot(self, self)
    }

    /// Length, rounded down to a whole unit.
    pub fn length(&self) -> (r: i64)
        requires
            self.wide(),
        ensures
            is_isqrt(dot_of(*self, *self), r as int),
            r == sqrt_floor(dot_of(*self, *self)),
            0 <= r < 0x8000_0000,
    {
        let n = self.norm();
        let s = isqrt(n as u128);
        proof {
            assert(s < 0x8000_0000) by (nonlinear_arith)
                requires
                    s * s <= n,
                    n <= 0x3000_0000_0000_0000,
            ;
        }
        s as i64
    }

    pub fn plus(&self, o: &Vec3) -> (r: Vec3)
        requires
            self.wf(),
            o.wf(),
        ensures
            r == sum_of(*self, *o),
            r.wide(),
    {
        Vec3 { x: self.x + o.x, y: self.y + o.y, z: self.z + o.z }
    }

    pub fn minus(&self, o: &Vec3) -> (r: Vec3)
        requires
            self.wf(),
            o.wf(),
        ensures
            r == diff_of(*self, *o),
            r.wide(),
    {
        Vec3 { x: self.x - o.x, y: self.y - o.y, z: self.z - o.z }
    }

    pub fn negated(&self) -> (r: Vec3)
        requires
            self.wf(),
        ensures
            r == neg_of(*self),
            r.wf(),
    {
        Vec3 { x: -self.x, y: -self.y, z: -self.z }
    }

    /// The vector scaled to unit length (`ONE`), each component rounded down.
    pub fn unit(&self) -> (r: Vec3)
        requires
            self.wide(),
            !self.is_zero(),
        ensures
            r == unit_of(*self),
            r.is_unit_bounded(),
    {
        let n = self.norm();
        proof {
            lemma_length_bounds(*self);
        }
        let l = isqrt((n as u128) * 0x1_0000_0000) as i128;
        let x = scale_by_root(self.x, l);
        let y = scale_by_root(self.y, l);
        let z = scale_by_root(self.z, l);
        Vec3 { x, y, z }
    }

    /// The vector times a fixed-point scalar `k`, each component rounded down.
    pub fn scaled(&self, k: i64) -> (r: Vec3)
        requires
            self.wf(),
            -0x100_0000 <= k <= 0x100_0000,
        ensures
            r == scaled_of(*self, k as int),
    {
        Vec3 { x: scale_component(self.x, k), y: scale_component(self.y, k), z: scale_component(self.z, k) }
    }

    /// The vector divided by a positive integer `d`, each component rounded down.
    pub fn divided(&self, d: i64) -> (r: Vec3)
        requires
            self.wf(),
            d > 0,
        ensures
            r == divided_of(*self, d as int),
            r.wf(),
    {
        proof {
            lemma_divided_in_range(self.x as int, d as int);
            lemma_divided_in_range(self.y as int, d as int);
            lemma_divided_in_range(self.z as int, d as int);
        }
        Vec3 {
            x: div_floor(self.x as i128, d as i128) as i64,
            y: div_floor(self.y as i128, d as i128) as i64,
            z: div_floor(self.z as i128, d as i128) as i64,
        }
    }

    /// Degeneracy test: every component is below one unit in magnitude.
    pub fn near_zero(&self) -> (r: bool)
        ensures
            r == self.is_zero(),
    {
        -NEAR_ZERO < self.x && self.x < NEAR_ZERO && -NEAR_ZERO < self.y && self.y < NEAR_ZERO
            && -NEAR_ZERO < self.z && self.z < NEAR_ZERO
    }
}

/// A component scaled by `ONE` over a length at least its magnitude stays within `[-ONE, ONE]`.
pub proof fn lemma_scaled_component(c: int, l: int)
    requires
        0 < l,
        -l <= c <= l,
    ensures
        -ONE <= (c * ONE) / l <= ONE,
{
    assert(-ONE * l <= c * ONE <= ONE * l) by (nonlinear_arith)
        requires
            -l <= c <= l,
            0 < l,
    ;
    vstd::arithmetic::div_mod::lemma_div_is_ordered(c * ONE, ONE * l, l);
    vstd::arithmetic::div_mod::lemma_div_is_ordered(-ONE * l, c * ONE, l);
    vstd::arithmetic::div_mod::lemma_div_multiples_vanish(ONE as int, l);
    vstd::arithmetic::div_mod::lemma_div_multiples_vanish(-ONE as int, l);
    assert(ONE * l == l * ONE) by (nonlinear_arith);
    assert(-ONE * l == l * (-ONE)) by (nonlinear_arith);
}

/// The length of a vector with sixteen extra fraction bits: the integer square root of
/// `ONE^2` times its squared length.
pub open spec fn fine_length(v: Vec3) -> int {
    sqrt_floor(dot_of(v, v) * ONE * ONE)
}

/// The fine length of a non-zero vector is positive and bounds each component times `ONE`.
pub proof fn lemma_length_bounds(v: Vec3)
    requires
        v.wide(),
        !v.is_zero(),
    ensures
        0 < fine_length(v) < 0x8000_0000_0000,
        -fine_length(v) <= v.x * ONE <= fine_length(v),
        -fine_length(v) <= v.y * ONE <= fine_length(v),
        -fine_length(v) <= v.z * ONE <= fine_length(v),
        0 <= dot_of(v, v) * ONE * ONE < 0x4000_0000_0000_0000_0000_0000_0000_0000,
{
    let ni = dot_of(v, v);
    let big = ni * ONE * ONE;
    lemma_dot_bound(v, v);
    assert(v.x * v.x <= ni && v.y * v.y <= ni && v.z * v.z <= ni) by (nonlinear_arith)
        requires
            ni == v.x * v.x + v.y * v.y + v.z * v.z,
    ;
    assert(ni > 0) by (nonlinear_arith)
        requires
            ni == v.x * v.x + v.y * v.y + v.z * v.z,
            !(v.x == 0 && v.y == 0 && v.z == 0),
    {
        if v.x != 0 {
            assert(v.x * v.x > 0);
        } else if v.y != 0 {
            assert(v.y * v.y > 0);
        } else {
            assert(v.z * v.z > 0);
        }
    }
    assert(ONE <= big <= 0x3000_0000_0000_0000 * 0x1_0000_0000) by (nonlinear_arith)
        requires
            0 < ni <= 0x3000_0000_0000_0000,
            big == ni * ONE * ONE,
    ;
    lemma_isqrt_exists(big);
    let l = sqrt_floor(big);
    assert(0 < l < 0x8000_0000_0000) by (nonlinear_arith)
        requires
            l * l <= big < (l + 1) * (l + 1),
            ONE <= big <= 0x3000_0000_0000_0000 * 0x1_0000_0000,
            0 <= l,
    {
        if l == 0 {
            assert((l + 1) * (l + 1) == 1);
        }
        if l >= 0x8000_0000_0000 {
            assert(l * l >= 0x8000_0000_0000 * 0x8000_0000_0000);
        }
    }
    assert((v.x * ONE) * (v.x * ONE) <= big && (v.y * ONE) * (v.y * ONE) <= big && (v.z * ONE) * (
    v.z * ONE) <= big) by (nonlinear_arith)
        requires
            v.x * v.x <= ni,
            v.y * v.y <= ni,
            v.z * v.z <= ni,
            big == ni * ONE * ONE,
    ;
    lemma_component_below_root(v.x * ONE, big);
    lemma_component_below_root(v.y * ONE, big);
    lemma_component_below_root(v.z * ONE, big);
}

/// Every non-negative integer below the bisection bound has an integer square root.
pub proof fn lemma_isqrt_exists(n: int)
    requires
        0 <= n < 0x4000_0000_0000_0000_0000_0000_0000_0000,
    ensures
        is_isqrt(n, sqrt_floor(n)),
{
    let s = isqrt_witness(n, 0, 0x8000_0000_0000_0000);
    lemma_isqrt_unique(n, s);
}

/// The integer square root of a non-negative number is never negative.
pub proof fn lemma_isqrt_exists_any(n: int)
    requires
        n >= 0,
    ensures
        sqrt_floor(n) >= 0,
{
    let hi = n + 1;
    assert(n < hi * hi) by (nonlinear_arith)
        requires
            n >= 0,
            hi == n + 1,
    ;
    let s = isqrt_witness(n, 0, hi);
    lemma_isqrt_unique(n, s);
}

proof fn isqrt_witness(n: int, lo: int, hi: int) -> (s: int)
    requires
        0 <= lo < hi,
        lo * lo <= n < hi * hi,
    ensures
        is_isqrt(n, s),
    decreases hi - lo,
{
    if hi - lo <= 1 {
        lo
    } else {
        let mid = lo + (hi - lo) / 2;
        if mid * mid <= n {
            isqrt_witness(n, mid, hi)
        } else {
            isqrt_witness(n, lo, mid)
        }
    }
}

/// The unit vector of a non-zero vector lies within unit bounds.
pub proof fn lemma_unit_bounded(v: Vec3)
    requires
        v.wide(),
        !v.is_zero(),
    ensures
        unit_of(v).is_unit_bounded(),
        unit_of(v).wf(),
{
    lemma_length_bounds(v);
    let l = fine_length(v);
    lemma_scaled_component(v.x * ONE, l);
    lemma_scaled_component(v.y * ONE, l);
    lemma_scaled_component(v.z * ONE, l);
}

proof fn lemma_unit_component_square(vc: int, l: int, u: int)
    requires
        l > 0,
        -l <= vc * ONE <= l,
        u == vc * ONE * ONE / l,
    ensures
        (l * u) * (l * u) <= (vc * ONE * ONE) * (vc * ONE * ONE) + 2 * l * (l * ONE) + l * l,
        (l * u) * (l * u) >= (vc * ONE * ONE) * (vc * ONE * ONE) - 2 * l * (l * ONE),
{
    let w = vc * ONE * ONE;
    let one = ONE as int;
    vstd::arithmetic::div_mod::lemma_fundamental_div_mod(w, l);
    let rem = w % l;
    assert(w == l * u + rem);
    let aw = if w >= 0 { w } else { -w };
    assert(aw <= l * one) by (nonlinear_arith)
        requires
            -l <= vc * one <= l,
            w == vc * one * one,
            aw == (if w >= 0 { w } else { -w }),
            one > 0,
    {
        assert(w == (vc * one) * one);
        if w >= 0 {
            assert((vc * one) * one <= l * one);
        } else {
            assert(-((vc * one) * one) <= l * one);
        }
    }
    let x = l * u;
    assert(x * x <= w * w + 2 * l * aw + l * l && x * x >= w * w - 2 * l * aw) by (nonlinear_arith)
        requires
            w == x + rem,
            0 <= rem < l,
            aw == (if w >= 0 { w } else { -w }),
            l > 0,
    {
        if w >= 0 {
            if x >= 0 {
                assert(x <= w);
            }
        }
    }
    assert(2 * l * aw <= 2 * l * (l * one)) by (nonlinear_arith)
        requires
            aw <= l * one,
            l > 0,
    ;
}

proof fn lemma_square_scaled(c: int, one: int)
    ensures
        (c * one * one) * (c * one * one) == one * one * (one * one) * (c * c),
{
    assert((c * one * one) * (c * one * one) == one * one * (one * one) * (c * c)) by (nonlinear_arith);
}

proof fn lemma_square_scaled2(l: int, u: int)
    ensures
        (l * u) * (l * u) == l * l * (u * u),
{
    assert((l * u) * (l * u) == l * l * (u * u)) by (nonlinear_arith);
}

/// A unit vector as `unit` computes it has squared length within `8 ONE + 4` of `ONE^2`:
/// `ONE^2 - 6 ONE <= u . u < ONE^2 + 8 ONE + 4`.
pub proof fn lemma_unit_norm_close(v: Vec3)
    requires
        v.wide(),
        !v.is_zero(),
    ensures
        ONE * ONE - 6 * ONE <= dot_of(unit_of(v), unit_of(v)) < ONE * ONE + 8 * ONE + 4,
{
    lemma_length_bounds(v);
    lemma_unit_bounded(v);
    let l = fine_length(v);
    let u = unit_of(v);
    let one = ONE as int;
    let n = dot_of(v, v);
    let big = n * one * one;
    lemma_isqrt_exists(big);
    lemma_scaled_component(v.x * ONE, l);
    lemma_scaled_component(v.y * ONE, l);
    lemma_scaled_component(v.z * ONE, l);
    assert(u.x == v.x * ONE * ONE / l);
    assert(u.y == v.y * ONE * ONE / l);
    assert(u.z == v.z * ONE * ONE / l);
    lemma_unit_component_square(v.x as int, l, u.x as int);
    lemma_unit_component_square(v.y as int, l, u.y as int);
    lemma_unit_component_square(v.z as int, l, u.z as int);
    let wx = v.x * one * one;
    let wy = v.y * one * one;
    let wz = v.z * one * one;
    let ww = wx * wx + wy * wy + wz * wz;
    let s4 = one * one * (one * one);
    lemma_square_scaled(v.x as int, one);
    lemma_square_scaled(v.y as int, one);
    lemma_square_scaled(v.z as int, one);
    assert(big == n * (one * one)) by (nonlinear_arith)
        requires
            big == n * one * one,
    ;
    vstd::arithmetic::mul::lemma_mul_is_distributive_add(s4, v.x * v.x, v.y * v.y);
    vstd::arithmetic::mul::lemma_mul_is_distributive_add(s4, v.x * v.x + v.y * v.y, v.z * v.z);
    assert(ww == s4 * n);
    assert(s4 * n == one * one * big) by (nonlinear_arith)
        requires
            s4 == one * one * (one * one),
            big == n * (one * one),
    ;
    let uu = dot_of(u, u);
    let lu = (l * u.x) * (l * u.x) + (l * u.y) * (l * u.y) + (l * u.z) * (l * u.z);
    lemma_square_scaled2(l, u.x as int);
    lemma_square_scaled2(l, u.y as int);
    lemma_square_scaled2(l, u.z as int);
    vstd::arithmetic::mul::lemma_mul_is_distributive_add(l * l, u.x * u.x, u.y * u.y);
    vstd::arithmetic::mul::lemma_mul_is_distributive_add(l * l, u.x * u.x + u.y * u.y, u.z * u.z);
    assert(lu == l * l * uu);
    let k = l * (l * one);
    assert(2 * l * (l * ONE) == 2 * k) by (nonlinear_arith)
        requires
            k == l * (l * one),
            one == ONE,
    ;
    assert(6 * l * (l * one) == 6 * k) by (nonlinear_arith)
        requires
            k == l * (l * one),
    ;
    assert(wx == v.x * ONE * ONE && wy == v.y * ONE * ONE && wz == v.z * ONE * ONE);
    let ax = (l * u.x) * (l * u.x);
    let ay = (l * u.y) * (l * u.y);
    let az = (l * u.z) * (l * u.z);
    let m = l * l;
    assert(ax <= wx * wx + 2 * k + m);
    assert(ay <= wy * wy + 2 * k + m);
    assert(az <= wz * wz + 2 * k + m);
    assert(lu == ax + ay + az);
    assert(lu <= ww + 6 * k + 3 * m);
    assert(lu <= ww + 6 * l * (l * one) + 3 * (l * l));
    assert(lu >= ww - 6 * l * (l * one));
    assert(l * l <= big < (l + 1) * (l + 1));
    assert(n >= 1) by (nonlinear_arith)
        requires
            big == n * one * one,
            l * l <= big,
            l > 0,
            one > 0,
    {
        if n <= 0 {
            assert(n * one * one <= 0);
        }
    }
    assert(one * one <= big) by (nonlinear_arith)
        requires
            n >= 1,
            big == n * one * one,
    {
    }
    assert(l >= one) by (nonlinear_arith)
        requires
            one * one <= big < (l + 1) * (l + 1),
            l >= 0,
            one > 0,
    {
        if l < one {
            assert((l + 1) * (l + 1) <= one * one);
        }
    }
    assert(l * l * uu >= l * l * (one * one - 6 * one)) by (nonlinear_arith)
        requires
            l * l * uu >= ww - 6 * l * (l * one),
            ww == one * one * big,
            big >= l * l,
    ;
    assert(uu >= one * one - 6 * one) by (nonlinear_arith)
        requires
            l * l * uu >= l * l * (one * one - 6 * one),
            l > 0,
    ;
    assert(l * l * uu < l * l * (one * one + 8 * one + 4)) by (nonlinear_arith)
        requires
            l * l * uu <= ww + 6 * l * (l * one) + 3 * (l * l),
            ww == one * one * big,
            big < (l + 1) * (l + 1),
            l >= one,
            one > 0,
    {
        assert(one * one * big < one * one * ((l + 1) * (l + 1)));
        assert(one * one * ((l + 1) * (l + 1)) == one * one * (l * l) + 2 * (one * one * l) + one
            * one);
        assert(one * one * l <= one * l * l);
        assert(one * one <= l * l);
    }
    assert(uu < one * one + 8 * one + 4) by (nonlinear_arith)
        requires
            l * l * uu < l * l * (one * one + 8 * one + 4),
            l > 0,
    ;
}

/// `c * ONE * ONE / l`, rounded down, for a component with `|c * ONE| <= l`.
fn scale_by_root(c: i64, l: i128) -> (r: i64)
    requires
        0 < l < 0x8000_0000_0000,
        -l <= c * ONE <= l,
    ensures
        r == (c * ONE * ONE) / (l as int),
        -ONE <= r <= ONE,
{
    proof {
        lemma_scaled_component(c * ONE, l as int);
        assert(-0x8000_0000_0000 * ONE <= (c * ONE) * ONE <= 0x8000_0000_0000 * ONE) by (nonlinear_arith)
            requires
                -0x8000_0000_0000 <= c * ONE <= 0x8000_0000_0000,
        ;
    }
    let p: i128 = (c as i128) * (ONE as i128) * (ONE as i128);
    let q = div_floor(p, l);
    q as i64
}

/// Each component times the fixed-point scalar `k`, rounded down.
pub open spec fn scaled_of(v: Vec3, k: int) -> Vec3 {
    Vec3 {
        x: (v.x * k / (ONE as int)) as i64,
        y: (v.y * k / (ONE as int)) as i64,
        z: (v.z * k / (ONE as int)) as i64,
    }
}

/// Each component divided by the integer `d`, rounded down.
pub open spec fn divided_of(v: Vec3, d: int) -> Vec3 {
    Vec3 { x: (v.x as int / d) as i64, y: (v.y as int / d) as i64, z: (v.z as int / d) as i64 }
}

proof fn lemma_divided_in_range(c: int, d: int)
    requires
        in_range(c),
        d > 0,
    ensures
        in_range(c / d),
{
    vstd::arithmetic::div_mod::lemma_div_is_ordered(c, LIMIT as int, d);
    vstd::arithmetic::div_mod::lemma_div_is_ordered(-LIMIT as int, c, d);
    vstd::arithmetic::div_mod::lemma_div_is_ordered_by_denominator(LIMIT as int, 1, d);
    assert(-LIMIT / d >= -LIMIT) by (nonlinear_arith)
        requires
            d > 0,
    {
        vstd::arithmetic::div_mod::lemma_fundamental_div_mod(-LIMIT as int, d);
        if -LIMIT / d < -LIMIT {
            assert(d * (-LIMIT / d) <= d * (-LIMIT - 1));
        }
    }
}

fn scale_component(c: i64, k: i64) -> (r: i64)
    requires
        in_range(c as int),
        -0x100_0000 <= k <= 0x100_0000,
    ensures
        r == c * k / (ONE as int),
{
    proof {
        assert(-0x10_0000_0000_0000 <= c * k <= 0x10_0000_0000_0000) by (nonlinear_arith)
            requires
                -0x1000_0000 <= c <= 0x1000_0000,
                -0x100_0000 <= k <= 0x100_0000,
        ;
    }
    let p: i128 = (c as i128) * (k as i128);
    let q = div_floor(p, ONE as i128);
    proof {
        vstd::arithmetic::div_mod::lemma_div_is_ordered(p as int, 0x10_0000_0000_0000, ONE as int);
        vstd::arithmetic::div_mod::lemma_div_is_ordered(-0x10_0000_0000_0000, p as int, ONE as int);
    }
    q as i64
}

pub open spec fn sum_of(a: Vec3, b: Vec3) -> Vec3 {
    Vec3 { x: (a.x + b.x) as i64, y: (a.y + b.y) as i64, z: (a.z + b.z) as i64 }
}

pub open spec fn diff_of(a: Vec3, b: Vec3) -> Vec3 {
    Vec3 { x: (a.x - b.x) as i64, y: (a.y - b.y) as i64, z: (a.z - b.z) as i64 }
}

pub open spec fn neg_of(a: Vec3) -> Vec3 {
    Vec3 { x: -a.x as i64, y: -a.y as i64, z: -a.z as i64 }
}

/// The vector scaled to length `ONE`: each component times `ONE`, over the length, rounded down.
pub open spec fn unit_of(v: Vec3) -> Vec3 {
    let l = fine_length(v);
    Vec3 {
        x: (v.x * ONE * ONE / l) as i64,
        y: (v.y * ONE * ONE / l) as i64,
        z: (v.z * ONE * ONE / l) as i64,
    }
}

impl Vec3 {
    /// Each component lies within one unit length.
    pub open spec fn is_unit_bounded(&self) -> bool {
        -ONE <= self.x <= ONE && -ONE <= self.y <= ONE && -ONE <= self.z <= ONE
    }
}

/// The degeneracy threshold: the finest step the fixed-point grid resolves.
pub const NEAR_ZERO: i64 = 1;

/// Dot product, in squared units.
pub fn dot(left: &Vec3, right: &Vec3) -> (r: i128)
    requires
        left.wide(),
        right.wide(),
    ensures
        r == dot_of(*left, *right),
{
    proof {
        lemma_component_product(left.x as int, right.x as int);
        lemma_component_product(left.y as int, right.y as int);
        lemma_component_product(left.z as int, right.z as int);
    }
    (left.x as i128) * (right.x as i128) + (left.y as i128) * (right.y as i128) + (left.z as i128)
        * (right.z as i128)
}

/// `n / ONE` rounded toward zero, so that negating `n` negates the result.
pub open spec fn unscale_trunc(n: int) -> int {
    if n >= 0 {
        n / (ONE as int)
    } else {
        -((-n) / (ONE as int))
    }
}

/// The cross product, each component rounded toward zero.
pub open spec fn cross_of(a: Vec3, b: Vec3) -> Vec3 {
    Vec3 {
        x: unscale_trunc(a.y * b.z - a.z * b.y) as i64,
        y: unscale_trunc(a.z * b.x - a.x * b.z) as i64,
        z: unscale_trunc(a.x * b.y - a.y * b.x) as i64,
    }
}

fn cross_component(a: i64, b: i64, c: i64, d: i64) -> (r: i64)
    requires
        in_range(a as int),
        in_range(b as int),
        in_range(c as int),
        in_range(d as int),
    ensures
        r == unscale_trunc(a * b - c * d),
{
    proof {
        lemma_component_product(a as int, b as int);
        lemma_component_product(c as int, d as int);
    }
    let n: i128 = (a as i128) * (b as i128) - (c as i128) * (d as i128);
    let m: i128 = if n >= 0 { n } else { -n };
    let q = m / (ONE as i128);
    proof {
        vstd::arithmetic::div_mod::lemma_div_is_ordered(m as int, 0x2000_0000_0000_0000, ONE as int);
        vstd::arithmetic::div_mod::lemma_div_pos_is_pos(m as int, ONE as int);
    }
    if n >= 0 {
        q as i64
    } else {
        -(q as i64)
    }
}

/// Cross product of two representable vectors. Swapping the arguments negates it.
pub fn cross(left: Vec3, right: Vec3) -> (r: Vec3)
    requires
        left.wf(),
        right.wf(),
    ensures
        r == cross_of(left, right),
        cross_of(right, left) == neg_of(r),
{
    proof {
        lemma_cross_anti_symmetric(left, right);
    }
    Vec3 {
        x: cross_component(left.y, right.z, left.z, right.y),
        y: cross_component(left.z, right.x, left.x, right.z),
        z: cross_component(left.x, right.y, left.y, right.x),
    }
}

/// Swapping the arguments of the cross product negates it.
pub proof fn lemma_cross_anti_symmetric(a: Vec3, b: Vec3)
    requires
        a.wf(),
        b.wf(),
    ensures
        cross_of(b, a) == neg_of(cross_of(a, b)),
{
    assert(b.y * a.z - b.z * a.y == -(a.y * b.z - a.z * b.y)) by (nonlinear_arith);
    assert(b.z * a.x - b.x * a.z == -(a.z * b.x - a.x * b.z)) by (nonlinear_arith);
    assert(b.x * a.y - b.y * a.x == -(a.x * b.y - a.y * b.x)) by (nonlinear_arith);
    lemma_unscale_bound(a.y * b.z - a.z * b.y, a.y as int, b.z as int, a.z as int, b.y as int);
    lemma_unscale_bound(a.z * b.x - a.x * b.z, a.z as int, b.x as int, a.x as int, b.z as int);
    lemma_unscale_bound(a.x * b.y - a.y * b.x, a.x as int, b.y as int, a.y as int, b.x as int);
}

proof fn lemma_unscale_bound(n: int, a: int, b: int, c: int, d: int)
    requires
        n == a * b - c * d,
        in_range(a),
        in_range(b),
        in_range(c),
        in_range(d),
    ensures
        -0x2000_0000_0000 <= unscale_trunc(n) <= 0x2000_0000_0000,
        unscale_trunc(-n) == -unscale_trunc(n),
{
    lemma_component_product(a, b);
    lemma_component_product(c, d);
    let m = if n >= 0 { n } else { -n };
    vstd::arithmetic::div_mod::lemma_div_is_ordered(m, 0x2000_0000_0000_0000, ONE as int);
    vstd::arithmetic::div_mod::lemma_div_pos_is_pos(m, ONE as int);
    if n == 0 {
        assert(unscale_trunc(n) == 0);
    }
}

/// Pi in fixed point, rounded down.
pub const PI: i64 = 205887;

/// Degrees to radians, in fixed point.
pub fn deg_to_rad(deg: i64) -> (r: i64)
    requires
        -LIMIT <= deg <= LIMIT,
    ensures
        r == deg * PI / 180,
{
    proof {
        assert(-LIMIT * PI <= deg * PI <= LIMIT * PI) by (nonlinear_arith)
            requires
                -LIMIT <= deg <= LIMIT,
        ;
        vstd::arithmetic::div_mod::lemma_div_is_ordered(deg * PI, LIMIT * PI, 180);
        vstd::arithmetic::div_mod::lemma_div_is_ordered(-LIMIT * PI, deg * PI, 180);
    }
    (div_floor((deg as i128) * (PI as i128), 180)) as i64
}

} // verus!
