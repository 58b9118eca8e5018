use vstd::prelude::*;
use crate::fixed::{ONE, sqrt_floor, isqrt};
use crate::interval::Interval;

verus! {

/// Linear-light colour, one fixed-point value per channel (`ONE` is full intensity).
#[derive(Clone, Copy, Debug, PartialEq, Eq)]
pub struct Color {
    pub r: i64,
    pub g: i64,
    pub b: i64,
}

/// A channel value within `[0, 1]`.
pub open spec fn is_fraction(c: int) -> bool {
    0 <= c <= ONE
}

/// The product of two fractional channels, rounded down.
pub open spec fn product_of(a: int, b: int) -> int {
    a * b / (ONE as int)
}

/// Elementwise product of two colours.
pub open spec fn attenuate_of(a: Color, b: Color) -> Color {
    Color {
        r: product_of(a.r as int, b.r as int) as i64,
        g: product_of(a.g as int, b.g as int) as i64,
        b: product_of(a.b as int, b.b as int) as i64,
    }
}

pub open spec fn black() -> Color {
    Color { r: 0, g: 0, b: 0 }
}

/// Highest displayable linear intensity: 0.999, rounded down.
pub const INTENSITY_MAX: i64 = 65470;

/// `floor(255.999 * v)` for a fixed-point `v`.
pub open spec fn byte_of(v: int) -> int {
    255999 * v / (1000 * ONE)
}

/// Display encoding of one averaged channel: clamp to `[0, 0.999]`, then square root.
pub open spec fn gamma_of(v: int) -> int {
    let c = if v < 0 { 0 } else if v > INTENSITY_MAX { INTENSITY_MAX as int } else { v };
    sqrt_floor(c * ONE)
}

/// The integer square root is monotone.
pub proof fn lemma_sqrt_monotone(a: int, b: int)
    requires
        0 <= a <= b < 0x4000_0000_0000_0000_0000_0000_0000_0000,
    ensures
        0 <= sqrt_floor(a) <= sqrt_floor(b),
{
    crate::fixed::lemma_isqrt_exists(a);
    crate::fixed::lemma_isqrt_exists(b);
    let sa = sqrt_floor(a);
    let sb = sqrt_floor(b);
    assert(sa <= sb) by (nonlinear_arith)
        requires
            0 <= sa,
            sa * sa <= a,
            0 <= sb,
            b < (sb + 1) * (sb + 1),
            a <= b,
    {
        if sa > sb {
            assert(sa * sa >= (sb + 1) * (sb + 1));
        }
    }
}

/// Display encoding: a channel within `[0, 0.999]` is encoded as its square root; any other
/// value is clamped first, so every encoded value lies within `[0, sqrt(0.999)]`.
pub proof fn lemma_gamma_encoding(v: int)
    ensures
        0 <= v <= INTENSITY_MAX ==> gamma_of(v) == sqrt_floor(v * ONE),
        v < 0 ==> gamma_of(v) == 0,
        v > INTENSITY_MAX ==> gamma_of(v) == sqrt_floor(INTENSITY_MAX * ONE),
        0 <= gamma_of(v) <= sqrt_floor(INTENSITY_MAX * ONE),
{
    let c = if v < 0 { 0 } else if v > INTENSITY_MAX { INTENSITY_MAX as int } else { v };
    assert(0 <= c * ONE <= INTENSITY_MAX * ONE) by (nonlinear_arith)
        requires
            0 <= c <= INTENSITY_MAX,
    ;
    lemma_sqrt_monotone(c * ONE, INTENSITY_MAX * ONE);
    if v < 0 {
        crate::fixed::lemma_isqrt_unique(0, 0);
    }
}

impl Color {
    pub open spec fn is_fractional(&self) -> bool {
        is_fraction(self.r as int) && is_fraction(self.g as int) && is_fraction(self.b as int)
    }

    pub fn new(r: i64, g: i64, b: i64) -> (c: Color)
        ensures
            c.r == r,
            c.g == g,
            c.b == b,
    {
        Color { r, g, b }
    }

    pub fn black() -> (c: Color)
        ensures
            c == black(),
    {
        Color { r: 0, g: 0, b: 0 }
    }

    /// Elementwise product (attenuation by an albedo).
    pub fn mul(&self, o: &Color) -> (c: Color)
        requires
            self.is_fractional(),
            o.is_fractional(),
        ensures
            c == attenuate_of(*self, *o),
            c.is_fractional(),
    {
        Color { r: channel_product(self.r, o.r), g: channel_product(self.g, o.g), b: channel_product(self.b, o.b) }
    }
}

fn channel_product(a: i64, b: i64) -> (r: i64)
    requires
        is_fraction(a as int),
        is_fraction(b as int),
    ensures
        r == product_of(a as int, b as int),
        is_fraction(r as int),
{
    proof {
        assert(0 <= a * b <= ONE * ONE) by (nonlinear_arith)
            requires
                0 <= a <= ONE,
                0 <= b <= ONE,
        ;
        vstd::arithmetic::div_mod::lemma_div_is_ordered(a * b, ONE * ONE, ONE as int);
        vstd::arithmetic::div_mod::lemma_div_multiples_vanish(ONE as int, ONE as int);
        vstd::arithmetic::div_mod::lemma_div_pos_is_pos(a * b, ONE as int);
    }
    (a * b) / ONE
}

/// Square-root display encoding of a value already within `[0, 1]`.
pub fn lin_to_gamma(lin: i64) -> (r: i64)
    requires
        is_fraction(lin as int),
    ensures
        r == sqrt_floor(lin * ONE),
        is_fraction(r as int),
{
    proof {
        assert(0 <= lin * ONE <= ONE * ONE) by (nonlinear_arith)
            requires
                0 <= lin <= ONE,
        ;
    }
    let s = isqrt((lin as u128) * (ONE as u128));
    proof {
        assert(s <= ONE) by (nonlinear_arith)
            requires
                s * s <= lin * ONE,
                lin * ONE <= ONE * ONE,
                0 <= s,
        {
            if s > ONE {
                assert(s * s > ONE * ONE);
            }
        }
    }
    s as i64
}

/// One averaged channel, clamped to `[0, 0.999]`, gamma encoded and quantised to a byte.
pub fn encode_channel(v: i64) -> (r: u8)
    ensures
        r == byte_of(gamma_of(v as int)),
{
    let intensity = Interval::new(0, INTENSITY_MAX);
    let c = intensity.clamp(v);
    let g = lin_to_gamma(c);
    proof {
        assert(0 <= 255999 * g <= 255999 * ONE) by (nonlinear_arith)
            requires
                0 <= g <= ONE,
        ;
        vstd::arithmetic::div_mod::lemma_div_is_ordered(255999 * g, 255999 * ONE, 1000 * ONE);
        vstd::arithmetic::div_mod::lemma_div_pos_is_pos(255999 * g, 1000 * ONE);
    }
    ((255999 * (g as i128)) / (1000 * ONE as i128)) as u8
}

} // verus!
