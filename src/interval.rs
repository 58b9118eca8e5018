use vstd::prelude::*;

verus! {

/// A range of ray parameters or channel values, in fixed point.
#[derive(Clone, Copy, Debug, PartialEq, Eq)]
pub struct Interval {
    pub min: i64,
    pub max: i64,
}

/// An upper bound that no fixed-point parameter reaches strictly.
pub const UNBOUNDED: i64 = 9223372036854775807;

impl Interval {
    pub fn new(min: i64, max: i64) -> (r: Interval)
        ensures
            r.min == min,
            r.max == max,
    {
        Interval { min, max }
    }

    /// Strict containment: `min < t < max`.
    pub open spec fn surrounds_spec(&self, t: int) -> bool {
        self.min < t < self.max
    }

    /// `t` saturated to `[min, max]`.
    pub open spec fn clamp_spec(&self, t: int) -> int {
        if t < self.min {
            self.min as int
        } else if t > self.max {
            self.max as int
        } else {
            t
        }
    }

    pub fn surrounds(&self, t: i64) -> (r: bool)
        ensures
            r == self.surrounds_spec(t as int),
    {
        self.min < t && t < self.max
    }

    pub fn clamp(&self, t: i64) -> (r: i64)
        requires
            self.min <= self.max,
        ensures
            r == self.clamp_spec(t as int),
            self.min <= r <= self.max,
    {
        if t < self.min {
            self.min
        } else if t > self.max {
            self.max
        } else {
            t
        }
    }
}

} // verus!
