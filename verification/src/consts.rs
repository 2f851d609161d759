//! Scalar constants and the interval of scalars.
use crate::scalar::Scalar;
use vstd::prelude::*;

verus! {

/// The encoding of positive infinity.
pub const INFINITY: u64 = 0x7FF0_0000_0000_0000;

/// The encoding of negative infinity.
pub const NEG_INFINITY: u64 = 0xFFF0_0000_0000_0000;

/// The encoding of the scalar nearest to pi.
pub const PI: u64 = 0x4009_21FB_5444_2D18;

/// The scalars from `min` to `max`. One with `min` above `max` holds nothing.
#[derive(Clone, Copy, Debug)]
pub struct Interval {
    pub min: Scalar,
    pub max: Scalar,
}

impl Interval {
    /// `min <= num <= max`.
    pub open spec fn contains_spec(self, num: Scalar) -> bool {
        self.min.le_spec(num) && num.le_spec(self.max)
    }

    /// `min < num < max`.
    pub open spec fn surrounds_spec(self, num: Scalar) -> bool {
        self.min.lt_spec(num) && num.lt_spec(self.max)
    }

    /// `val` moved to the nearer bound when it lies outside; a NaN stays.
    pub open spec fn clamp_spec(self, val: Scalar) -> Scalar {
        if val.lt_spec(self.min) {
            self.min
        } else if self.max.lt_spec(val) {
            self.max
        } else {
            val
        }
    }

    /// The interval that holds nothing: from infinity down to minus infinity.
    pub fn empty() -> (r: Interval)
        ensures
            r.min.bits == INFINITY,
            r.max.bits == NEG_INFINITY,
            forall|num: Scalar| !r.contains_spec(num),
    {
        Interval { min: Scalar { bits: INFINITY }, max: Scalar { bits: NEG_INFINITY } }
    }

    pub fn new(min: Scalar, max: Scalar) -> (r: Interval)
        ensures
            r.min == min,
            r.max == max,
    {
        Interval { min, max }
    }

    pub fn contains(&self, num: Scalar) -> (r: bool)
        ensures
            r == self.contains_spec(num),
    {
        self.min.le(num) && num.le(self.max)
    }

    pub fn surrounds(&self, num: Scalar) -> (r: bool)
        ensures
            r == self.surrounds_spec(num),
    {
        self.min.lt(num) && num.lt(self.max)
    }

    /// The interval that holds every scalar but the NaNs.
    pub fn universe() -> (r: Interval)
        ensures
            r.min.bits == NEG_INFINITY,
            r.max.bits == INFINITY,
            forall|num: Scalar| r.contains_spec(num) == !num.is_nan(),
    {
        Interval { min: Scalar { bits: NEG_INFINITY }, max: Scalar { bits: INFINITY } }
    }

    pub fn clamp(&self, val: Scalar) -> (r: Scalar)
        ensures
            r == self.clamp_spec(val),
    {
        if val.lt(self.min) {
            return self.min;
        } else if val.gt(self.max) {
            return self.max;
        }
        val
    }
}

/// What `clamp` gives for a scalar that is no NaN lies in the interval,
/// where the interval holds anything at all.
pub proof fn lemma_clamp_in_interval(interval: Interval, val: Scalar)
    requires
        interval.min.le_spec(interval.max),
        !val.is_nan(),
    ensures
        interval.contains_spec(interval.clamp_spec(val)),
{
}

/// `clamp` leaves what the interval contains as it is.
pub proof fn lemma_clamp_keeps_inside(interval: Interval, val: Scalar)
    requires
        interval.contains_spec(val),
    ensures
        interval.clamp_spec(val) == val,
{
}

} // verus!
