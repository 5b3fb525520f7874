//! A closed range of acceptable ray parameters; the closest-hit search
//! narrows its upper bound as nearer intersections are found.

use vstd::prelude::*;
use crate::fixed::clamp_spec;

verus! {

/// The closed range `[min, max]` of fixed-point ray parameters. A range with
/// `min > max` is empty: it contains no parameter, and every intersection
/// query bounded by it reports no hit.
#[derive(Clone, Copy, Debug, PartialEq, Eq, Structural)]
pub struct Interval {
    pub min: i128,
    pub max: i128,
}

impl Interval {
    /// Builds the range `[min, max]`.
    pub fn new(min: i128, max: i128) -> (iv: Interval)
        ensures
            iv == (Interval { min, max }),
    {
        Interval { min, max }
    }

    /// Whether `t` lies within the range, bounds included.
    pub fn contains(&self, t: i128) -> (r: bool)
        ensures
            r == (self.min <= t <= self.max),
    {
        self.min <= t && t <= self.max
    }

    /// Pushes `t` to the nearest value within the range.
    pub fn clamp(&self, t: i128) -> (r: i128)
        requires
            self.min <= self.max,
        ensures
            r == clamp_spec(t as int, self.min as int, self.max as int),
    {
        crate::fixed::clamp(t, self.min, self.max)
    }
}

} // verus!
