//! Closed intervals over ranks.
use vstd::prelude::*;

use crate::rank::{NEG_INFINITY_RANK, POS_INFINITY_RANK};

verus! {

/// The closed interval `[min, max]`. It is empty when `min > max`; the
/// canonical empty interval runs from positive to negative infinity.
#[derive(Clone, Copy, Debug, PartialEq, Eq, Structural)]
pub struct Interval {
    pub min: i64,
    pub max: i64,
}

impl Interval {
    /// Whether `x` lies in the interval, ends included.
    pub open spec fn holds(self, x: int) -> bool {
        self.min <= x && x <= self.max
    }

    /// Whether `x` lies strictly inside the interval.
    pub open spec fn strictly_holds(self, x: int) -> bool {
        self.min < x && x < self.max
    }

    pub fn new(min: i64, max: i64) -> (r: Interval)
        ensures
            r.min == min,
            r.max == max,
    {
        Interval { min, max }
    }

    pub fn get_min_max(&self) -> (r: (i64, i64))
        ensures
            r == (self.min, self.max),
    {
        (self.min, self.max)
    }

    pub fn contains(&self, x: i64) -> (r: bool)
        ensures
            r == self.holds(x as int),
    {
        self.min <= x && x <= self.max
    }

    pub fn surrounds(&self, x: i64) -> (r: bool)
        ensures
            r == self.strictly_holds(x as int),
    {
        self.min < x && x < self.max
    }

    /// `x` moved to the nearest end when it lies outside the interval.
    pub fn clamp(&self, x: i64) -> (r: i64)
        ensures
            x < self.min ==> r == self.min,
            x >= self.min && x > self.max ==> r == self.max,
            x >= self.min && x <= self.max ==> r == x,
    {
        if x < self.min {
            self.min
        } else if x > self.max {
            self.max
        } else {
            x
        }
    }

    /// The interval that holds no value.
    pub fn get_empty_interval() -> (r: Interval)
        ensures
            r == empty_interval(),
    {
        Interval { min: POS_INFINITY_RANK, max: NEG_INFINITY_RANK }
    }

    /// The interval from negative to positive infinity.
    pub fn get_universal_interval() -> (r: Interval)
        ensures
            r == universal_interval(),
    {
        Interval { min: NEG_INFINITY_RANK, max: POS_INFINITY_RANK }
    }
}

pub open spec fn empty_interval() -> Interval {
    Interval { min: POS_INFINITY_RANK, max: NEG_INFINITY_RANK }
}

pub open spec fn universal_interval() -> Interval {
    Interval { min: NEG_INFINITY_RANK, max: POS_INFINITY_RANK }
}

pub open spec fn min_of(a: i64, b: i64) -> i64 {
    if a <= b {
        a
    } else {
        b
    }
}

pub open spec fn max_of(a: i64, b: i64) -> i64 {
    if a >= b {
        a
    } else {
        b
    }
}

/// The smallest interval whose bounds reach both `a`'s and `b`'s.
pub open spec fn merged(a: Interval, b: Interval) -> Interval {
    Interval { min: min_of(a.min, b.min), max: max_of(a.max, b.max) }
}

/// Whether `outer` reaches at least as far as `inner` on both sides.
pub open spec fn reaches(outer: Interval, inner: Interval) -> bool {
    outer.min <= inner.min && inner.max <= outer.max
}

/// The union of two intervals: the lower of the two minima and the higher of
/// the two maxima.
pub fn merge_interval(a: Interval, b: Interval) -> (r: Interval)
    ensures
        r == merged(a, b),
{
    let min = if a.min <= b.min {
        a.min
    } else {
        b.min
    };
    let max = if a.max >= b.max {
        a.max
    } else {
        b.max
    };
    Interval { min, max }
}

/// A value in either interval is in their merge, and the merge reaches as far
/// as each of the two.
pub proof fn lemma_merge_contains(a: Interval, b: Interval, x: int)
    ensures
        a.holds(x) || b.holds(x) ==> merged(a, b).holds(x),
        merged(a, b).min <= a.min && merged(a, b).min <= b.min,
        merged(a, b).max >= a.max && merged(a, b).max >= b.max,
        reaches(merged(a, b), a) && reaches(merged(a, b), b),
{
}

/// The empty interval holds no value at all.
pub proof fn lemma_empty_holds_nothing(x: int)
    ensures
        !empty_interval().holds(x),
        !empty_interval().strictly_holds(x),
{
}

/// The universal interval holds every rank from negative to positive infinity.
pub proof fn lemma_universal_holds_every_real(x: int)
    requires
        NEG_INFINITY_RANK <= x <= POS_INFINITY_RANK,
    ensures
        universal_interval().holds(x),
{
}

/// Merging with the empty interval changes nothing within the ranks of the
/// extended reals.
pub proof fn lemma_merge_empty(a: Interval)
    requires
        NEG_INFINITY_RANK <= a.min <= POS_INFINITY_RANK,
        NEG_INFINITY_RANK <= a.max <= POS_INFINITY_RANK,
    ensures
        merged(empty_interval(), a) == a,
        merged(a, empty_interval()) == a,
{
}

} // verus!
