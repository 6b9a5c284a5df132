//! Axis-aligned bounding boxes and the slab test.
use vstd::prelude::*;

use crate::interval::{
    empty_interval, lemma_merge_contains, max_of, merge_interval, merged, min_of, reaches,
    Interval,
};

verus! {

/// A box given by one interval per axis. Degenerate axes are padded to a
/// small positive thickness by whoever builds the box from coordinates.
#[derive(Clone, Copy, Debug, PartialEq, Eq, Structural)]
pub struct Aabb {
    pub x: Interval,
    pub y: Interval,
    pub z: Interval,
}

/// The box whose three axes are empty: it holds no point and is enclosed by
/// every box.
pub open spec fn empty_box() -> Aabb {
    Aabb { x: empty_interval(), y: empty_interval(), z: empty_interval() }
}

/// The axis-wise union of two boxes.
pub open spec fn merged_box(a: Aabb, b: Aabb) -> Aabb {
    Aabb { x: merged(a.x, b.x), y: merged(a.y, b.y), z: merged(a.z, b.z) }
}

/// Whether `outer` reaches at least as far as `inner` on every axis.
pub open spec fn encloses(outer: Aabb, inner: Aabb) -> bool {
    reaches(outer.x, inner.x) && reaches(outer.y, inner.y) && reaches(outer.z, inner.z)
}

impl Aabb {
    /// The interval of axis `axis`: 0 for x, 1 for y, anything else for z.
    pub open spec fn axis(self, axis: int) -> Interval {
        if axis == 0 {
            self.x
        } else if axis == 1 {
            self.y
        } else {
            self.z
        }
    }

    /// Whether the point with rank coordinates `(px, py, pz)` lies in the box.
    pub open spec fn holds_point(self, px: int, py: int, pz: int) -> bool {
        self.x.holds(px) && self.y.holds(py) && self.z.holds(pz)
    }

    pub fn new(x: Interval, y: Interval, z: Interval) -> (r: Aabb)
        ensures
            r == (Aabb { x, y, z }),
    {
        Aabb { x, y, z }
    }

    /// The box spanned by two opposite corners, each axis ordered from the
    /// lower to the higher coordinate. Padding a thin axis is left to the
    /// caller, which holds the coordinates as numbers.
    pub fn from_corners(a: (i64, i64, i64), b: (i64, i64, i64)) -> (r: Aabb)
        ensures
            r.x == (Interval { min: min_of(a.0, b.0), max: max_of(a.0, b.0) }),
            r.y == (Interval { min: min_of(a.1, b.1), max: max_of(a.1, b.1) }),
            r.z == (Interval { min: min_of(a.2, b.2), max: max_of(a.2, b.2) }),
            r.holds_point(a.0 as int, a.1 as int, a.2 as int),
            r.holds_point(b.0 as int, b.1 as int, b.2 as int),
    {
        Aabb { x: ordered(a.0, b.0), y: ordered(a.1, b.1), z: ordered(a.2, b.2) }
    }

    /// The box that holds nothing, used where a span of primitives is empty.
    pub fn empty() -> (r: Aabb)
        ensures
            r == empty_box(),
    {
        Aabb {
            x: Interval::get_empty_interval(),
            y: Interval::get_empty_interval(),
            z: Interval::get_empty_interval(),
        }
    }

    pub fn get_axis_interval(&self, axis: u8) -> (r: Interval)
        ensures
            r == self.axis(axis as int),
    {
        if axis == 0 {
            self.x
        } else if axis == 1 {
            self.y
        } else {
            self.z
        }
    }
}

impl Default for Aabb {
    fn default() -> (r: Aabb)
        ensures
            r == empty_box(),
    {
        Aabb::empty()
    }
}

/// The interval between two values, lower first.
fn ordered(a: i64, b: i64) -> (r: Interval)
    ensures
        r == (Interval { min: min_of(a, b), max: max_of(a, b) }),
{
    if a <= b {
        Interval { min: a, max: b }
    } else {
        Interval { min: b, max: a }
    }
}

/// The axis with the largest extent, given the ranks of the three extents.
/// Ties go to x over y and y over z.
pub open spec fn longest_axis_spec(x_size: i64, y_size: i64, z_size: i64) -> u8 {
    if x_size >= y_size && x_size >= z_size {
        0
    } else if y_size >= z_size {
        1
    } else {
        2
    }
}

/// The axis along which a box is longest, from the ranks of its three extents
/// (`max - min` of each axis).
pub fn get_longest_axis(x_size: i64, y_size: i64, z_size: i64) -> (r: u8)
    ensures
        r == longest_axis_spec(x_size, y_size, z_size),
        r < 3,
        r == 0 ==> x_size >= y_size && x_size >= z_size,
        r == 1 ==> y_size > x_size && y_size >= z_size,
        r == 2 ==> z_size > x_size && z_size > y_size,
{
    if x_size >= y_size && x_size >= z_size {
        0
    } else if y_size >= z_size {
        1
    } else {
        2
    }
}

/// The axis-wise union of two boxes.
pub fn merge_aabb(a: &Aabb, b: &Aabb) -> (r: Aabb)
    ensures
        r == merged_box(*a, *b),
{
    Aabb {
        x: merge_interval(a.x, b.x),
        y: merge_interval(a.y, b.y),
        z: merge_interval(a.z, b.z),
    }
}

/// The ray parameters at which a ray crosses the lower and the upper plane of
/// one axis of a box, and whether the ray's direction along that axis is
/// negative (its reciprocal is below zero). A ray moving up the axis enters
/// at the lower plane and leaves at the upper one; a ray moving down enters
/// at the upper plane. When the ray runs parallel to the planes both
/// crossings are infinite.
#[derive(Clone, Copy, Debug, PartialEq, Eq, Structural)]
pub struct SlabCrossing {
    pub t_lower: i64,
    pub t_upper: i64,
    pub reversed: bool,
}

/// The crossings of one ray with the three slabs of one box.
#[derive(Clone, Copy, Debug, PartialEq, Eq, Structural)]
pub struct Crossings {
    pub x: SlabCrossing,
    pub y: SlabCrossing,
    pub z: SlabCrossing,
}

/// Where the ray enters a slab: the lower plane's crossing, swapped with the
/// upper one's when the direction is negative.
pub open spec fn enter(c: SlabCrossing) -> i64 {
    if c.reversed {
        c.t_upper
    } else {
        c.t_lower
    }
}

/// Where the ray leaves a slab.
pub open spec fn leave(c: SlabCrossing) -> i64 {
    if c.reversed {
        c.t_lower
    } else {
        c.t_upper
    }
}

/// The part of `ray_t` during which the ray is inside all three slabs, if
/// that part has positive length.
pub open spec fn slab_hit(c: Crossings, ray_t: Interval) -> Option<Interval> {
    let lo = max_of(max_of(max_of(ray_t.min, enter(c.x)), enter(c.y)), enter(c.z));
    let hi = min_of(min_of(min_of(ray_t.max, leave(c.x)), leave(c.y)), leave(c.z));
    if lo < hi {
        Some(Interval { min: lo, max: hi })
    } else {
        None
    }
}

/// Narrows `[lo, hi]` to the part inside one slab.
fn narrow(lo: i64, hi: i64, c: SlabCrossing) -> (r: (i64, i64))
    ensures
        r == (max_of(lo, enter(c)), min_of(hi, leave(c))),
{
    let (t0, t1) = if c.reversed {
        (c.t_upper, c.t_lower)
    } else {
        (c.t_lower, c.t_upper)
    };
    (if lo >= t0 { lo } else { t0 }, if hi <= t1 { hi } else { t1 })
}

impl Aabb {
    /// The slab test: given where a ray crosses the slabs of this box, the
    /// sub-interval of `ray_t` during which the ray is inside the box, or
    /// `None` when that is empty or a single point. Stops at the first axis
    /// that leaves nothing.
    pub fn hit(crossings: &Crossings, ray_t: &Interval) -> (r: Option<Interval>)
        ensures
            r == slab_hit(*crossings, *ray_t),
    {
        let (lo, hi) = narrow(ray_t.min, ray_t.max, crossings.x);
        if hi <= lo {
            return None;
        }
        let (lo, hi) = narrow(lo, hi, crossings.y);
        if hi <= lo {
            return None;
        }
        let (lo, hi) = narrow(lo, hi, crossings.z);
        if hi <= lo {
            return None;
        }
        Some(Interval { min: lo, max: hi })
    }
}

/// A slab that the ray would leave no later than it enters leaves nothing:
/// the box is missed. An empty axis (lower bound at positive infinity, upper
/// at negative infinity) crossed by a ray moving up the axis has its entry at
/// positive infinity and its exit at negative infinity, and a ray moving down
/// it the same with the planes swapped.
pub proof fn lemma_empty_slab_misses(c: Crossings, ray_t: Interval)
    requires
        enter(c.x) >= leave(c.x) || enter(c.y) >= leave(c.y) || enter(c.z) >= leave(c.z),
    ensures
        slab_hit(c, ray_t) is None,
{
}

/// The merge of two boxes encloses both, and a point of either box is a
/// point of the merge.
pub proof fn lemma_merge_encloses(a: Aabb, b: Aabb)
    ensures
        encloses(merged_box(a, b), a),
        encloses(merged_box(a, b), b),
        forall|px: int, py: int, pz: int|
            #![trigger merged_box(a, b).holds_point(px, py, pz)]
            a.holds_point(px, py, pz) || b.holds_point(px, py, pz) ==> merged_box(
                a,
                b,
            ).holds_point(px, py, pz),
{
    assert forall|px: int, py: int, pz: int|
        a.holds_point(px, py, pz) || b.holds_point(px, py, pz) implies merged_box(
            a,
            b,
        ).holds_point(px, py, pz) by {
        lemma_merge_contains(a.x, b.x, px);
        lemma_merge_contains(a.y, b.y, py);
        lemma_merge_contains(a.z, b.z, pz);
    }
}

/// Enclosure is transitive.
pub proof fn lemma_encloses_trans(a: Aabb, b: Aabb, c: Aabb)
    requires
        encloses(a, b),
        encloses(b, c),
    ensures
        encloses(a, c),
{
}

/// A ray that at some parameter `t` strictly inside `ray_t` is strictly
/// inside all three slabs of a box hits the box: the slab test answers with
/// an interval of positive length around `t`.
pub proof fn lemma_hit_through_box(c: Crossings, ray_t: Interval, t: int)
    requires
        ray_t.strictly_holds(t),
        enter(c.x) < t < leave(c.x),
        enter(c.y) < t < leave(c.y),
        enter(c.z) < t < leave(c.z),
    ensures
        slab_hit(c, ray_t) is Some,
        slab_hit(c, ray_t).unwrap().min < slab_hit(c, ray_t).unwrap().max,
        slab_hit(c, ray_t).unwrap().strictly_holds(t),
{
}

} // verus!
