//! The decisions inside the intersection tests of the primitives. The caller
//! solves the geometry (the roots of a sphere's quadratic, the plane
//! coordinates of a quad, the boundary crossings of a medium) and hands over
//! the ranks of the results; these functions decide what is hit.
use vstd::prelude::*;

use crate::hittable::{reports_nearest, window};
use crate::interval::{max_of, min_of, Interval};

verus! {

/// The rank of `0.0`.
pub const ZERO_RANK: i64 = 0;

/// The rank of `1.0`.
pub const ONE_RANK: i64 = 0x3ff0_0000_0000_0000;

/// The nearest-hit rule for one primitive, as a function of the window: a
/// hit lies in the window; a hit found in a window cut short at `h` is the hit
/// of the whole window; a hit before `h` is still found once the window is cut
/// short at `h`.
pub open spec fn nearest_rule(f: spec_fn(Interval) -> Option<i64>) -> bool {
    &&& forall|w: Interval| #[trigger] f(w) is Some ==> w.holds(f(w).unwrap() as int)
    &&& forall|lo: i64, h: i64, hi: i64|
        #![trigger f(window(lo, h)), f(window(lo, hi))]
        lo <= h <= hi && f(window(lo, h)) is Some ==> f(window(lo, hi)) == f(window(lo, h))
    &&& forall|lo: i64, h: i64, hi: i64|
        #![trigger f(window(lo, h)), f(window(lo, hi))]
        lo <= h <= hi && f(window(lo, hi)) is Some && f(window(lo, hi)).unwrap() < h ==> f(
            window(lo, h),
        ) == f(window(lo, hi))
}

/// The hit of a sphere whose quadratic has the real roots `near <= far`, or
/// none (`roots` is `None` when the discriminant is negative): the near root
/// if it lies strictly inside the window, else the far root if it does.
pub open spec fn sphere_hit_spec(roots: Option<(i64, i64)>, w: Interval) -> Option<i64> {
    match roots {
        None => None,
        Some((near, far)) => if w.strictly_holds(near as int) {
            Some(near)
        } else if w.strictly_holds(far as int) {
            Some(far)
        } else {
            None
        },
    }
}

/// Chooses the root at which a ray meets a sphere within `window`.
pub fn sphere_hit(roots: Option<(i64, i64)>, window: &Interval) -> (r: Option<i64>)
    ensures
        r == sphere_hit_spec(roots, *window),
{
    match roots {
        None => None,
        Some((near, far)) => {
            if window.surrounds(near) {
                Some(near)
            } else if window.surrounds(far) {
                Some(far)
            } else {
                None
            }
        },
    }
}

/// A ray with two real roots whose near root lies strictly inside the window
/// meets the sphere there; one with no real root misses it.
pub proof fn lemma_sphere_picks_near_root(near: i64, far: i64, w: Interval)
    ensures
        w.strictly_holds(near as int) ==> sphere_hit_spec(Some((near, far)), w) == Some(near),
        !w.strictly_holds(near as int) && w.strictly_holds(far as int) ==> sphere_hit_spec(
            Some((near, far)),
            w,
        ) == Some(far),
        sphere_hit_spec(None, w) is None,
{
}

/// A sphere follows the nearest-hit rule.
pub proof fn lemma_sphere_follows_nearest_rule(roots: Option<(i64, i64)>)
    requires
        roots matches Some((near, far)) ==> near <= far,
    ensures
        nearest_rule(|w: Interval| sphere_hit_spec(roots, w)),
{
}

/// The hit of a quad: the ray meets its plane at `t` (or runs parallel to
/// it: `t` is `None`), and the point met has the plane coordinates
/// `(alpha, beta)` in the basis of the quad's two edges. The quad is hit when
/// `t` lies in the window and both coordinates lie in `[0, 1]`.
pub open spec fn quad_hit_spec(t: Option<i64>, alpha: i64, beta: i64, w: Interval) -> Option<i64> {
    match t {
        None => None,
        Some(t) => if w.holds(t as int) && window(ZERO_RANK, ONE_RANK).holds(alpha as int) && window(
            ZERO_RANK,
            ONE_RANK,
        ).holds(beta as int) {
            Some(t)
        } else {
            None
        },
    }
}

/// Decides whether a ray meets a quad within `window`.
pub fn quad_hit(t: Option<i64>, alpha: i64, beta: i64, window: &Interval) -> (r: Option<i64>)
    ensures
        r == quad_hit_spec(t, alpha, beta, *window),
{
    match t {
        None => None,
        Some(t) => {
            let unit = Interval::new(ZERO_RANK, ONE_RANK);
            if window.contains(t) && unit.contains(alpha) && unit.contains(beta) {
                Some(t)
            } else {
                None
            }
        },
    }
}

/// A ray through an interior point of a quad (both coordinates within
/// `[0, 1]`, such as the center at one half) hits it when the plane is met
/// within the window; a ray through a point with a coordinate below 0 or
/// above 1 misses it.
pub proof fn lemma_quad_interior(t: i64, alpha: i64, beta: i64, w: Interval)
    ensures
        w.holds(t as int) && ZERO_RANK <= alpha <= ONE_RANK && ZERO_RANK <= beta <= ONE_RANK
            ==> quad_hit_spec(Some(t), alpha, beta, w) == Some(t),
        alpha < ZERO_RANK || alpha > ONE_RANK || beta < ZERO_RANK || beta > ONE_RANK
            ==> quad_hit_spec(Some(t), alpha, beta, w) is None,
{
}

/// A quad follows the nearest-hit rule.
pub proof fn lemma_quad_follows_nearest_rule(t: Option<i64>, alpha: i64, beta: i64)
    ensures
        nearest_rule(|w: Interval| quad_hit_spec(t, alpha, beta, w)),
{
}

/// The stretch of a ray inside a medium, from the parameters `t_in` and
/// `t_out` at which it crosses the boundary: both clamped to the window, and
/// the start no earlier than the ray's origin. `None` when the clamped
/// crossings leave nothing.
pub open spec fn medium_chord_spec(t_in: i64, t_out: i64, w: Interval) -> Option<(i64, i64)> {
    let enter = max_of(t_in, w.min);
    let exit = min_of(t_out, w.max);
    if enter >= exit {
        None
    } else {
        Some((max_of(enter, ZERO_RANK), exit))
    }
}

/// Where a ray runs inside a constant medium within `window`.
pub fn medium_chord(t_in: i64, t_out: i64, window: &Interval) -> (r: Option<(i64, i64)>)
    ensures
        r == medium_chord_spec(t_in, t_out, *window),
{
    let enter = if t_in < window.min {
        window.min
    } else {
        t_in
    };
    let exit = if t_out > window.max {
        window.max
    } else {
        t_out
    };
    if enter >= exit {
        return None;
    }
    let start = if enter >= ZERO_RANK {
        enter
    } else {
        ZERO_RANK
    };
    Some((start, exit))
}

/// The hits of primitive `p` as a function of the window.
pub open spec fn hits_of_primitive(hits: spec_fn(usize, Interval) -> Option<i64>, p: usize) -> spec_fn(
    Interval,
) -> Option<i64> {
    |w: Interval| hits(p, w)
}

/// When every primitive follows the nearest-hit rule, the scene reports
/// nearest hits in the sense the hierarchy relies on.
pub proof fn lemma_rule_for_every_primitive(hits: spec_fn(usize, Interval) -> Option<i64>)
    requires
        forall|p: usize| #[trigger] nearest_rule(hits_of_primitive(hits, p)),
    ensures
        reports_nearest(hits),
{
    assert forall|p: usize, w: Interval| #[trigger] hits(p, w) is Some implies w.holds(
        hits(p, w).unwrap() as int,
    ) by {
        let f = hits_of_primitive(hits, p);
        assert(nearest_rule(f));
        assert(f(w) == hits(p, w));
    }
    assert forall|p: usize, lo: i64, h: i64, hi: i64|
        lo <= h <= hi && #[trigger] hits(p, window(lo, h)) is Some implies #[trigger] hits(
            p,
            window(lo, hi),
        ) == hits(p, window(lo, h)) by {
        let f = hits_of_primitive(hits, p);
        assert(nearest_rule(f));
        assert(f(window(lo, h)) == hits(p, window(lo, h)));
        assert(f(window(lo, hi)) == hits(p, window(lo, hi)));
    }
    assert forall|p: usize, lo: i64, h: i64, hi: i64|
        lo <= h <= hi && #[trigger] hits(p, window(lo, hi)) is Some && hits(
            p,
            window(lo, hi),
        ).unwrap() < h implies #[trigger] hits(p, window(lo, h)) == hits(
            p,
            window(lo, hi),
        ) by {
        let f = hits_of_primitive(hits, p);
        assert(nearest_rule(f));
        assert(f(window(lo, h)) == hits(p, window(lo, h)));
        assert(f(window(lo, hi)) == hits(p, window(lo, hi)));
    }
}

} // verus!
