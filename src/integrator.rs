//! The decisions of the path integrator: when a path stops, what it brings
//! back when it stops, and at which depth it goes on.
//!
//! The radiance of a ray at depth `d` is
//! `emitted + attenuation * radiance(scattered ray, d - 1)` while the ray
//! keeps scattering; the caller does that arithmetic on colors and follows
//! the steps chosen here.
use vstd::prelude::*;

use crate::interval::Interval;
use crate::rank::POS_INFINITY_RANK;

verus! {

/// The closed set of materials.
#[derive(Clone, Copy, Debug, PartialEq, Eq, Structural)]
pub enum MaterialKind {
    Lambertian,
    Metal,
    Dielectric,
    DiffuseLight,
    Isotropic,
}

/// What became of a ray cast into the scene.
#[derive(Clone, Copy, Debug, PartialEq, Eq, Structural)]
pub enum Bounce {
    /// It met nothing.
    Missed,
    /// It met a surface that did not scatter it.
    Absorbed,
    /// It met a surface that sent out a new ray.
    Scattered,
}

/// What the integrator does next with a ray.
#[derive(Clone, Copy, Debug, PartialEq, Eq, Structural)]
pub enum PathStep {
    /// The depth budget is spent: the ray brings back black.
    Black,
    /// Cast the ray into the scene.
    Cast,
    /// The ray left the scene: it brings back the background.
    Background,
    /// The surface brings back what it emits, and nothing more.
    Emitted,
    /// The surface brings back what it emits plus the attenuation times the
    /// radiance of the scattered ray, traced at the depth given.
    Scatter(u32),
}

/// Whether a material sends out a new ray when it is hit. Every material
/// scatters but the diffuse light, which only emits.
pub open spec fn scatters(kind: MaterialKind) -> bool {
    kind != MaterialKind::DiffuseLight
}

/// What a hit on a surface of material `kind` does to the ray.
pub fn bounce_on(kind: MaterialKind) -> (r: Bounce)
    ensures
        r == (if scatters(kind) {
            Bounce::Scattered
        } else {
            Bounce::Absorbed
        }),
{
    match kind {
        MaterialKind::DiffuseLight => Bounce::Absorbed,
        _ => Bounce::Scattered,
    }
}

/// The first step for a ray with `depth` bounces left.
pub open spec fn begin_spec(depth: u32) -> PathStep {
    if depth == 0 {
        PathStep::Black
    } else {
        PathStep::Cast
    }
}

/// The step after a ray with `depth` bounces left was cast.
pub open spec fn after_cast_spec(depth: u32, bounce: Bounce) -> PathStep {
    match bounce {
        Bounce::Missed => PathStep::Background,
        Bounce::Absorbed => PathStep::Emitted,
        Bounce::Scattered => PathStep::Scatter((depth - 1) as u32),
    }
}

/// The first step for a ray with `depth` bounces left: a spent budget stops
/// the path at black without casting the ray.
pub fn begin(depth: u32) -> (r: PathStep)
    ensures
        r == begin_spec(depth),
{
    if depth == 0 {
        PathStep::Black
    } else {
        PathStep::Cast
    }
}

/// The step after casting a ray with `depth > 0` bounces left.
pub fn after_cast(depth: u32, bounce: Bounce) -> (r: PathStep)
    requires
        depth > 0,
    ensures
        r == after_cast_spec(depth, bounce),
{
    match bounce {
        Bounce::Missed => PathStep::Background,
        Bounce::Absorbed => PathStep::Emitted,
        Bounce::Scattered => PathStep::Scatter(depth - 1),
    }
}

/// The window over which a ray is cast: from `epsilon`, which keeps a ray
/// from meeting again the surface it just left, to positive infinity.
pub fn world_window(epsilon: i64) -> (r: Interval)
    ensures
        r == (Interval { min: epsilon, max: POS_INFINITY_RANK }),
{
    Interval { min: epsilon, max: POS_INFINITY_RANK }
}

/// How a path traced from depth `depth` ends when its casts meet `bounces`
/// in turn: the number of scatterings on the way and the step that stops
/// it. A path that runs out of recorded bounces is cut short at black.
pub open spec fn path_end(depth: u32, bounces: Seq<Bounce>) -> (nat, PathStep)
    decreases bounces.len(),
{
    if depth == 0 || bounces.len() == 0 {
        (0, PathStep::Black)
    } else {
        match after_cast_spec(depth, bounces[0]) {
            PathStep::Scatter(d) => {
                let rest = path_end(d, bounces.drop_first());
                (rest.0 + 1, rest.1)
            },
            step => (0, step),
        }
    }
}

/// Walks a path from depth `depth` through the recorded `bounces`: the
/// number of scatterings and the step that ends it.
pub fn trace_path(depth: u32, bounces: &Vec<Bounce>) -> (r: (u32, PathStep))
    ensures
        r.0 as nat == path_end(depth, bounces@).0,
        r.1 == path_end(depth, bounces@).1,
{
    let mut d = depth;
    let mut k: usize = 0;
    let mut scattered: u32 = 0;
    proof {
        assert(bounces@.subrange(0, bounces.len() as int) =~= bounces@);
    }
    loop
        invariant
            k <= bounces.len(),
            scattered as int + d as int == depth as int,
            scattered as nat == k as nat,
            path_end(depth, bounces@) == ((scattered as nat + path_end(
                d,
                bounces@.subrange(k as int, bounces.len() as int),
            ).0) as nat, path_end(d, bounces@.subrange(k as int, bounces.len() as int)).1),
        decreases bounces.len() - k,
    {
        let ghost rest = bounces@.subrange(k as int, bounces.len() as int);
        if begin(d) == PathStep::Black || k == bounces.len() {
            return (scattered, PathStep::Black);
        }
        let step = after_cast(d, bounces[k]);
        match step {
            PathStep::Scatter(next) => {
                proof {
                    assert(rest.drop_first() =~= bounces@.subrange(
                        k + 1,
                        bounces.len() as int,
                    ));
                }
                d = next;
                scattered += 1;
                k += 1;
            },
            _ => {
                return (scattered, step);
            },
        }
    }
}

/// A budget of zero bounces makes every path black at once, whatever the
/// scene would do to its rays.
pub proof fn lemma_depth_zero_is_black(bounces: Seq<Bounce>)
    ensures
        begin_spec(0) == PathStep::Black,
        path_end(0, bounces) == (0nat, PathStep::Black),
{
}

/// A path scatters at most as many times as its depth budget allows, and one
/// that scatters that often ends at black.
pub proof fn lemma_path_within_budget(depth: u32, bounces: Seq<Bounce>)
    ensures
        path_end(depth, bounces).0 <= depth,
        path_end(depth, bounces).0 == depth ==> path_end(depth, bounces).1 == PathStep::Black,
        path_end(depth, bounces).1 != PathStep::Cast,
        !(path_end(depth, bounces).1 is Scatter),
    decreases bounces.len(),
{
    if depth > 0 && bounces.len() > 0 {
        if let PathStep::Scatter(d) = after_cast_spec(depth, bounces[0]) {
            lemma_path_within_budget(d, bounces.drop_first());
        }
    }
}

} // verus!
