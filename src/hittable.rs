//! The hit protocol between the acceleration structures and the geometry,
//! the nearest-hit rule, and the linear list of primitives.
use vstd::prelude::*;

use crate::aabb::{merge_aabb, merged_box, Aabb, Crossings};
use crate::interval::Interval;

verus! {

/// What a caller's hit function answers for primitive `p` over `w`, as the
/// ray parameter of the hit: the answer of any call, all calls agreeing.
pub open spec fn answer_of<R, F: Fn(usize, Interval) -> Option<(i64, R)>>(
    f: F,
    p: usize,
    w: Interval,
) -> Option<i64> {
    param_of(choose|r: Option<(i64, R)>| call_ensures(f, (p, w), r))
}

/// The hits a caller's hit function reports, as a function of the primitive
/// and the window.
pub open spec fn hits_of<R, F: Fn(usize, Interval) -> Option<(i64, R)>>(f: F) -> spec_fn(
    usize,
    Interval,
) -> Option<i64> {
    |p: usize, w: Interval| answer_of(f, p, w)
}

/// A hit function that may be called on every primitive and window, and
/// whose answers depend on its arguments alone.
pub open spec fn hit_fn_ok<R, F: Fn(usize, Interval) -> Option<(i64, R)>>(f: F) -> bool {
    &&& forall|p: usize, w: Interval| #[trigger] f.requires((p, w))
    &&& forall|p: usize, w: Interval, r1: Option<(i64, R)>, r2: Option<(i64, R)>|
        #![trigger f.ensures((p, w), r1), f.ensures((p, w), r2)]
        f.ensures((p, w), r1) && f.ensures((p, w), r2) ==> param_of(r1) == param_of(r2)
}

/// Calls the hit function: its answer is the one every call gives.
pub fn call_hit<R, F: Fn(usize, Interval) -> Option<(i64, R)>>(
    f: &F,
    p: usize,
    w: Interval,
) -> (r: Option<(i64, R)>)
    requires
        hit_fn_ok(*f),
    ensures
        param_of(r) == hits_of(*f)(p, w),
{
    let r = f(p, w);
    proof {
        let c = choose|c: Option<(i64, R)>| call_ensures(*f, (p, w), c);
        assert(f.ensures((p, w), c) && f.ensures((p, w), r));
    }
    r
}

/// What a caller's slab function answers for a box: where the ray crosses
/// its slabs, all calls agreeing.
pub open spec fn crossings_of<G: Fn(Aabb) -> Crossings>(g: G) -> spec_fn(Aabb) -> Crossings {
    |b: Aabb| choose|c: Crossings| call_ensures(g, (b,), c)
}

/// A slab function that may be called on every box, and whose answers
/// depend on the box alone.
pub open spec fn slab_fn_ok<G: Fn(Aabb) -> Crossings>(g: G) -> bool {
    &&& forall|b: Aabb| #[trigger] g.requires((b,))
    &&& forall|b: Aabb, c1: Crossings, c2: Crossings|
        #![trigger g.ensures((b,), c1), g.ensures((b,), c2)]
        g.ensures((b,), c1) && g.ensures((b,), c2) ==> c1 == c2
}

/// Calls the slab function: its answer is the one every call gives.
pub fn call_slabs<G: Fn(Aabb) -> Crossings>(g: &G, b: Aabb) -> (r: Crossings)
    requires
        slab_fn_ok(*g),
    ensures
        r == crossings_of(*g)(b),
{
    let r = g(b);
    proof {
        let c = choose|c: Crossings| call_ensures(*g, (b,), c);
        assert(g.ensures((b,), c) && g.ensures((b,), r));
    }
    r
}

/// The ray parameter of a hit.
pub open spec fn param_of<R>(r: Option<(i64, R)>) -> Option<i64> {
    match r {
        Some(h) => Some(h.0),
        None => None,
    }
}

/// `[lo, hi]` as an interval.
pub open spec fn window(lo: i64, hi: i64) -> Interval {
    Interval { min: lo, max: hi }
}

/// The hit rule that every primitive keeps: it reports the first of its
/// crossings within the window. Hence a hit lies in the window; a hit found in
/// a window cut short at `h` is the hit of the whole window; and a hit before
/// `h` is still found once the window is cut short at `h`.
pub open spec fn reports_nearest(hits: spec_fn(usize, Interval) -> Option<i64>) -> bool {
    &&& forall|p: usize, w: Interval| #[trigger] hits(p, w) is Some ==> w.holds(
        hits(p, w).unwrap() as int,
    )
    &&& forall|p: usize, lo: i64, h: i64, hi: i64|
        #![trigger hits(p, window(lo, h)), hits(p, window(lo, hi))]
        lo <= h <= hi && hits(p, window(lo, h)) is Some ==> hits(p, window(lo, hi))
            == hits(p, window(lo, h))
    &&& forall|p: usize, lo: i64, h: i64, hi: i64|
        #![trigger hits(p, window(lo, h)), hits(p, window(lo, hi))]
        lo <= h <= hi && hits(p, window(lo, hi)) is Some && hits(p, window(lo, hi)).unwrap()
            < h ==> hits(p, window(lo, h)) == hits(p, window(lo, hi))
}

/// `r` is the nearest hit among the primitives `prims` over `w`: `None` when
/// none of them is hit there, else the least ray parameter at which one is.
pub open spec fn is_nearest(
    hits: spec_fn(usize, Interval) -> Option<i64>,
    prims: Seq<usize>,
    w: Interval,
    r: Option<i64>,
) -> bool {
    match r {
        None => forall|k: int| 0 <= k < prims.len() ==> hits(#[trigger] prims[k], w) is None,
        Some(t) => {
            &&& exists|k: int| 0 <= k < prims.len() && hits(#[trigger] prims[k], w) == Some(t)
            &&& forall|k: int|
                0 <= k < prims.len() && hits(#[trigger] prims[k], w) is Some ==> t
                    <= hits(prims[k], w).unwrap()
        },
    }
}

/// Two sequences that hold the same primitives, whatever their order and
/// repetitions.
pub open spec fn same_members(a: Seq<usize>, b: Seq<usize>) -> bool {
    &&& forall|i: int| 0 <= i < a.len() ==> b.contains(#[trigger] a[i])
    &&& forall|i: int| 0 <= i < b.len() ==> a.contains(#[trigger] b[i])
}

/// The nearest hit is a function of the set of primitives.
pub proof fn lemma_nearest_unique(
    hits: spec_fn(usize, Interval) -> Option<i64>,
    a: Seq<usize>,
    b: Seq<usize>,
    w: Interval,
    ra: Option<i64>,
    rb: Option<i64>,
)
    requires
        same_members(a, b),
        is_nearest(hits, a, w, ra),
        is_nearest(hits, b, w, rb),
    ensures
        ra == rb,
{
    if let Some(ta) = ra {
        let ka = choose|k: int| 0 <= k < a.len() && hits(#[trigger] a[k], w) == Some(ta);
        assert(b.contains(a[ka]));
        let kb2 = choose|k: int| 0 <= k < b.len() && b[k] == a[ka];
        assert(hits(b[kb2], w) == Some(ta));
        if let Some(tb) = rb {
            let kb = choose|k: int| 0 <= k < b.len() && hits(#[trigger] b[k], w) == Some(tb);
            assert(a.contains(b[kb]));
            let ka2 = choose|k: int| 0 <= k < a.len() && a[k] == b[kb];
            assert(hits(a[ka2], w) == Some(tb));
        }
    } else if let Some(tb) = rb {
        let kb = choose|k: int| 0 <= k < b.len() && hits(#[trigger] b[k], w) == Some(tb);
        assert(a.contains(b[kb]));
        let ka2 = choose|k: int| 0 <= k < a.len() && a[k] == b[kb];
        assert(hits(a[ka2], w) == Some(tb));
    }
}

/// Nothing in `left` is hit: the nearest hit of `left + right` is that of
/// `right`.
pub proof fn lemma_join_after_miss(
    hits: spec_fn(usize, Interval) -> Option<i64>,
    left: Seq<usize>,
    right: Seq<usize>,
    w: Interval,
    r: Option<i64>,
)
    requires
        is_nearest(hits, left, w, None),
        is_nearest(hits, right, w, r),
    ensures
        is_nearest(hits, left + right, w, r),
{
    let s = left + right;
    assert forall|k: int| 0 <= k < s.len() implies (#[trigger] s[k] == left[k] && k < left.len())
        || s[k] == right[k - left.len()] && k >= left.len() by {}
    if let Some(t) = r {
        let k = choose|k: int| 0 <= k < right.len() && hits(#[trigger] right[k], w) == Some(t);
        assert(s[k + left.len()] == right[k]);
    }
}

/// `left` is first hit at `tl`: the nearest hit of `left + right` is the
/// nearest hit of `right` over the window cut short at `tl`, if there is one,
/// and else `tl`.
pub proof fn lemma_join_after_hit(
    hits: spec_fn(usize, Interval) -> Option<i64>,
    left: Seq<usize>,
    right: Seq<usize>,
    w: Interval,
    tl: i64,
    r: Option<i64>,
)
    requires
        reports_nearest(hits),
        is_nearest(hits, left, w, Some(tl)),
        is_nearest(hits, right, window(w.min, tl), r),
    ensures
        is_nearest(
            hits,
            left + right,
            w,
            match r {
                Some(tr) => Some(tr),
                None => Some(tl),
            },
        ),
{
    let s = left + right;
    let kl = choose|k: int| 0 <= k < left.len() && hits(#[trigger] left[k], w) == Some(tl);
    assert(w.holds(tl as int));
    assert(w == window(w.min, w.max));
    assert forall|k: int| 0 <= k < s.len() implies (#[trigger] s[k] == left[k] && k < left.len())
        || s[k] == right[k - left.len()] && k >= left.len() by {}
    match r {
        Some(tr) => {
            let kr = choose|k: int|
                0 <= k < right.len() && hits(#[trigger] right[k], window(w.min, tl)) == Some(tr);
            assert(hits(right[kr], window(w.min, w.max)) == Some(tr));
            assert(s[kr + left.len()] == right[kr]);
            assert(window(w.min, tl).holds(tr as int));
            assert forall|k: int|
                0 <= k < s.len() && hits(#[trigger] s[k], w) is Some implies tr
                    <= hits(s[k], w).unwrap() by {
                let t2 = hits(s[k], w).unwrap();
                if k >= left.len() {
                    let j = k - left.len();
                    if t2 < tl {
                        assert(hits(right[j], window(w.min, w.max)) == Some(t2));
                        assert(hits(right[j], window(w.min, tl)) == Some(t2));
                    }
                } else {
                    assert(hits(left[k], w) == Some(t2));
                }
            }
        },
        None => {
            assert(s[kl] == left[kl]);
            assert forall|k: int|
                0 <= k < s.len() && hits(#[trigger] s[k], w) is Some implies tl
                    <= hits(s[k], w).unwrap() by {
                let t2 = hits(s[k], w).unwrap();
                if k >= left.len() {
                    let j = k - left.len();
                    if t2 < tl {
                        assert(hits(right[j], window(w.min, w.max)) == Some(t2));
                        assert(hits(right[j], window(w.min, tl)) == Some(t2));
                        assert(hits(right[j], window(w.min, tl)) is None);
                    }
                } else {
                    assert(hits(left[k], w) == Some(t2));
                }
            }
        },
    }
}

/// The nearest hit found by scanning `prims` in order, cutting the window
/// short at the best hit so far; each later hit found is no farther, and
/// replaces it.
pub open spec fn scan(hits: spec_fn(usize, Interval) -> Option<i64>, prims: Seq<usize>, w: Interval) -> Option<i64>
    decreases prims.len(),
{
    if prims.len() == 0 {
        None
    } else {
        let last = prims.last();
        match scan(hits, prims.drop_last(), w) {
            None => hits(last, w),
            Some(t) => match hits(last, window(w.min, t)) {
                Some(t2) => Some(t2),
                None => Some(t),
            },
        }
    }
}

/// The scan finds the nearest hit.
pub proof fn lemma_scan_is_nearest(hits: spec_fn(usize, Interval) -> Option<i64>, prims: Seq<usize>, w: Interval)
    requires
        reports_nearest(hits),
    ensures
        is_nearest(hits, prims, w, scan(hits, prims, w)),
    decreases prims.len(),
{
    if prims.len() > 0 {
        let init = prims.drop_last();
        let last = seq![prims.last()];
        assert(init + last =~= prims);
        lemma_scan_is_nearest(hits, init, w);
        match scan(hits, init, w) {
            None => {
                let r = hits(prims.last(), w);
                assert(last[0] == prims.last());
                assert(is_nearest(hits, last, w, r));
                lemma_join_after_miss(hits, init, last, w, r);
            },
            Some(t) => {
                let r = hits(prims.last(), window(w.min, t));
                assert(last[0] == prims.last());
                assert(is_nearest(hits, last, window(w.min, t), r));
                lemma_join_after_hit(hits, init, last, w, t, r);
            },
        }
    }
}

/// A flat collection of primitives, scanned one after another, with the box
/// that encloses them all.
pub struct HittableList {
    pub hittables: Vec<usize>,
    pub bounding_box: Aabb,
}

impl HittableList {
    pub fn new() -> (r: HittableList)
        ensures
            r.hittables@ == Seq::<usize>::empty(),
            r.bounding_box == crate::aabb::empty_box(),
    {
        HittableList { hittables: Vec::new(), bounding_box: Aabb::empty() }
    }

    /// Adds primitive `prim`, whose box is `bbox`.
    pub fn add_hittable(&mut self, prim: usize, bbox: &Aabb)
        ensures
            final(self).hittables@ == old(self).hittables@.push(prim),
            final(self).bounding_box == merged_box(old(self).bounding_box, *bbox),
    {
        self.bounding_box = merge_aabb(&self.bounding_box, bbox);
        self.hittables.push(prim);
    }

    /// Adds every primitive of `other`, after those already here.
    pub fn add_hittable_list(&mut self, other: HittableList)
        ensures
            final(self).hittables@ == old(self).hittables@ + other.hittables@,
            final(self).bounding_box == merged_box(old(self).bounding_box, other.bounding_box),
    {
        let mut k: usize = 0;
        let n = other.hittables.len();
        let ghost start = self.hittables@;
        while k < n
            invariant
                n == other.hittables.len(),
                k <= n,
                self.hittables@ == start + other.hittables@.subrange(0, k as int),
                self.bounding_box == old(self).bounding_box,
            decreases n - k,
        {
            self.hittables.push(other.hittables[k]);
            k += 1;
            proof {
                assert(other.hittables@.subrange(0, k as int) =~= other.hittables@.subrange(
                    0,
                    k - 1,
                ).push(other.hittables@[k - 1]));
            }
        }
        assert(other.hittables@.subrange(0, n as int) =~= other.hittables@);
        self.bounding_box = merge_aabb(&self.bounding_box, &other.bounding_box);
    }

    pub fn get_num_hittables(&self) -> (r: usize)
        ensures
            r == self.hittables@.len(),
    {
        self.hittables.len()
    }

    pub fn get_hittables(self) -> (r: Vec<usize>)
        ensures
            r@ == self.hittables@,
    {
        self.hittables
    }

    pub fn get_aabb(&self) -> (r: Aabb)
        ensures
            r == self.bounding_box,
    {
        self.bounding_box
    }

    /// The nearest hit of a ray among the primitives of the list within
    /// `interval`, found by one pass that cuts the window short at each hit.
    /// `hit_primitive(p, w)` intersects the ray with primitive `p` over `w`
    /// and gives the ray parameter of the hit with what else it records.
    pub fn hit<R, F: Fn(usize, Interval) -> Option<(i64, R)>>(
        &self,
        hit_primitive: &F,
        interval: &Interval,
    ) -> (r: Option<(i64, R)>)
        requires
            hit_fn_ok(*hit_primitive),
        ensures
            param_of(r) == scan(hits_of(*hit_primitive), self.hittables@, *interval),
    {
        let ghost s = self.hittables@;
        let ghost hits = hits_of(*hit_primitive);
        let mut best: Option<(i64, R)> = None;
        let mut current = *interval;
        let mut k: usize = 0;
        while k < self.hittables.len()
            invariant
                s == self.hittables@,
                k <= s.len(),
                hits == hits_of(*hit_primitive),
                hit_fn_ok(*hit_primitive),
                param_of(best) == scan(hits, s.subrange(0, k as int), *interval),
                current == match param_of(best) {
                    None => *interval,
                    Some(t) => window(interval.min, t),
                },
            decreases s.len() - k,
        {
            let prim = self.hittables[k];
            proof {
                assert(s.subrange(0, k + 1).drop_last() =~= s.subrange(0, k as int));
                assert(s.subrange(0, k + 1).last() == prim);
            }
            match call_hit(hit_primitive, prim, current) {
                Some(h) => {
                    current = Interval { min: interval.min, max: h.0 };
                    best = Some(h);
                },
                None => {},
            }
            k += 1;
        }
        proof {
            assert(s.subrange(0, s.len() as int) =~= s);
        }
        best
    }
}

} // verus!
