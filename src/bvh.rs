//! The bounding volume hierarchy: a binary tree over the primitives of a
//! scene, built by median splits along the longest axis and walked with the
//! window cut short at each hit.
//!
//! The tree is kept in an arena: every node is an entry of one vector, and a
//! node's children are entries placed before it.
use vstd::prelude::*;
use vstd::multiset::Multiset;

use crate::aabb::{
    encloses, get_longest_axis, longest_axis_spec, lemma_encloses_trans, lemma_merge_encloses, merge_aabb, merged_box,
    slab_hit, empty_box, Aabb,
};
use crate::hittable::{
    call_hit, call_slabs, crossings_of, hit_fn_ok, hits_of, is_nearest, lemma_join_after_hit,
    lemma_join_after_miss, lemma_nearest_unique, lemma_scan_is_nearest, param_of,
    reports_nearest, same_members, scan, slab_fn_ok, window,
};
use crate::aabb::Crossings;
use crate::interval::{max_of, min_of, Interval};
use crate::rank::{NEG_INFINITY_RANK, POS_INFINITY_RANK};

verus! {

/// What a node of the tree is.
#[derive(Clone, Copy, Debug, PartialEq, Eq, Structural)]
pub enum NodeKind {
    /// The placeholder for an empty span: it is never hit.
    Empty,
    /// One primitive.
    Leaf(usize),
    /// Two subtrees, by their places in the arena.
    Internal(usize, usize),
}

/// A node of the tree with the box of its subtree.
#[derive(Clone, Copy, Debug, PartialEq, Eq, Structural)]
pub struct Node {
    pub kind: NodeKind,
    pub bounding_box: Aabb,
}

/// A tree of the hierarchy: the arena and the place of its root.
pub struct BvhNode {
    pub nodes: Vec<Node>,
    pub root: usize,
}

/// The subtree at place `i` is well formed over the primitive boxes `boxes`:
/// children come before their parent, a leaf's box is its primitive's box,
/// an internal node's box is the merge of its children's boxes, and an empty
/// node has the empty box.
pub open spec fn wf_at(nodes: Seq<Node>, i: int, boxes: Seq<Aabb>) -> bool
    decreases i,
{
    0 <= i < nodes.len() && match nodes[i].kind {
        NodeKind::Empty => nodes[i].bounding_box == empty_box(),
        NodeKind::Leaf(p) => p < boxes.len() && nodes[i].bounding_box == boxes[p as int],
        NodeKind::Internal(l, r) => {
            &&& l < i
            &&& r < i
            &&& wf_at(nodes, l as int, boxes)
            &&& wf_at(nodes, r as int, boxes)
            &&& nodes[i].bounding_box == merged_box(
                nodes[l as int].bounding_box,
                nodes[r as int].bounding_box,
            )
        },
    }
}

/// The primitives at the leaves of the subtree at place `i`, left to right.
pub open spec fn leaves(nodes: Seq<Node>, i: int) -> Seq<usize>
    decreases i,
{
    if 0 <= i < nodes.len() {
        match nodes[i].kind {
            NodeKind::Empty => Seq::empty(),
            NodeKind::Leaf(p) => seq![p],
            NodeKind::Internal(l, r) => if l < i && r < i {
                leaves(nodes, l as int) + leaves(nodes, r as int)
            } else {
                Seq::empty()
            },
        }
    } else {
        Seq::empty()
    }
}

/// Along `axis`, every primitive of `left` starts no higher than every
/// primitive of `right`.
pub open spec fn split_on(boxes: Seq<Aabb>, left: Seq<usize>, right: Seq<usize>, axis: u8) -> bool {
    forall|a: int, b: int|
        0 <= a < left.len() && 0 <= b < right.len() ==> sort_key(boxes, #[trigger] left[a], axis)
            <= sort_key(boxes, #[trigger] right[b], axis)
}

/// `m` is the lowest lower bound on axis `a` among the boxes of the
/// primitives `s`, capped at positive infinity (the lower bound of the
/// empty box the union starts from).
pub open spec fn is_low(m: i64, boxes: Seq<Aabb>, s: Seq<usize>, a: int) -> bool {
    &&& m <= POS_INFINITY_RANK
    &&& forall|k: int| 0 <= k < s.len() ==> m <= #[trigger] boxes[s[k] as int].axis(a).min
    &&& m == POS_INFINITY_RANK || exists|k: int|
        0 <= k < s.len() && #[trigger] boxes[s[k] as int].axis(a).min == m
}

/// `m` is the highest upper bound on axis `a` among the boxes of the
/// primitives `s`, at least negative infinity.
pub open spec fn is_high(m: i64, boxes: Seq<Aabb>, s: Seq<usize>, a: int) -> bool {
    &&& m >= NEG_INFINITY_RANK
    &&& forall|k: int| 0 <= k < s.len() ==> m >= #[trigger] boxes[s[k] as int].axis(a).max
    &&& m == NEG_INFINITY_RANK || exists|k: int|
        0 <= k < s.len() && #[trigger] boxes[s[k] as int].axis(a).max == m
}

/// `u` is the union of the boxes of the primitives `s`, axis by axis.
pub open spec fn is_union(u: Aabb, boxes: Seq<Aabb>, s: Seq<usize>) -> bool {
    &&& is_low(u.x.min, boxes, s, 0)
    &&& is_high(u.x.max, boxes, s, 0)
    &&& is_low(u.y.min, boxes, s, 1)
    &&& is_high(u.y.max, boxes, s, 1)
    &&& is_low(u.z.min, boxes, s, 2)
    &&& is_high(u.z.max, boxes, s, 2)
}

/// The longest axis of `u`, measured by `ext`.
pub open spec fn longest_of(ext: spec_fn(Interval) -> i64, u: Aabb) -> u8 {
    longest_axis_spec(ext(u.x), ext(u.y), ext(u.z))
}

/// The subtree at place `i` is split as the build splits: at every internal
/// node neither child is the empty placeholder, the left subtree holds the
/// first half of the node's primitives, rounded down, and at a node of three
/// or more primitives the left primitives all start no higher than the right
/// ones along the longest axis (as `ext` measures lengths) of the union of
/// the node's primitive boxes.
pub open spec fn median_split_at(nodes: Seq<Node>, i: int, boxes: Seq<Aabb>, ext: spec_fn(Interval) -> i64) -> bool
    decreases i,
{
    0 <= i < nodes.len() && match nodes[i].kind {
        NodeKind::Internal(l, r) => {
            &&& l < i
            &&& r < i
            &&& median_split_at(nodes, l as int, boxes, ext)
            &&& median_split_at(nodes, r as int, boxes, ext)
            &&& !(nodes[l as int].kind is Empty)
            &&& !(nodes[r as int].kind is Empty)
            &&& leaves(nodes, l as int).len() == leaves(nodes, i).len() / 2
            &&& leaves(nodes, i).len() >= 3 ==> exists|u: Aabb|
                is_union(u, boxes, leaves(nodes, i)) && split_on(
                    boxes,
                    leaves(nodes, l as int),
                    leaves(nodes, r as int),
                    longest_of(ext, u),
                )
        },
        _ => true,
    }
}

/// What a caller's extent function answers for an interval, all calls
/// agreeing.
pub open spec fn extent_of<F: Fn(Interval) -> i64>(f: F) -> spec_fn(Interval) -> i64 {
    |iv: Interval| choose|r: i64| call_ensures(f, (iv,), r)
}

/// An extent function that may be called on every interval, and whose
/// answer depends on the interval alone.
pub open spec fn extent_fn_ok<F: Fn(Interval) -> i64>(f: F) -> bool {
    &&& forall|iv: Interval| #[trigger] f.requires((iv,))
    &&& forall|iv: Interval, r1: i64, r2: i64|
        #![trigger f.ensures((iv,), r1), f.ensures((iv,), r2)]
        f.ensures((iv,), r1) && f.ensures((iv,), r2) ==> r1 == r2
}

/// Calls the extent function: its answer is the one every call gives.
fn call_extent<F: Fn(Interval) -> i64>(f: &F, iv: Interval) -> (r: i64)
    requires
        extent_fn_ok(*f),
    ensures
        r == extent_of(*f)(iv),
{
    let r = f(iv);
    proof {
        let c = choose|c: i64| call_ensures(*f, (iv,), c);
        assert(f.ensures((iv,), c) && f.ensures((iv,), r));
    }
    r
}

/// A union is a union of any sequence holding the same primitives as often.
proof fn lemma_union_transfer(u: Aabb, boxes: Seq<Aabb>, s1: Seq<usize>, s2: Seq<usize>)
    requires
        s1.to_multiset() == s2.to_multiset(),
        is_union(u, boxes, s1),
    ensures
        is_union(u, boxes, s2),
{
    lemma_bound_transfer(u.x.min, u.x.max, boxes, s1, s2, 0);
    lemma_bound_transfer(u.y.min, u.y.max, boxes, s1, s2, 1);
    lemma_bound_transfer(u.z.min, u.z.max, boxes, s1, s2, 2);
}

/// Merging one more primitive's box into a union gives the union of the
/// longer sequence.
proof fn lemma_union_push(u: Aabb, boxes: Seq<Aabb>, s0: Seq<usize>, p: usize)
    requires
        is_union(u, boxes, s0),
        p < boxes.len(),
    ensures
        is_union(merged_box(u, boxes[p as int]), boxes, s0.push(p)),
{
    lemma_bound_push(u.x.min, u.x.max, boxes, s0, p, 0);
    lemma_bound_push(u.y.min, u.y.max, boxes, s0, p, 1);
    lemma_bound_push(u.z.min, u.z.max, boxes, s0, p, 2);
}

proof fn lemma_bound_push(lo: i64, hi: i64, boxes: Seq<Aabb>, s0: Seq<usize>, p: usize, a: int)
    requires
        is_low(lo, boxes, s0, a),
        is_high(hi, boxes, s0, a),
        p < boxes.len(),
    ensures
        is_low(min_of(lo, boxes[p as int].axis(a).min), boxes, s0.push(p), a),
        is_high(max_of(hi, boxes[p as int].axis(a).max), boxes, s0.push(p), a),
{
    let s1 = s0.push(p);
    let b = boxes[p as int].axis(a);
    assert(s1[s0.len() as int] == p);
    assert forall|k: int| 0 <= k < s1.len() implies min_of(lo, b.min) <= #[trigger] boxes[s1[k] as int].axis(a).min by {
        if k < s0.len() {
            assert(s1[k] == s0[k]);
            assert(lo <= boxes[s0[k] as int].axis(a).min);
        }
    }
    assert forall|k: int| 0 <= k < s1.len() implies max_of(hi, b.max) >= #[trigger] boxes[s1[k] as int].axis(a).max by {
        if k < s0.len() {
            assert(s1[k] == s0[k]);
            assert(hi >= boxes[s0[k] as int].axis(a).max);
        }
    }
    if min_of(lo, b.min) != POS_INFINITY_RANK {
        if lo <= b.min {
            let k = choose|k: int| 0 <= k < s0.len() && #[trigger] boxes[s0[k] as int].axis(a).min == lo;
            assert(s1[k] == s0[k]);
            assert(boxes[s1[k] as int].axis(a).min == min_of(lo, b.min));
        } else {
            assert(boxes[s1[s0.len() as int] as int].axis(a).min == min_of(lo, b.min));
        }
    }
    if max_of(hi, b.max) != NEG_INFINITY_RANK {
        if hi >= b.max {
            let k = choose|k: int| 0 <= k < s0.len() && #[trigger] boxes[s0[k] as int].axis(a).max == hi;
            assert(s1[k] == s0[k]);
            assert(boxes[s1[k] as int].axis(a).max == max_of(hi, b.max));
        } else {
            assert(boxes[s1[s0.len() as int] as int].axis(a).max == max_of(hi, b.max));
        }
    }
}

proof fn lemma_bound_transfer(lo: i64, hi: i64, boxes: Seq<Aabb>, s1: Seq<usize>, s2: Seq<usize>, a: int)
    requires
        s1.to_multiset() == s2.to_multiset(),
        is_low(lo, boxes, s1, a),
        is_high(hi, boxes, s1, a),
    ensures
        is_low(lo, boxes, s2, a),
        is_high(hi, boxes, s2, a),
{
    assert forall|k: int| 0 <= k < s2.len() implies lo <= #[trigger] boxes[s2[k] as int].axis(a).min by {
        lemma_same_multiset_member(s2, s1, k);
        let j = choose|j: int| 0 <= j < s1.len() && s1[j] == s2[k];
        assert(lo <= boxes[s1[j] as int].axis(a).min);
    }
    assert forall|k: int| 0 <= k < s2.len() implies hi >= #[trigger] boxes[s2[k] as int].axis(a).max by {
        lemma_same_multiset_member(s2, s1, k);
        let j = choose|j: int| 0 <= j < s1.len() && s1[j] == s2[k];
        assert(hi >= boxes[s1[j] as int].axis(a).max);
    }
    if lo != POS_INFINITY_RANK {
        let k = choose|k: int| 0 <= k < s1.len() && #[trigger] boxes[s1[k] as int].axis(a).min == lo;
        lemma_same_multiset_member(s1, s2, k);
        let j = choose|j: int| 0 <= j < s2.len() && s2[j] == s1[k];
        assert(boxes[s2[j] as int].axis(a).min == lo);
    }
    if hi != NEG_INFINITY_RANK {
        let k = choose|k: int| 0 <= k < s1.len() && #[trigger] boxes[s1[k] as int].axis(a).max == hi;
        lemma_same_multiset_member(s1, s2, k);
        let j = choose|j: int| 0 <= j < s2.len() && s2[j] == s1[k];
        assert(boxes[s2[j] as int].axis(a).max == hi);
    }
}

/// The hit that the walk of the subtree at place `i` reports over `w`: none
/// when the ray misses the node's box; at a leaf, the primitive's; at an
/// internal node, the left subtree is asked first, and the right one over the
/// window cut short at the left hit, if any.
pub open spec fn bvh_hit(
    hits: spec_fn(usize, Interval) -> Option<i64>,
    cross: spec_fn(Aabb) -> Crossings,
    nodes: Seq<Node>,
    i: int,
    w: Interval,
) -> Option<i64>
    decreases i,
{
    if 0 <= i < nodes.len() {
        if slab_hit(cross(nodes[i].bounding_box), w) is None {
            None
        } else {
            match nodes[i].kind {
                NodeKind::Empty => None,
                NodeKind::Leaf(p) => hits(p, w),
                NodeKind::Internal(l, r) => if l < i && r < i {
                    match bvh_hit(hits, cross, nodes, l as int, w) {
                        Some(tl) => match bvh_hit(hits, cross, nodes, r as int, window(w.min, tl)) {
                            Some(tr) => Some(tr),
                            None => Some(tl),
                        },
                        None => bvh_hit(hits, cross, nodes, r as int, w),
                    }
                } else {
                    None
                },
            }
        }
    } else {
        None
    }
}

/// The boxes are sound for the ray: a primitive hit within a window lies in
/// every box that encloses its own box, so the slab test of such a box
/// passes over that window.
pub open spec fn boxes_bound_hits(
    hits: spec_fn(usize, Interval) -> Option<i64>,
    cross: spec_fn(Aabb) -> Crossings,
    boxes: Seq<Aabb>,
) -> bool {
    forall|p: usize, w: Interval, b: Aabb|
        p < boxes.len() && encloses(b, boxes[p as int]) && (#[trigger] hits(p, w)) is Some
            ==> (#[trigger] slab_hit(cross(b), w)) is Some
}

/// The key by which a span is sorted: the lower bound of the primitive's box
/// on the axis.
pub open spec fn sort_key(boxes: Seq<Aabb>, prim: usize, axis: u8) -> i64 {
    boxes[prim as int].axis(axis as int).min
}

/// `s` with the entries at `a` and `b` exchanged.
pub open spec fn swapped<A>(s: Seq<A>, a: int, b: int) -> Seq<A> {
    s.update(a, s[b]).update(b, s[a])
}

/// Exchanging two entries keeps the multiset of a sequence.
pub proof fn lemma_swap_multiset<A>(s: Seq<A>, a: int, b: int)
    requires
        0 <= a < b < s.len(),
    ensures
        swapped(s, a, b).to_multiset() == s.to_multiset(),
{
    let t = swapped(s, a, b);
    let p = s.subrange(0, a);
    let m = s.subrange(a + 1, b);
    let e = s.subrange(b + 1, s.len() as int);
    assert(s =~= p + seq![s[a]] + m + seq![s[b]] + e);
    assert(t =~= p + seq![s[b]] + m + seq![s[a]] + e);
    vstd::seq_lib::lemma_multiset_commutative(p + seq![s[a]] + m + seq![s[b]], e);
    vstd::seq_lib::lemma_multiset_commutative(p + seq![s[a]] + m, seq![s[b]]);
    vstd::seq_lib::lemma_multiset_commutative(p + seq![s[a]], m);
    vstd::seq_lib::lemma_multiset_commutative(p, seq![s[a]]);
    vstd::seq_lib::lemma_multiset_commutative(p + seq![s[b]] + m + seq![s[a]], e);
    vstd::seq_lib::lemma_multiset_commutative(p + seq![s[b]] + m, seq![s[a]]);
    vstd::seq_lib::lemma_multiset_commutative(p + seq![s[b]], m);
    vstd::seq_lib::lemma_multiset_commutative(p, seq![s[b]]);
    broadcast use vstd::multiset::group_multiset_axioms;

    assert(t.to_multiset() =~= s.to_multiset());
}

/// The multiset of a span is the sum of the multisets of its two parts.
pub proof fn lemma_split_multiset<A>(s: Seq<A>, a: int, m: int, b: int)
    requires
        0 <= a <= m <= b <= s.len(),
    ensures
        s.subrange(a, b).to_multiset() == s.subrange(a, m).to_multiset().add(
            s.subrange(m, b).to_multiset(),
        ),
{
    assert(s.subrange(a, b) =~= s.subrange(a, m) + s.subrange(m, b));
    vstd::seq_lib::lemma_multiset_commutative(s.subrange(a, m), s.subrange(m, b));
}

/// Growing the arena keeps every subtree already in it, with its leaves.
pub proof fn lemma_arena_grows(nodes: Seq<Node>, more: Seq<Node>, i: int, boxes: Seq<Aabb>)
    requires
        nodes.len() <= more.len(),
        forall|k: int| 0 <= k < nodes.len() ==> more[k] == nodes[k],
        wf_at(nodes, i, boxes),
    ensures
        wf_at(more, i, boxes),
        leaves(more, i) == leaves(nodes, i),
    decreases i,
{
    if let NodeKind::Internal(l, r) = nodes[i].kind {
        lemma_arena_grows(nodes, more, l as int, boxes);
        lemma_arena_grows(nodes, more, r as int, boxes);
    }
}

/// Growing the arena keeps the splits of every subtree already in it.
pub proof fn lemma_arena_grows_split(
    nodes: Seq<Node>,
    more: Seq<Node>,
    i: int,
    boxes: Seq<Aabb>,
    ext: spec_fn(Interval) -> i64,
)
    requires
        nodes.len() <= more.len(),
        forall|k: int| 0 <= k < nodes.len() ==> more[k] == nodes[k],
        wf_at(nodes, i, boxes),
        median_split_at(nodes, i, boxes, ext),
    ensures
        median_split_at(more, i, boxes, ext),
    decreases i,
{
    lemma_arena_grows(nodes, more, i, boxes);
    if let NodeKind::Internal(l, r) = nodes[i].kind {
        lemma_arena_grows(nodes, more, l as int, boxes);
        lemma_arena_grows(nodes, more, r as int, boxes);
        lemma_arena_grows_split(nodes, more, l as int, boxes, ext);
        lemma_arena_grows_split(nodes, more, r as int, boxes, ext);
    }
}

/// A value of a span whose multiset matches that of another span is a value
/// of the other span.
proof fn lemma_same_multiset_member(a: Seq<usize>, b: Seq<usize>, k: int)
    requires
        a.to_multiset() == b.to_multiset(),
        0 <= k < a.len(),
    ensures
        exists|j: int| 0 <= j < b.len() && b[j] == a[k],
{
    broadcast use vstd::seq_lib::group_to_multiset_ensures;

    assert(a.contains(a[k]));
    assert(b.to_multiset().count(a[k]) > 0);
    assert(b.contains(a[k]));
}

/// The box of a node encloses the box of every primitive at its leaves.
pub proof fn lemma_node_encloses_leaves(nodes: Seq<Node>, i: int, boxes: Seq<Aabb>, k: int)
    requires
        wf_at(nodes, i, boxes),
        0 <= k < leaves(nodes, i).len(),
    ensures
        leaves(nodes, i)[k] < boxes.len(),
        encloses(nodes[i].bounding_box, boxes[leaves(nodes, i)[k] as int]),
    decreases i,
{
    if let NodeKind::Internal(l, r) = nodes[i].kind {
        let ll = leaves(nodes, l as int);
        lemma_merge_encloses(nodes[l as int].bounding_box, nodes[r as int].bounding_box);
        if k < ll.len() {
            lemma_node_encloses_leaves(nodes, l as int, boxes, k);
            lemma_encloses_trans(
                nodes[i].bounding_box,
                nodes[l as int].bounding_box,
                boxes[leaves(nodes, i)[k] as int],
            );
        } else {
            lemma_node_encloses_leaves(nodes, r as int, boxes, k - ll.len());
            lemma_encloses_trans(
                nodes[i].bounding_box,
                nodes[r as int].bounding_box,
                boxes[leaves(nodes, i)[k] as int],
            );
        }
    }
}

/// The walk of a subtree finds the nearest hit among its leaves.
pub proof fn lemma_bvh_is_nearest(
    hits: spec_fn(usize, Interval) -> Option<i64>,
    cross: spec_fn(Aabb) -> Crossings,
    nodes: Seq<Node>,
    i: int,
    boxes: Seq<Aabb>,
    w: Interval,
)
    requires
        wf_at(nodes, i, boxes),
        reports_nearest(hits),
        boxes_bound_hits(hits, cross, boxes),
    ensures
        is_nearest(hits, leaves(nodes, i), w, bvh_hit(hits, cross, nodes, i, w)),
    decreases i,
{
    let lv = leaves(nodes, i);
    if slab_hit(cross(nodes[i].bounding_box), w) is None {
        assert forall|k: int| 0 <= k < lv.len() implies hits(#[trigger] lv[k], w) is None by {
            lemma_node_encloses_leaves(nodes, i, boxes, k);
            if hits(lv[k], w) is Some {
                assert(slab_hit(cross(nodes[i].bounding_box), w) is Some);
            }
        }
    } else {
        match nodes[i].kind {
            NodeKind::Empty => {},
            NodeKind::Leaf(p) => {
                assert(lv[0] == p);
            },
            NodeKind::Internal(l, r) => {
                let ll = leaves(nodes, l as int);
                let rl = leaves(nodes, r as int);
                lemma_bvh_is_nearest(hits, cross, nodes, l as int, boxes, w);
                match bvh_hit(hits, cross, nodes, l as int, w) {
                    Some(tl) => {
                        lemma_bvh_is_nearest(hits, cross, nodes, r as int, boxes, window(w.min, tl));
                        lemma_join_after_hit(
                            hits,
                            ll,
                            rl,
                            w,
                            tl,
                            bvh_hit(hits, cross, nodes, r as int, window(w.min, tl)),
                        );
                    },
                    None => {
                        lemma_bvh_is_nearest(hits, cross, nodes, r as int, boxes, w);
                        lemma_join_after_miss(hits, ll, rl, w, bvh_hit(hits, cross, nodes, r as int, w));
                    },
                }
            },
        }
    }
}

impl BvhNode {
    /// The tree is well formed over the primitive boxes `boxes`.
    pub open spec fn wf(self, boxes: Seq<Aabb>) -> bool {
        wf_at(self.nodes@, self.root as int, boxes)
    }

    /// The primitives of the tree, left to right.
    pub open spec fn primitives(self) -> Seq<usize> {
        leaves(self.nodes@, self.root as int)
    }

    /// The box of the whole tree.
    pub open spec fn bbox(self) -> Aabb {
        self.nodes@[self.root as int].bounding_box
    }

    /// The tree of one leaf: primitive `prim`, whose box is `bbox`.
    pub fn new_from_hittable(prim: usize, bbox: Aabb) -> (r: BvhNode)
        ensures
            r.nodes@ == seq![Node { kind: NodeKind::Leaf(prim), bounding_box: bbox }],
            r.root == 0,
    {
        let mut nodes: Vec<Node> = Vec::new();
        nodes.push(Node { kind: NodeKind::Leaf(prim), bounding_box: bbox });
        BvhNode { nodes, root: 0 }
    }

    /// The tree over the primitives `order[start..end]`, whose boxes are
    /// `boxes`. A span of three or more is sorted in place by the lower bound
    /// of the primitives' boxes on the longest axis of their union, then split
    /// at its middle; a span of two becomes two leaves; a span of one, a leaf.
    /// An empty or malformed span (`start >= end`, or `end` past the order)
    /// gives the placeholder with the empty box. `extent` gives the rank of the
    /// length `max - min` of an interval.
    pub fn new<F: Fn(Interval) -> i64>(
        boxes: &Vec<Aabb>,
        order: &mut Vec<usize>,
        start: usize,
        end: usize,
        extent: &F,
    ) -> (r: BvhNode)
        requires
            forall|k: int| 0 <= k < old(order).len() ==> old(order)[k] < boxes.len(),
            extent_fn_ok(*extent),
        ensures
            r.wf(boxes@),
            median_split_at(r.nodes@, r.root as int, boxes@, extent_of(*extent)),
            final(order).len() == old(order).len(),
            forall|k: int| 0 <= k < final(order).len() ==> final(order)[k] < boxes.len(),
            start < end <= old(order).len() ==> {
                &&& r.primitives() == final(order)@.subrange(start as int, end as int)
                &&& !(r.nodes@[r.root as int].kind is Empty)
                &&& end - start == 1 ==> r.nodes@[r.root as int].kind == NodeKind::Leaf(
                    old(order)[start as int],
                )
                &&& end - start == 2 ==> {
                    &&& final(order)@ == old(order)@
                    &&& r.nodes@[r.root as int].kind matches NodeKind::Internal(a, b)
                    &&& r.nodes@[a as int].kind == NodeKind::Leaf(old(order)[start as int])
                    &&& r.nodes@[b as int].kind == NodeKind::Leaf(old(order)[start + 1])
                }
                &&& final(order)@.subrange(start as int, end as int).to_multiset() == old(
                    order,
                )@.subrange(start as int, end as int).to_multiset()
                &&& forall|k: int|
                    0 <= k < final(order).len() && !(start <= k < end) ==> final(order)[k] == old(
                        order,
                    )[k]
            },
            !(start < end <= old(order).len()) ==> {
                &&& final(order)@ == old(order)@
                &&& r.nodes@ == seq![Node { kind: NodeKind::Empty, bounding_box: empty_box() }]
                &&& r.root == 0
            },
    {
        let mut nodes: Vec<Node> = Vec::new();
        if start < end && end <= order.len() {
            let root = build(&mut nodes, boxes, order, start, end, extent);
            BvhNode { nodes, root }
        } else {
            nodes.push(Node { kind: NodeKind::Empty, bounding_box: Aabb::empty() });
            BvhNode { nodes, root: 0 }
        }
    }

    /// The tree over all the primitives `0..boxes.len()`, each at exactly one
    /// leaf.
    pub fn from_boxes<F: Fn(Interval) -> i64>(boxes: &Vec<Aabb>, extent: &F) -> (r: BvhNode)
        requires
            extent_fn_ok(*extent),
        ensures
            r.wf(boxes@),
            median_split_at(r.nodes@, r.root as int, boxes@, extent_of(*extent)),
            boxes.len() > 0 ==> r.primitives().to_multiset() == Seq::new(
                boxes.len() as nat,
                |i: int| i as usize,
            ).to_multiset(),
            boxes.len() == 0 ==> r.primitives() == Seq::<usize>::empty(),
    {
        let mut order: Vec<usize> = Vec::new();
        let n = boxes.len();
        let mut i: usize = 0;
        while i < n
            invariant
                n == boxes.len(),
                i <= n,
                order@ == Seq::new(i as nat, |k: int| k as usize),
            decreases n - i,
        {
            order.push(i);
            i += 1;
            proof {
                assert(order@ =~= Seq::new(i as nat, |k: int| k as usize));
            }
        }
        let ghost before = order@;
        let r = BvhNode::new(boxes, &mut order, 0, n, extent);
        proof {
            assert(before.subrange(0, n as int) =~= before);
            assert(order@.subrange(0, n as int) =~= order@);
        }
        r
    }

    /// The nearest hit of a ray among the primitives of the tree within
    /// `interval`. `hit_primitive(p, w)` intersects the ray with primitive
    /// `p` over `w`; `slab_crossings(b)` gives where the ray crosses the slabs
    /// of box `b`.
    pub fn hit<R, F: Fn(usize, Interval) -> Option<(i64, R)>, G: Fn(Aabb) -> Crossings>(
        &self,
        hit_primitive: &F,
        slab_crossings: &G,
        interval: &Interval,
    ) -> (r: Option<(i64, R)>)
        requires
            exists|boxes: Seq<Aabb>| self.wf(boxes),
            hit_fn_ok(*hit_primitive),
            slab_fn_ok(*slab_crossings),
        ensures
            param_of(r) == bvh_hit(
                hits_of(*hit_primitive),
                crossings_of(*slab_crossings),
                self.nodes@,
                self.root as int,
                *interval,
            ),
    {
        let ghost boxes = choose|boxes: Seq<Aabb>| self.wf(boxes);
        hit_at(&self.nodes, self.root, hit_primitive, slab_crossings, *interval, Ghost(boxes))
    }

    pub fn get_aabb(&self) -> (r: Aabb)
        requires
            self.root < self.nodes.len(),
        ensures
            r == self.bbox(),
    {
        self.nodes[self.root].bounding_box
    }
}

fn hit_at<R, F: Fn(usize, Interval) -> Option<(i64, R)>, G: Fn(Aabb) -> Crossings>(
    nodes: &Vec<Node>,
    i: usize,
    hit_primitive: &F,
    slab_crossings: &G,
    w: Interval,
    Ghost(boxes): Ghost<Seq<Aabb>>,
) -> (r: Option<(i64, R)>)
    requires
        wf_at(nodes@, i as int, boxes),
        hit_fn_ok(*hit_primitive),
        slab_fn_ok(*slab_crossings),
    ensures
        param_of(r) == bvh_hit(hits_of(*hit_primitive), crossings_of(*slab_crossings), nodes@, i as int, w),
    decreases i,
{
    let node = nodes[i];
    let crossings = call_slabs(slab_crossings, node.bounding_box);
    if Aabb::hit(&crossings, &w).is_none() {
        return None;
    }
    match node.kind {
        NodeKind::Empty => None,
        NodeKind::Leaf(p) => call_hit(hit_primitive, p, w),
        NodeKind::Internal(l, r) => {
            match hit_at(nodes, l, hit_primitive, slab_crossings, w, Ghost(boxes)) {
                Some(left) => {
                    let narrowed = Interval { min: w.min, max: left.0 };
                    match hit_at(nodes, r, hit_primitive, slab_crossings, narrowed, Ghost(boxes)) {
                        Some(right) => Some(right),
                        None => Some(left),
                    }
                },
                None => hit_at(nodes, r, hit_primitive, slab_crossings, w, Ghost(boxes)),
            }
        },
    }
}

/// Sorts `order[start..end]` in place by `sort_key` on `axis`, by insertion.
fn sort_span(boxes: &Vec<Aabb>, order: &mut Vec<usize>, start: usize, end: usize, axis: u8)
    requires
        start <= end <= old(order).len(),
        forall|k: int| 0 <= k < old(order).len() ==> old(order)[k] < boxes.len(),
    ensures
        final(order).len() == old(order).len(),
        forall|k: int| 0 <= k < final(order).len() ==> final(order)[k] < boxes.len(),
        final(order)@.subrange(start as int, end as int).to_multiset() == old(order)@.subrange(
            start as int,
            end as int,
        ).to_multiset(),
        forall|k: int|
            0 <= k < final(order).len() && !(start <= k < end) ==> final(order)[k] == old(order)[k],
        forall|a: int, b: int|
            start <= a < b < end ==> sort_key(boxes@, final(order)[a], axis) <= sort_key(
                boxes@,
                final(order)[b],
                axis,
            ),
{
    if end - start < 2 {
        return ;
    }
    let ghost initial = order@;
    let mut i: usize = start + 1;
    while i < end
        invariant
            start < i <= end <= order.len(),
            order.len() == initial.len(),
            forall|k: int| 0 <= k < order.len() ==> order[k] < boxes.len(),
            order@.subrange(start as int, end as int).to_multiset() == initial.subrange(
                start as int,
                end as int,
            ).to_multiset(),
            forall|k: int| 0 <= k < order.len() && !(start <= k < end) ==> order[k] == initial[k],
            forall|a: int, b: int|
                start <= a < b < i ==> sort_key(boxes@, order[a], axis) <= sort_key(
                    boxes@,
                    order[b],
                    axis,
                ),
        decreases end - i,
    {
        let mut j: usize = i;
        while j > start && boxes[order[j - 1]].get_axis_interval(axis).min > boxes[order[
            j
        ]].get_axis_interval(axis).min
            invariant
                start <= j <= i < end <= order.len(),
                order.len() == initial.len(),
                forall|k: int| 0 <= k < order.len() ==> order[k] < boxes.len(),
                order@.subrange(start as int, end as int).to_multiset() == initial.subrange(
                    start as int,
                    end as int,
                ).to_multiset(),
                forall|k: int|
                    0 <= k < order.len() && !(start <= k < end) ==> order[k] == initial[k],
                forall|a: int, b: int|
                    start <= a < b <= i && a != j && b != j ==> sort_key(boxes@, order[a], axis)
                        <= sort_key(boxes@, order[b], axis),
                forall|b: int|
                    j < b <= i ==> sort_key(boxes@, order[j as int], axis) <= sort_key(
                        boxes@,
                        order[b],
                        axis,
                    ),
            decreases j,
        {
            let ghost before = order@;
            let x = order[j - 1];
            let y = order[j];
            order[j - 1] = y;
            order[j] = x;
            proof {
                assert(order@ == swapped(before, j - 1, j as int));
                assert(order@.subrange(start as int, end as int) =~= swapped(
                    before.subrange(start as int, end as int),
                    j - 1 - start,
                    j - start,
                ));
                lemma_swap_multiset(before.subrange(start as int, end as int), j - 1 - start, j - start);
            }
            j -= 1;
        }
        i += 1;
    }
}

/// Builds the subtree over `order[start..end]` into the arena and returns its
/// place.
#[verifier::rlimit(80)]
fn build<F: Fn(Interval) -> i64>(
    nodes: &mut Vec<Node>,
    boxes: &Vec<Aabb>,
    order: &mut Vec<usize>,
    start: usize,
    end: usize,
    extent: &F,
) -> (root: usize)
    requires
        start < end <= old(order).len(),
        forall|k: int| 0 <= k < old(order).len() ==> old(order)[k] < boxes.len(),
        extent_fn_ok(*extent),
    ensures
        old(nodes).len() <= final(nodes).len(),
        forall|k: int| 0 <= k < old(nodes).len() ==> final(nodes)[k] == old(nodes)[k],
        root < final(nodes).len(),
        wf_at(final(nodes)@, root as int, boxes@),
        median_split_at(final(nodes)@, root as int, boxes@, extent_of(*extent)),
        !(final(nodes)@[root as int].kind is Empty),
        end - start == 1 ==> final(nodes)@[root as int].kind == NodeKind::Leaf(
            old(order)[start as int],
        ) && final(order)@ == old(order)@,
        end - start == 2 ==> {
            &&& final(order)@ == old(order)@
            &&& final(nodes)@[root as int].kind matches NodeKind::Internal(a, b)
            &&& final(nodes)@[a as int].kind == NodeKind::Leaf(old(order)[start as int])
            &&& final(nodes)@[b as int].kind == NodeKind::Leaf(old(order)[start + 1])
        },
        leaves(final(nodes)@, root as int) == final(order)@.subrange(start as int, end as int),
        final(order).len() == old(order).len(),
        forall|k: int| 0 <= k < final(order).len() ==> final(order)[k] < boxes.len(),
        final(order)@.subrange(start as int, end as int).to_multiset() == old(order)@.subrange(
            start as int,
            end as int,
        ).to_multiset(),
        forall|k: int|
            0 <= k < final(order).len() && !(start <= k < end) ==> final(order)[k] == old(order)[k],
    decreases end - start,
{
    let span = end - start;
    if span == 1 {
        let p = order[start];
        nodes.push(Node { kind: NodeKind::Leaf(p), bounding_box: boxes[p] });
        proof {
            assert(order@.subrange(start as int, end as int) =~= seq![p]);
        }
        return nodes.len() - 1;
    }
    let ghost entry = order@;
    let ghost ext = extent_of(*extent);
    let mut chosen: u8 = 0;
    let mut union = Aabb::empty();
    if span >= 3 {
        let mut k: usize = start;
        while k < end
            invariant
                start <= k <= end <= order.len(),
                order@ == entry,
                forall|k: int| 0 <= k < order.len() ==> order[k] < boxes.len(),
                is_union(union, boxes@, order@.subrange(start as int, k as int)),
            decreases end - k,
        {
            let ghost before = union;
            union = merge_aabb(&union, &boxes[order[k]]);
            proof {
                let s0 = order@.subrange(start as int, k as int);
                assert(order@.subrange(start as int, k + 1) =~= s0.push(order@[k as int]));
                lemma_union_push(before, boxes@, s0, order@[k as int]);
            }
            k += 1;
        }
        let axis = get_longest_axis(
            call_extent(extent, union.x),
            call_extent(extent, union.y),
            call_extent(extent, union.z),
        );
        sort_span(boxes, order, start, end, axis);
        chosen = axis;
    }
    let ghost sorted = order@;
    let ghost nodes0 = nodes@;
    let mid = start + span / 2;
    let l = build(nodes, boxes, order, start, mid, extent);
    let ghost after_left = order@;
    let ghost nodes1 = nodes@;
    let r = build(nodes, boxes, order, mid, end, extent);
    let bb = merge_aabb(&nodes[l].bounding_box, &nodes[r].bounding_box);
    let ghost nodes2 = nodes@;
    nodes.push(Node { kind: NodeKind::Internal(l, r), bounding_box: bb });
    proof {
        lemma_arena_grows(nodes1, nodes2, l as int, boxes@);
        lemma_arena_grows(nodes2, nodes@, l as int, boxes@);
        lemma_arena_grows(nodes2, nodes@, r as int, boxes@);
        lemma_arena_grows_split(nodes1, nodes2, l as int, boxes@, ext);
        lemma_arena_grows_split(nodes2, nodes@, l as int, boxes@, ext);
        lemma_arena_grows_split(nodes2, nodes@, r as int, boxes@, ext);
        let ll = leaves(nodes@, l as int);
        let rl = leaves(nodes@, r as int);
        assert(ll == order@.subrange(start as int, mid as int));
        assert(rl == order@.subrange(mid as int, end as int));
        assert(sorted.subrange(mid as int, end as int) =~= after_left.subrange(
            mid as int,
            end as int,
        ));
        if span >= 3 {
            assert forall|a: int, b: int| 0 <= a < ll.len() && 0 <= b < rl.len() implies sort_key(
                boxes@,
                #[trigger] ll[a],
                chosen,
            ) <= sort_key(boxes@, #[trigger] rl[b], chosen) by {
                lemma_same_multiset_member(ll, sorted.subrange(start as int, mid as int), a);
                lemma_same_multiset_member(rl, sorted.subrange(mid as int, end as int), b);
                let ja = choose|j: int| 0 <= j < mid - start && sorted.subrange(start as int, mid as int)[j] == ll[a];
                let jb = choose|j: int| 0 <= j < end - mid && sorted.subrange(mid as int, end as int)[j] == rl[b];
                assert(sorted[start + ja] == ll[a]);
                assert(sorted[mid + jb] == rl[b]);
            }
            assert(split_on(boxes@, ll, rl, chosen));
        }
        assert(after_left.subrange(start as int, mid as int) =~= order@.subrange(
            start as int,
            mid as int,
        ));
        assert(order@.subrange(start as int, end as int) =~= order@.subrange(
            start as int,
            mid as int,
        ) + order@.subrange(mid as int, end as int));
        assert(sorted.subrange(mid as int, end as int) =~= after_left.subrange(
            mid as int,
            end as int,
        ));
        lemma_split_multiset(order@, start as int, mid as int, end as int);
        lemma_split_multiset(sorted, start as int, mid as int, end as int);
        let whole = leaves(nodes@, nodes@.len() - 1);
        assert(whole == ll + rl);
        assert(whole =~= order@.subrange(start as int, end as int));
        if span >= 3 {
            assert(order@.subrange(start as int, end as int).to_multiset() == entry.subrange(
                start as int,
                end as int,
            ).to_multiset());
            lemma_union_transfer(union, boxes@, entry.subrange(start as int, end as int), whole);
            assert(chosen == longest_of(ext, union));
            assert(is_union(union, boxes@, whole) && split_on(boxes@, ll, rl, longest_of(ext, union)));
        }
    }
    nodes.len() - 1
}

/// The box of every internal node of a well-formed tree encloses the merged
/// boxes of its two children, and the box of every node encloses the box of
/// each primitive below it.
pub proof fn lemma_tree_boxes_enclose(t: BvhNode, boxes: Seq<Aabb>, i: int)
    requires
        t.wf(boxes),
        0 <= i < t.nodes@.len(),
        wf_at(t.nodes@, i, boxes),
    ensures
        t.nodes@[i].kind matches NodeKind::Internal(l, r) ==> encloses(
            t.nodes@[i].bounding_box,
            merged_box(t.nodes@[l as int].bounding_box, t.nodes@[r as int].bounding_box),
        ) && encloses(t.nodes@[i].bounding_box, t.nodes@[l as int].bounding_box) && encloses(
            t.nodes@[i].bounding_box,
            t.nodes@[r as int].bounding_box,
        ),
        forall|k: int|
            0 <= k < leaves(t.nodes@, i).len() ==> encloses(
                t.nodes@[i].bounding_box,
                boxes[#[trigger] leaves(t.nodes@, i)[k] as int],
            ),
{
    if let NodeKind::Internal(l, r) = t.nodes@[i].kind {
        lemma_merge_encloses(t.nodes@[l as int].bounding_box, t.nodes@[r as int].bounding_box);
    }
    assert forall|k: int| 0 <= k < leaves(t.nodes@, i).len() implies encloses(
        t.nodes@[i].bounding_box,
        boxes[#[trigger] leaves(t.nodes@, i)[k] as int],
    ) by {
        lemma_node_encloses_leaves(t.nodes@, i, boxes, k);
    }
}

/// The walk of the tree and the scan of a list over the same primitives report
/// the same nearest hit, for every ray whose primitives follow the
/// nearest-hit rule and whose slab tests do not miss the primitives they
/// enclose.
pub proof fn lemma_bvh_matches_list(
    hits: spec_fn(usize, Interval) -> Option<i64>,
    cross: spec_fn(Aabb) -> Crossings,
    t: BvhNode,
    boxes: Seq<Aabb>,
    list: Seq<usize>,
    w: Interval,
)
    requires
        t.wf(boxes),
        same_members(t.primitives(), list),
        reports_nearest(hits),
        boxes_bound_hits(hits, cross, boxes),
    ensures
        bvh_hit(hits, cross, t.nodes@, t.root as int, w) == scan(hits, list, w),
{
    lemma_bvh_is_nearest(hits, cross, t.nodes@, t.root as int, boxes, w);
    lemma_scan_is_nearest(hits, list, w);
    lemma_nearest_unique(
        hits,
        t.primitives(),
        list,
        w,
        bvh_hit(hits, cross, t.nodes@, t.root as int, w),
        scan(hits, list, w),
    );
}

} // verus!
