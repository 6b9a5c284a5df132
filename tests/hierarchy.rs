use raytracer::aabb::{merge_aabb, Aabb, Crossings, SlabCrossing};
use raytracer::bvh::{BvhNode, NodeKind};
use raytracer::hittable::HittableList;
use raytracer::interval::Interval;
use raytracer::primitives::sphere_hit;
use raytracer::rank::{bits_from_rank, rank_from_bits};

fn rk(x: f64) -> i64 {
    rank_from_bits((x + 0.0).to_bits())
}

fn un(r: i64) -> f64 {
    f64::from_bits(bits_from_rank(r))
}

fn iv(a: f64, b: f64) -> Interval {
    Interval::new(rk(a), rk(b))
}

fn extent(i: Interval) -> i64 {
    rk(un(i.max) - un(i.min))
}

fn dot(a: [f64; 3], b: [f64; 3]) -> f64 {
    a[0] * b[0] + a[1] * b[1] + a[2] * b[2]
}

#[derive(Clone, Copy)]
struct Ball {
    c: [f64; 3],
    r: f64,
}

impl Ball {
    fn bbox(&self) -> Aabb {
        let i = |k: usize| iv(self.c[k] - self.r, self.c[k] + self.r);
        Aabb::new(i(0), i(1), i(2))
    }
}

struct Shot<'a> {
    o: [f64; 3],
    d: [f64; 3],
    balls: &'a [Ball],
}

impl<'a> Shot<'a> {
    fn hit(&self, prim: usize, window: &Interval) -> Option<(i64, usize)> {
        let b = self.balls[prim];
        let oc = [b.c[0] - self.o[0], b.c[1] - self.o[1], b.c[2] - self.o[2]];
        let a = dot(self.d, self.d);
        let h = dot(self.d, oc);
        let c = dot(oc, oc) - b.r * b.r;
        let disc = h * h - a * c;
        let roots = if disc < 0.0 {
            None
        } else {
            let s = disc.sqrt();
            Some((rk((h - s) / a), rk((h + s) / a)))
        };
        sphere_hit(roots, window).map(|t| (t, prim))
    }

    fn slab_crossings(&self, b: &Aabb) -> Crossings {
        let axis = |k: usize, a: &Interval| {
            let inv = 1.0 / self.d[k];
            SlabCrossing {
                t_lower: rk((un(a.min) - self.o[k]) * inv),
                t_upper: rk((un(a.max) - self.o[k]) * inv),
                reversed: inv < 0.0,
            }
        };
        Crossings { x: axis(0, &b.x), y: axis(1, &b.y), z: axis(2, &b.z) }
    }
}

struct Lcg(u64);

impl Lcg {
    fn next(&mut self) -> f64 {
        self.0 = self.0.wrapping_mul(6364136223846793005).wrapping_add(1442695040888963407);
        ((self.0 >> 11) as f64) / ((1u64 << 53) as f64)
    }

    fn range(&mut self, lo: f64, hi: f64) -> f64 {
        lo + (hi - lo) * self.next()
    }
}

fn scene(n: usize, seed: u64) -> Vec<Ball> {
    let mut g = Lcg(seed);
    (0..n)
        .map(|_| Ball {
            c: [g.range(-10.0, 10.0), g.range(-10.0, 10.0), g.range(-10.0, 10.0)],
            r: g.range(0.2, 1.5),
        })
        .collect()
}

fn check_tree(t: &BvhNode, boxes: &[Aabb], i: usize, seen: &mut Vec<usize>) {
    let node = t.nodes[i];
    match node.kind {
        NodeKind::Empty => assert_eq!(node.bounding_box, Aabb::empty()),
        NodeKind::Leaf(p) => {
            assert_eq!(node.bounding_box, boxes[p]);
            seen.push(p);
        }
        NodeKind::Internal(l, r) => {
            assert!(l < i && r < i);
            let m = merge_aabb(&t.nodes[l].bounding_box, &t.nodes[r].bounding_box);
            assert_eq!(node.bounding_box, m);
            for child in [l, r] {
                for axis in 0..3u8 {
                    let outer = node.bounding_box.get_axis_interval(axis);
                    let inner = t.nodes[child].bounding_box.get_axis_interval(axis);
                    assert!(outer.min <= inner.min && inner.max <= outer.max);
                }
            }
            check_tree(t, boxes, l, seen);
            check_tree(t, boxes, r, seen);
        }
    }
}

#[test]
fn every_node_encloses_its_children() {
    for n in [1usize, 2, 3, 4, 7, 50] {
        let balls = scene(n, n as u64 + 11);
        let boxes: Vec<Aabb> = balls.iter().map(|b| b.bbox()).collect();
        let t = BvhNode::from_boxes(&boxes, &extent);
        let mut seen = Vec::new();
        check_tree(&t, &boxes, t.root, &mut seen);
        seen.sort();
        assert_eq!(seen, (0..n).collect::<Vec<_>>());
    }
}

#[test]
fn spans_of_zero_one_and_two() {
    let balls = scene(3, 5);
    let boxes: Vec<Aabb> = balls.iter().map(|b| b.bbox()).collect();
    let mut order = vec![0usize, 1, 2];
    let empty = BvhNode::new(&boxes, &mut order, 1, 1, &extent);
    assert_eq!(empty.nodes.len(), 1);
    assert_eq!(empty.nodes[0].kind, NodeKind::Empty);
    assert_eq!(empty.get_aabb(), Aabb::empty());
    let malformed = BvhNode::new(&boxes, &mut order, 2, 9, &extent);
    assert_eq!(malformed.nodes[0].kind, NodeKind::Empty);
    let backwards = BvhNode::new(&boxes, &mut order, 2, 1, &extent);
    assert_eq!(backwards.nodes[0].kind, NodeKind::Empty);
    let one = BvhNode::new(&boxes, &mut order, 1, 2, &extent);
    assert_eq!(one.nodes[one.root].kind, NodeKind::Leaf(1));
    assert_eq!(one.get_aabb(), boxes[1]);
    let two = BvhNode::new(&boxes, &mut order, 0, 2, &extent);
    assert_eq!(two.nodes.len(), 3);
    assert_eq!(two.nodes[two.root].kind, NodeKind::Internal(0, 1));
    assert_eq!(two.nodes[0].kind, NodeKind::Leaf(0));
    assert_eq!(two.nodes[1].kind, NodeKind::Leaf(1));
    assert_eq!(two.get_aabb(), merge_aabb(&boxes[0], &boxes[1]));
    assert_eq!(order, vec![0, 1, 2]);
    let leaf = BvhNode::new_from_hittable(2, boxes[2]);
    assert_eq!(leaf.nodes[0].kind, NodeKind::Leaf(2));
}

#[test]
fn span_is_sorted_along_longest_axis_and_split_at_middle() {
    let mk = |x: f64, y: f64| {
        let b = Ball { c: [x, y, 0.0], r: 0.1 };
        b.bbox()
    };
    let boxes = vec![mk(5.0, 0.0), mk(1.0, 0.3), mk(3.0, 0.1), mk(2.0, 0.2)];
    let mut order = vec![0usize, 1, 2, 3];
    let t = BvhNode::new(&boxes, &mut order, 0, 4, &extent);
    assert_eq!(order, vec![1, 3, 2, 0]);
    let mut seen = Vec::new();
    check_tree(&t, &boxes, t.root, &mut seen);
    assert_eq!(seen, vec![1, 3, 2, 0]);
}

#[test]
fn hierarchy_and_list_agree_on_nearest_hit() {
    let balls = scene(60, 7);
    let boxes: Vec<Aabb> = balls.iter().map(|b| b.bbox()).collect();
    let t = BvhNode::from_boxes(&boxes, &extent);
    let mut list = HittableList::new();
    for (k, b) in boxes.iter().enumerate() {
        list.add_hittable(k, b);
    }
    assert_eq!(list.get_num_hittables(), 60);
    assert_eq!(list.get_aabb(), t.get_aabb());
    let mut g = Lcg(99);
    let mut hits = 0;
    for _ in 0..2000 {
        let o = [g.range(-15.0, 15.0), g.range(-15.0, 15.0), g.range(-15.0, 15.0)];
        let target = [g.range(-8.0, 8.0), g.range(-8.0, 8.0), g.range(-8.0, 8.0)];
        let d = [target[0] - o[0], target[1] - o[1], target[2] - o[2]];
        let shot = Shot { o, d, balls: &balls };
        let window = iv(0.001, f64::INFINITY);
        let a = t.hit(&|p, w| shot.hit(p, &w), &|b| shot.slab_crossings(&b), &window);
        let b = list.hit(&|p, w| shot.hit(p, &w), &window);
        assert_eq!(a.map(|h| h.0), b.map(|h| h.0));
        if a.is_some() {
            hits += 1;
        }
    }
    assert!(hits > 100);
}

#[test]
fn list_keeps_order_and_merges_boxes() {
    let balls = scene(4, 3);
    let boxes: Vec<Aabb> = balls.iter().map(|b| b.bbox()).collect();
    let mut a = HittableList::new();
    a.add_hittable(0, &boxes[0]);
    a.add_hittable(1, &boxes[1]);
    let mut b = HittableList::new();
    b.add_hittable(3, &boxes[3]);
    b.add_hittable(2, &boxes[2]);
    a.add_hittable_list(b);
    let whole = merge_aabb(&merge_aabb(&boxes[0], &boxes[1]), &merge_aabb(&boxes[3], &boxes[2]));
    assert_eq!(a.get_aabb(), whole);
    assert_eq!(a.get_hittables(), vec![0, 1, 3, 2]);
}

#[test]
fn nearest_of_two_spheres_in_line() {
    let balls = vec![Ball { c: [0.0, 0.0, -10.0], r: 1.0 }, Ball { c: [0.0, 0.0, -5.0], r: 1.0 }];
    let boxes: Vec<Aabb> = balls.iter().map(|b| b.bbox()).collect();
    let t = BvhNode::from_boxes(&boxes, &extent);
    let shot = Shot { o: [0.0, 0.0, 0.0], d: [0.0, 0.0, -1.0], balls: &balls };
    let h = t.hit(&|p, w| shot.hit(p, &w), &|b| shot.slab_crossings(&b), &iv(0.001, f64::INFINITY)).unwrap();
    assert_eq!(un(h.0), 4.0);
    assert_eq!(h.1, 1);
    let mut list = HittableList::new();
    list.add_hittable(0, &boxes[0]);
    list.add_hittable(1, &boxes[1]);
    let h = list.hit(&|p, w| shot.hit(p, &w), &iv(0.001, f64::INFINITY)).unwrap();
    assert_eq!((un(h.0), h.1), (4.0, 1));
    let h = t.hit(&|p, w| shot.hit(p, &w), &|b| shot.slab_crossings(&b), &iv(7.0, f64::INFINITY)).unwrap();
    assert_eq!((un(h.0), h.1), (9.0, 0));
    assert!(t.hit(&|p, w| shot.hit(p, &w), &|b| shot.slab_crossings(&b), &iv(0.001, 3.0)).is_none());
}

#[test]
fn span_is_split_along_y_when_y_is_longest() {
    let mk = |x: f64, y: f64| Ball { c: [x, y, 0.0], r: 0.1 }.bbox();
    let boxes = vec![mk(0.0, 9.0), mk(1.0, 3.0), mk(2.0, 6.0), mk(3.0, 0.0), mk(0.5, 12.0)];
    let mut order = vec![0usize, 1, 2, 3, 4];
    let t = BvhNode::new(&boxes, &mut order, 0, 5, &extent);
    assert_eq!(order, vec![3, 1, 2, 0, 4]);
    match t.nodes[t.root].kind {
        NodeKind::Internal(l, r) => {
            let mut left = Vec::new();
            check_tree(&t, &boxes, l, &mut left);
            let mut right = Vec::new();
            check_tree(&t, &boxes, r, &mut right);
            assert_eq!(left.len(), 2);
            assert_eq!(right.len(), 3);
            for a in &left {
                for b in &right {
                    assert!(boxes[*a].y.min <= boxes[*b].y.min);
                }
            }
        }
        _ => panic!("a span of five is split"),
    }
}
