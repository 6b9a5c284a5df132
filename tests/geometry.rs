use raytracer::aabb::{get_longest_axis, merge_aabb, Aabb, Crossings, SlabCrossing};
use raytracer::interval::{merge_interval, Interval};
use raytracer::rank::{bits_from_rank, rank_from_bits, NEG_INFINITY_RANK, POS_INFINITY_RANK};

fn rk(x: f64) -> i64 {
    rank_from_bits((x + 0.0).to_bits())
}

fn un(r: i64) -> f64 {
    f64::from_bits(bits_from_rank(r))
}

fn iv(a: f64, b: f64) -> Interval {
    Interval::new(rk(a), rk(b))
}

fn boxed(min: [f64; 3], max: [f64; 3]) -> Aabb {
    Aabb::new(iv(min[0], max[0]), iv(min[1], max[1]), iv(min[2], max[2]))
}

fn crossings(b: &Aabb, o: [f64; 3], d: [f64; 3]) -> Crossings {
    let axis = |i: usize, a: &Interval| {
        let inv = 1.0 / d[i];
        SlabCrossing { t_lower: rk((un(a.min) - o[i]) * inv), t_upper: rk((un(a.max) - o[i]) * inv), reversed: inv < 0.0 }
    };
    Crossings { x: axis(0, &b.x), y: axis(1, &b.y), z: axis(2, &b.z) }
}

#[test]
fn ranks_follow_the_order_of_doubles() {
    let values = [
        f64::NEG_INFINITY,
        -1.0e300,
        -2.5,
        -1.0,
        -1.0e-300,
        0.0,
        1.0e-300,
        0.001,
        1.0,
        2.5,
        1.0e300,
        f64::INFINITY,
    ];
    for i in 0..values.len() {
        for j in 0..values.len() {
            assert_eq!(values[i] < values[j], rk(values[i]) < rk(values[j]));
            assert_eq!(values[i] == values[j], rk(values[i]) == rk(values[j]));
        }
    }
    assert_eq!(rk(f64::INFINITY), POS_INFINITY_RANK);
    assert_eq!(rk(f64::NEG_INFINITY), NEG_INFINITY_RANK);
    assert_eq!(rk(1.0), 0x3ff0_0000_0000_0000);
    assert_eq!(rank_from_bits((-1.0f64).to_bits()), -0x3ff0_0000_0000_0001);
    assert_eq!(rank_from_bits((-0.0f64).to_bits()), -1);
}

#[test]
fn ranks_round_trip() {
    for x in [-7.25, -0.5, 0.0, 0.5, 3.0, 1.0e10, f64::INFINITY, f64::NEG_INFINITY] {
        assert_eq!(un(rk(x)), x);
    }
    for r in [i64::MIN, -1, 0, 1, i64::MAX] {
        assert_eq!(rank_from_bits(bits_from_rank(r)), r);
    }
}

#[test]
fn interval_membership() {
    let i = iv(-1.0, 2.0);
    assert!(i.contains(rk(-1.0)));
    assert!(i.contains(rk(2.0)));
    assert!(i.contains(rk(0.5)));
    assert!(!i.contains(rk(2.5)));
    assert!(!i.surrounds(rk(-1.0)));
    assert!(!i.surrounds(rk(2.0)));
    assert!(i.surrounds(rk(0.0)));
    assert_eq!(i.get_min_max(), (rk(-1.0), rk(2.0)));
}

#[test]
fn interval_clamp() {
    let i = iv(0.0, 1.0);
    assert_eq!(un(i.clamp(rk(-3.0))), 0.0);
    assert_eq!(un(i.clamp(rk(3.0))), 1.0);
    assert_eq!(un(i.clamp(rk(0.25))), 0.25);
}

#[test]
fn merged_interval_holds_what_either_holds() {
    let a = iv(-1.0, 1.0);
    let b = iv(3.0, 4.0);
    let m = merge_interval(a, b);
    assert_eq!(m, iv(-1.0, 4.0));
    for x in [-1.0, 0.0, 1.0, 3.0, 3.5, 4.0] {
        assert!(a.contains(rk(x)) || b.contains(rk(x)));
        assert!(m.contains(rk(x)));
    }
    assert!(m.contains(rk(2.0)));
    assert!(!m.contains(rk(4.5)));
}

#[test]
fn empty_interval_holds_no_finite_value() {
    let e = Interval::get_empty_interval();
    for x in [-1.0e308, -1.0, 0.0, 1.0, 1.0e308] {
        assert!(!e.contains(rk(x)));
        assert!(!e.surrounds(rk(x)));
    }
    let u = Interval::get_universal_interval();
    for x in [-1.0e308, 0.0, 1.0e308, f64::INFINITY] {
        assert!(u.contains(rk(x)));
    }
    assert_eq!(merge_interval(e, iv(1.0, 2.0)), iv(1.0, 2.0));
}

#[test]
fn merged_box_encloses_both() {
    let a = boxed([0.0, 0.0, 0.0], [1.0, 1.0, 1.0]);
    let b = boxed([-2.0, 0.5, 3.0], [-1.0, 0.75, 4.0]);
    let m = merge_aabb(&a, &b);
    assert_eq!(m, boxed([-2.0, 0.0, 0.0], [1.0, 1.0, 4.0]));
    for part in [a, b] {
        for axis in 0..3u8 {
            let outer = m.get_axis_interval(axis);
            let inner = part.get_axis_interval(axis);
            assert!(outer.min <= inner.min && inner.max <= outer.max);
        }
    }
    assert_eq!(merge_aabb(&Aabb::empty(), &a), a);
    assert_eq!(Aabb::default(), Aabb::empty());
}

#[test]
fn box_from_corners_orders_each_axis() {
    let b = Aabb::from_corners((rk(2.0), rk(-1.0), rk(5.0)), (rk(-3.0), rk(4.0), rk(5.0)));
    assert_eq!(b, Aabb::new(iv(-3.0, 2.0), iv(-1.0, 4.0), iv(5.0, 5.0)));
}

#[test]
fn longest_axis_breaks_ties_toward_x_then_y() {
    assert_eq!(get_longest_axis(rk(3.0), rk(1.0), rk(2.0)), 0);
    assert_eq!(get_longest_axis(rk(1.0), rk(3.0), rk(2.0)), 1);
    assert_eq!(get_longest_axis(rk(1.0), rk(2.0), rk(3.0)), 2);
    assert_eq!(get_longest_axis(rk(2.0), rk(2.0), rk(2.0)), 0);
    assert_eq!(get_longest_axis(rk(1.0), rk(2.0), rk(2.0)), 1);
    assert_eq!(get_longest_axis(rk(2.0), rk(2.0), rk(1.0)), 0);
}

#[test]
fn ray_through_box_hits_it() {
    let b = boxed([-1.0, -1.0, -1.0], [1.0, 1.0, 1.0]);
    let o = [-5.0, 0.2, 0.1];
    let d = [1.0, 0.01, -0.02];
    let hit = Aabb::hit(&crossings(&b, o, d), &iv(0.0, f64::INFINITY)).unwrap();
    assert!(hit.min < hit.max);
    assert_eq!(un(hit.min), 4.0);
    assert_eq!(un(hit.max), 6.0);
}

#[test]
fn ray_along_an_axis_uses_infinite_slabs() {
    let b = boxed([-1.0, -1.0, -1.0], [1.0, 1.0, 1.0]);
    let o = [0.5, 0.5, -4.0];
    let d = [0.0, 0.0, 2.0];
    let hit = Aabb::hit(&crossings(&b, o, d), &iv(0.0, f64::INFINITY)).unwrap();
    assert_eq!(un(hit.min), 1.5);
    assert_eq!(un(hit.max), 2.5);
    let beside = [3.0, 0.5, -4.0];
    assert_eq!(Aabb::hit(&crossings(&b, beside, d), &iv(0.0, f64::INFINITY)), None);
}

#[test]
fn ray_missing_box_or_window_reports_none() {
    let b = boxed([-1.0, -1.0, -1.0], [1.0, 1.0, 1.0]);
    let c = crossings(&b, [-5.0, 3.0, 0.0], [1.0, 0.1, 0.1]);
    assert_eq!(Aabb::hit(&c, &iv(0.0, f64::INFINITY)), None);
    let c = crossings(&b, [-5.0, 0.0, 0.0], [1.0, 0.1, 0.1]);
    assert_eq!(Aabb::hit(&c, &iv(0.0, 3.0)), None);
    assert_eq!(Aabb::hit(&c, &iv(7.0, 9.0)), None);
    let hit = Aabb::hit(&c, &iv(4.5, 5.0)).unwrap();
    assert_eq!((un(hit.min), un(hit.max)), (4.5, 5.0));
}

#[test]
fn empty_box_is_never_hit() {
    let e = Aabb::empty();
    for (o, d) in [
        ([0.0, 0.0, 0.0], [1.0, 1.0, 1.0]),
        ([0.0, 0.0, 0.0], [-1.0, 0.5, -2.0]),
        ([3.0, -2.0, 1.0], [0.0, 0.0, 1.0]),
        ([3.0, -2.0, 1.0], [-0.0, 1.0, -0.0]),
    ] {
        assert_eq!(Aabb::hit(&crossings(&e, o, d), &iv(0.001, f64::INFINITY)), None);
        assert_eq!(Aabb::hit(&crossings(&e, o, d), &Interval::get_universal_interval()), None);
    }
}

#[test]
fn ray_moving_down_an_axis_enters_at_upper_plane() {
    let b = boxed([-1.0, -1.0, -1.0], [1.0, 1.0, 1.0]);
    let hit = Aabb::hit(&crossings(&b, [5.0, 0.0, 0.0], [-1.0, 0.0, 0.0]), &iv(0.0, f64::INFINITY)).unwrap();
    assert_eq!((un(hit.min), un(hit.max)), (4.0, 6.0));
    let c = crossings(&b, [5.0, 0.0, 0.0], [-1.0, 0.0, 0.0]);
    assert!(c.x.reversed);
    assert_eq!((un(c.x.t_lower), un(c.x.t_upper)), (6.0, 4.0));
}
