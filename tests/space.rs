use line_of_sight::space::{Point, Ratio, Segment};

fn pt(x: i64, y: i64) -> Point {
    Point { x, y }
}

#[test]
fn ray_between() {
    // The coordinates are tenths of the unit.
    let ray1 = pt(25, 0);
    let ray2 = pt(0, 10);
    let ray3 = pt(-10, 20);
    let ray4 = pt(-10, -11);
    let ray5 = pt(37, -20);
    let ray6 = pt(-20, 0);
    let ray7 = pt(0, -300);
    let ray8 = pt(100, 10);

    assert!(ray8.ray_between(ray1, ray2));
    assert!(ray6.ray_between(ray3, ray4));
    assert!(ray5.ray_between(ray7, ray1));
    assert!(ray4.ray_between(ray3, ray5));

    assert!(!ray3.ray_between(ray1, ray2));
    assert!(!ray1.ray_between(ray3, ray4));
    assert!(!ray2.ray_between(ray7, ray1));
    assert!(!ray8.ray_between(ray3, ray5));
}

#[test]
fn inclusion_near_lower_boundary() {
    let lower = pt(1, 0);
    let upper = pt(0, 1);
    assert!(pt(10, 1).ray_between(lower, upper));
    assert!(!pt(-1, 2).ray_between(lower, upper));
}

#[test]
fn inclusion_accepts_both_boundaries() {
    let lower = pt(3, 1);
    let upper = pt(-1, 4);
    assert!(lower.ray_between(lower, upper));
    assert!(upper.ray_between(lower, upper));
    assert!(pt(6, 2).ray_between(lower, upper));
    assert!(!pt(1, -1).ray_between(lower, upper));
    assert!(!pt(-2, 1).ray_between(lower, upper));
}

#[test]
fn ratio_comparison() {
    let a = Ratio { num: 1, den: 3 };
    let b = Ratio { num: 1, den: 2 };
    assert!(a.less_than(&b));
    assert!(!b.less_than(&a));
    assert!(!a.less_than(&Ratio { num: 2, den: 6 }));
}

#[test]
fn dot_product() {
    assert_eq!(pt(3, -2).dot(pt(4, 5)), 2);
}

fn value(r: Ratio) -> f64 {
    r.num as f64 / r.den as f64
}

#[test]
fn angle_sort() {
    // The coordinates are fifths of the unit.
    let mut rays = vec![pt(5, 5), pt(0, 5), pt(10, 20), pt(-5, 5), pt(5, 1)];
    Point::sort_from_angle(&mut rays, pt(1, 0));
    assert_eq!(rays, vec![pt(5, 1), pt(5, 5), pt(10, 20), pt(0, 5), pt(-5, 5)]);
}

#[test]
fn angle_sort_keeps_order_of_equal_angles() {
    let mut rays = vec![pt(2, 2), pt(0, 3), pt(1, 1), pt(3, 0)];
    Point::sort_from_angle(&mut rays, pt(1, 0));
    assert_eq!(rays, vec![pt(3, 0), pt(2, 2), pt(1, 1), pt(0, 3)]);
}

#[test]
fn angle_sort_empty() {
    let mut rays: Vec<Point> = Vec::new();
    Point::sort_from_angle(&mut rays, pt(1, 0));
    assert!(rays.is_empty());
}

#[test]
fn raycast() {
    let segment1 = Segment::new(pt(10, 0), pt(0, 0));
    let segment2 = Segment::new(pt(0, 0), pt(0, 10));
    let segment3 = Segment::new(pt(1, 9), pt(2, 5));

    let cast1 = segment1.raycast(pt(1, -1), pt(0, 1)).unwrap();
    let cast2 = segment2.raycast(pt(3, 4), pt(-30, 0)).unwrap();
    let cast3 = segment3.raycast(pt(0, 9), pt(1, -1)).unwrap();

    assert_eq!(1.0, value(cast1));
    assert_eq!(1.0 / 10.0, value(cast2));
    assert_eq!(4.0 / 3.0, value(cast3));

    let cast4 = segment1.raycast(pt(2, 0), pt(1, 0));
    let cast5 = segment2.raycast(pt(1, 11), pt(-1, 0));
    let cast6 = segment3.raycast(pt(0, 9), pt(-1, 1));

    assert!(cast4.is_none());
    assert!(cast5.is_none());
    assert!(cast6.is_none());
}

#[test]
fn raycast_exact_parameters() {
    let wall = Segment::new(pt(10, 0), pt(0, 0));
    let t = wall.raycast(pt(1, -1), pt(0, 1)).unwrap();
    assert_eq!(t.num, t.den);
    let wall = Segment::new(pt(0, 0), pt(0, 10));
    let t = wall.raycast(pt(3, 4), pt(-30, 0)).unwrap();
    assert_eq!(t.num * 10, t.den);
    assert!(t.den > 0);
}

#[test]
fn raycast_parallel_is_absent() {
    let wall = Segment::new(pt(0, 0), pt(10, 0));
    assert!(wall.raycast(pt(0, 5), pt(1, 0)).is_none());
    assert!(wall.raycast(pt(-5, 0), pt(1, 0)).is_none());
}

#[test]
fn raycast_behind_observer_is_absent() {
    let wall = Segment::new(pt(0, 0), pt(10, 0));
    assert!(wall.raycast(pt(5, 5), pt(0, 1)).is_none());
    assert!(wall.raycast(pt(5, 5), pt(0, -1)).is_some());
}

#[test]
fn raycast_hits_endpoint() {
    let wall = Segment::new(pt(0, 0), pt(10, 0));
    let t = wall.raycast(pt(5, 5), pt(5, -5)).unwrap();
    assert_eq!(t.num, t.den);
    assert!(wall.raycast(pt(5, 5), pt(6, -5)).is_none());
}

#[test]
fn point_arithmetic() {
    assert_eq!(pt(3, -2).sub(pt(1, 4)), pt(2, -6));
    assert_eq!(pt(3, -2).add(pt(1, 4)), pt(4, 2));
    assert_eq!(pt(3, -2).scale(3), pt(9, -6));
}
