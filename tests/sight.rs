use line_of_sight::sight::{build_fan, collect_rays, generate_line_of_sight, Triangle};
use line_of_sight::space::{Point, Ratio, Segment};

fn pt(x: i64, y: i64) -> Point {
    Point { x, y }
}

fn same(r: Ratio, num: i128, den: i128) -> bool {
    r.den > 0 && r.num * den == num * r.den
}

#[test]
fn collect_rays_keeps_endpoints_in_view() {
    let walls = vec![Segment::new(pt(10, -10), pt(10, 10)), Segment::new(pt(-5, 5), pt(3, 9))];
    let rays = collect_rays(pt(0, 0), pt(1, 0), pt(0, 1), &walls);
    assert_eq!(rays, vec![pt(1, 0), pt(0, 1), pt(10, 10), pt(3, 9)]);
}

#[test]
fn fan_with_one_wall() {
    let walls = vec![Segment::new(pt(10, -10), pt(10, 10))];
    let fan = generate_line_of_sight(pt(0, 0), pt(0, 1), pt(1, 0), &walls);
    assert_eq!(fan.len(), 2);
    assert_eq!(fan[0].first_ray, pt(1, 0));
    assert_eq!(fan[0].second_ray, pt(10, 10));
    assert!(same(fan[0].first_t, 10, 1));
    assert!(same(fan[0].second_t, 1, 1));
    assert_eq!(fan[1].first_ray, pt(10, 10));
    assert_eq!(fan[1].second_ray, pt(0, 1));
    // The upper boundary runs parallel to the wall: the triangle collapses.
    assert_eq!(fan[1].first_t, Ratio { num: 0, den: 1 });
    assert_eq!(fan[1].second_t, Ratio { num: 0, den: 1 });
}

#[test]
fn fan_without_walls_collapses() {
    let walls: Vec<Segment> = Vec::new();
    let fan = generate_line_of_sight(pt(0, 0), pt(0, 1), pt(1, 0), &walls);
    assert_eq!(fan.len(), 1);
    assert_eq!(fan[0].first_t, Ratio { num: 0, den: 1 });
    assert_eq!(fan[0].location, pt(0, 0));
}

#[test]
fn fan_uses_nearest_wall() {
    let walls = vec![
        Segment::new(pt(20, -100), pt(20, 100)),
        Segment::new(pt(10, -100), pt(10, 100)),
    ];
    let fan = generate_line_of_sight(pt(0, 0), pt(1, 1), pt(1, -1), &walls);
    assert_eq!(fan.len(), 1);
    assert!(same(fan[0].first_t, 10, 1));
    assert!(same(fan[0].second_t, 10, 1));
}

#[test]
fn fan_is_connected() {
    let walls = vec![
        Segment::new(pt(5, 5), pt(705, 5)),
        Segment::new(pt(705, 5), pt(705, 505)),
        Segment::new(pt(705, 505), pt(5, 505)),
        Segment::new(pt(5, 505), pt(5, 5)),
        Segment::new(pt(400, 50), pt(600, 250)),
        Segment::new(pt(450, 255), pt(700, 255)),
    ];
    let location = pt(355, 255);
    let fan = generate_line_of_sight(location, pt(4096, 4096), pt(4096, -1000), &walls);
    assert!(fan.len() >= 2);
    for i in 0..fan.len() - 1 {
        assert_eq!(fan[i].second_ray, fan[i + 1].first_ray);
    }
    for t in fan.iter() {
        assert_eq!(t.location, location);
    }
}

#[test]
fn fan_is_repeatable() {
    let walls = vec![Segment::new(pt(10, -10), pt(10, 10)), Segment::new(pt(4, 1), pt(6, 3))];
    let first = generate_line_of_sight(pt(0, 0), pt(0, 1), pt(1, 0), &walls);
    let second = generate_line_of_sight(pt(0, 0), pt(0, 1), pt(1, 0), &walls);
    assert_eq!(first, second);
}

#[test]
fn build_fan_pairs_consecutive_rays() {
    let walls = vec![Segment::new(pt(10, -10), pt(10, 10))];
    let fan = build_fan(pt(0, 0), &vec![pt(1, 0), pt(2, 1), pt(1, 1)], &walls);
    assert_eq!(fan.len(), 2);
    assert!(same(fan[0].first_t, 10, 1));
    assert!(same(fan[0].second_t, 5, 1));
    assert!(same(fan[1].second_t, 10, 1));
}

#[test]
fn triangle_new_keeps_parts() {
    let t = Triangle::new(pt(1, 2), pt(3, 4), Ratio { num: 1, den: 2 }, pt(5, 6), Ratio { num: 3, den: 4 });
    assert_eq!(t.location, pt(1, 2));
    assert_eq!(t.first_ray, pt(3, 4));
    assert_eq!(t.second_t, Ratio { num: 3, den: 4 });
}
