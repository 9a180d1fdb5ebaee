use vstd::prelude::*;
use crate::space::{
    angular_order, angularly_sorted, between, diff, ray_hit, valid_ray, Point, Ratio, Segment,
    POSITION_LIMIT,
};

verus! {

/// One triangle of a visibility fan: the observer at `location` and the points
/// `location + first_t * first_ray` and `location + second_t * second_ray`.
#[derive(Clone, Copy, Debug, PartialEq, Eq, Structural)]
pub struct Triangle {
    pub location: Point,
    pub first_ray: Point,
    pub first_t: Ratio,
    pub second_ray: Point,
    pub second_t: Ratio,
}

impl Triangle {
    pub fn new(location: Point, first_ray: Point, first_t: Ratio, second_ray: Point, second_t: Ratio) -> (r: Triangle)
        ensures
            r == (Triangle { location, first_ray, first_t, second_ray, second_t }),
    {
        Triangle { location, first_ray, first_t, second_ray, second_t }
    }
}

/// The parameter `0 / 1`: a fan edge that collapses onto the observer.
pub open spec fn zero_param() -> Ratio {
    Ratio { num: 0, den: 1 }
}

/// Every wall is proper, has bounded endpoints and none of them at `location`.
pub open spec fn valid_walls(location: Point, walls: Seq<Segment>) -> bool {
    forall|i: int|
        0 <= i < walls.len() ==> {
            let w = #[trigger] walls[i];
            &&& w.is_proper()
            &&& w.start.within(POSITION_LIMIT as int)
            &&& w.end.within(POSITION_LIMIT as int)
            &&& w.start != location
            &&& w.end != location
        }
}

/// The directions of the endpoints of `w` that lie in the field of view.
pub open spec fn endpoint_rays(location: Point, lower: Point, upper: Point, w: Segment) -> Seq<Point> {
    let a = diff(w.start, location);
    let b = diff(w.end, location);
    (if between(a, lower, upper) { seq![a] } else { Seq::empty() }) + (if between(b, lower, upper) {
        seq![b]
    } else {
        Seq::empty()
    })
}

/// The two boundary directions, then the endpoint directions of each wall
/// that the field of view holds, wall by wall.
pub open spec fn candidate_rays(location: Point, lower: Point, upper: Point, walls: Seq<Segment>) -> Seq<Point>
    decreases walls.len(),
{
    if walls.len() == 0 {
        seq![lower, upper]
    } else {
        candidate_rays(location, lower, upper, walls.drop_last()) + endpoint_rays(location, lower, upper, walls.last())
    }
}

/// Over the walls that both rays `a` and `b` hit, the hits of the wall nearest
/// along `a` (the first such wall on a tie), or `None` when there is none.
pub open spec fn nearest_hits(location: Point, a: Point, b: Point, walls: Seq<Segment>) -> Option<(Ratio, Ratio)>
    decreases walls.len(),
{
    if walls.len() == 0 {
        None
    } else {
        let prev = nearest_hits(location, a, b, walls.drop_last());
        let w = walls.last();
        match (ray_hit(w, location, a), ray_hit(w, location, b)) {
            (Some(c), Some(n)) => {
                let closer = match prev {
                    Some(p) => c.lt(p.0),
                    None => true,
                };
                if closer {
                    Some((c, n))
                } else {
                    prev
                }
            },
            _ => prev,
        }
    }
}

/// The triangle between the consecutive rays `a` and `b`: both edges end on
/// the wall nearest along `a` that both rays hit, or collapse onto the
/// observer when no wall is hit by both.
pub open spec fn fan_triangle(location: Point, a: Point, b: Point, walls: Seq<Segment>) -> Triangle {
    match nearest_hits(location, a, b, walls) {
        Some((c, n)) => Triangle { location, first_ray: a, first_t: c, second_ray: b, second_t: n },
        None => Triangle {
            location,
            first_ray: a,
            first_t: zero_param(),
            second_ray: b,
            second_t: zero_param(),
        },
    }
}

/// One triangle for each pair of consecutive rays.
pub open spec fn fan_of(location: Point, rays: Seq<Point>, walls: Seq<Segment>) -> Seq<Triangle> {
    if rays.len() == 0 {
        Seq::empty()
    } else {
        Seq::new((rays.len() - 1) as nat, |i: int| fan_triangle(location, rays[i], rays[i + 1], walls))
    }
}

/// The visibility fan: the candidate rays in angular order from `lower`, and
/// a triangle between each two consecutive ones.
pub open spec fn visibility_fan(location: Point, lower: Point, upper: Point, walls: Seq<Segment>) -> Seq<Triangle> {
    fan_of(location, angular_order(candidate_rays(location, lower, upper, walls), lower), walls)
}

proof fn lemma_candidates_valid(location: Point, lower: Point, upper: Point, walls: Seq<Segment>)
    requires
        location.within(POSITION_LIMIT as int),
        valid_ray(lower),
        valid_ray(upper),
        valid_walls(location, walls),
    ensures
        candidate_rays(location, lower, upper, walls).len() >= 2,
        forall|k: int|
            0 <= k < candidate_rays(location, lower, upper, walls).len() ==> valid_ray(
                #[trigger] candidate_rays(location, lower, upper, walls)[k],
            ),
    decreases walls.len(),
{
    if walls.len() > 0 {
        let prefix = walls.drop_last();
        assert forall|i: int| 0 <= i < prefix.len() implies #[trigger] prefix[i] == walls[i] by {}
        lemma_candidates_valid(location, lower, upper, prefix);
        let w = walls.last();
        assert(w == walls[walls.len() - 1]);
        let e = endpoint_rays(location, lower, upper, w);
        assert forall|k: int| 0 <= k < e.len() implies valid_ray(#[trigger] e[k]) by {}
        let c = candidate_rays(location, lower, upper, walls);
        let p = candidate_rays(location, lower, upper, prefix);
        assert forall|k: int| 0 <= k < c.len() implies valid_ray(#[trigger] c[k]) by {
            if k < p.len() {
                assert(c[k] == p[k]);
            } else {
                assert(c[k] == e[k - p.len()]);
            }
        }
    } else {
        assert(candidate_rays(location, lower, upper, walls) == seq![lower, upper]);
    }
}

/// Collects the boundary directions and the directions of the wall
/// endpoints that lie in the field of view from `lower` to `upper`.
pub fn collect_rays(location: Point, lower: Point, upper: Point, walls: &Vec<Segment>) -> (r: Vec<Point>)
    requires
        location.within(POSITION_LIMIT as int),
        valid_ray(lower),
        valid_ray(upper),
        valid_walls(location, walls@),
    ensures
        r@ == candidate_rays(location, lower, upper, walls@),
{
    let mut rays: Vec<Point> = Vec::new();
    rays.push(lower);
    rays.push(upper);
    let mut i: usize = 0;
    assert(walls@.subrange(0, 0).len() == 0);
    assert(rays@ =~= seq![lower, upper]);
    while i < walls.len()
        invariant
            0 <= i <= walls.len(),
            location.within(POSITION_LIMIT as int),
            valid_ray(lower),
            valid_ray(upper),
            valid_walls(location, walls@),
            rays@ == candidate_rays(location, lower, upper, walls@.subrange(0, i as int)),
        decreases walls.len() - i,
    {
        let w = walls[i];
        let ghost before = rays@;
        let a = w.start.sub(location);
        if a.ray_between(lower, upper) {
            rays.push(a);
        }
        let b = w.end.sub(location);
        if b.ray_between(lower, upper) {
            rays.push(b);
        }
        proof {
            let pre = walls@.subrange(0, i as int + 1);
            assert(pre.drop_last() =~= walls@.subrange(0, i as int));
            assert(pre.last() == w);
            assert(rays@ =~= before + endpoint_rays(location, lower, upper, w));
        }
        i = i + 1;
    }
    assert(walls@.subrange(0, walls.len() as int) =~= walls@);
    rays
}

/// The hits of the nearest wall along `a` that both `a` and `b` hit.
fn nearest(location: Point, a: Point, b: Point, walls: &Vec<Segment>) -> (r: Option<(Ratio, Ratio)>)
    requires
        location.within(POSITION_LIMIT as int),
        valid_ray(a),
        valid_ray(b),
        valid_walls(location, walls@),
    ensures
        r == nearest_hits(location, a, b, walls@),
{
    let mut best: Option<(Ratio, Ratio)> = None;
    let mut j: usize = 0;
    while j < walls.len()
        invariant
            0 <= j <= walls.len(),
            location.within(POSITION_LIMIT as int),
            valid_ray(a),
            valid_ray(b),
            valid_walls(location, walls@),
            best == nearest_hits(location, a, b, walls@.subrange(0, j as int)),
            best matches Some(p) ==> p.0.is_bounded(),
        decreases walls.len() - j,
    {
        let w = walls[j];
        let c = w.raycast(location, a);
        let n = w.raycast(location, b);
        match (c, n) {
            (Some(c), Some(n)) => {
                let closer = match best {
                    None => true,
                    Some(p) => c.less_than(&p.0),
                };
                if closer {
                    best = Some((c, n));
                }
            },
            _ => {},
        }
        proof {
            let pre = walls@.subrange(0, j as int + 1);
            assert(pre.drop_last() =~= walls@.subrange(0, j as int));
            assert(pre.last() == w);
        }
        j = j + 1;
    }
    assert(walls@.subrange(0, walls.len() as int) =~= walls@);
    best
}

/// Builds a triangle between each two consecutive rays of `rays`.
pub fn build_fan(location: Point, rays: &Vec<Point>, walls: &Vec<Segment>) -> (r: Vec<Triangle>)
    requires
        rays.len() >= 1,
        location.within(POSITION_LIMIT as int),
        forall|k: int| 0 <= k < rays.len() ==> valid_ray(#[trigger] rays[k]),
        valid_walls(location, walls@),
    ensures
        r@ == fan_of(location, rays@, walls@),
{
    let mut fan: Vec<Triangle> = Vec::new();
    let mut i: usize = 0;
    while i < rays.len() - 1
        invariant
            rays.len() >= 1,
            0 <= i <= rays.len() - 1,
            location.within(POSITION_LIMIT as int),
            forall|k: int| 0 <= k < rays.len() ==> valid_ray(#[trigger] rays[k]),
            valid_walls(location, walls@),
            fan.len() == i,
            forall|k: int| 0 <= k < i ==> #[trigger] fan[k] == fan_triangle(location, rays[k], rays[k + 1], walls@),
        decreases rays.len() - 1 - i,
    {
        let a = rays[i];
        let b = rays[i + 1];
        let zero = Ratio { num: 0, den: 1 };
        let triangle = match nearest(location, a, b, walls) {
            Some((c, n)) => Triangle::new(location, a, c, b, n),
            None => Triangle::new(location, a, zero, b, zero),
        };
        fan.push(triangle);
        i = i + 1;
    }
    assert(fan@ =~= fan_of(location, rays@, walls@));
    fan
}

/// Computes the region visible from `location` within the field of view
/// from `lower` counterclockwise to `upper`, as a fan of triangles anchored
/// at `location`, one between each two consecutive rays in angular order.
pub fn generate_line_of_sight(location: Point, upper: Point, lower: Point, segments: &Vec<Segment>) -> (r: Vec<
    Triangle,
>)
    requires
        location.within(POSITION_LIMIT as int),
        valid_ray(lower),
        valid_ray(upper),
        valid_walls(location, segments@),
    ensures
        r@ == visibility_fan(location, lower, upper, segments@),
        r.len() + 1 == candidate_rays(location, lower, upper, segments@).len(),
        forall|i: int| 0 <= i < r.len() ==> (#[trigger] r[i]).location == location,
        forall|i: int| 0 <= i < r.len() - 1 ==> (#[trigger] r[i]).second_ray == r[i + 1].first_ray,
{
    let mut rays = collect_rays(location, lower, upper, segments);
    let ghost candidates = rays@;
    proof {
        lemma_candidates_valid(location, lower, upper, segments@);
    }
    Point::sort_from_angle(&mut rays, lower);
    proof {
        rays@.to_multiset_ensures();
        candidates.to_multiset_ensures();
        assert forall|k: int| 0 <= k < rays.len() implies valid_ray(#[trigger] rays[k]) by {
            assert(rays@.contains(rays[k]));
            assert(rays@.to_multiset().count(rays[k]) > 0);
            assert(candidates.to_multiset().count(rays[k]) > 0);
            assert(candidates.contains(rays[k]));
            let j = choose|j: int| 0 <= j < candidates.len() && candidates[j] == rays[k];
            assert(valid_ray(candidates[j]));
        }
    }
    let fan = build_fan(location, &rays, segments);
    proof {
        assert forall|i: int| 0 <= i < fan.len() - 1 implies (#[trigger] fan[i]).second_ray == fan[i + 1].first_ray by {
            assert(fan[i] == fan_triangle(location, rays[i], rays[i + 1], segments@));
            assert(fan[i + 1] == fan_triangle(location, rays[i + 1], rays[i + 2], segments@));
        }
    }
    fan
}

/// The fan depends on the query alone: two results for the same location,
/// field of view and walls are the same triangles.
pub proof fn lemma_fan_is_determined(
    location: Point,
    lower: Point,
    upper: Point,
    walls: Seq<Segment>,
    first: Seq<Triangle>,
    second: Seq<Triangle>,
)
    requires
        first == visibility_fan(location, lower, upper, walls),
        second == visibility_fan(location, lower, upper, walls),
    ensures
        first == second,
{
}

} // verus!
