use vstd::prelude::*;
use vstd::arithmetic::mul::{
    lemma_mul_is_associative, lemma_mul_is_commutative, lemma_mul_is_distributive_add,
    lemma_mul_is_distributive_add_other_way, lemma_mul_is_distributive_sub,
    lemma_mul_is_distributive_sub_other_way, lemma_mul_unary_negation, lemma_mul_inequality,
    lemma_mul_inequality_converse,
};

verus! {

/// Largest absolute coordinate of a position (an observer or a wall endpoint).
pub const POSITION_LIMIT: i64 = 524288;

/// Largest absolute coordinate of a direction. The difference of two positions
/// always stays within it.
pub const DIRECTION_LIMIT: i64 = 1048576;

/// A point of the integer plane, used both as a position and as a direction.
#[derive(Clone, Copy, Debug, PartialEq, Eq, Structural)]
pub struct Point {
    pub x: i64,
    pub y: i64,
}

/// `p - q`, componentwise.
pub open spec fn diff(p: Point, q: Point) -> Point {
    Point { x: (p.x - q.x) as i64, y: (p.y - q.y) as i64 }
}

/// `p + q`, componentwise.
pub open spec fn sum(p: Point, q: Point) -> Point {
    Point { x: (p.x + q.x) as i64, y: (p.y + q.y) as i64 }
}

/// A direction that can be cast: bounded and nonzero.
pub open spec fn valid_ray(p: Point) -> bool {
    p.within(DIRECTION_LIMIT as int) && !p.is_zero()
}

/// The cross product `a.x * b.y - a.y * b.x`: positive when `b` lies
/// counterclockwise of `a` (by less than a half turn).
pub open spec fn cross(a: Point, b: Point) -> int {
    a.x * b.y - a.y * b.x
}

pub open spec fn dot_of(a: Point, b: Point) -> int {
    a.x * b.x + a.y * b.y
}

/// The squared Euclidean length of `a`.
pub open spec fn norm_sq(a: Point) -> int {
    dot_of(a, a)
}

pub open spec fn abs_int(v: int) -> int {
    if v < 0 { -v } else { v }
}

/// `(a . from) * |a . from| * |b|^2`. For nonzero `a` and `b`, `a` makes a
/// smaller angle with `from` than `b` iff `angle_key(a, b, from) > angle_key(b, a, from)`:
/// both sides are the signed squared cosines scaled by `|a|^2 |b|^2`.
pub open spec fn angle_key(a: Point, b: Point, from: Point) -> int {
    dot_of(a, from) * abs_int(dot_of(a, from)) * norm_sq(b)
}

/// `a` comes strictly before `b` in the angular order from `from`.
pub open spec fn angle_lt(a: Point, b: Point, from: Point) -> bool {
    angle_key(a, b, from) > angle_key(b, a, from)
}

/// `a` may come before `b` in the angular order from `from`.
pub open spec fn angle_le(a: Point, b: Point, from: Point) -> bool {
    angle_key(a, b, from) >= angle_key(b, a, from)
}

/// Inserts `x` into `s` after every element that does not come strictly
/// after it, so that equal angles keep the order of insertion.
pub open spec fn insert_by_angle(s: Seq<Point>, x: Point, from: Point) -> Seq<Point>
    decreases s.len(),
{
    if s.len() == 0 {
        seq![x]
    } else if angle_lt(x, s[0], from) {
        seq![x] + s
    } else {
        seq![s[0]] + insert_by_angle(s.drop_first(), x, from)
    }
}

/// The stable angular order of `s` from `from`: each element in turn is
/// inserted after the ones already placed that it does not precede.
pub open spec fn angular_order(s: Seq<Point>, from: Point) -> Seq<Point>
    decreases s.len(),
{
    if s.len() == 0 {
        Seq::empty()
    } else {
        insert_by_angle(angular_order(s.drop_last(), from), s.last(), from)
    }
}

/// Each element may come before the next one.
pub open spec fn angularly_sorted(s: Seq<Point>, from: Point) -> bool {
    forall|i: int| 0 <= i < s.len() - 1 ==> #[trigger] angle_le(s[i], s[i + 1], from)
}

proof fn lemma_norm_sign(a: Point)
    ensures
        norm_sq(a) >= 0,
        !a.is_zero() ==> norm_sq(a) > 0,
{
    assert(a.x * a.x >= 0 && (a.x != 0 ==> a.x * a.x > 0)) by (nonlinear_arith);
    assert(a.y * a.y >= 0 && (a.y != 0 ==> a.y * a.y > 0)) by (nonlinear_arith);
}

/// The angular order is transitive through a nonzero middle direction.
pub proof fn lemma_angle_le_transitive(a: Point, b: Point, c: Point, from: Point)
    requires
        !b.is_zero(),
        angle_le(a, b, from),
        angle_le(b, c, from),
    ensures
        angle_le(a, c, from),
{
    let ka = dot_of(a, from) * abs_int(dot_of(a, from));
    let kb = dot_of(b, from) * abs_int(dot_of(b, from));
    let kc = dot_of(c, from) * abs_int(dot_of(c, from));
    let na = norm_sq(a);
    let nb = norm_sq(b);
    let nc = norm_sq(c);
    lemma_norm_sign(a);
    lemma_norm_sign(b);
    lemma_norm_sign(c);
    lemma_mul_inequality(kb * na, ka * nb, nc);
    lemma_mul_inequality(kc * nb, kb * nc, na);
    lemma_regroup(ka, nb, nc);
    lemma_regroup(kb, na, nc);
    lemma_regroup(kb, nc, na);
    lemma_regroup(kc, nb, na);
    lemma_regroup(ka, nc, nb);
    lemma_regroup(kc, na, nb);
    lemma_mul_inequality_converse(kc * na, ka * nc, nb);
}

/// A sequence of nonzero directions sorted pair by pair is sorted throughout.
pub proof fn lemma_sorted_throughout(s: Seq<Point>, from: Point)
    requires
        angularly_sorted(s, from),
        forall|k: int| 0 <= k < s.len() ==> !(#[trigger] s[k]).is_zero(),
    ensures
        forall|i: int, j: int| 0 <= i < j < s.len() ==> angle_le(#[trigger] s[i], #[trigger] s[j], from),
    decreases s.len(),
{
    if s.len() > 0 {
        let t = s.drop_last();
        assert forall|k: int| 0 <= k < t.len() - 1 implies #[trigger] angle_le(t[k], t[k + 1], from) by {
            assert(t[k] == s[k] && t[k + 1] == s[k + 1]);
        }
        assert forall|k: int| 0 <= k < t.len() implies !(#[trigger] t[k]).is_zero() by {
            assert(t[k] == s[k]);
        }
        lemma_sorted_throughout(t, from);
        assert forall|i: int, j: int| 0 <= i < j < s.len() implies angle_le(#[trigger] s[i], #[trigger] s[j], from) by {
            if j < s.len() - 1 {
                assert(s[i] == t[i] && s[j] == t[j]);
            } else if i < j - 1 {
                let m = j - 1;
                assert(s[i] == t[i] && s[m] == t[m]);
                assert(angle_le(t[i], t[m], from));
                assert(angle_le(s[m], s[m + 1], from));
                lemma_angle_le_transitive(s[i], s[m], s[j], from);
            } else {
                let m = j - 1;
                assert(angle_le(s[m], s[m + 1], from));
            }
        }
    }
}

proof fn lemma_insert_position(s: Seq<Point>, x: Point, p: int, from: Point)
    requires
        0 <= p <= s.len(),
        forall|k: int| 0 <= k < p ==> !angle_lt(x, #[trigger] s[k], from),
        p < s.len() ==> angle_lt(x, s[p], from),
    ensures
        insert_by_angle(s, x, from) == s.insert(p, x),
    decreases s.len(),
{
    if s.len() == 0 {
        assert(s.insert(p, x) =~= seq![x]);
    } else if p == 0 {
        assert(s.insert(p, x) =~= seq![x] + s);
    } else {
        let t = s.drop_first();
        assert forall|k: int| 0 <= k < p - 1 implies !angle_lt(x, #[trigger] t[k], from) by {
            assert(t[k] == s[k + 1]);
        }
        lemma_insert_position(t, x, p - 1, from);
        assert(s.insert(p, x) =~= seq![s[0]] + t.insert(p - 1, x));
    }
}

proof fn lemma_insert_keeps_sorted(s: Seq<Point>, x: Point, p: int, from: Point)
    requires
        0 <= p <= s.len(),
        angularly_sorted(s, from),
        p > 0 ==> !angle_lt(x, s[p - 1], from),
        p < s.len() ==> angle_lt(x, s[p], from),
    ensures
        angularly_sorted(s.insert(p, x), from),
{
    let r = s.insert(p, x);
    assert forall|i: int| 0 <= i < r.len() - 1 implies #[trigger] angle_le(r[i], r[i + 1], from) by {
        if i < p - 1 {
            assert(r[i] == s[i] && r[i + 1] == s[i + 1]);
        } else if i == p - 1 {
            assert(r[i] == s[p - 1] && r[i + 1] == x);
        } else if i == p {
            assert(r[i] == x && r[i + 1] == s[p]);
        } else {
            let j = i - 1;
            assert(r[i] == s[j] && r[i + 1] == s[j + 1]);
            assert(angle_le(s[j], s[j + 1], from));
        }
    }
}


/// `k * d == a * lower + b * upper`, componentwise.
pub open spec fn cone_combination(d: Point, lower: Point, upper: Point, k: int, a: int, b: int) -> bool {
    &&& k * d.x == a * lower.x + b * upper.x
    &&& k * d.y == a * lower.y + b * upper.y
}

/// `d` is a positive multiple of a combination of `lower` and `upper` with
/// positive weights: it points strictly inside the wedge they bound.
pub open spec fn strictly_inside_wedge(d: Point, lower: Point, upper: Point) -> bool {
    exists|k: int, a: int, b: int|
        k > 0 && a > 0 && b > 0 && #[trigger] cone_combination(d, lower, upper, k, a, b)
}

/// `d` points into the closed wedge bounded by `lower` and `upper`, its two
/// boundary rays included.
pub open spec fn in_closed_wedge(d: Point, lower: Point, upper: Point) -> bool {
    exists|k: int, a: int, b: int|
        k > 0 && a >= 0 && b >= 0 && #[trigger] cone_combination(d, lower, upper, k, a, b)
}

/// The inclusion test: `d` is neither counterclockwise beyond `upper` nor
/// clockwise beyond `lower`.
pub open spec fn between(d: Point, lower: Point, upper: Point) -> bool {
    cross(upper, d) <= 0 && cross(d, lower) <= 0
}

pub proof fn lemma_mul_bound(a: int, b: int, ma: int, mb: int) by (nonlinear_arith)
    requires
        -ma <= a <= ma,
        -mb <= b <= mb,
    ensures
        -(ma * mb) <= a * b <= ma * mb,
        0 <= ma * mb,
{
}

proof fn lemma_cross_bound(a: Point, b: Point, m: int)
    requires
        a.within(m),
        b.within(m),
    ensures
        -(2 * (m * m)) <= cross(a, b) <= 2 * (m * m),
        -(2 * (m * m)) <= dot_of(a, b) <= 2 * (m * m),
{
    lemma_mul_bound(a.x as int, b.y as int, m, m);
    lemma_mul_bound(a.y as int, b.x as int, m, m);
    lemma_mul_bound(a.x as int, b.x as int, m, m);
    lemma_mul_bound(a.y as int, b.y as int, m, m);
}

#[verifier::rlimit(100)]
proof fn lemma_decomposition_identity(dx: int, lx: int, ux: int, dy: int, ly: int, uy: int) by (nonlinear_arith)
    ensures
        (lx * uy - ly * ux) * dx == (dx * uy - dy * ux) * lx + (lx * dy - ly * dx) * ux,
        (lx * uy - ly * ux) * dy == (dx * uy - dy * ux) * ly + (lx * dy - ly * dx) * uy,
{
}

/// `cross(lower, upper) * d` splits into `lower` and `upper` with the weights
/// `cross(d, upper)` and `cross(lower, d)`.
proof fn lemma_wedge_decomposition(d: Point, lower: Point, upper: Point)
    ensures
        cone_combination(d, lower, upper, cross(lower, upper), cross(d, upper), cross(lower, d)),
{
    lemma_decomposition_identity(d.x as int, lower.x as int, upper.x as int, d.y as int, lower.y as int, upper.y as int);
}

proof fn lemma_cross_antisymmetric(a: Point, b: Point) by (nonlinear_arith)
    ensures
        cross(a, b) == -cross(b, a),
{
}

proof fn lemma_expand_left(kx: int, ky: int, lx: int, ly: int, ux: int, uy: int, ex: int, ey: int, a: int, b: int)
    requires
        kx == a * lx + b * ux,
        ky == a * ly + b * uy,
    ensures
        kx * ey - ky * ex == a * (lx * ey - ly * ex) + b * (ux * ey - uy * ex),
{
    lemma_mul_is_distributive_add_other_way(ey, a * lx, b * ux);
    lemma_mul_is_distributive_add_other_way(ex, a * ly, b * uy);
    lemma_mul_is_associative(a, lx, ey);
    lemma_mul_is_associative(a, ly, ex);
    lemma_mul_is_associative(b, ux, ey);
    lemma_mul_is_associative(b, uy, ex);
    lemma_mul_is_distributive_sub(a, lx * ey, ly * ex);
    lemma_mul_is_distributive_sub(b, ux * ey, uy * ex);
}

proof fn lemma_expand_right(kx: int, ky: int, lx: int, ly: int, ux: int, uy: int, ex: int, ey: int, a: int, b: int)
    requires
        kx == a * lx + b * ux,
        ky == a * ly + b * uy,
    ensures
        ex * ky - ey * kx == a * (ex * ly - ey * lx) + b * (ex * uy - ey * ux),
{
    lemma_mul_is_distributive_add(ex, a * ly, b * uy);
    lemma_mul_is_distributive_add(ey, a * lx, b * ux);
    lemma_swap_factor(ex, a, ly);
    lemma_swap_factor(ey, a, lx);
    lemma_swap_factor(ex, b, uy);
    lemma_swap_factor(ey, b, ux);
    lemma_mul_is_distributive_sub(a, ex * ly, ey * lx);
    lemma_mul_is_distributive_sub(b, ex * uy, ey * ux);
}

proof fn lemma_swap_factor(x: int, y: int, z: int)
    ensures
        x * (y * z) == y * (x * z),
{
    lemma_mul_is_associative(x, y, z);
    lemma_mul_is_associative(y, x, z);
    lemma_mul_is_commutative(x, y);
}

proof fn lemma_distribute(k: int, p: int, q: int, r: int, s: int) by (nonlinear_arith)
    ensures
        k * (p * q - r * s) == (k * p) * q - (k * r) * s,
        k * (q * p - s * r) == q * (k * p) - s * (k * r),
{
}

proof fn lemma_cross_self(a: Point)
    ensures
        cross(a, a) == 0,
{
    assert(a.x * a.y == a.y * a.x) by (nonlinear_arith);
}

/// Crossing both sides of `k * d == a * lower + b * upper` with `upper`, then
/// with `lower`.
proof fn lemma_combination_cross(d: Point, lower: Point, upper: Point, k: int, a: int, b: int)
    requires
        cone_combination(d, lower, upper, k, a, b),
    ensures
        k * cross(d, upper) == a * cross(lower, upper),
        k * cross(lower, d) == b * cross(lower, upper),
{
    lemma_distribute(k, d.x as int, upper.y as int, d.y as int, upper.x as int);
    lemma_expand_left(k * d.x, k * d.y, lower.x as int, lower.y as int, upper.x as int, upper.y as int,
        upper.x as int, upper.y as int, a, b);
    lemma_cross_self(upper);
    lemma_distribute(k, d.y as int, lower.x as int, d.x as int, lower.y as int);
    lemma_expand_right(k * d.x, k * d.y, lower.x as int, lower.y as int, upper.x as int, upper.y as int,
        lower.x as int, lower.y as int, a, b);
    lemma_cross_self(lower);
}

proof fn lemma_sign_of_product(k: int, v: int, w: int) by (nonlinear_arith)
    requires
        k > 0,
        k * v == w,
    ensures
        w >= 0 ==> v >= 0,
        w > 0 ==> v > 0,
{
}

proof fn lemma_nonneg_product(a: int, b: int) by (nonlinear_arith)
    requires
        a >= 0,
        b >= 0,
    ensures
        a * b >= 0,
        a > 0 && b > 0 ==> a * b > 0,
{
}

/// For a wedge spanning less than a half turn, the inclusion test accepts
/// exactly the directions of the closed wedge; in particular every direction
/// strictly inside it.
pub proof fn lemma_between_is_wedge(d: Point, lower: Point, upper: Point)
    requires
        cross(lower, upper) > 0,
    ensures
        between(d, lower, upper) <==> in_closed_wedge(d, lower, upper),
        strictly_inside_wedge(d, lower, upper) ==> between(d, lower, upper),
{
    lemma_cross_antisymmetric(upper, d);
    lemma_cross_antisymmetric(d, lower);
    if between(d, lower, upper) {
        lemma_wedge_decomposition(d, lower, upper);
        assert(cross(d, upper) >= 0 && cross(lower, d) >= 0);
        assert(cone_combination(d, lower, upper, cross(lower, upper), cross(d, upper), cross(lower, d)));
    }
    if in_closed_wedge(d, lower, upper) {
        let (k, a, b) = choose|k: int, a: int, b: int|
            k > 0 && a >= 0 && b >= 0 && #[trigger] cone_combination(d, lower, upper, k, a, b);
        lemma_combination_cross(d, lower, upper, k, a, b);
        lemma_nonneg_product(a, cross(lower, upper));
        lemma_nonneg_product(b, cross(lower, upper));
        lemma_sign_of_product(k, cross(d, upper), a * cross(lower, upper));
        lemma_sign_of_product(k, cross(lower, d), b * cross(lower, upper));
    }
    if strictly_inside_wedge(d, lower, upper) {
        let (k, a, b) = choose|k: int, a: int, b: int|
            k > 0 && a > 0 && b > 0 && #[trigger] cone_combination(d, lower, upper, k, a, b);
        assert(in_closed_wedge(d, lower, upper)) by {
            assert(k > 0 && a >= 0 && b >= 0 && cone_combination(d, lower, upper, k, a, b));
        }
    }
}

impl Point {
    pub open spec fn within(self, limit: int) -> bool {
        -limit <= self.x <= limit && -limit <= self.y <= limit
    }

    pub open spec fn is_zero(self) -> bool {
        self.x == 0 && self.y == 0
    }

    /// The offset from `other` to `self`.
    pub fn sub(&self, other: Point) -> (r: Point)
        requires
            self.within(POSITION_LIMIT as int),
            other.within(POSITION_LIMIT as int),
        ensures
            r == diff(*self, other),
            r.x == self.x - other.x,
            r.y == self.y - other.y,
            r.within(DIRECTION_LIMIT as int),
    {
        Point { x: self.x - other.x, y: self.y - other.y }
    }

    /// The componentwise sum of two positions.
    pub fn add(&self, other: Point) -> (r: Point)
        requires
            self.within(POSITION_LIMIT as int),
            other.within(POSITION_LIMIT as int),
        ensures
            r == sum(*self, other),
            r.x == self.x + other.x,
            r.y == self.y + other.y,
    {
        Point { x: self.x + other.x, y: self.y + other.y }
    }

    /// `self` scaled by the integer `s`.
    pub fn scale(&self, s: i64) -> (r: Point)
        requires
            self.within(DIRECTION_LIMIT as int),
            -DIRECTION_LIMIT <= s <= DIRECTION_LIMIT,
        ensures
            r.x == self.x * s,
            r.y == self.y * s,
    {
        proof {
            lemma_mul_bound(self.x as int, s as int, DIRECTION_LIMIT as int, DIRECTION_LIMIT as int);
            lemma_mul_bound(self.y as int, s as int, DIRECTION_LIMIT as int, DIRECTION_LIMIT as int);
        }
        Point { x: self.x * s, y: self.y * s }
    }

    pub fn dot(&self, other: Point) -> (r: i64)
        requires
            self.within(DIRECTION_LIMIT as int),
            other.within(DIRECTION_LIMIT as int),
        ensures
            r == dot_of(*self, other),
    {
        proof {
            lemma_cross_bound(*self, other, DIRECTION_LIMIT as int);
            lemma_mul_bound(self.x as int, other.x as int, DIRECTION_LIMIT as int, DIRECTION_LIMIT as int);
            lemma_mul_bound(self.y as int, other.y as int, DIRECTION_LIMIT as int, DIRECTION_LIMIT as int);
        }
        self.x * other.x + self.y * other.y
    }

    /// Accepts `self` iff it lies in the closed wedge from `lower`
    /// counterclockwise to `upper`, which must span less than a half turn.
    pub fn ray_between(&self, lower: Point, upper: Point) -> (r: bool)
        requires
            self.within(DIRECTION_LIMIT as int),
            lower.within(DIRECTION_LIMIT as int),
            upper.within(DIRECTION_LIMIT as int),
        ensures
            r == between(*self, lower, upper),
            cross(lower, upper) > 0 ==> (r <==> in_closed_wedge(*self, lower, upper)),
            cross(lower, upper) > 0 && strictly_inside_wedge(*self, lower, upper) ==> r,
    {
        proof {
            lemma_mul_bound(self.y as int, upper.x as int, DIRECTION_LIMIT as int, DIRECTION_LIMIT as int);
            lemma_mul_bound(self.x as int, upper.y as int, DIRECTION_LIMIT as int, DIRECTION_LIMIT as int);
            lemma_mul_bound(self.x as int, lower.y as int, DIRECTION_LIMIT as int, DIRECTION_LIMIT as int);
            lemma_mul_bound(self.y as int, lower.x as int, DIRECTION_LIMIT as int, DIRECTION_LIMIT as int);
            if cross(lower, upper) > 0 {
                lemma_between_is_wedge(*self, lower, upper);
            }
        }
        // The component of `self` counterclockwise of `upper`.
        let upper_component = self.y * upper.x - self.x * upper.y;
        if upper_component > 0 {
            return false;
        }
        // The component of `self` clockwise of `lower`.
        let lower_component = self.x * lower.y - self.y * lower.x;
        if lower_component > 0 {
            return false;
        }
        true
    }
}

/// Largest absolute value of the numerator or denominator of a ray
/// parameter computed from bounded coordinates.
pub const PARAM_LIMIT: i128 = 4398046511104;

/// The fraction `num / den`.
#[derive(Clone, Copy, Debug, PartialEq, Eq, Structural)]
pub struct Ratio {
    pub num: i128,
    pub den: i128,
}

impl Ratio {
    /// A positive denominator and both parts within `PARAM_LIMIT`.
    pub open spec fn is_bounded(self) -> bool {
        &&& 0 < self.den <= PARAM_LIMIT
        &&& -PARAM_LIMIT <= self.num <= PARAM_LIMIT
    }

    /// `self < other` as fractions, for positive denominators.
    pub open spec fn lt(self, other: Ratio) -> bool {
        self.num * other.den < other.num * self.den
    }

    /// Compares two fractions with positive denominators.
    pub fn less_than(&self, other: &Ratio) -> (r: bool)
        requires
            self.is_bounded(),
            other.is_bounded(),
        ensures
            r == self.lt(*other),
    {
        proof {
            lemma_mul_bound(self.num as int, other.den as int, PARAM_LIMIT as int, PARAM_LIMIT as int);
            lemma_mul_bound(other.num as int, self.den as int, PARAM_LIMIT as int, PARAM_LIMIT as int);
        }
        self.num * other.den < other.num * self.den
    }
}

/// An opaque wall edge from `start` to `end`.
#[derive(Clone, Copy, Debug, PartialEq, Eq, Structural)]
pub struct Segment {
    pub start: Point,
    pub end: Point,
}

/// The determinant of the system `location + t * ray == start + s * (end - start)`;
/// zero exactly when the ray and the segment are parallel.
pub open spec fn determinant(seg: Segment, ray: Point) -> int {
    (seg.end.y - seg.start.y) * ray.x - (seg.end.x - seg.start.x) * ray.y
}

/// `determinant * t` for the solution `t` of the system.
pub open spec fn ray_numerator(seg: Segment, location: Point) -> int {
    (seg.start.x - location.x) * (seg.end.y - seg.start.y) - (seg.start.y - location.y) * (
    seg.end.x - seg.start.x)
}

/// `determinant * s` for the solution `s` of the system.
pub open spec fn segment_numerator(seg: Segment, location: Point, ray: Point) -> int {
    (seg.start.x - location.x) * ray.y - (seg.start.y - location.y) * ray.x
}

/// `location + (tn / td) * ray == start + (sn / td) * (end - start)`, scaled by `td`.
pub open spec fn crosses_at(seg: Segment, location: Point, ray: Point, tn: int, td: int, sn: int) -> bool {
    &&& td * location.x + tn * ray.x == td * seg.start.x + sn * (seg.end.x - seg.start.x)
    &&& td * location.y + tn * ray.y == td * seg.start.y + sn * (seg.end.y - seg.start.y)
}

/// The ray from `location` along `ray` meets the segment at parameter
/// `tn / td >= 0`, at the point `sn / td` of the way from `start` to `end`.
pub open spec fn meets_at(seg: Segment, location: Point, ray: Point, tn: int, td: int, sn: int) -> bool {
    &&& td > 0
    &&& tn >= 0
    &&& 0 <= sn <= td
    &&& crosses_at(seg, location, ray, tn, td, sn)
}

/// The ray from `location` along `ray` meets the segment.
pub open spec fn ray_meets(seg: Segment, location: Point, ray: Point) -> bool {
    exists|tn: int, td: int, sn: int| #[trigger] meets_at(seg, location, ray, tn, td, sn)
}

/// `v` when `d` is positive, `-v` otherwise.
pub open spec fn oriented(d: int, v: int) -> int {
    if d > 0 { v } else { -v }
}

/// The ray parameter of the unique crossing of a non-parallel ray with the
/// segment, as `|determinant|` over the matching numerator, or `None` when the
/// ray is parallel to the segment or the crossing lies off the segment or
/// behind the observer.
pub open spec fn ray_hit(seg: Segment, location: Point, ray: Point) -> Option<Ratio> {
    let d = determinant(seg, ray);
    let tn = oriented(d, ray_numerator(seg, location));
    let sn = oriented(d, segment_numerator(seg, location, ray));
    let dd = oriented(d, d);
    if d != 0 && tn >= 0 && 0 <= sn <= dd {
        Some(Ratio { num: tn as i128, den: dd as i128 })
    } else {
        None
    }
}

/// The sign of a product of two integers.
proof fn lemma_product_sign(a: int, b: int)
    by (nonlinear_arith)
    ensures
        a > 0 && b > 0 ==> a * b > 0,
        a > 0 && b < 0 ==> a * b < 0,
        a < 0 && b > 0 ==> a * b < 0,
        a < 0 && b < 0 ==> a * b > 0,
        a == 0 || b == 0 ==> a * b == 0,
{
}

/// `(a * b) * c` regrouped.
proof fn lemma_regroup(a: int, b: int, c: int)
    ensures
        (a * b) * c == a * (b * c),
        (a * b) * c == a * (c * b),
{
    lemma_mul_is_associative(a, b, c);
    lemma_mul_is_commutative(b, c);
    lemma_mul_is_associative(a, c, b);
}

proof fn lemma_solution_identity(px: int, py: int, rx: int, ry: int, wx: int, wy: int)
    ensures
        (wx * ry - wy * rx) * px - (wx * py - wy * px) * rx == wx * (ry * px - rx * py),
        (wx * ry - wy * rx) * py - (wx * py - wy * px) * ry == wy * (ry * px - rx * py),
{
    lemma_mul_is_distributive_sub_other_way(px, wx * ry, wy * rx);
    lemma_mul_is_distributive_sub_other_way(rx, wx * py, wy * px);
    lemma_mul_is_distributive_sub_other_way(py, wx * ry, wy * rx);
    lemma_mul_is_distributive_sub_other_way(ry, wx * py, wy * px);
    lemma_regroup(wy, rx, px);
    lemma_regroup(wy, px, rx);
    lemma_regroup(wx, ry, px);
    lemma_regroup(wx, py, rx);
    lemma_regroup(wx, ry, py);
    lemma_regroup(wx, py, ry);
    lemma_regroup(wy, px, ry);
    lemma_regroup(wy, rx, py);
    lemma_mul_is_distributive_sub(wx, ry * px, rx * py);
    lemma_mul_is_distributive_sub(wy, ry * px, rx * py);
}

proof fn lemma_solution_unique(px: int, py: int, rx: int, ry: int, wx: int, wy: int, tn: int, td: int, sn: int)
    requires
        tn * px - sn * rx == td * wx,
        tn * py - sn * ry == td * wy,
    ensures
        tn * (ry * px - rx * py) == td * (wx * ry - wy * rx),
        sn * (ry * px - rx * py) == td * (wx * py - wy * px),
{
    let e1 = tn * px - sn * rx;
    let e2 = tn * py - sn * ry;
    assert(e1 * ry == (td * wx) * ry);
    assert(e2 * rx == (td * wy) * rx);
    assert(e1 * py == (td * wx) * py);
    assert(e2 * px == (td * wy) * px);
    lemma_mul_is_distributive_sub_other_way(ry, tn * px, sn * rx);
    lemma_mul_is_distributive_sub_other_way(rx, tn * py, sn * ry);
    lemma_mul_is_distributive_sub_other_way(py, tn * px, sn * rx);
    lemma_mul_is_distributive_sub_other_way(px, tn * py, sn * ry);
    lemma_regroup(tn, px, ry);
    lemma_regroup(tn, py, rx);
    lemma_regroup(sn, rx, ry);
    lemma_regroup(sn, ry, rx);
    lemma_regroup(td, wx, ry);
    lemma_regroup(td, wy, rx);
    lemma_regroup(tn, py, px);
    lemma_regroup(tn, px, py);
    lemma_regroup(sn, ry, px);
    lemma_regroup(sn, rx, py);
    lemma_regroup(td, wy, px);
    lemma_regroup(td, wx, py);
    lemma_mul_is_distributive_sub(tn, ry * px, rx * py);
    lemma_mul_is_distributive_sub(td, wx * ry, wy * rx);
    lemma_mul_is_distributive_sub(sn, ry * px, rx * py);
    lemma_mul_is_distributive_sub(td, wx * py, wy * px);
}

/// With a nonzero determinant, every crossing of the two lines carries the
/// parameters of `ray_hit`, scaled.
proof fn lemma_crossing_parameters(seg: Segment, location: Point, ray: Point, tn: int, td: int, sn: int)
    requires
        crosses_at(seg, location, ray, tn, td, sn),
    ensures
        tn * determinant(seg, ray) == td * ray_numerator(seg, location),
        sn * determinant(seg, ray) == td * segment_numerator(seg, location, ray),
{
    lemma_mul_is_distributive_sub(td, seg.start.x as int, location.x as int);
    lemma_mul_is_distributive_sub(td, seg.start.y as int, location.y as int);
    lemma_solution_unique(ray.x as int, ray.y as int, seg.end.x - seg.start.x, seg.end.y - seg.start.y,
        seg.start.x - location.x, seg.start.y - location.y, tn, td, sn);
}

/// When `ray_hit` gives a parameter, the ray meets the segment there; and a
/// ray that is not parallel to the segment and meets it gets a parameter.
pub proof fn lemma_ray_hit_meaning(seg: Segment, location: Point, ray: Point)
    ensures
        ray_hit(seg, location, ray) is Some ==> meets_at(
            seg,
            location,
            ray,
            oriented(determinant(seg, ray), ray_numerator(seg, location)),
            oriented(determinant(seg, ray), determinant(seg, ray)),
            oriented(determinant(seg, ray), segment_numerator(seg, location, ray)),
        ),
        determinant(seg, ray) != 0 && ray_meets(seg, location, ray) ==> ray_hit(seg, location, ray) is Some,
{
    let d = determinant(seg, ray);
    let rn = ray_numerator(seg, location);
    let sn = segment_numerator(seg, location, ray);
    let wx = seg.start.x - location.x;
    let wy = seg.start.y - location.y;
    let rx = seg.end.x - seg.start.x;
    let ry = seg.end.y - seg.start.y;
    if d != 0 {
        lemma_solution_identity(ray.x as int, ray.y as int, rx, ry, wx, wy);
        lemma_mul_is_commutative(d, wx);
        lemma_mul_is_commutative(d, wy);
        let dd = oriented(d, d);
        lemma_mul_is_distributive_sub(dd, seg.start.x as int, location.x as int);
        lemma_mul_is_distributive_sub(dd, seg.start.y as int, location.y as int);
        if d > 0 {
        } else {
            lemma_mul_unary_negation(rn, ray.x as int);
            lemma_mul_unary_negation(sn, rx);
            lemma_mul_unary_negation(d, wx);
            lemma_mul_unary_negation(rn, ray.y as int);
            lemma_mul_unary_negation(sn, ry);
            lemma_mul_unary_negation(d, wy);
        }
        if ray_meets(seg, location, ray) {
            let (tn0, td0, sn0) = choose|tn: int, td: int, sn: int| #[trigger] meets_at(seg, location, ray, tn, td, sn);
            lemma_crossing_parameters(seg, location, ray, tn0, td0, sn0);
            lemma_product_sign(tn0, d);
            lemma_product_sign(td0, rn);
            lemma_product_sign(sn0, d);
            lemma_product_sign(td0, sn);
            lemma_product_sign(td0 - sn0, d);
            lemma_mul_is_distributive_sub_other_way(d, td0, sn0);
            lemma_mul_is_commutative(td0, d);
            lemma_product_sign(td0, d - sn);
            lemma_product_sign(td0, -d - (-sn));
            lemma_mul_is_distributive_sub(td0, d, sn);
            lemma_mul_is_distributive_sub(td0, -d, -sn);
            lemma_mul_unary_negation(td0, d);
            lemma_mul_unary_negation(td0, sn);
        }
    }
}

/// A ray whose backward extension crosses the segment (at a negative
/// parameter `tn / td`) does not meet it.
pub proof fn lemma_backward_crossing_misses(seg: Segment, location: Point, ray: Point, tn: int, td: int, sn: int)
    requires
        td > 0,
        tn < 0,
        0 <= sn <= td,
        crosses_at(seg, location, ray, tn, td, sn),
    ensures
        ray_hit(seg, location, ray) is None,
{
    let d = determinant(seg, ray);
    if d != 0 {
        lemma_crossing_parameters(seg, location, ray, tn, td, sn);
        lemma_backward_sign(tn, td, d, ray_numerator(seg, location));
    }
}

proof fn lemma_backward_sign(tn: int, td: int, d: int, rn: int)
    requires
        td > 0,
        tn < 0,
        d != 0,
        tn * d == td * rn,
    ensures
        d > 0 ==> rn < 0,
        d < 0 ==> rn > 0,
{
    lemma_product_sign(tn, d);
    lemma_product_sign(td, rn);
}

impl Segment {
    /// A wall has two distinct endpoints.
    pub open spec fn is_proper(self) -> bool {
        self.start != self.end
    }

    pub fn new(start: Point, end: Point) -> (r: Segment)
        requires
            start != end,
        ensures
            r.start == start,
            r.end == end,
            r.is_proper(),
    {
        Segment { start, end }
    }
}

impl Segment {
    /// Casts the ray from `location` along the nonzero direction `ray` at the
    /// segment, and returns the parameter `t` at which `location + t * ray`
    /// lies on it, or `None` when the ray is parallel to the segment or the
    /// crossing lies beside the segment or behind the observer.
    pub fn raycast(&self, location: Point, ray: Point) -> (r: Option<Ratio>)
        requires
            self.start.within(POSITION_LIMIT as int),
            self.end.within(POSITION_LIMIT as int),
            location.within(POSITION_LIMIT as int),
            ray.within(DIRECTION_LIMIT as int),
            !ray.is_zero(),
        ensures
            r == ray_hit(*self, location, ray),
            r matches Some(t) ==> t.is_bounded() && meets_at(
                *self,
                location,
                ray,
                t.num as int,
                t.den as int,
                oriented(determinant(*self, ray), segment_numerator(*self, location, ray)),
            ),
            determinant(*self, ray) != 0 && ray_meets(*self, location, ray) ==> r is Some,
            determinant(*self, ray) == 0 ==> r is None,
    {
        proof {
            lemma_ray_hit_meaning(*self, location, ray);
        }
        let denominator = product(self.end.y - self.start.y, ray.x) - product(self.end.x - self.start.x, ray.y);
        if denominator == 0 {
            // The ray and the segment are parallel.
            return None;
        }
        let segment_num = product(self.start.x - location.x, ray.y) - product(self.start.y - location.y, ray.x);
        let ray_num = product(self.start.x - location.x, self.end.y - self.start.y) - product(
            self.start.y - location.y,
            self.end.x - self.start.x,
        );
        let t: i128;
        let s: i128;
        let d: i128;
        if denominator > 0 {
            t = ray_num;
            s = segment_num;
            d = denominator;
        } else {
            t = -ray_num;
            s = -segment_num;
            d = -denominator;
        }
        if s < 0 || s > d {
            // The lines cross beside the segment.
            return None;
        }
        if t < 0 {
            // The crossing lies behind the observer.
            return None;
        }
        Some(Ratio { num: t, den: d })
    }
}

/// The exact product of two coordinates of directions.
fn product(a: i64, b: i64) -> (r: i128)
    requires
        -DIRECTION_LIMIT <= a <= DIRECTION_LIMIT,
        -DIRECTION_LIMIT <= b <= DIRECTION_LIMIT,
    ensures
        r == a * b,
        -1099511627776 <= r <= 1099511627776,
{
    proof {
        lemma_mul_bound(a as int, b as int, DIRECTION_LIMIT as int, DIRECTION_LIMIT as int);
    }
    (a as i128) * (b as i128)
}

/// The angular sort key of `a` against `b`, exactly.
fn key_of(a: Point, b: Point, from: Point) -> (r: i128)
    requires
        a.within(DIRECTION_LIMIT as int),
        b.within(DIRECTION_LIMIT as int),
        from.within(DIRECTION_LIMIT as int),
    ensures
        r == angle_key(a, b, from),
{
    proof {
        lemma_cross_bound(a, from, DIRECTION_LIMIT as int);
        lemma_cross_bound(b, b, DIRECTION_LIMIT as int);
    }
    let da = a.dot(from);
    let ad: i64 = if da < 0 { -da } else { da };
    let nb = b.dot(b);
    proof {
        lemma_mul_bound(da as int, ad as int, 2199023255552, 2199023255552);
        lemma_mul_bound(da * ad, nb as int, 4835703278458516698824704, 2199023255552);
    }
    (da as i128) * (ad as i128) * (nb as i128)
}

impl Point {
    /// Sorts `rays` by angle from `from`, smallest first, without square
    /// roots: `a` precedes `b` when `(a . from) |a . from| |b|^2` exceeds
    /// `(b . from) |b . from| |a|^2`. Rays of equal key keep their order.
    pub fn sort_from_angle(rays: &mut Vec<Point>, from: Point)
        requires
            from.within(DIRECTION_LIMIT as int),
            forall|i: int| 0 <= i < old(rays).len() ==> (#[trigger] old(rays)[i]).within(DIRECTION_LIMIT as int),
        ensures
            final(rays)@ == angular_order(old(rays)@, from),
            final(rays)@.to_multiset() == old(rays)@.to_multiset(),
            angularly_sorted(final(rays)@, from),
            (forall|i: int| 0 <= i < old(rays).len() ==> !(#[trigger] old(rays)[i]).is_zero()) ==> forall|
                i: int,
                j: int,
            | 0 <= i < j < final(rays).len() ==> angle_le(#[trigger] final(rays)[i], #[trigger] final(rays)[j], from),
    {
        let mut sorted: Vec<Point> = Vec::new();
        let ghost input = rays@;
        let mut i: usize = 0;
        assert(input.subrange(0, 0) =~= Seq::<Point>::empty());
        assert(sorted@ =~= Seq::<Point>::empty());
        while i < rays.len()
            invariant
                rays@ == input,
                0 <= i <= rays.len(),
                from.within(DIRECTION_LIMIT as int),
                forall|k: int| 0 <= k < rays.len() ==> (#[trigger] rays[k]).within(DIRECTION_LIMIT as int),
                sorted@ == angular_order(input.subrange(0, i as int), from),
                sorted@.to_multiset() == input.subrange(0, i as int).to_multiset(),
                angularly_sorted(sorted@, from),
                forall|k: int| 0 <= k < sorted.len() ==> (#[trigger] sorted[k]).within(DIRECTION_LIMIT as int),
            decreases rays.len() - i,
        {
            let x = rays[i];
            let mut p: usize = 0;
            while p < sorted.len() && !(key_of(x, sorted[p], from) > key_of(sorted[p], x, from))
                invariant
                    0 <= p <= sorted.len(),
                    x.within(DIRECTION_LIMIT as int),
                    from.within(DIRECTION_LIMIT as int),
                    forall|k: int| 0 <= k < sorted.len() ==> (#[trigger] sorted[k]).within(DIRECTION_LIMIT as int),
                    forall|k: int| 0 <= k < p ==> !angle_lt(x, #[trigger] sorted[k], from),
                decreases sorted.len() - p,
            {
                p = p + 1;
            }
            proof {
                lemma_insert_position(sorted@, x, p as int, from);
                lemma_insert_keeps_sorted(sorted@, x, p as int, from);
                vstd::seq_lib::to_multiset_insert(sorted@, p as int, x);
                let pre = input.subrange(0, i as int + 1);
                assert(pre.drop_last() =~= input.subrange(0, i as int));
                assert(pre =~= input.subrange(0, i as int).push(x));
                vstd::seq_lib::to_multiset_build(input.subrange(0, i as int), x);
            }
            sorted.insert(p, x);
            i = i + 1;
        }
        assert(input.subrange(0, input.len() as int) =~= input);
        proof {
            if forall|k: int| 0 <= k < input.len() ==> !(#[trigger] input[k]).is_zero() {
                sorted@.to_multiset_ensures();
                input.to_multiset_ensures();
                assert forall|k: int| 0 <= k < sorted.len() implies !(#[trigger] sorted[k]).is_zero() by {
                    assert(sorted@.contains(sorted[k]));
                    assert(sorted@.to_multiset().count(sorted[k]) > 0);
                    assert(input.contains(sorted[k]));
                    let j = choose|j: int| 0 <= j < input.len() && input[j] == sorted[k];
                    assert(!input[j].is_zero());
                }
                lemma_sorted_throughout(sorted@, from);
            }
        }
        *rays = sorted;
    }
}

} // verus!
