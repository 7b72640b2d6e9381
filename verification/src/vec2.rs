//! Points and vectors of the plane: the mathematical model `Point`, the
//! executable `Vec2`, and the products the geometry is built from.

use vstd::prelude::*;
use crate::scalar::{
    div_toward_zero, floor_sqrt, is_floor_sqrt, isqrt, lemma_floor_sqrt_exists, lemma_product_bound,
    lemma_trunc_div_bound, lemma_trunc_div_neg,
    magnitude, trunc_div, within, UNIT, WORLD,
};

verus! {

/// Twice `WORLD`: the largest magnitude of a component of the difference of two
/// placed points.
pub const SPAN: i64 = 524288;

/// Largest magnitude of a component of the difference of two differences of
/// placed points, as an edge of a Minkowski difference is.
pub const WIDE: i64 = 1048576;

/// Largest magnitude of a component of a vector of which the unit vector is
/// taken.
pub const FAR: i64 = 274877906944;

/// Largest magnitude of the dot or cross product of two differences of placed
/// points: `2 * SPAN * SPAN`.
pub const AREA: i128 = 549755813888;

/// A point or vector with integer coordinates of any size: the model of `Vec2`.
pub struct Point {
    pub x: int,
    pub y: int,
}

impl Point {
    /// The sum of two vectors.
    pub open spec fn plus(self, o: Point) -> Point {
        Point { x: self.x + o.x, y: self.y + o.y }
    }

    /// The vector from `o` to `self`.
    pub open spec fn minus(self, o: Point) -> Point {
        Point { x: self.x - o.x, y: self.y - o.y }
    }

    /// The opposite vector.
    pub open spec fn neg(self) -> Point {
        Point { x: -self.x, y: -self.y }
    }

    /// The dot product.
    pub open spec fn dot(self, o: Point) -> int {
        self.x * o.x + self.y * o.y
    }

    /// The cross product: positive when `o` points to the left of `self`.
    pub open spec fn cross(self, o: Point) -> int {
        self.x * o.y - self.y * o.x
    }

    /// The squared length.
    pub open spec fn norm_sq(self) -> int {
        self.x * self.x + self.y * self.y
    }

    /// The vector turned a quarter turn clockwise: for an edge of a polygon
    /// that winds counter-clockwise, the outward normal, with the edge's length.
    pub open spec fn perp(self) -> Point {
        Point { x: self.y, y: -self.x }
    }

    /// Both coordinates lie in `[-b, b]`.
    pub open spec fn bounded(self, b: int) -> bool {
        within(self.x, b) && within(self.y, b)
    }
}

/// Twice the signed area of the triangle `o`, `a`, `b`: positive when the three
/// points make a left turn.
pub open spec fn orient(o: Point, a: Point, b: Point) -> int {
    a.minus(o).cross(b.minus(o))
}

/// The squared distance of two points.
pub open spec fn dist_sq(a: Point, b: Point) -> int {
    a.minus(b).norm_sq()
}

/// A 2d vector
#[derive(Clone, Copy, Debug, PartialEq, Eq, Structural)]
pub struct Vec2 {
    pub x: i64,
    pub y: i64,
}

impl View for Vec2 {
    type V = Point;

    open spec fn view(&self) -> Point {
        Point { x: self.x as int, y: self.y as int }
    }
}

impl Vec2 {
    /// Creates a new vector
    pub fn new(x: i64, y: i64) -> (v: Vec2)
        ensures
            v.x == x,
            v.y == y,
    {
        Vec2 { x, y }
    }

    /// The x coordinate
    pub fn x(self) -> (r: i64)
        ensures
            r == self.x,
    {
        self.x
    }

    /// Set the x coordinate
    pub fn set_x(&mut self, x: i64)
        ensures
            final(self).x == x,
            final(self).y == old(self).y,
    {
        self.x = x;
    }

    /// The y coordinate
    pub fn y(self) -> (r: i64)
        ensures
            r == self.y,
    {
        self.y
    }

    /// Set the y coordinate
    pub fn set_y(&mut self, y: i64)
        ensures
            final(self).y == y,
            final(self).x == old(self).x,
    {
        self.y = y;
    }

    /// The point lies in the world: both coordinates within `WORLD`.
    pub open spec fn in_world(self) -> bool {
        self@.bounded(WORLD as int)
    }

    /// Both coordinates lie within `SPAN`, as those of a difference of two
    /// placed points do.
    pub open spec fn in_span(self) -> bool {
        self@.bounded(SPAN as int)
    }
}

impl From<[i64; 2]> for Vec2 {
    fn from(v: [i64; 2]) -> (r: Vec2) {
        Vec2 { x: v[0], y: v[1] }
    }
}

impl vstd::std_specs::convert::FromSpecImpl<[i64; 2]> for Vec2 {
    open spec fn obeys_from_spec() -> bool {
        true
    }

    open spec fn from_spec(v: [i64; 2]) -> Vec2 {
        Vec2 { x: v[0], y: v[1] }
    }
}

/// The dot and cross products of two vectors within `SPAN` lie within `AREA`.
pub proof fn lemma_products_in_area(a: Point, b: Point)
    requires
        a.bounded(SPAN as int),
        b.bounded(SPAN as int),
    ensures
        within(a.dot(b), AREA as int),
        within(a.cross(b), AREA as int),
        within(a.x * b.x, 274877906944),
        within(a.y * b.y, 274877906944),
        within(a.x * b.y, 274877906944),
        within(a.y * b.x, 274877906944),
{
    lemma_product_bound(a.x, b.x, SPAN as int, SPAN as int);
    lemma_product_bound(a.y, b.y, SPAN as int, SPAN as int);
    lemma_product_bound(a.x, b.y, SPAN as int, SPAN as int);
    lemma_product_bound(a.y, b.x, SPAN as int, SPAN as int);
}

/// The vector from `b` to `a`.
pub fn delta(a: Vec2, b: Vec2) -> (d: Vec2)
    requires
        a.in_world(),
        b.in_world(),
    ensures
        d@ == a@.minus(b@),
        d.in_span(),
{
    Vec2 { x: a.x - b.x, y: a.y - b.y }
}

/// The dot product of two vectors within `SPAN`.
pub fn dot(a: Vec2, b: Vec2) -> (r: i128)
    requires
        a.in_span(),
        b.in_span(),
    ensures
        r == a@.dot(b@),
        within(r as int, AREA as int),
{
    proof {
        lemma_products_in_area(a@, b@);
    }
    (a.x as i128) * (b.x as i128) + (a.y as i128) * (b.y as i128)
}

/// The cross product of two vectors within `SPAN`.
pub fn cross(a: Vec2, b: Vec2) -> (r: i128)
    requires
        a.in_span(),
        b.in_span(),
    ensures
        r == a@.cross(b@),
        within(r as int, AREA as int),
{
    proof {
        lemma_products_in_area(a@, b@);
    }
    (a.x as i128) * (b.y as i128) - (a.y as i128) * (b.x as i128)
}

/// The squared length of a vector within `SPAN`.
pub fn norm_sq(a: Vec2) -> (r: i128)
    requires
        a.in_span(),
    ensures
        r == a@.norm_sq(),
        0 <= r <= AREA,
{
    proof {
        lemma_products_in_area(a@, a@);
        assert(a@.x * a@.x >= 0) by (nonlinear_arith);
        assert(a@.y * a@.y >= 0) by (nonlinear_arith);
    }
    (a.x as i128) * (a.x as i128) + (a.y as i128) * (a.y as i128)
}

/// The outward normal of the edge vector `e`: `e` turned a quarter turn
/// clockwise.
pub fn perp(e: Vec2) -> (n: Vec2)
    requires
        e.in_span(),
    ensures
        n@ == e@.perp(),
        n.in_span(),
{
    Vec2 { x: e.y, y: -e.x }
}

/// Twice the signed area of the triangle of three placed points.
pub fn orientation(o: Vec2, a: Vec2, b: Vec2) -> (r: i128)
    requires
        o.in_world(),
        a.in_world(),
        b.in_world(),
    ensures
        r == orient(o@, a@, b@),
        within(r as int, AREA as int),
{
    cross(delta(a, o), delta(b, o))
}

/// The squared distance of two placed points.
pub fn distance_sq(a: Vec2, b: Vec2) -> (r: i128)
    requires
        a.in_world(),
        b.in_world(),
    ensures
        r == dist_sq(a@, b@),
        0 <= r <= AREA,
{
    norm_sq(delta(a, b))
}

/// The vector of length `UNIT` in the direction of `d`, each coordinate rounded
/// toward zero; for the zero vector, which has no direction, the vector
/// `(0, UNIT)`.
pub open spec fn unit(d: Point) -> Point {
    if d.x == 0 && d.y == 0 {
        Point { x: 0, y: UNIT as int }
    } else {
        let len = floor_sqrt(d.norm_sq() * UNIT * UNIT);
        Point {
            x: trunc_div(d.x * UNIT * UNIT, len),
            y: trunc_div(d.y * UNIT * UNIT, len),
        }
    }
}

/// The vector `d` in steps of `1 / UNIT`, stretched by `t`: `d * t / UNIT`, each
/// coordinate rounded toward zero.
pub open spec fn stretch(d: Point, t: int) -> Point {
    Point { x: trunc_div(d.x * t, UNIT as int), y: trunc_div(d.y * t, UNIT as int) }
}

/// The length of `d` in steps of `1 / UNIT`, rounded down, is at least `UNIT`
/// times the magnitude of either coordinate.
proof fn lemma_scaled_length(dx: int, dy: int, len: int)
    by (nonlinear_arith)
    requires
        is_floor_sqrt((dx * dx + dy * dy) * UNIT * UNIT, len),
        UNIT == 65536,
    ensures
        len >= magnitude(dx) * UNIT,
        len >= magnitude(dy) * UNIT,
        magnitude(dx * UNIT * UNIT) <= UNIT * len,
        magnitude(dy * UNIT * UNIT) <= UNIT * len,
{
    let n = (dx * dx + dy * dy) * UNIT * UNIT;
    let ax = magnitude(dx) * UNIT;
    let ay = magnitude(dy) * UNIT;
    assert(ax * ax <= n);
    assert(ay * ay <= n);
    if len < ax {
        assert((len + 1) * (len + 1) <= ax * ax);
    }
    if len < ay {
        assert((len + 1) * (len + 1) <= ay * ay);
    }
}

/// The opposite vector has the opposite unit vector, unless it is the zero
/// vector.
pub proof fn lemma_unit_neg(d: Point)
    requires
        d.x != 0 || d.y != 0,
    ensures
        unit(d.neg()) == unit(d).neg(),
{
    let e = d.neg();
    assert(e.norm_sq() == d.norm_sq()) by (nonlinear_arith)
        requires
            e.x == -d.x,
            e.y == -d.y,
            e.norm_sq() == e.x * e.x + e.y * e.y,
            d.norm_sq() == d.x * d.x + d.y * d.y,
    ;
    let len = floor_sqrt(d.norm_sq() * UNIT * UNIT);
    assert(floor_sqrt(e.norm_sq() * UNIT * UNIT) == len);
    assert(d.norm_sq() >= 1) by (nonlinear_arith)
        requires
            d.norm_sq() == d.x * d.x + d.y * d.y,
            d.x != 0 || d.y != 0,
    ;
    lemma_floor_sqrt_exists(d.norm_sq() * UNIT * UNIT);
    lemma_scaled_length(d.x, d.y, len);
    lemma_trunc_div_neg(d.x * UNIT * UNIT, len);
    lemma_trunc_div_neg(d.y * UNIT * UNIT, len);
    assert(e.x * UNIT * UNIT == -(d.x * UNIT * UNIT));
    assert(e.y * UNIT * UNIT == -(d.y * UNIT * UNIT));
    assert(unit(e).x == -unit(d).x);
    assert(unit(e).y == -unit(d).y);
}

/// The unit vector in the direction of a vector within `FAR`.
pub fn unit_of(d: Vec2) -> (n: Vec2)
    requires
        d@.bounded(FAR as int),
    ensures
        n@ == unit(d@),
        n@.bounded(UNIT as int),
{
    if d.x == 0 && d.y == 0 {
        return Vec2 { x: 0, y: UNIT };
    }
    proof {
        lemma_product_bound(d.x as int, d.x as int, FAR as int, FAR as int);
        lemma_product_bound(d.y as int, d.y as int, FAR as int, FAR as int);
    }
    let q: i128 = (d.x as i128) * (d.x as i128) + (d.y as i128) * (d.y as i128);
    assert(q >= 1) by (nonlinear_arith)
        requires
            q == d.x * d.x + d.y * d.y,
            d.x != 0 || d.y != 0,
    ;
    let u: i128 = UNIT as i128;
    let uu: i128 = u * u;
    proof {
        lemma_product_bound(q as int, uu as int, 0x2000_0000_0000_0000_0000, 4294967296);
        lemma_product_bound(d.x as int, uu as int, FAR as int, 4294967296);
        lemma_product_bound(d.y as int, uu as int, FAR as int, 4294967296);
    }
    let n: i128 = q * uu;
    assert(n == d@.norm_sq() * UNIT * UNIT) by (nonlinear_arith)
        requires
            n == q * uu,
            uu == UNIT * UNIT,
            q == d@.norm_sq(),
    ;
    let len: u128 = isqrt(n as u128);
    proof {
        lemma_scaled_length(d.x as int, d.y as int, len as int);
        assert(len >= 1) by {
            if len < 1 {
                assert((len + 1) * (len + 1) == 1);
                assert(n >= uu) by (nonlinear_arith)
                    requires
                        n == q * uu,
                        q >= 1,
                        uu >= 0,
                ;
            }
        }
        assert(d.x * uu == d.x * UNIT * UNIT) by (nonlinear_arith)
            requires
                uu == UNIT * UNIT,
        ;
        assert(d.y * uu == d.y * UNIT * UNIT) by (nonlinear_arith)
            requires
                uu == UNIT * UNIT,
        ;
        lemma_trunc_div_bound(d.x * UNIT * UNIT, len as int, UNIT as int);
        lemma_trunc_div_bound(d.y * UNIT * UNIT, len as int, UNIT as int);
    }
    let l: i128 = len as i128;
    let x = div_toward_zero((d.x as i128) * uu, l);
    let y = div_toward_zero((d.y as i128) * uu, l);
    Vec2 { x: x as i64, y: y as i64 }
}

/// The vector `d`, in steps of `1 / UNIT`, stretched by `t`.
pub fn stretch_by(d: Vec2, t: i64) -> (s: Vec2)
    requires
        d@.bounded(UNIT as int),
        0 <= t <= WORLD,
    ensures
        s@ == stretch(d@, t as int),
        s@.bounded(t as int),
{
    proof {
        lemma_product_bound(d.x as int, t as int, UNIT as int, WORLD as int);
        lemma_product_bound(d.y as int, t as int, UNIT as int, WORLD as int);
        assert(-(t * UNIT) <= d.x * t <= t * UNIT) by (nonlinear_arith)
            requires
                -UNIT <= d.x <= UNIT,
                0 <= t,
        ;
        assert(-(t * UNIT) <= d.y * t <= t * UNIT) by (nonlinear_arith)
            requires
                -UNIT <= d.y <= UNIT,
                0 <= t,
        ;
        lemma_trunc_div_bound(d.x * t, UNIT as int, t as int);
        lemma_trunc_div_bound(d.y * t, UNIT as int, t as int);
    }
    let x = div_toward_zero((d.x as i128) * (t as i128), UNIT as i128);
    let y = div_toward_zero((d.y as i128) * (t as i128), UNIT as i128);
    Vec2 { x: x as i64, y: y as i64 }
}


/// The point that divides the points `p0`, `p1` and `p2` by the weights `l0`,
/// `l1` and `l2`, each coordinate rounded toward zero.
pub open spec fn mix3(p0: Point, l0: int, p1: Point, l1: int, p2: Point, l2: int) -> Point {
    Point {
        x: trunc_div(l0 * p0.x + l1 * p1.x + l2 * p2.x, l0 + l1 + l2),
        y: trunc_div(l0 * p0.y + l1 * p1.y + l2 * p2.y, l0 + l1 + l2),
    }
}

/// A sum of bounded numbers with weights that are not negative is bounded by
/// the bound times the sum of the weights.
pub proof fn lemma_weighted_bound(x0: int, l0: int, x1: int, l1: int, x2: int, l2: int, w: int)
    by (nonlinear_arith)
    requires
        l0 >= 0,
        l1 >= 0,
        l2 >= 0,
        -w <= x0 <= w,
        -w <= x1 <= w,
        -w <= x2 <= w,
    ensures
        -(w * (l0 + l1 + l2)) <= l0 * x0 + l1 * x1 + l2 * x2 <= w * (l0 + l1 + l2),
{
}

/// Divides the points `p0`, `p1` and `p2` by weights that are not negative.
pub fn mix(p0: Vec2, l0: i128, p1: Vec2, l1: i128, p2: Vec2, l2: i128) -> (r: Vec2)
    requires
        p0.in_world(),
        p1.in_world(),
        p2.in_world(),
        0 <= l0 <= 0x1000_0000_0000,
        0 <= l1 <= 0x1000_0000_0000,
        0 <= l2 <= 0x1000_0000_0000,
        l0 + l1 + l2 > 0,
    ensures
        r@ == mix3(p0@, l0 as int, p1@, l1 as int, p2@, l2 as int),
        r.in_world(),
{
    proof {
        lemma_product_bound(l0 as int, p0.x as int, 0x1000_0000_0000, WORLD as int);
        lemma_product_bound(l1 as int, p1.x as int, 0x1000_0000_0000, WORLD as int);
        lemma_product_bound(l2 as int, p2.x as int, 0x1000_0000_0000, WORLD as int);
        lemma_product_bound(l0 as int, p0.y as int, 0x1000_0000_0000, WORLD as int);
        lemma_product_bound(l1 as int, p1.y as int, 0x1000_0000_0000, WORLD as int);
        lemma_product_bound(l2 as int, p2.y as int, 0x1000_0000_0000, WORLD as int);
        lemma_weighted_bound(
            p0.x as int,
            l0 as int,
            p1.x as int,
            l1 as int,
            p2.x as int,
            l2 as int,
            WORLD as int,
        );
        lemma_weighted_bound(
            p0.y as int,
            l0 as int,
            p1.y as int,
            l1 as int,
            p2.y as int,
            l2 as int,
            WORLD as int,
        );
        lemma_trunc_div_bound(
            l0 * p0.x + l1 * p1.x + l2 * p2.x,
            l0 + l1 + l2,
            WORLD as int,
        );
        lemma_trunc_div_bound(
            l0 * p0.y + l1 * p1.y + l2 * p2.y,
            l0 + l1 + l2,
            WORLD as int,
        );
    }
    let sum = l0 + l1 + l2;
    let x = div_toward_zero(
        l0 * (p0.x as i128) + l1 * (p1.x as i128) + l2 * (p2.x as i128),
        sum,
    );
    let y = div_toward_zero(
        l0 * (p0.y as i128) + l1 * (p1.y as i128) + l2 * (p2.y as i128),
        sum,
    );
    Vec2 { x: x as i64, y: y as i64 }
}


} // verus!
