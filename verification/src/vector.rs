//! Grid vectors and their mathematical model.

use vstd::prelude::*;

verus! {

/// A point or displacement of the plane with unbounded integer coordinates.
///
/// This is the model that every contract of the crate speaks of.
pub struct Point {
    pub x: int,
    pub y: int,
}

impl Point {
    /// Componentwise sum.
    pub open spec fn plus(self, other: Point) -> Point {
        Point { x: self.x + other.x, y: self.y + other.y }
    }

    /// Componentwise difference.
    pub open spec fn minus(self, other: Point) -> Point {
        Point { x: self.x - other.x, y: self.y - other.y }
    }

    /// The opposite vector.
    pub open spec fn neg(self) -> Point {
        Point { x: -self.x, y: -self.y }
    }

    /// The vector stretched by an integer factor.
    pub open spec fn times(self, factor: int) -> Point {
        Point { x: factor * self.x, y: factor * self.y }
    }

    /// Scalar product.
    pub open spec fn dot(self, other: Point) -> int {
        self.x * other.x + self.y * other.y
    }

    /// The vector turned a quarter turn counter-clockwise.
    pub open spec fn perp(self) -> Point {
        Point { x: -self.y, y: self.x }
    }

    /// Each coordinate halved, rounded towards zero.
    pub open spec fn halved(self) -> Point {
        Point { x: half(self.x), y: half(self.y) }
    }

    /// Squared Euclidean length.
    pub open spec fn norm_sq(self) -> int {
        self.x * self.x + self.y * self.y
    }

    /// Both coordinates lie in `[-limit, limit]`.
    pub open spec fn within(self, limit: int) -> bool {
        -limit <= self.x <= limit && -limit <= self.y <= limit
    }

    /// Both coordinates can be held by a grid vector.
    pub open spec fn fits(self) -> bool {
        i64::MIN <= self.x <= i64::MAX && i64::MIN <= self.y <= i64::MAX
    }
}

/// Half of `v`, rounded towards zero.
pub open spec fn half(v: int) -> int {
    if v >= 0 {
        v / 2
    } else {
        -((-v) / 2)
    }
}

/// Every point of `ps` lies within `limit` of the origin on both axes.
pub open spec fn all_within(ps: Seq<Point>, limit: int) -> bool {
    forall|i: int| 0 <= i < ps.len() ==> (#[trigger] ps[i]).within(limit)
}

/// A point or displacement on the grid.
#[derive(Clone, Copy, Debug, Default, PartialEq, Eq, Structural)]
pub struct Vector {
    pub x: i64,
    pub y: i64,
}

impl View for Vector {
    type V = Point;

    open spec fn view(&self) -> Point {
        Point { x: self.x as int, y: self.y as int }
    }
}

/// The points that a sequence of grid vectors stands for.
pub open spec fn points_of(vs: Seq<Vector>) -> Seq<Point> {
    Seq::new(vs.len(), |i: int| vs[i]@)
}

/// The largest coordinate for which every function of the crate that takes
/// plain points is defined: 2^30.
///
/// Sums and differences of two such coordinates, and scalar products of two
/// such vectors, fit in an `i64`.
pub const COORDINATE_LIMIT: i64 = 0x4000_0000;

impl Vector {
    /// The vector with the given coordinates.
    pub fn new(x: i64, y: i64) -> (v: Vector)
        ensures
            v@ == (Point { x: x as int, y: y as int }),
    {
        Vector { x, y }
    }

    /// Tells whether both coordinates lie in `[-limit, limit]`.
    pub fn is_within(&self, limit: i64) -> (r: bool)
        ensures
            r == self@.within(limit as int),
    {
        limit >= 0 && -limit <= self.x && self.x <= limit && -limit <= self.y && self.y <= limit
    }

    /// Componentwise sum.
    pub fn plus(self, other: Vector) -> (r: Vector)
        requires
            self@.plus(other@).fits(),
        ensures
            r@ == self@.plus(other@),
    {
        Vector { x: self.x + other.x, y: self.y + other.y }
    }

    /// Componentwise difference.
    pub fn minus(self, other: Vector) -> (r: Vector)
        requires
            self@.minus(other@).fits(),
        ensures
            r@ == self@.minus(other@),
    {
        Vector { x: self.x - other.x, y: self.y - other.y }
    }

    /// The opposite vector.
    pub fn neg(self) -> (r: Vector)
        requires
            self@.neg().fits(),
        ensures
            r@ == self@.neg(),
    {
        Vector { x: -self.x, y: -self.y }
    }

    /// Each coordinate halved, rounded towards zero.
    pub fn halved(self) -> (r: Vector)
        ensures
            r@ == self@.halved(),
    {
        Vector { x: halved(self.x), y: halved(self.y) }
    }

    /// The vector turned a quarter turn counter-clockwise.
    pub fn perp(self) -> (r: Vector)
        requires
            self@.perp().fits(),
        ensures
            r@ == self@.perp(),
    {
        Vector { x: -self.y, y: self.x }
    }

    /// Scalar product.
    pub fn dot(self, other: Vector) -> (r: i64)
        requires
            i64::MIN <= self@.dot(other@) <= i64::MAX,
        ensures
            r == self@.dot(other@),
    {
        proof {
            lemma_product_range(self.x as int, other.x as int, i64::MAX + 1, i64::MAX + 1);
            lemma_product_range(self.y as int, other.y as int, i64::MAX + 1, i64::MAX + 1);
        }
        let along_x: i128 = (self.x as i128) * (other.x as i128);
        let along_y: i128 = (self.y as i128) * (other.y as i128);
        (along_x + along_y) as i64
    }
}

/// Half of `v`, rounded towards zero.
fn halved(v: i64) -> (r: i64)
    ensures
        r == half(v as int),
{
    if v >= 0 {
        v / 2
    } else {
        let size: i128 = -(v as i128);
        (-(size / 2)) as i64
    }
}

/// A product of two factors, each bounded in size, is bounded by the product
/// of the bounds.
pub proof fn lemma_product_range(a: int, b: int, limit_a: int, limit_b: int)
    by (nonlinear_arith)
    requires
        -limit_a <= a <= limit_a,
        -limit_b <= b <= limit_b,
    ensures
        -(limit_a * limit_b) <= a * b <= limit_a * limit_b,
{
}

} // verus!
