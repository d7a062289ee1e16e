//! The mathematical model of the collision query: what it answers for two
//! loops of points of the plane.

use vstd::prelude::*;
use crate::vector::Point;

verus! {

/// The index that comes before `i` on a loop of `n` vertices.
pub open spec fn before(i: int, n: int) -> int {
    if i == 0 {
        n - 1
    } else {
        i - 1
    }
}

/// The edges of the closed loop `ps`: edge `i` leads from the vertex before
/// vertex `i` to vertex `i`, and edge `0` from the last vertex to the first.
pub open spec fn edges(ps: Seq<Point>) -> Seq<Point> {
    Seq::new(ps.len(), |i: int| ps[i].minus(ps[before(i, ps.len() as int)]))
}

/// The corners of the rectangle of the given size that is centred on the
/// origin, counter-clockwise from the lower left one.
///
/// Where a side is odd the centre lies half a grid unit off, towards the
/// upper right.
pub open spec fn rectangle_corners(size: Point) -> Seq<Point> {
    let low = size.halved().neg();
    let high = low.plus(size);
    seq![low, Point { x: high.x, y: low.y }, high, Point { x: low.x, y: high.y }]
}

/// The scalar products of `axis` with the points `ps`, in their order.
pub open spec fn projections(axis: Point, ps: Seq<Point>) -> Seq<int> {
    Seq::new(ps.len(), |i: int| axis.dot(ps[i]))
}

/// The interval that `ps` covers along `axis`: the least and the greatest
/// of its projections, and `(0, 0)` where there is no point.
pub open spec fn bounds(axis: Point, ps: Seq<Point>) -> (int, int) {
    (projections(axis, ps).min(), projections(axis, ps).max())
}

/// Along `axis` the two shapes are apart or just touch: the interval of one
/// ends where that of the other begins, or before.
pub open spec fn apart_along(axis: Point, a: Seq<Point>, b: Seq<Point>) -> bool {
    bounds(axis, a).1 <= bounds(axis, b).0 || bounds(axis, b).1 <= bounds(axis, a).0
}

/// The signed overlap along `axis` of the intervals that `a` and `b` cover.
///
/// It is measured in units of the length of `axis`, and it is positive
/// exactly where the two shapes are not apart along `axis`: where each
/// interval begins before the other one ends.
pub open spec fn signed_overlap(axis: Point, a: Seq<Point>, b: Seq<Point>) -> int {
    let (a_min, a_max) = bounds(axis, a);
    let (b_min, b_max) = bounds(axis, b);
    if a_min < b_max {
        a_max - b_min
    } else {
        b_max - a_min
    }
}

/// For each edge its normal, the edge turned a quarter turn, and the signed
/// overlap of `a` and `b` along that normal.
pub open spec fn axis_overlaps(es: Seq<Point>, a: Seq<Point>, b: Seq<Point>) -> Seq<(Point, int)> {
    Seq::new(es.len(), |i: int| (es[i].perp(), signed_overlap(es[i].perp(), a, b)))
}

/// All the candidate axes of the pair with their overlaps: first those of the
/// edges of `a`, then those of the edges of `b`.
pub open spec fn overlaps(a: Seq<Point>, b: Seq<Point>) -> Seq<(Point, int)> {
    axis_overlaps(edges(a), a, b) + axis_overlaps(edges(b), a, b)
}

/// The penetration `x` is strictly shallower than `y`, each being an axis and
/// a positive overlap in units of the length of its axis: the overlap of `x`
/// divided by the length of its axis is the smaller one. The comparison is
/// made on the squares, so it is exact.
pub open spec fn shallower(x: (Point, int), y: (Point, int)) -> bool {
    x.1 * x.1 * y.0.norm_sq() < y.1 * y.1 * x.0.norm_sq()
}

/// The first of the shallowest penetrations of `os`.
pub open spec fn shallowest(os: Seq<(Point, int)>) -> (Point, int)
    decreases os.len(),
{
    if os.len() <= 1 {
        os[0]
    } else {
        let best = shallowest(os.drop_last());
        if shallower(os.last(), best) {
            os.last()
        } else {
            best
        }
    }
}

/// Some axis of `os` shows no overlap: the shapes are apart or just touch
/// along it.
pub open spec fn separated(os: Seq<(Point, int)>) -> bool {
    exists|i: int| 0 <= i < os.len() && (#[trigger] os[i]).1 <= 0
}

/// Nothing where some axis separates, else the first of the shallowest
/// penetrations.
pub open spec fn least_overlap(os: Seq<(Point, int)>) -> Option<(Point, int)> {
    if separated(os) {
        None
    } else {
        Some(shallowest(os))
    }
}

/// The answer of the collision query for two loops of world points: nothing
/// where a candidate axis separates them, else the axis of least penetration
/// and the overlap along it, in units of the length of that axis.
pub open spec fn collision(a: Seq<Point>, b: Seq<Point>) -> Option<(Point, int)> {
    least_overlap(overlaps(a, b))
}

/// One step of the scan for the least overlap: `None` stays `None` and a
/// candidate without overlap gives `None`; else the candidate replaces the
/// least so far where it is strictly shallower.
pub open spec fn narrowed(least: Option<(Point, int)>, candidate: (Point, int)) -> Option<
    (Point, int),
> {
    if candidate.1 <= 0 {
        None
    } else {
        match least {
            Some(best) => if shallower(candidate, best) {
                Some(candidate)
            } else {
                Some(best)
            },
            None => None,
        }
    }
}

/// The least whole number of steps of length `d` that reach `n`.
pub open spec fn ceil_div(n: int, d: int) -> int {
    (n + d - 1) / d
}

/// The size of `v`.
pub open spec fn abs(v: int) -> int {
    if v < 0 {
        -v
    } else {
        v
    }
}

/// 1, 0 or -1 as `v` is positive, zero or negative.
pub open spec fn signum(v: int) -> int {
    if v < 0 {
        -1
    } else if v == 0 {
        0
    } else {
        1
    }
}

/// The shortest grid displacement along `axis`, each coordinate rounded away
/// from zero, that covers `overlap`, an overlap in units of the length of
/// `axis`. It is zero where there is no overlap.
pub open spec fn correction_of(axis: Point, overlap: int) -> Point {
    if overlap <= 0 || axis.norm_sq() == 0 {
        Point { x: 0, y: 0 }
    } else {
        Point {
            x: signum(axis.x) * ceil_div(overlap * abs(axis.x), axis.norm_sq()),
            y: signum(axis.y) * ceil_div(overlap * abs(axis.y), axis.norm_sq()),
        }
    }
}

/// The points `ps`, each moved by `by`.
pub open spec fn shifted(ps: Seq<Point>, by: Point) -> Seq<Point> {
    Seq::new(ps.len(), |i: int| ps[i].plus(by))
}

} // verus!
