//! The separating-axis theorem: the normals of the edges are enough to tell
//! two convex polygons apart.

use vstd::prelude::*;
use crate::laws::separating_axis_gives_none;
use crate::lemmas::{lemma_dot_with_opposite, lemma_edges_of_shifted, lemma_overlaps_entry};
use crate::model::{apart_along, before, bounds, collision, edges, overlaps, projections, shifted};
use crate::plane::{
    cross, lemma_cross_from_far_end, lemma_cross_of_difference, lemma_cross_of_reverse,
    lemma_dot_of_difference, lemma_four_vectors, lemma_lengths, lemma_split_along_edge,
    lemma_three_vectors,
};
use crate::vector::Point;

verus! {

/// The index that comes after `i` on a loop of `n` vertices.
pub open spec fn after(i: int, n: int) -> int {
    if i + 1 >= n {
        0
    } else {
        i + 1
    }
}

/// How far edge `i` of the loop turns to the left into the edge after it.
pub open spec fn turn(ps: Seq<Point>, i: int) -> int {
    cross(edges(ps)[i], edges(ps)[after(i, ps.len() as int)])
}

/// How far vertex `j` of the loop lies to the left of edge `i`.
pub open spec fn side(ps: Seq<Point>, i: int, j: int) -> int {
    cross(edges(ps)[i], ps[j].minus(ps[i]))
}

/// Edge `i` of the loop turns to the left into the edge after it, or the
/// edge after it runs straight on.
pub open spec fn bends_left(ps: Seq<Point>, i: int) -> bool {
    turn(ps, i) > 0 || (turn(ps, i) == 0 && edges(ps)[i].dot(
        edges(ps)[after(i, ps.len() as int)],
    ) > 0)
}

/// The loop `ps` is a convex polygon whose vertices run counter-clockwise:
/// each edge turns to the left into the next one or is continued by it, and
/// no vertex lies to the right of an edge.
pub open spec fn counter_clockwise(ps: Seq<Point>) -> bool {
    &&& ps.len() > 0
    &&& forall|i: int| 0 <= i < ps.len() ==> #[trigger] bends_left(ps, i)
    &&& forall|i: int, j: int|
        0 <= i < ps.len() && 0 <= j < ps.len() ==> #[trigger] side(ps, i, j) >= 0
}

/// The loop `ps` run through the other way round.
pub open spec fn reversed(ps: Seq<Point>) -> Seq<Point> {
    Seq::new(ps.len(), |i: int| ps[ps.len() - 1 - i])
}

/// The loop `ps` is a convex polygon, whichever way round its vertices run.
pub open spec fn convex(ps: Seq<Point>) -> bool {
    counter_clockwise(ps) || counter_clockwise(reversed(ps))
}

/// Along `axis` no point of `a` lies beyond a point of `b`.
pub open spec fn not_beyond(axis: Point, a: Seq<Point>, b: Seq<Point>) -> bool {
    forall|i: int, j: int|
        0 <= i < a.len() && 0 <= j < b.len() ==> axis.dot(#[trigger] a[i]) <= axis.dot(
            #[trigger] b[j],
        )
}

/// Where no point of `a` lies beyond a point of `b`, the interval of `a`
/// ends where that of `b` begins or before, and the other way round.
pub proof fn lemma_not_beyond_is_disjoint(axis: Point, a: Seq<Point>, b: Seq<Point>)
    requires
        a.len() > 0,
        b.len() > 0,
    ensures
        not_beyond(axis, a, b) <==> bounds(axis, a).1 <= bounds(axis, b).0,
{
    let pa = projections(axis, a);
    let pb = projections(axis, b);
    pa.max_ensures();
    pb.min_ensures();
    let i = choose|i: int| 0 <= i < pa.len() && pa[i] == pa.max();
    let j = choose|j: int| 0 <= j < pb.len() && pb[j] == pb.min();
    if not_beyond(axis, a, b) {
        assert(axis.dot(a[i]) <= axis.dot(b[j]));
    }
    if pa.max() <= pb.min() {
        assert forall|i: int, j: int| 0 <= i < a.len() && 0 <= j < b.len() implies axis.dot(
            #[trigger] a[i],
        ) <= axis.dot(#[trigger] b[j]) by {
            assert(pa[i] <= pa.max());
            assert(pb.min() <= pb[j]);
        }
    }
}

/// Along the opposite direction the order of the points is reversed.
pub proof fn lemma_not_beyond_reversed(axis: Point, a: Seq<Point>, b: Seq<Point>)
    requires
        not_beyond(axis, b, a),
    ensures
        not_beyond(axis.neg(), a, b),
{
    assert forall|i: int, j: int| 0 <= i < a.len() && 0 <= j < b.len() implies axis.neg().dot(
        #[trigger] a[i],
    ) <= axis.neg().dot(#[trigger] b[j]) by {
        assert(axis.dot(b[j]) <= axis.dot(a[i]));
        lemma_dot_with_opposite(axis, a[i]);
        lemma_dot_with_opposite(axis, b[j]);
    }
}

/// The order of the points along an axis does not depend on the way round
/// that the loops run.
pub proof fn lemma_not_beyond_of_reversed(axis: Point, a: Seq<Point>, b: Seq<Point>)
    ensures
        not_beyond(axis, reversed(a), b) == not_beyond(axis, a, b),
        not_beyond(axis, a, reversed(b)) == not_beyond(axis, a, b),
{
    let ra = reversed(a);
    let rb = reversed(b);
    if not_beyond(axis, a, b) {
        assert forall|i: int, j: int| 0 <= i < ra.len() && 0 <= j < b.len() implies axis.dot(
            #[trigger] ra[i],
        ) <= axis.dot(#[trigger] b[j]) by {
            assert(axis.dot(a[a.len() - 1 - i]) <= axis.dot(b[j]));
        }
        assert forall|i: int, j: int| 0 <= i < a.len() && 0 <= j < rb.len() implies axis.dot(
            #[trigger] a[i],
        ) <= axis.dot(#[trigger] rb[j]) by {
            assert(axis.dot(a[i]) <= axis.dot(b[b.len() - 1 - j]));
        }
    }
    if not_beyond(axis, ra, b) {
        assert forall|i: int, j: int| 0 <= i < a.len() && 0 <= j < b.len() implies axis.dot(
            #[trigger] a[i],
        ) <= axis.dot(#[trigger] b[j]) by {
            assert(axis.dot(ra[a.len() - 1 - i]) <= axis.dot(b[j]));
        }
    }
    if not_beyond(axis, a, rb) {
        assert forall|i: int, j: int| 0 <= i < a.len() && 0 <= j < b.len() implies axis.dot(
            #[trigger] a[i],
        ) <= axis.dot(#[trigger] b[j]) by {
            assert(axis.dot(a[i]) <= axis.dot(rb[b.len() - 1 - j]));
        }
    }
}

/// Along the opposite of an axis the two shapes are apart as they are along
/// the axis, the other way round.
pub proof fn lemma_apart_along_opposite(axis: Point, a: Seq<Point>, b: Seq<Point>)
    requires
        not_beyond(axis, a, b) || not_beyond(axis, b, a),
    ensures
        not_beyond(axis.neg(), a, b) || not_beyond(axis.neg(), b, a),
{
    if not_beyond(axis, a, b) {
        lemma_not_beyond_reversed(axis, b, a);
    } else {
        lemma_not_beyond_reversed(axis, a, b);
    }
}

/// An edge of a convex polygon is not the zero vector.
pub proof fn lemma_edge_is_not_zero(ps: Seq<Point>, i: int)
    requires
        counter_clockwise(ps),
        0 <= i < ps.len(),
    ensures
        edges(ps)[i].norm_sq() > 0,
{
    let e = edges(ps)[i];
    let next = edges(ps)[after(i, ps.len() as int)];
    assert(bends_left(ps, i));
    assert(e.x * e.x + e.y * e.y > 0) by (nonlinear_arith)
        requires
            e.x * next.y - e.y * next.x > 0 || e.x * next.x + e.y * next.y > 0,
    ;
}

/// A convex polygon lies to the left of the edge that leaves vertex `i`, seen
/// from vertex `i`.
pub proof fn lemma_left_of_leaving_edge(ps: Seq<Point>, i: int, k: int)
    requires
        counter_clockwise(ps),
        0 <= i < ps.len(),
        0 <= k < ps.len(),
    ensures
        cross(edges(ps)[after(i, ps.len() as int)], ps[k].minus(ps[i])) >= 0,
{
    let next = after(i, ps.len() as int);
    let e = edges(ps)[next];
    assert(side(ps, next, k) >= 0);
    assert(e == ps[next].minus(ps[i]));
    lemma_cross_of_difference(e, ps[k], ps[next]);
    lemma_cross_of_difference(e, ps[k], ps[i]);
    lemma_cross_of_difference(e, ps[next], ps[i]);
    assert(cross(e, e) == 0) by (nonlinear_arith)
        requires
            cross(e, e) == e.x * e.y - e.y * e.x,
    ;
}

/// A corner of a convex polygon that lies behind a line, with both edges at
/// the corner leading away from the line, keeps the whole polygon behind the
/// line: where the polygon turns at the corner `ps[j]`, which is not to the
/// left of the line through `o` along `d`, and neither the edge that leaves
/// the corner nor the reverse of the edge that arrives there points to the
/// left of `d`, no vertex is to the left of that line.
pub proof fn lemma_corner_behind_line(d: Point, o: Point, ps: Seq<Point>, j: int)
    requires
        counter_clockwise(ps),
        0 <= j < ps.len(),
        turn(ps, j) > 0,
        cross(d, ps[j].minus(o)) <= 0,
        cross(d, edges(ps)[after(j, ps.len() as int)]) <= 0,
        cross(d, edges(ps)[j]) >= 0,
    ensures
        forall|k: int| 0 <= k < ps.len() ==> cross(d, (#[trigger] ps[k]).minus(o)) <= 0,
{
    let arriving = edges(ps)[j];
    let leaving = edges(ps)[after(j, ps.len() as int)];
    assert forall|k: int| 0 <= k < ps.len() implies cross(d, (#[trigger] ps[k]).minus(o)) <= 0 by {
        let v = ps[k].minus(ps[j]);
        assert(side(ps, j, k) >= 0);
        lemma_left_of_leaving_edge(ps, j, k);
        lemma_four_vectors(d, arriving, leaving, v);
        let bend = turn(ps, j);
        let s = cross(arriving, v);
        let t = cross(leaving, v);
        let dl = cross(d, leaving);
        let da = cross(d, arriving);
        let dv = cross(d, v);
        assert(cross(v, leaving) == -t) by (nonlinear_arith)
            requires
                cross(v, leaving) == v.x * leaving.y - v.y * leaving.x,
                t == leaving.x * v.y - leaving.y * v.x,
        ;
        assert(dv <= 0) by (nonlinear_arith)
            requires
                bend * dv == (-t) * da + s * dl,
                bend > 0,
                s >= 0,
                t >= 0,
                dl <= 0,
                da >= 0,
        ;
        lemma_cross_of_difference(d, ps[k], o);
        lemma_cross_of_difference(d, ps[j], o);
        lemma_cross_of_difference(d, ps[k], ps[j]);
    }
}

/// Where a whole polygon `other` lies behind the line of edge `k` of the
/// convex polygon `ps`, no point of `other` lies beyond a point of `ps` along
/// the normal of that edge.
pub proof fn lemma_edge_separates(ps: Seq<Point>, k: int, other: Seq<Point>)
    requires
        counter_clockwise(ps),
        0 <= k < ps.len(),
        forall|j: int|
            0 <= j < other.len() ==> cross(edges(ps)[k], (#[trigger] other[j]).minus(ps[k])) <= 0,
    ensures
        not_beyond(edges(ps)[k].perp(), other, ps),
{
    let d = edges(ps)[k];
    assert forall|j: int, i: int| 0 <= j < other.len() && 0 <= i < ps.len() implies d.perp().dot(
        #[trigger] other[j],
    ) <= d.perp().dot(#[trigger] ps[i]) by {
        assert(side(ps, k, i) >= 0);
        assert(cross(edges(ps)[k], other[j].minus(ps[k])) <= 0);
        lemma_cross_of_difference(d, ps[i], ps[k]);
        lemma_cross_of_difference(d, other[j], ps[k]);
    }
}

/// A direction across an edge separates as the normal of the edge does:
/// where `u` is not zero and at a right angle to the edge `e`, which is not
/// zero, and no point of `a` lies beyond a point of `b` along `u`, the same
/// holds along the normal of `e`, one way round or the other.
pub proof fn lemma_direction_across_edge(e: Point, u: Point, a: Seq<Point>, b: Seq<Point>)
    requires
        e.norm_sq() > 0,
        u.norm_sq() > 0,
        u.dot(e) == 0,
        not_beyond(u, a, b),
    ensures
        not_beyond(e.perp(), a, b) || not_beyond(e.perp(), b, a),
{
    let k = cross(e, u);
    let m = e.norm_sq();
    lemma_lengths(e, u);
    assert(k != 0) by (nonlinear_arith)
        requires
            m * u.norm_sq() == u.dot(e) * u.dot(e) + k * k,
            u.dot(e) == 0,
            m > 0,
            u.norm_sq() > 0,
    ;
    assert forall|i: int, j: int| 0 <= i < a.len() && 0 <= j < b.len() implies (k > 0
        ==> e.perp().dot(#[trigger] a[i]) <= e.perp().dot(#[trigger] b[j])) && (k < 0
        ==> e.perp().dot(b[j]) <= e.perp().dot(a[i])) by {
        lemma_split_along_edge(e, u, a[i]);
        lemma_split_along_edge(e, u, b[j]);
        let ua = u.dot(a[i]);
        let ub = u.dot(b[j]);
        let na = e.perp().dot(a[i]);
        let nb = e.perp().dot(b[j]);
        assert(ua <= ub);
        assert((k > 0 ==> na <= nb) && (k < 0 ==> nb <= na)) by (nonlinear_arith)
            requires
                m * ua == u.dot(e) * e.dot(a[i]) + k * na,
                m * ub == u.dot(e) * e.dot(b[j]) + k * nb,
                u.dot(e) == 0,
                m > 0,
                ua <= ub,
        ;
    }
    if k > 0 {
        assert(not_beyond(e.perp(), a, b));
    } else {
        assert(not_beyond(e.perp(), b, a));
    }
}

/// Where a direction looks along one of two successive edges and against the
/// other, the second edge does not continue the first: the polygon turns
/// between them.
pub proof fn lemma_corner_turns(u: Point, arriving: Point, leaving: Point)
    requires
        (u.dot(arriving) > 0 && u.dot(leaving) < 0) || (u.dot(arriving) < 0 && u.dot(leaving) > 0),
        cross(arriving, leaving) > 0 || (cross(arriving, leaving) == 0 && arriving.dot(leaving)
            > 0),
    ensures
        cross(arriving, leaving) > 0,
{
    if cross(arriving, leaving) == 0 {
        lemma_split_along_edge(arriving, u, leaving);
        let m = arriving.norm_sq();
        let (first, second, along) = (u.dot(arriving), u.dot(leaving), arriving.dot(leaving));
        assert(arriving.perp().dot(leaving) == cross(arriving, leaving)) by (nonlinear_arith)
            requires
                arriving.perp().dot(leaving) == (-arriving.y) * leaving.x + arriving.x * leaving.y,
                cross(arriving, leaving) == arriving.x * leaving.y - arriving.y * leaving.x,
        ;
        assert(m >= 0) by (nonlinear_arith)
            requires
                m == arriving.x * arriving.x + arriving.y * arriving.y,
        ;
        assert(false) by (nonlinear_arith)
            requires
                m * second == first * along + cross(arriving, u) * 0,
                m >= 0,
                along > 0,
                (first > 0 && second < 0) || (first < 0 && second > 0),
        ;
    }
}

/// The signs that decide which edge at two facing corners separates them.
///
/// `e1` arrives at the corner of the first polygon that lies furthest along
/// `u` and `e2` leaves it; `f1` arrives at the corner of the second polygon
/// that lies least far along `u` and `f2` leaves it; `w` leads from the first
/// corner to the second. One of the four edges has the other corner, and
/// both edges at it, on its outer side.
pub proof fn lemma_facing_corners(u: Point, e1: Point, e2: Point, f1: Point, f2: Point, w: Point)
    requires
        u.dot(e1) > 0,
        u.dot(e2) < 0,
        u.dot(f1) < 0,
        u.dot(f2) > 0,
        u.dot(w) >= 0,
        cross(e1, e2) > 0,
        cross(f1, f2) > 0,
    ensures
        ({
            ||| (cross(e1, w) <= 0 && cross(e1, f2) <= 0 && cross(e1, f1) >= 0)
            ||| (cross(e2, w) <= 0 && cross(e2, f2) <= 0 && cross(e2, f1) >= 0)
            ||| (cross(f1, w) >= 0 && cross(f1, e2) <= 0 && cross(f1, e1) >= 0)
            ||| (cross(f2, w) >= 0 && cross(f2, e2) <= 0 && cross(f2, e1) >= 0)
        }),
{
    let (y1, y2, q1, q2, yw) = (u.dot(e1), u.dot(e2), u.dot(f1), u.dot(f2), u.dot(w));
    let turn_a = cross(e1, e2);
    let turn_b = cross(f1, f2);
    // The second corner opens upwards, so `w` is not strictly between its edges.
    lemma_three_vectors(u, f1, w, f2);
    let f1w = cross(f1, w);
    let f2w = cross(f2, w);
    assert(f1w >= 0 || f2w >= 0) by (nonlinear_arith)
        requires
            yw * turn_b == q1 * (-f2w) + q2 * f1w,
            yw >= 0,
            turn_b > 0,
            q1 < 0,
            q2 > 0,
    ;
    if f1w >= 0 {
        let f1e1 = cross(f1, e1);
        if f1e1 >= 0 {
            lemma_three_vectors(u, f1, e1, e2);
            let f1e2 = cross(f1, e2);
            assert(f1e2 <= 0) by (nonlinear_arith)
                requires
                    y1 * f1e2 == q1 * turn_a + y2 * f1e1,
                    y1 > 0,
                    q1 < 0,
                    turn_a > 0,
                    y2 < 0,
                    f1e1 >= 0,
            ;
        } else {
            lemma_three_vectors(u, e1, f1, w);
            lemma_three_vectors(u, e1, f1, f2);
            let e1w = cross(e1, w);
            let e1f2 = cross(e1, f2);
            let e1f1 = cross(e1, f1);
            assert(e1w <= 0) by (nonlinear_arith)
                requires
                    q1 * e1w == y1 * f1w + yw * e1f1,
                    q1 < 0,
                    y1 > 0,
                    f1w >= 0,
                    yw >= 0,
                    e1f1 > 0,
            ;
            assert(e1f2 <= 0) by (nonlinear_arith)
                requires
                    q1 * e1f2 == y1 * turn_b + q2 * e1f1,
                    q1 < 0,
                    y1 > 0,
                    turn_b > 0,
                    q2 > 0,
                    e1f1 > 0,
            ;
        }
    } else {
        let f2e2 = cross(f2, e2);
        if f2e2 <= 0 {
            lemma_three_vectors(u, f2, e2, e1);
            let f2e1 = cross(f2, e1);
            assert(f2e1 >= 0) by (nonlinear_arith)
                requires
                    y2 * f2e1 == q2 * (-turn_a) + y1 * f2e2,
                    y2 < 0,
                    q2 > 0,
                    turn_a > 0,
                    y1 > 0,
                    f2e2 <= 0,
            ;
        } else {
            lemma_three_vectors(u, e2, f2, w);
            lemma_three_vectors(u, e2, f2, f1);
            let e2w = cross(e2, w);
            let e2f1 = cross(e2, f1);
            let e2f2 = cross(e2, f2);
            assert(e2w <= 0) by (nonlinear_arith)
                requires
                    q2 * e2w == y2 * f2w + yw * e2f2,
                    q2 > 0,
                    y2 < 0,
                    f2w >= 0,
                    yw >= 0,
                    e2f2 < 0,
            ;
            assert(e2f1 >= 0) by (nonlinear_arith)
                requires
                    q2 * e2f1 == y2 * (-turn_b) + q1 * e2f2,
                    q2 > 0,
                    y2 < 0,
                    turn_b > 0,
                    q1 < 0,
                    e2f2 < 0,
            ;
        }
    }
}

/// Where two convex polygons are apart along some direction, they are apart
/// along the normal of one of their edges: where `u` is not zero and no point
/// of `a` lies beyond a point of `b` along `u`, the same holds along
/// candidate axis `k`, one way round or the other.
pub proof fn lemma_some_edge_separates(a: Seq<Point>, b: Seq<Point>, u: Point) -> (k: int)
    requires
        counter_clockwise(a),
        counter_clockwise(b),
        u.norm_sq() > 0,
        not_beyond(u, a, b),
    ensures
        0 <= k < a.len() + b.len(),
        not_beyond(overlaps(a, b)[k].0, a, b) || not_beyond(overlaps(a, b)[k].0, b, a),
{
    let n = a.len() as int;
    let m = b.len() as int;
    let pa = projections(u, a);
    let pb = projections(u, b);
    pa.max_ensures();
    pb.min_ensures();
    // The corner of `a` that lies furthest along `u`, and the corner of `b`
    // that lies least far.
    let i = choose|i: int| 0 <= i < pa.len() && pa[i] == pa.max();
    let j = choose|j: int| 0 <= j < pb.len() && pb[j] == pb.min();
    let i2 = after(i, n);
    let j2 = after(j, m);
    let e1 = edges(a)[i];
    let e2 = edges(a)[i2];
    let f1 = edges(b)[j];
    let f2 = edges(b)[j2];
    let w = b[j].minus(a[i]);
    let i0 = before(i, n);
    let j0 = before(j, m);
    assert(e1 == a[i].minus(a[i0]));
    assert(e2 == a[i2].minus(a[i]));
    assert(f1 == b[j].minus(b[j0]));
    assert(f2 == b[j2].minus(b[j]));
    lemma_dot_of_difference(u, a[i], a[i0]);
    lemma_dot_of_difference(u, a[i2], a[i]);
    lemma_dot_of_difference(u, b[j], b[j0]);
    lemma_dot_of_difference(u, b[j2], b[j]);
    lemma_dot_of_difference(u, b[j], a[i]);
    assert(pa[i0] <= pa[i] && pa[i2] <= pa[i]);
    assert(pb[j0] >= pb[j] && pb[j2] >= pb[j]);
    assert(u.dot(a[i]) <= u.dot(b[j]));
    assert(u.dot(e1) >= 0 && u.dot(e2) <= 0 && u.dot(f1) <= 0 && u.dot(f2) >= 0 && u.dot(w) >= 0);
    assert(bends_left(a, i) && bends_left(b, j));
    lemma_overlaps_entry(a, b, i);
    lemma_overlaps_entry(a, b, i2);
    lemma_overlaps_entry(a, b, n + j);
    lemma_overlaps_entry(a, b, n + j2);
    if u.dot(e1) == 0 {
        lemma_edge_is_not_zero(a, i);
        lemma_direction_across_edge(e1, u, a, b);
        i
    } else if u.dot(e2) == 0 {
        lemma_edge_is_not_zero(a, i2);
        lemma_direction_across_edge(e2, u, a, b);
        i2
    } else if u.dot(f1) == 0 {
        lemma_edge_is_not_zero(b, j);
        lemma_direction_across_edge(f1, u, a, b);
        n + j
    } else if u.dot(f2) == 0 {
        lemma_edge_is_not_zero(b, j2);
        lemma_direction_across_edge(f2, u, a, b);
        n + j2
    } else {
        lemma_corner_turns(u, e1, e2);
        lemma_corner_turns(u, f1, f2);
        lemma_facing_corners(u, e1, e2, f1, f2, w);
        if cross(e1, w) <= 0 && cross(e1, f2) <= 0 && cross(e1, f1) >= 0 {
            lemma_corner_behind_line(e1, a[i], b, j);
            lemma_edge_separates(a, i, b);
            i
        } else if cross(e2, w) <= 0 && cross(e2, f2) <= 0 && cross(e2, f1) >= 0 {
            lemma_cross_from_far_end(e2, a[i], a[i2], b[j]);
            lemma_corner_behind_line(e2, a[i2], b, j);
            lemma_edge_separates(a, i2, b);
            i2
        } else if cross(f1, w) >= 0 && cross(f1, e2) <= 0 && cross(f1, e1) >= 0 {
            lemma_cross_of_reverse(f1, b[j], a[i]);
            lemma_corner_behind_line(f1, b[j], a, i);
            lemma_edge_separates(b, j, a);
            n + j
        } else {
            lemma_cross_of_reverse(f2, b[j], a[i]);
            lemma_cross_from_far_end(f2, b[j], b[j2], a[i]);
            lemma_corner_behind_line(f2, b[j2], a, i);
            lemma_edge_separates(b, j2, a);
            n + j2
        }
    }
}

/// The edge of `ps` that edge `k` of the reversed loop runs along, the other
/// way round.
pub open spec fn mirrored_edge(k: int, n: int) -> int {
    if k == 0 {
        0
    } else {
        n - k
    }
}

/// Edge `k` of the reversed loop is the opposite of an edge of the loop.
pub proof fn lemma_edges_of_reversed(ps: Seq<Point>, k: int)
    requires
        0 <= k < ps.len(),
    ensures
        0 <= mirrored_edge(k, ps.len() as int) < ps.len(),
        edges(reversed(ps))[k] == edges(ps)[mirrored_edge(k, ps.len() as int)].neg(),
{
}

/// Where two convex polygons are apart along some direction, they are apart
/// along candidate axis `k`, whichever way round their vertices run.
pub proof fn lemma_some_candidate_separates(a: Seq<Point>, b: Seq<Point>, u: Point) -> (k: int)
    requires
        convex(a),
        convex(b),
        u.norm_sq() > 0,
        not_beyond(u, a, b),
    ensures
        0 <= k < a.len() + b.len(),
        not_beyond(overlaps(a, b)[k].0, a, b) || not_beyond(overlaps(a, b)[k].0, b, a),
{
    let n = a.len() as int;
    let m = b.len() as int;
    let turned_a = if counter_clockwise(a) {
        a
    } else {
        reversed(a)
    };
    let turned_b = if counter_clockwise(b) {
        b
    } else {
        reversed(b)
    };
    lemma_not_beyond_of_reversed(u, a, b);
    lemma_not_beyond_of_reversed(u, a, turned_b);
    lemma_not_beyond_of_reversed(u, turned_a, b);
    lemma_not_beyond_of_reversed(u, turned_a, turned_b);
    let found = lemma_some_edge_separates(turned_a, turned_b, u);
    lemma_overlaps_entry(turned_a, turned_b, found);
    let axis = overlaps(turned_a, turned_b)[found].0;
    lemma_not_beyond_of_reversed(axis, a, b);
    lemma_not_beyond_of_reversed(axis, a, turned_b);
    lemma_not_beyond_of_reversed(axis, turned_a, b);
    lemma_not_beyond_of_reversed(axis, turned_a, turned_b);
    lemma_not_beyond_of_reversed(axis, b, a);
    lemma_not_beyond_of_reversed(axis, b, turned_a);
    lemma_not_beyond_of_reversed(axis, turned_b, a);
    lemma_not_beyond_of_reversed(axis, turned_b, turned_a);
    assert(not_beyond(axis, a, b) || not_beyond(axis, b, a));
    lemma_apart_along_opposite(axis, a, b);
    if found < n {
        let k = if counter_clockwise(a) {
            found
        } else {
            mirrored_edge(found, n)
        };
        if !counter_clockwise(a) {
            lemma_edges_of_reversed(a, found);
        }
        lemma_overlaps_entry(a, b, k);
        assert(overlaps(a, b)[k].0 == axis || overlaps(a, b)[k].0 == axis.neg());
        k
    } else {
        let k = if counter_clockwise(b) {
            found - n
        } else {
            mirrored_edge(found - n, m)
        };
        if !counter_clockwise(b) {
            lemma_edges_of_reversed(b, found - n);
        }
        lemma_overlaps_entry(a, b, n + k);
        assert(overlaps(a, b)[n + k].0 == axis || overlaps(a, b)[n + k].0 == axis.neg());
        n + k
    }
}

/// **Convex polygons that are apart do not collide.**
///
/// Where two convex polygons cover, along any direction at all,
/// intervals that are disjoint or share only an end point, the query answers
/// `None`: the normals of the edges are enough to find that the polygons are
/// apart.
pub proof fn apart_convex_polygons_do_not_collide(a: Seq<Point>, b: Seq<Point>, along: Point)
    requires
        convex(a),
        convex(b),
        along.norm_sq() > 0,
        apart_along(along, a, b),
    ensures
        collision(a, b) is None,
{
    let k = if bounds(along, a).1 <= bounds(along, b).0 {
        lemma_not_beyond_is_disjoint(along, a, b);
        lemma_some_candidate_separates(a, b, along)
    } else {
        lemma_not_beyond_is_disjoint(along, b, a);
        lemma_not_beyond_reversed(along, a, b);
        assert(along.neg().norm_sq() == along.norm_sq()) by (nonlinear_arith)
            requires
                along.neg().norm_sq() == (-along.x) * (-along.x) + (-along.y) * (-along.y),
                along.norm_sq() == along.x * along.x + along.y * along.y,
        ;
        lemma_some_candidate_separates(a, b, along.neg())
    };
    let axis = overlaps(a, b)[k].0;
    lemma_not_beyond_is_disjoint(axis, a, b);
    lemma_not_beyond_is_disjoint(axis, b, a);
    separating_axis_gives_none(a, b, k);
}

/// A counter-clockwise convex polygon that is moved as a whole stays one.
pub proof fn lemma_shifted_keeps_turns(ps: Seq<Point>, by: Point)
    requires
        counter_clockwise(ps),
    ensures
        counter_clockwise(shifted(ps, by)),
{
    let moved = shifted(ps, by);
    lemma_edges_of_shifted(ps, by);
    assert forall|i: int| 0 <= i < moved.len() implies #[trigger] bends_left(moved, i) by {
        assert(bends_left(ps, i));
    }
    assert forall|i: int, j: int| 0 <= i < moved.len() && 0 <= j < moved.len() implies #[trigger] side(
        moved,
        i,
        j,
    ) >= 0 by {
        assert(side(ps, i, j) >= 0);
        assert(moved[j].minus(moved[i]) == ps[j].minus(ps[i]));
    }
}

/// A convex polygon that is moved as a whole stays convex.
pub proof fn lemma_shifted_is_convex(ps: Seq<Point>, by: Point)
    requires
        convex(ps),
    ensures
        convex(shifted(ps, by)),
{
    let moved = shifted(ps, by);
    lemma_edges_of_shifted(ps, by);
    lemma_edges_of_shifted(reversed(ps), by);
    assert(reversed(moved) =~= shifted(reversed(ps), by));
    if counter_clockwise(ps) {
        lemma_shifted_keeps_turns(ps, by);
    } else {
        lemma_shifted_keeps_turns(reversed(ps), by);
    }
}

} // verus!
