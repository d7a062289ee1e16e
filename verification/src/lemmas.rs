//! Lemmas on the model of the collision query.

use vstd::prelude::*;
use crate::collider::{in_range, NORMAL_LIMIT};
use crate::model::{
    abs, before, bounds, ceil_div, correction_of, edges, least_overlap, narrowed, overlaps,
    projections, separated, shallower, shallowest, shifted, signed_overlap, signum,
};
use crate::transform::{AffineMap, WORLD_LIMIT};
use crate::vector::{all_within, lemma_product_range, Point};

verus! {

/// A lower bound that occurs in `s` is its minimum, and an upper bound that
/// occurs in it is its maximum.
pub proof fn lemma_least_and_greatest(s: Seq<int>, low: int, high: int)
    requires
        s.contains(low),
        s.contains(high),
        forall|i: int| 0 <= i < s.len() ==> low <= #[trigger] s[i] <= high,
    ensures
        s.min() == low,
        s.max() == high,
{
    s.min_ensures();
    s.max_ensures();
}

/// Scanning one more axis narrows the least overlap of those before it.
pub proof fn lemma_least_overlap_step(os: Seq<(Point, int)>)
    requires
        os.len() > 1,
    ensures
        least_overlap(os) == narrowed(least_overlap(os.drop_last()), os.last()),
{
    let front = os.drop_last();
    if separated(front) {
        let k = choose|k: int| 0 <= k < front.len() && (#[trigger] front[k]).1 <= 0;
        assert(os[k].1 <= 0);
    } else if os.last().1 <= 0 {
        assert(os[os.len() - 1].1 <= 0);
    } else {
        if separated(os) {
            let k = choose|k: int| 0 <= k < os.len() && (#[trigger] os[k]).1 <= 0;
            assert(front[k].1 <= 0);
        }
    }
}

/// The interval that bounded points cover along a bounded axis is bounded,
/// and its lower end is not above its upper end.
pub proof fn lemma_bounds_range(axis: Point, ps: Seq<Point>, limit_axis: int, limit_points: int)
    requires
        axis.within(limit_axis),
        all_within(ps, limit_points),
        0 <= limit_axis,
        0 <= limit_points,
    ensures
        -(limit_axis * limit_points) - limit_axis * limit_points <= bounds(axis, ps).0,
        bounds(axis, ps).0 <= bounds(axis, ps).1,
        bounds(axis, ps).1 <= limit_axis * limit_points + limit_axis * limit_points,
{
    let projected = projections(axis, ps);
    let limit = limit_axis * limit_points;
    assert(0 <= limit) by (nonlinear_arith)
        requires
            0 <= limit_axis,
            0 <= limit_points,
            limit == limit_axis * limit_points,
    ;
    if projected.len() > 0 {
        projected.min_ensures();
        projected.max_ensures();
        assert forall|i: int| 0 <= i < projected.len() implies -limit - limit
            <= #[trigger] projected[i] <= limit + limit by {
            assert(ps[i].within(limit_points));
            lemma_product_range(axis.x, ps[i].x, limit_axis, limit_points);
            lemma_product_range(axis.y, ps[i].y, limit_axis, limit_points);
        }
        let low = choose|i: int| 0 <= i < projected.len() && projected[i] == projected.min();
        let high = choose|i: int| 0 <= i < projected.len() && projected[i] == projected.max();
        assert(projected[low] <= projected.max());
    }
}

/// Each candidate axis of two shapes of the world, and the overlap along it,
/// is in the range on which penetrations are compared.
pub proof fn lemma_overlaps_in_range(a: Seq<Point>, b: Seq<Point>, i: int)
    requires
        all_within(a, WORLD_LIMIT as int),
        all_within(b, WORLD_LIMIT as int),
        0 <= i < overlaps(a, b).len(),
    ensures
        in_range(overlaps(a, b)[i]),
{
    let edge = if i < a.len() {
        edges(a)[i]
    } else {
        edges(b)[i - a.len()]
    };
    if i < a.len() {
        assert(a[i].within(WORLD_LIMIT as int));
        assert(a[before(i, a.len() as int)].within(WORLD_LIMIT as int));
    } else {
        assert(b[i - a.len()].within(WORLD_LIMIT as int));
        assert(b[before(i - a.len(), b.len() as int)].within(WORLD_LIMIT as int));
    }
    let axis = edge.perp();
    assert(overlaps(a, b)[i] == (axis, signed_overlap(axis, a, b)));
    lemma_bounds_range(axis, a, NORMAL_LIMIT as int, WORLD_LIMIT as int);
    lemma_bounds_range(axis, b, NORMAL_LIMIT as int, WORLD_LIMIT as int);
}

/// The lower end of a covered interval is not above its upper end.
pub proof fn lemma_bounds_ordered(axis: Point, ps: Seq<Point>)
    ensures
        bounds(axis, ps).0 <= bounds(axis, ps).1,
{
    let projected = projections(axis, ps);
    if projected.len() > 0 {
        projected.min_ensures();
        projected.max_ensures();
        assert(projected.min() <= projected[0] <= projected.max());
    }
}

/// The scalar product distributes over a sum.
pub proof fn lemma_dot_of_sum(axis: Point, p: Point, q: Point)
    ensures
        axis.dot(p.plus(q)) == axis.dot(p) + axis.dot(q),
{
    assert(axis.x * (p.x + q.x) == axis.x * p.x + axis.x * q.x) by (nonlinear_arith);
    assert(axis.y * (p.y + q.y) == axis.y * p.y + axis.y * q.y) by (nonlinear_arith);
}

/// The scalar product with the opposite of a vector.
pub proof fn lemma_dot_with_opposite(axis: Point, x: Point)
    ensures
        axis.dot(x.neg()) == -axis.dot(x),
        axis.neg().dot(x) == -axis.dot(x),
{
    assert(axis.x * (-x.x) + axis.y * (-x.y) == -(axis.x * x.x + axis.y * x.y))
        by (nonlinear_arith);
    assert((-axis.x) * x.x + (-axis.y) * x.y == -(axis.x * x.x + axis.y * x.y))
        by (nonlinear_arith);
}

/// Shifting a loop of points leaves its edges as they are.
pub proof fn lemma_edges_of_shifted(ps: Seq<Point>, by: Point)
    ensures
        edges(shifted(ps, by)) == edges(ps),
{
    assert(edges(shifted(ps, by)) =~= edges(ps));
}

/// Shifting the points by `by` shifts the interval that they cover along
/// `axis` by the scalar product of `axis` and `by`.
pub proof fn lemma_bounds_of_shifted(axis: Point, ps: Seq<Point>, by: Point)
    requires
        ps.len() > 0,
    ensures
        bounds(axis, shifted(ps, by)).0 == bounds(axis, ps).0 + axis.dot(by),
        bounds(axis, shifted(ps, by)).1 == bounds(axis, ps).1 + axis.dot(by),
{
    let before = projections(axis, ps);
    let after = projections(axis, shifted(ps, by));
    let step = axis.dot(by);
    assert forall|i: int| 0 <= i < after.len() implies #[trigger] after[i] == before[i] + step by {
        lemma_dot_of_sum(axis, ps[i], by);
    }
    before.min_ensures();
    before.max_ensures();
    let low = choose|i: int| 0 <= i < before.len() && before[i] == before.min();
    let high = choose|i: int| 0 <= i < before.len() && before[i] == before.max();
    assert(after[low] == before.min() + step);
    assert(after[high] == before.max() + step);
    assert forall|i: int| 0 <= i < after.len() implies before.min() + step <= #[trigger] after[i]
        <= before.max() + step by {
        assert(before.min() <= before[i] <= before.max());
    }
    lemma_least_and_greatest(after, before.min() + step, before.max() + step);
}

/// Along the zero vector nothing overlaps.
pub proof fn lemma_no_overlap_along_zero(axis: Point, a: Seq<Point>, b: Seq<Point>)
    requires
        axis.norm_sq() == 0,
    ensures
        signed_overlap(axis, a, b) == 0,
{
    assert(axis.x == 0 && axis.y == 0) by (nonlinear_arith)
        requires
            axis.x * axis.x + axis.y * axis.y == 0,
    ;
    lemma_bounds_along_zero(axis, a);
    lemma_bounds_along_zero(axis, b);
}

/// Along the zero vector every set of points covers the interval from 0 to 0.
proof fn lemma_bounds_along_zero(axis: Point, ps: Seq<Point>)
    requires
        axis.x == 0,
        axis.y == 0,
    ensures
        bounds(axis, ps) == (0int, 0int),
{
    let projected = projections(axis, ps);
    if projected.len() > 0 {
        assert forall|i: int| 0 <= i < projected.len() implies 0 <= #[trigger] projected[i]
            <= 0 by {
            assert(axis.x * ps[i].x == 0 && axis.y * ps[i].y == 0) by (nonlinear_arith)
                requires
                    axis.x == 0,
                    axis.y == 0,
            ;
        }
        assert(projected[0] == 0);
        lemma_least_and_greatest(projected, 0, 0);
    }
}

/// Entry `i` of the overlaps of a pair: the normal of an edge of the first
/// shape or of the second, and the signed overlap along it.
pub proof fn lemma_overlaps_entry(a: Seq<Point>, b: Seq<Point>, i: int)
    requires
        0 <= i < a.len() + b.len(),
    ensures
        overlaps(a, b).len() == a.len() + b.len(),
        i < a.len() ==> overlaps(a, b)[i] == (
            edges(a)[i].perp(),
            signed_overlap(edges(a)[i].perp(), a, b),
        ),
        i >= a.len() ==> overlaps(a, b)[i] == (
            edges(b)[i - a.len()].perp(),
            signed_overlap(edges(b)[i - a.len()].perp(), a, b),
        ),
{
}

/// The first of the shallowest penetrations is one of the penetrations.
pub proof fn lemma_shallowest_member(os: Seq<(Point, int)>) -> (k: int)
    requires
        os.len() > 0,
    ensures
        0 <= k < os.len(),
        shallowest(os) == os[k],
    decreases os.len(),
{
    if os.len() <= 1 {
        0
    } else {
        let k = lemma_shallowest_member(os.drop_last());
        if shallower(os.last(), shallowest(os.drop_last())) {
            os.len() - 1
        } else {
            k
        }
    }
}

/// Where `x` is strictly shallower than `y` and `z` is not strictly
/// shallower than `y`, `x` is strictly shallower than `z`.
pub proof fn lemma_shallower_chain(x: (Point, int), y: (Point, int), z: (Point, int))
    requires
        x.1 > 0 && y.1 > 0 && z.1 > 0,
        x.0.norm_sq() > 0 && y.0.norm_sq() > 0 && z.0.norm_sq() > 0,
        shallower(x, y),
        !shallower(z, y),
    ensures
        shallower(x, z),
{
    let (xx, yy, zz) = (x.1 * x.1, y.1 * y.1, z.1 * z.1);
    let (mx, my, mz) = (x.0.norm_sq(), y.0.norm_sq(), z.0.norm_sq());
    assert(xx * mz < zz * mx) by (nonlinear_arith)
        requires
            xx * my < yy * mx,
            zz * my >= yy * mz,
            mx > 0 && my > 0 && mz > 0,
    {
        assert((xx * my) * mz < (yy * mx) * mz);
        assert((zz * my) * mx >= (yy * mz) * mx);
        assert((xx * mz) * my < (zz * mx) * my);
    }
}

/// Among penetrations along axes that are not zero, the first of the
/// shallowest is one of them, none is strictly shallower than it, and it is
/// strictly shallower than each one before it.
pub proof fn lemma_shallowest_is_least(os: Seq<(Point, int)>) -> (k: int)
    requires
        os.len() > 0,
        forall|i: int| 0 <= i < os.len() ==> (#[trigger] os[i]).1 > 0 && os[i].0.norm_sq() > 0,
    ensures
        0 <= k < os.len(),
        shallowest(os) == os[k],
        forall|j: int| 0 <= j < os.len() ==> !shallower(#[trigger] os[j], os[k]),
        forall|j: int| 0 <= j < k ==> shallower(os[k], #[trigger] os[j]),
    decreases os.len(),
{
    if os.len() <= 1 {
        0
    } else {
        let front = os.drop_last();
        let last = os.len() - 1;
        assert forall|i: int| 0 <= i < front.len() implies (#[trigger] front[i]).1 > 0
            && front[i].0.norm_sq() > 0 by {
            assert(front[i] == os[i]);
        }
        let k = lemma_shallowest_is_least(front);
        assert(front[k] == os[k]);
        if shallower(os[last], os[k]) {
            assert forall|j: int| 0 <= j < last implies shallower(os[last], #[trigger] os[j]) by {
                assert(front[j] == os[j]);
                lemma_shallower_chain(os[last], os[k], os[j]);
            }
            last
        } else {
            assert forall|j: int| 0 <= j < os.len() implies !shallower(#[trigger] os[j], os[k]) by {
                if j < last {
                    assert(front[j] == os[j]);
                }
            }
            assert forall|j: int| 0 <= j < k implies shallower(os[k], #[trigger] os[j]) by {
                assert(front[j] == os[j]);
            }
            k
        }
    }
}

/// `ceil_div(n, d)` steps of length `d` reach `n`, and one step less does
/// not.
pub proof fn lemma_ceil_div(n: int, d: int)
    by (nonlinear_arith)
    requires
        d > 0,
    ensures
        ceil_div(n, d) * d >= n,
        (ceil_div(n, d) - 1) * d < n,
{
}

/// The correction covers the overlap: its scalar product
/// with the axis is at least the overlap.
pub proof fn lemma_correction_covers(axis: Point, overlap: int)
    requires
        overlap > 0,
        axis.norm_sq() > 0,
    ensures
        axis.dot(correction_of(axis, overlap)) >= overlap,
{
    let m = axis.norm_sq();
    let cx = ceil_div(overlap * abs(axis.x), m);
    let cy = ceil_div(overlap * abs(axis.y), m);
    lemma_ceil_div(overlap * abs(axis.x), m);
    lemma_ceil_div(overlap * abs(axis.y), m);
    let t = correction_of(axis, overlap);
    assert(axis.x * t.x == abs(axis.x) * cx) by (nonlinear_arith)
        requires
            t.x == signum(axis.x) * cx,
    ;
    assert(axis.y * t.y == abs(axis.y) * cy) by (nonlinear_arith)
        requires
            t.y == signum(axis.y) * cy,
    ;
    let ax = abs(axis.x);
    let ay = abs(axis.y);
    assert(m == ax * ax + ay * ay) by (nonlinear_arith)
        requires
            m == axis.x * axis.x + axis.y * axis.y,
            ax == abs(axis.x),
            ay == abs(axis.y),
    ;
    assert(ax * cx + ay * cy >= overlap) by (nonlinear_arith)
        requires
            cx * m >= overlap * ax,
            cy * m >= overlap * ay,
            m == ax * ax + ay * ay,
            m > 0,
            ax >= 0,
            ay >= 0,
            overlap > 0,
    ;
}

/// Moving a placed shape by `by` moves each of its world points by `by`.
pub proof fn lemma_translated_points(t: AffineMap, ps: Seq<Point>, by: Point)
    ensures
        t.translated(by).apply_all(ps) == shifted(t.apply_all(ps), by),
{
    assert(t.translated(by).apply_all(ps) =~= shifted(t.apply_all(ps), by));
}

} // verus!
