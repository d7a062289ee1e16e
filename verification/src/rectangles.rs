//! What holds of the collision query on rectangles that are placed without
//! rotation.

use vstd::prelude::*;
use crate::laws::collision_is_least_penetration;
use crate::lemmas::{lemma_least_and_greatest, lemma_overlaps_entry};
use crate::model::{
    apart_along, bounds, collision, edges, overlaps, projections, rectangle_corners, separated,
    shallower, shifted, signed_overlap,
};
use crate::plane::cross;
use crate::separation::{
    apart_convex_polygons_do_not_collide, bends_left, counter_clockwise,
    lemma_shifted_is_convex, side, turn,
};
use crate::transform::identity;
use crate::vector::Point;

verus! {

/// The world points of the rectangle of the given size whose placement is a
/// translation by `at` and nothing else.
pub open spec fn placed_rectangle(size: Point, at: Point) -> Seq<Point> {
    identity().translated(at).apply_all(rectangle_corners(size))
}

/// A placement without rotation or scaling moves each point by its
/// translation.
pub proof fn lemma_translation_shifts(ps: Seq<Point>, by: Point)
    ensures
        identity().translated(by).apply_all(ps) == shifted(ps, by),
{
    assert(identity().translated(by).apply_all(ps) =~= shifted(
        ps,
        by,
    ));
}

/// A rectangle with sides of positive length is a convex polygon.
pub proof fn lemma_rectangle_is_convex(size: Point)
    requires
        size.x > 0,
        size.y > 0,
    ensures
        counter_clockwise(rectangle_corners(size)),
{
    let ps = rectangle_corners(size);
    let area = size.x * size.y;
    assert(area > 0) by (nonlinear_arith)
        requires
            size.x > 0,
            size.y > 0,
            area == size.x * size.y,
    ;
    let (e0, e1, e2, e3) = (edges(ps)[0], edges(ps)[1], edges(ps)[2], edges(ps)[3]);
    assert(e0 == Point { x: 0, y: -size.y });
    assert(e1 == Point { x: size.x, y: 0 });
    assert(e2 == Point { x: 0, y: size.y });
    assert(e3 == Point { x: -size.x, y: 0 });
    assert forall|v: Point|
        (v.x == 0 || v.x == size.x || v.x == -size.x) && (v.y == 0 || v.y == size.y || v.y
            == -size.y) implies cross(e0, v) == size.y * v.x && cross(e1, v) == size.x * v.y
        && cross(e2, v) == -(size.y * v.x) && cross(e3, v) == -(size.x * v.y) by {
        assert(cross(e0, v) == size.y * v.x && cross(e1, v) == size.x * v.y && cross(e2, v) == -(
            size.y * v.x) && cross(e3, v) == -(size.x * v.y)) by (nonlinear_arith)
            requires
                cross(e0, v) == 0 * v.y - (-size.y) * v.x,
                cross(e1, v) == size.x * v.y - 0 * v.x,
                cross(e2, v) == 0 * v.y - size.y * v.x,
                cross(e3, v) == (-size.x) * v.y - 0 * v.x,
        ;
    }
    assert(size.x * 0 == 0 && size.y * 0 == 0 && size.x * (-size.y) == -area && size.y * (-size.x)
        == -area && size.y * size.x == area) by (nonlinear_arith)
        requires
            area == size.x * size.y,
    ;
    assert forall|i: int| 0 <= i < ps.len() implies #[trigger] bends_left(ps, i) by {
        assert(i == 0 || i == 1 || i == 2 || i == 3);
        assert(turn(ps, i) > 0);
    }
    assert forall|i: int, j: int| 0 <= i < ps.len() && 0 <= j < ps.len() implies #[trigger] side(
        ps,
        i,
        j,
    ) >= 0 by {
        assert(i == 0 || i == 1 || i == 2 || i == 3);
        assert(j == 0 || j == 1 || j == 2 || j == 3);
    }
}

/// **Rectangles that are apart do not collide.**
///
/// Where two rectangles with sides of positive length, each placed by a
/// translation alone, cover along any direction at all intervals that are
/// disjoint or share only an end point, the query answers `None`.
pub proof fn apart_rectangles_do_not_collide(
    size_a: Point,
    at_a: Point,
    size_b: Point,
    at_b: Point,
    along: Point,
)
    requires
        size_a.x > 0 && size_a.y > 0,
        size_b.x > 0 && size_b.y > 0,
        along.norm_sq() > 0,
        apart_along(
            along,
            placed_rectangle(size_a, at_a),
            placed_rectangle(size_b, at_b),
        ),
    ensures
        collision(
            placed_rectangle(size_a, at_a),
            placed_rectangle(size_b, at_b),
        ) is None,
{
    let corners_a = rectangle_corners(size_a);
    let corners_b = rectangle_corners(size_b);
    lemma_translation_shifts(corners_a, at_a);
    lemma_translation_shifts(corners_b, at_b);
    lemma_rectangle_is_convex(size_a);
    lemma_rectangle_is_convex(size_b);
    lemma_shifted_is_convex(corners_a, at_a);
    lemma_shifted_is_convex(corners_b, at_b);
    apart_convex_polygons_do_not_collide(
        shifted(corners_a, at_a),
        shifted(corners_b, at_b),
        along,
    );
}

/// The corners of the box that reaches from `low` to `high`,
/// counter-clockwise from `low`.
pub open spec fn box_corners(low: Point, high: Point) -> Seq<Point> {
    seq![low, Point { x: high.x, y: low.y }, high, Point { x: low.x, y: high.y }]
}

/// The lower left corner of a placed rectangle.
pub open spec fn low_corner(size: Point, at: Point) -> Point {
    at.minus(size.halved())
}

/// The upper right corner of a placed rectangle.
pub open spec fn high_corner(size: Point, at: Point) -> Point {
    low_corner(size, at).plus(size)
}

/// How far two placed rectangles reach into each other: the first into the
/// second to the right and upwards, then the second into the first.
pub open spec fn reaches(size_a: Point, at_a: Point, size_b: Point, at_b: Point) -> (
    int,
    int,
    int,
    int,
) {
    (
        high_corner(size_a, at_a).x - low_corner(size_b, at_b).x,
        high_corner(size_a, at_a).y - low_corner(size_b, at_b).y,
        high_corner(size_b, at_b).x - low_corner(size_a, at_a).x,
        high_corner(size_b, at_b).y - low_corner(size_a, at_a).y,
    )
}

/// The least of four numbers.
pub open spec fn least_of(r: (int, int, int, int)) -> int {
    let first = if r.0 <= r.1 {
        r.0
    } else {
        r.1
    };
    let second = if r.2 <= r.3 {
        r.2
    } else {
        r.3
    };
    if first <= second {
        first
    } else {
        second
    }
}

/// `v` where it is negative, else zero.
pub open spec fn below_zero(v: int) -> int {
    if v < 0 {
        v
    } else {
        0
    }
}

/// `v` where it is positive, else zero.
pub open spec fn above_zero(v: int) -> int {
    if v > 0 {
        v
    } else {
        0
    }
}

/// A placed rectangle is the box between its lower left and its upper right
/// corner.
pub proof fn lemma_placed_rectangle_is_box(size: Point, at: Point)
    ensures
        placed_rectangle(size, at) == box_corners(low_corner(size, at), high_corner(size, at)),
{
    lemma_translation_shifts(rectangle_corners(size), at);
    assert(shifted(rectangle_corners(size), at) =~= box_corners(
        low_corner(size, at),
        high_corner(size, at),
    ));
}

/// The interval that a box covers along any axis.
pub proof fn lemma_box_bounds(axis: Point, low: Point, high: Point)
    requires
        low.x <= high.x,
        low.y <= high.y,
    ensures
        bounds(axis, box_corners(low, high)) == (
            axis.dot(low) + below_zero(axis.x * (high.x - low.x)) + below_zero(
                axis.y * (high.y - low.y),
            ),
            axis.dot(low) + above_zero(axis.x * (high.x - low.x)) + above_zero(
                axis.y * (high.y - low.y),
            ),
        ),
{
    let ps = box_corners(low, high);
    let projected = projections(axis, ps);
    let base = axis.dot(low);
    let wide = axis.x * (high.x - low.x);
    let tall = axis.y * (high.y - low.y);
    assert(axis.x * high.x == axis.x * low.x + wide && axis.y * high.y == axis.y * low.y + tall)
        by (nonlinear_arith)
        requires
            wide == axis.x * (high.x - low.x),
            tall == axis.y * (high.y - low.y),
    ;
    assert(projected[0] == base);
    assert(projected[1] == base + wide);
    assert(projected[2] == base + wide + tall);
    assert(projected[3] == base + tall);
    assert forall|i: int| 0 <= i < projected.len() implies base + below_zero(wide) + below_zero(
        tall,
    ) <= #[trigger] projected[i] <= base + above_zero(wide) + above_zero(tall) by {
        assert(i == 0 || i == 1 || i == 2 || i == 3);
    }
    lemma_least_and_greatest(
        projected,
        base + below_zero(wide) + below_zero(tall),
        base + above_zero(wide) + above_zero(tall),
    );
}

/// The signed overlap of two boxes that reach into each other, along an axis
/// that runs along x or along y.
pub proof fn lemma_box_overlap(axis: Point, al: Point, ah: Point, bl: Point, bh: Point)
    requires
        al.x < ah.x && al.y < ah.y,
        bl.x < bh.x && bl.y < bh.y,
        bl.x < ah.x && al.x < bh.x,
        bl.y < ah.y && al.y < bh.y,
        axis.x == 0 || axis.y == 0,
    ensures
        axis.y == 0 && axis.x > 0 ==> signed_overlap(axis, box_corners(al, ah), box_corners(bl, bh))
            == axis.x * (ah.x - bl.x),
        axis.y == 0 && axis.x < 0 ==> signed_overlap(axis, box_corners(al, ah), box_corners(bl, bh))
            == (-axis.x) * (bh.x - al.x),
        axis.x == 0 && axis.y > 0 ==> signed_overlap(axis, box_corners(al, ah), box_corners(bl, bh))
            == axis.y * (ah.y - bl.y),
        axis.x == 0 && axis.y < 0 ==> signed_overlap(axis, box_corners(al, ah), box_corners(bl, bh))
            == (-axis.y) * (bh.y - al.y),
{
    lemma_box_bounds(axis, al, ah);
    lemma_box_bounds(axis, bl, bh);
    let (p, q) = (axis.x, axis.y);
    assert(p == 0 ==> p * al.x == 0 && p * bl.x == 0 && p * (ah.x - al.x) == 0 && p * (bh.x - bl.x)
        == 0) by (nonlinear_arith);
    assert(q == 0 ==> q * al.y == 0 && q * bl.y == 0 && q * (ah.y - al.y) == 0 && q * (bh.y - bl.y)
        == 0) by (nonlinear_arith);
    lemma_scaled_gap(p, al.x, ah.x, bl.x, bh.x);
    lemma_scaled_gap(q, al.y, ah.y, bl.y, bh.y);
}

/// Two intervals that reach into each other, scaled by `p`: the signs of the
/// scaled lengths and gaps.
proof fn lemma_scaled_gap(p: int, al: int, ah: int, bl: int, bh: int)
    by (nonlinear_arith)
    requires
        al < ah,
        bl < bh,
        bl < ah,
        al < bh,
    ensures
        p > 0 ==> p * (ah - al) > 0 && p * (bh - bl) > 0 && p * al < p * bl + p * (bh - bl) && (p
            * al + p * (ah - al)) - p * bl == p * (ah - bl),
        p < 0 ==> p * (ah - al) < 0 && p * (bh - bl) < 0 && p * al + p * (ah - al) < p * bl && p
            * al - (p * bl + p * (bh - bl)) == (-p) * (bh - al),
{
}

/// The entry of a candidate axis shows the depth `d`: its overlap is `d`
/// times the length of its axis.
pub open spec fn shows_depth(entry: (Point, int), d: int) -> bool {
    exists|s: int| s > 0 && entry.1 == #[trigger] (s * d) && entry.0.norm_sq() == s * s
}

/// Where one entry is not strictly shallower than another, it does not show
/// the smaller depth.
pub proof fn lemma_depths_in_order(x: (Point, int), dx: int, y: (Point, int), dy: int)
    requires
        dx > 0,
        dy > 0,
        shows_depth(x, dx),
        shows_depth(y, dy),
        !shallower(x, y),
    ensures
        dy <= dx,
{
    let sx = choose|s: int| s > 0 && x.1 == #[trigger] (s * dx) && x.0.norm_sq() == s * s;
    let sy = choose|s: int| s > 0 && y.1 == #[trigger] (s * dy) && y.0.norm_sq() == s * s;
    let (mx, my) = (x.0.norm_sq(), y.0.norm_sq());
    assert(dy <= dx) by (nonlinear_arith)
        requires
            sx > 0,
            sy > 0,
            dx > 0,
            dy > 0,
            !((sx * dx) * (sx * dx) * (sy * sy) < (sy * dy) * (sy * dy) * (sx * sx)),
    {
        if dx < dy {
            assert(dx * dx < dy * dy);
            assert((sx * sy) * (sx * sy) > 0);
            assert((dx * dx) * ((sx * sy) * (sx * sy)) < (dy * dy) * ((sx * sy) * (sx * sy)));
            assert((sx * dx) * (sx * dx) * (sy * sy) == (dx * dx) * ((sx * sy) * (sx * sy)));
            assert((sy * dy) * (sy * dy) * (sx * sx) == (dy * dy) * ((sx * sy) * (sx * sy)));
        }
    }
}

/// Each candidate axis of two rectangles that reach into each other shows
/// how far one of them reaches into the other along x or along y.
pub proof fn lemma_rectangle_axis_shows_reach(
    size_a: Point,
    at_a: Point,
    size_b: Point,
    at_b: Point,
    k: int,
)
    requires
        size_a.x > 0 && size_a.y > 0,
        size_b.x > 0 && size_b.y > 0,
        reaches(size_a, at_a, size_b, at_b).0 > 0,
        reaches(size_a, at_a, size_b, at_b).1 > 0,
        reaches(size_a, at_a, size_b, at_b).2 > 0,
        reaches(size_a, at_a, size_b, at_b).3 > 0,
        0 <= k < 8,
    ensures
        overlaps(placed_rectangle(size_a, at_a), placed_rectangle(size_b, at_b)).len() == 8,
        ({
            let entry = overlaps(placed_rectangle(size_a, at_a), placed_rectangle(size_b, at_b))[k];
            let r = reaches(size_a, at_a, size_b, at_b);
            &&& k % 4 == 0 ==> shows_depth(entry, r.0)
            &&& k % 4 == 1 ==> shows_depth(entry, r.1)
            &&& k % 4 == 2 ==> shows_depth(entry, r.2)
            &&& k % 4 == 3 ==> shows_depth(entry, r.3)
        }),
{
    let (al, ah) = (low_corner(size_a, at_a), high_corner(size_a, at_a));
    let (bl, bh) = (low_corner(size_b, at_b), high_corner(size_b, at_b));
    let a = placed_rectangle(size_a, at_a);
    let b = placed_rectangle(size_b, at_b);
    lemma_placed_rectangle_is_box(size_a, at_a);
    lemma_placed_rectangle_is_box(size_b, at_b);
    lemma_overlaps_entry(a, b, k);
    let size = if k < 4 {
        size_a
    } else {
        size_b
    };
    let entry = overlaps(a, b)[k];
    let axis = entry.0;
    let side = if k % 4 == 0 || k % 4 == 2 {
        size.y
    } else {
        size.x
    };
    assert(k % 4 == 0 ==> axis == Point { x: size.y, y: 0 });
    assert(k % 4 == 1 ==> axis == Point { x: 0, y: size.x });
    assert(k % 4 == 2 ==> axis == Point { x: -size.y, y: 0 });
    assert(k % 4 == 3 ==> axis == Point { x: 0, y: -size.x });
    lemma_box_overlap(axis, al, ah, bl, bh);
    assert(axis.norm_sq() == side * side) by (nonlinear_arith)
        requires
            axis.norm_sq() == axis.x * axis.x + axis.y * axis.y,
            (axis.x == side && axis.y == 0) || (axis.x == -side && axis.y == 0) || (axis.x == 0
                && axis.y == side) || (axis.x == 0 && axis.y == -side),
    ;
    let r = reaches(size_a, at_a, size_b, at_b);
    let d = if k % 4 == 0 {
        r.0
    } else if k % 4 == 1 {
        r.1
    } else if k % 4 == 2 {
        r.2
    } else {
        r.3
    };
    assert(entry.1 == side * d);
    assert(shows_depth(entry, d));
}

/// **Rectangles that reach into each other report the least reach.**
///
/// Where two rectangles with sides of positive length, each placed by a
/// translation alone, reach into each other along x and along y, the query
/// answers an axis and an overlap whose depth, the overlap divided by the
/// length of the axis, is the least of the four reaches: the square of the
/// overlap is the square of that reach times the squared length of the axis.
pub proof fn rectangles_report_the_least_reach(
    size_a: Point,
    at_a: Point,
    size_b: Point,
    at_b: Point,
)
    requires
        size_a.x > 0 && size_a.y > 0,
        size_b.x > 0 && size_b.y > 0,
        reaches(size_a, at_a, size_b, at_b).0 > 0,
        reaches(size_a, at_a, size_b, at_b).1 > 0,
        reaches(size_a, at_a, size_b, at_b).2 > 0,
        reaches(size_a, at_a, size_b, at_b).3 > 0,
    ensures
        ({
            let depth = least_of(reaches(size_a, at_a, size_b, at_b));
            collision(placed_rectangle(size_a, at_a), placed_rectangle(size_b, at_b)) matches Some(
                found,
            ) && found.1 > 0 && found.1 * found.1 == depth * depth * found.0.norm_sq()
        }),
{
    let a = placed_rectangle(size_a, at_a);
    let b = placed_rectangle(size_b, at_b);
    let os = overlaps(a, b);
    let r = reaches(size_a, at_a, size_b, at_b);
    let depth = least_of(r);
    lemma_rectangle_axis_shows_reach(size_a, at_a, size_b, at_b, 0);
    lemma_rectangle_axis_shows_reach(size_a, at_a, size_b, at_b, 1);
    lemma_rectangle_axis_shows_reach(size_a, at_a, size_b, at_b, 2);
    lemma_rectangle_axis_shows_reach(size_a, at_a, size_b, at_b, 3);
    assert forall|j: int| 0 <= j < os.len() implies (#[trigger] os[j]).1 > 0 by {
        lemma_rectangle_axis_shows_reach(size_a, at_a, size_b, at_b, j);
        lemma_shown_depth_is_positive(os[j], r.0);
        lemma_shown_depth_is_positive(os[j], r.1);
        lemma_shown_depth_is_positive(os[j], r.2);
        lemma_shown_depth_is_positive(os[j], r.3);
    }
    assert(collision(a, b) is Some) by {
        if separated(os) {
            let j = choose|j: int| 0 <= j < os.len() && (#[trigger] os[j]).1 <= 0;
            assert(os[j].1 > 0);
        }
    }
    let k = collision_is_least_penetration(a, b);
    let found = os[k];
    lemma_rectangle_axis_shows_reach(size_a, at_a, size_b, at_b, k);
    let shown = if k % 4 == 0 {
        r.0
    } else if k % 4 == 1 {
        r.1
    } else if k % 4 == 2 {
        r.2
    } else {
        r.3
    };
    assert(!shallower(os[0], found) && !shallower(os[1], found) && !shallower(os[2], found)
        && !shallower(os[3], found));
    lemma_depths_in_order(os[0], r.0, found, shown);
    lemma_depths_in_order(os[1], r.1, found, shown);
    lemma_depths_in_order(os[2], r.2, found, shown);
    lemma_depths_in_order(os[3], r.3, found, shown);
    assert(shown == depth);
    let s = choose|s: int| s > 0 && found.1 == #[trigger] (s * depth) && found.0.norm_sq() == s * s;
    assert(found.1 * found.1 == depth * depth * found.0.norm_sq()) by (nonlinear_arith)
        requires
            found.1 == s * depth,
            found.0.norm_sq() == s * s,
    ;
}

/// An entry that shows a positive depth has a positive overlap.
proof fn lemma_shown_depth_is_positive(entry: (Point, int), d: int)
    requires
        d > 0,
    ensures
        shows_depth(entry, d) ==> entry.1 > 0,
{
    if shows_depth(entry, d) {
        let s = choose|s: int| s > 0 && entry.1 == #[trigger] (s * d) && entry.0.norm_sq() == s * s;
        assert(s * d > 0) by (nonlinear_arith)
            requires
                s > 0,
                d > 0,
        ;
    }
}

} // verus!
