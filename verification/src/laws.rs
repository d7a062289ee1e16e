//! What holds of the collision query on all shapes.

use vstd::prelude::*;
use crate::lemmas::{
    lemma_bounds_of_shifted, lemma_bounds_ordered, lemma_correction_covers, lemma_dot_with_opposite,
    lemma_edges_of_shifted, lemma_no_overlap_along_zero, lemma_overlaps_entry,
    lemma_shallowest_is_least, lemma_shallowest_member, lemma_translated_points,
};
use crate::model::{
    apart_along, bounds, collision, correction_of, overlaps, separated, shallower, shifted,
    signed_overlap,
};
use crate::transform::AffineMap;
use crate::vector::Point;

verus! {

/// **The shapes collide exactly where no candidate axis separates them.**
///
/// The query answers `None` exactly where the two shapes are apart, or just
/// touch, along the normal of one of their edges.
pub proof fn none_exactly_where_an_edge_normal_separates(a: Seq<Point>, b: Seq<Point>)
    ensures
        collision(a, b) is None <==> exists|i: int|
            0 <= i < a.len() + b.len() && apart_along((#[trigger] overlaps(a, b)[i]).0, a, b),
{
    if collision(a, b) is None {
        let os = overlaps(a, b);
        let i = choose|i: int| 0 <= i < os.len() && (#[trigger] os[i]).1 <= 0;
        lemma_overlaps_entry(a, b, i);
        assert(apart_along(overlaps(a, b)[i].0, a, b));
    }
    if exists|i: int|
        0 <= i < a.len() + b.len() && apart_along((#[trigger] overlaps(a, b)[i]).0, a, b) {
        let i = choose|i: int|
            0 <= i < a.len() + b.len() && apart_along((#[trigger] overlaps(a, b)[i]).0, a, b);
        separating_axis_gives_none(a, b, i);
    }
}

/// Where two shapes are apart, or just touch, along candidate axis `i`, the
/// query answers `None`.
pub proof fn separating_axis_gives_none(a: Seq<Point>, b: Seq<Point>, i: int)
    requires
        0 <= i < a.len() + b.len(),
        apart_along(overlaps(a, b)[i].0, a, b),
    ensures
        collision(a, b) is None,
{
    lemma_overlaps_entry(a, b, i);
    let axis = overlaps(a, b)[i].0;
    lemma_bounds_ordered(axis, a);
    lemma_bounds_ordered(axis, b);
    assert(overlaps(a, b)[i].1 <= 0);
}

/// **The query answers the least penetration.**
///
/// Where the query on two shapes answers an axis and an overlap, every
/// candidate axis shows a positive overlap, the answer is the candidate axis
/// `k` with its overlap, no candidate axis shows a strictly shallower
/// penetration, and each one before `k` shows a strictly deeper one.
pub proof fn collision_is_least_penetration(a: Seq<Point>, b: Seq<Point>) -> (k: int)
    requires
        a.len() + b.len() > 0,
        collision(a, b) is Some,
    ensures
        0 <= k < a.len() + b.len(),
        overlaps(a, b).len() == a.len() + b.len(),
        collision(a, b) == Some(overlaps(a, b)[k]),
        forall|j: int| 0 <= j < a.len() + b.len() ==> (#[trigger] overlaps(a, b)[j]).1 > 0,
        forall|j: int|
            0 <= j < a.len() + b.len() ==> !shallower(#[trigger] overlaps(a, b)[j], overlaps(a, b)[k]),
        forall|j: int| 0 <= j < k ==> shallower(overlaps(a, b)[k], #[trigger] overlaps(a, b)[j]),
{
    let os = overlaps(a, b);
    assert forall|i: int| 0 <= i < os.len() implies (#[trigger] os[i]).1 > 0 && os[i].0.norm_sq()
        > 0 by {
        if os[i].1 <= 0 {
            assert(separated(os));
        }
        lemma_overlaps_entry(a, b, i);
        if os[i].0.norm_sq() == 0 {
            lemma_no_overlap_along_zero(os[i].0, a, b);
        }
        assert(os[i].0.norm_sq() >= 0) by (nonlinear_arith)
            requires
                os[i].0.norm_sq() == os[i].0.x * os[i].0.x + os[i].0.y * os[i].0.y,
        ;
    }
    lemma_shallowest_is_least(os)
}

/// **The overlap along an axis follows the offset.**
///
/// Where the second shape is moved by `by`, and along `axis` the first shape
/// begins before the second one ends both before the move and after it, the
/// signed overlap along `axis` changes by the scalar product of `axis` and
/// `by`, taken off. So two shapes that touch along an axis and are then
/// pushed into each other by a known offset overlap along that axis by that
/// offset exactly.
pub proof fn overlap_follows_offset(axis: Point, a: Seq<Point>, b: Seq<Point>, by: Point)
    requires
        b.len() > 0,
        bounds(axis, a).0 < bounds(axis, b).1,
        bounds(axis, a).0 < bounds(axis, b).1 + axis.dot(by),
    ensures
        signed_overlap(axis, a, shifted(b, by)) == signed_overlap(axis, a, b) - axis.dot(by),
{
    lemma_bounds_of_shifted(axis, b, by);
}

/// **A push along the axis of the answer that covers its overlap parts the
/// shapes.**
///
/// Where the query on two shapes answers an axis and an overlap, and `by` is
/// any displacement whose scalar product with the axis is at least the
/// overlap, the query answers `None` once the second shape is moved by `by`,
/// and also once the first shape is moved by the opposite of `by` instead.
pub proof fn push_resolves_collision(a: Seq<Point>, b: Seq<Point>, by: Point)
    requires
        a.len() > 0,
        b.len() > 0,
        collision(a, b) matches Some(found) && found.0.dot(by) >= found.1,
    ensures
        collision(a, shifted(b, by)) is None,
        collision(shifted(a, by.neg()), b) is None,
{
    let os = overlaps(a, b);
    let k = lemma_shallowest_member(os);
    lemma_overlaps_entry(a, b, k);
    let axis = os[k].0;
    assert(os[k].1 > 0) by {
        if os[k].1 <= 0 {
            assert(separated(os));
        }
    }
    assert(collision(a, shifted(b, by)) is None) by {
        let moved = shifted(b, by);
        lemma_overlaps_entry(a, moved, k);
        lemma_edges_of_shifted(b, by);
        lemma_bounds_of_shifted(axis, b, by);
        assert(overlaps(a, moved)[k].1 <= 0);
    }
    assert(collision(shifted(a, by.neg()), b) is None) by {
        let moved = shifted(a, by.neg());
        lemma_overlaps_entry(moved, b, k);
        lemma_edges_of_shifted(a, by.neg());
        lemma_bounds_of_shifted(axis, a, by.neg());
        lemma_dot_with_opposite(axis, by);
        assert(overlaps(moved, b)[k].1 <= 0);
    }
}

/// **A push that covers the overlap of the answer exactly leaves the shapes
/// touching.**
///
/// Where the query on two shapes answers an axis and an overlap, and the
/// second shape is moved by a displacement whose scalar product with the
/// axis is the overlap, the signed overlap along that axis is zero
/// afterwards.
pub proof fn exact_push_leaves_shapes_touching(a: Seq<Point>, b: Seq<Point>, by: Point)
    requires
        a.len() > 0,
        b.len() > 0,
        collision(a, b) matches Some(found) && found.0.dot(by) == found.1,
    ensures
        signed_overlap(collision(a, b).unwrap().0, a, shifted(b, by)) == 0,
{
    let os = overlaps(a, b);
    let k = lemma_shallowest_member(os);
    lemma_overlaps_entry(a, b, k);
    if os[k].1 <= 0 {
        assert(separated(os));
    }
    lemma_bounds_of_shifted(os[k].0, b, by);
}

/// **The correction for the answer resolves the collision.**
///
/// Where the query on two placed polygons answers an axis and an overlap,
/// the query answers `None` once the second polygon is moved by the
/// correction for that axis and overlap, and also once the first polygon is
/// moved by the opposite of that correction instead.
pub proof fn correction_resolves_collision(
    a: Seq<Point>,
    place_a: AffineMap,
    b: Seq<Point>,
    place_b: AffineMap,
)
    requires
        a.len() > 0,
        b.len() > 0,
        collision(place_a.apply_all(a), place_b.apply_all(b)) is Some,
    ensures
        ({
            let found = collision(place_a.apply_all(a), place_b.apply_all(b)).unwrap();
            let by = correction_of(found.0, found.1);
            &&& collision(place_a.apply_all(a), place_b.translated(by).apply_all(b)) is None
            &&& collision(place_a.translated(by.neg()).apply_all(a), place_b.apply_all(b)) is None
        }),
{
    let world_a = place_a.apply_all(a);
    let world_b = place_b.apply_all(b);
    let found = collision(world_a, world_b).unwrap();
    let by = correction_of(found.0, found.1);
    let os = overlaps(world_a, world_b);
    let k = lemma_shallowest_member(os);
    lemma_overlaps_entry(world_a, world_b, k);
    assert(found.1 > 0) by {
        if os[k].1 <= 0 {
            assert(separated(os));
        }
    }
    if found.0.norm_sq() == 0 {
        lemma_no_overlap_along_zero(found.0, world_a, world_b);
    }
    assert(found.0.norm_sq() >= 0) by (nonlinear_arith)
        requires
            found.0.norm_sq() == found.0.x * found.0.x + found.0.y * found.0.y,
    ;
    lemma_correction_covers(found.0, found.1);
    push_resolves_collision(world_a, world_b, by);
    lemma_translated_points(place_b, b, by);
    lemma_translated_points(place_a, a, by.neg());
}

} // verus!
