//! Convex polygons and the separating-axis query between two of them.

use vstd::prelude::*;
use crate::lemmas::{
    lemma_bounds_range, lemma_least_and_greatest, lemma_least_overlap_step,
    lemma_overlaps_in_range, lemma_shallowest_member,
};
use crate::model::{
    abs, axis_overlaps, before, bounds, ceil_div, collision, correction_of, edges, least_overlap,
    narrowed, overlaps, projections, rectangle_corners, separated, shallower, signed_overlap,
    signum,
};
use crate::transform::{Transform, LOCAL_LIMIT, WORLD_LIMIT};
use crate::vector::{
    all_within, lemma_product_range, points_of, Point, Vector, COORDINATE_LIMIT,
};

verus! {

/// The largest coordinate of an edge between two points of the world, and so
/// of a candidate axis: twice [`WORLD_LIMIT`].
pub const NORMAL_LIMIT: i64 = 0x4000_0000;

/// The largest overlap of two shapes of the world along a candidate axis, in
/// units of the length of that axis: 2^61.
pub const OVERLAP_LIMIT: i64 = 0x2000_0000_0000_0000;

/// The axis and the overlap are those of two shapes of the world.
pub open spec fn in_range(c: (Point, int)) -> bool {
    c.0.within(NORMAL_LIMIT as int) && -OVERLAP_LIMIT <= c.1 <= OVERLAP_LIMIT
}

/// What a pair of a grid vector and a number stands for.
pub open spec fn contact(c: (Vector, i64)) -> (Point, int) {
    (c.0@, c.1 as int)
}

/// What an optional pair of a grid vector and a number stands for.
pub open spec fn contact_of(c: Option<(Vector, i64)>) -> Option<(Point, int)> {
    match c {
        Some(c) => Some(contact(c)),
        None => None,
    }
}

/// What a sequence of such pairs stands for.
pub open spec fn contacts(cs: Seq<(Vector, i64)>) -> Seq<(Point, int)> {
    Seq::new(cs.len(), |i: int| contact(cs[i]))
}

/// An ordered loop of vertices in the frame of the object that it describes.
#[derive(Debug, Default)]
pub struct Collider(pub Vec<Vector>);

impl View for Collider {
    type V = Seq<Point>;

    open spec fn view(&self) -> Seq<Point> {
        points_of(self.0@)
    }
}

impl Collider {
    /// Every vertex lies within [`LOCAL_LIMIT`], so that a valid transform
    /// can place the polygon in the world.
    pub open spec fn wf(&self) -> bool {
        all_within(self@, LOCAL_LIMIT as int)
    }

    /// The rectangle of the given size, centred on the origin.
    pub fn rectangle(size: Vector) -> (c: Collider)
        requires
            size@.within(LOCAL_LIMIT as int),
        ensures
            c@ == rectangle_corners(size@),
            c.wf(),
    {
        let low = size.halved().neg();
        let high = low.plus(size);
        let points = vec![low, Vector { x: high.x, y: low.y }, high, Vector { x: low.x, y: high.y }];
        let c = Collider(points);
        assert(c@ =~= rectangle_corners(size@));
        c
    }

    /// The triangle with the given corners.
    pub fn _triangle(p1: Vector, p2: Vector, p3: Vector) -> (c: Collider)
        ensures
            c@ == seq![p1@, p2@, p3@],
    {
        let c = Collider(vec![p1, p2, p3]);
        assert(c@ =~= seq![p1@, p2@, p3@]);
        c
    }

    /// Tells whether every vertex lies within [`LOCAL_LIMIT`].
    pub fn is_valid(&self) -> (r: bool)
        ensures
            r == self.wf(),
    {
        let mut i: usize = 0;
        while i < self.0.len()
            invariant
                i <= self.0.len(),
                forall|j: int| 0 <= j < i ==> (#[trigger] self@[j]).within(LOCAL_LIMIT as int),
            decreases self.0.len() - i,
        {
            if !self.0[i].is_within(LOCAL_LIMIT) {
                assert(!self@[i as int].within(LOCAL_LIMIT as int));
                return false;
            }
            i += 1;
        }
        true
    }
}

/// Places the local points `ps` in the world, one by one and in their order.
pub fn points_to_world(ps: &[Vector], trans: &Transform) -> (world: Vec<Vector>)
    requires
        trans@.wf(),
        all_within(points_of(ps@), LOCAL_LIMIT as int),
    ensures
        points_of(world@) == trans@.apply_all(points_of(ps@)),
        all_within(points_of(world@), WORLD_LIMIT as int),
{
    let mut world: Vec<Vector> = Vec::new();
    let mut i: usize = 0;
    while i < ps.len()
        invariant
            i <= ps.len(),
            world.len() == i,
            trans@.wf(),
            all_within(points_of(ps@), LOCAL_LIMIT as int),
            forall|j: int| 0 <= j < i ==> (#[trigger] world@[j])@ == trans@.apply(ps@[j]@),
            forall|j: int|
                0 <= j < i ==> (#[trigger] world@[j])@.within(
                    WORLD_LIMIT as int,
                ),
        decreases ps.len() - i,
    {
        assert(points_of(ps@)[i as int].within(LOCAL_LIMIT as int));
        world.push(trans.apply(ps[i]));
        i += 1;
    }
    assert(points_of(world@) =~= trans@.apply_all(points_of(ps@)));
    world
}

/// The edges of the closed loop `ps`, each the difference of a vertex and the
/// one before it, starting with the edge from the last vertex to the first.
pub fn edges_between(ps: &[Vector]) -> (es: Vec<Vector>)
    requires
        ps@.len() > 0,
        all_within(points_of(ps@), COORDINATE_LIMIT as int),
    ensures
        points_of(es@) == edges(points_of(ps@)),
{
    let mut es: Vec<Vector> = Vec::new();
    let mut prev: Vector = ps[ps.len() - 1];
    let mut i: usize = 0;
    while i < ps.len()
        invariant
            i <= ps.len(),
            es.len() == i,
            ps@.len() > 0,
            all_within(points_of(ps@), COORDINATE_LIMIT as int),
            prev == ps@[before(i as int, ps@.len() as int)],
            forall|j: int|
                0 <= j < i ==> (#[trigger] es@[j])@ == ps@[j]@.minus(
                    ps@[before(j, ps@.len() as int)]@,
                ),
        decreases ps.len() - i,
    {
        let p: Vector = ps[i];
        assert(points_of(ps@)[i as int].within(COORDINATE_LIMIT as int));
        assert(points_of(ps@)[before(i as int, ps@.len() as int)].within(COORDINATE_LIMIT as int));
        es.push(p.minus(prev));
        prev = p;
        i += 1;
    }
    assert(points_of(es@) =~= edges(points_of(ps@)));
    es
}

/// The least and the greatest of `values`, or `None` where there is none.
///
/// Calls `Itertools::minmax` on the values and `MinMaxResult::into_option` on
/// its result. The contract takes from their documentation that the result
/// is `None` exactly for an empty input, and that otherwise its first part is
/// the minimum and its second the maximum of the elements.
#[verifier::external_body]
fn minmax(values: &Vec<i64>) -> (r: Option<(i64, i64)>)
    ensures
        r.is_none() <==> values@.len() == 0,
        r matches Some((low, high)) ==> {
            &&& values@.contains(low)
            &&& values@.contains(high)
            &&& forall|i: int| 0 <= i < values@.len() ==> low <= #[trigger] values@[i] <= high
        },
{
    itertools::Itertools::minmax(values.iter().copied()).into_option()
}

/// The interval that `points` cover along `norm`: the least and the greatest
/// scalar product of `norm` with one of them, and `(0, 0)` where there is no
/// point.
pub fn projection_bounds(norm: Vector, points: &[Vector]) -> (r: (i64, i64))
    requires
        norm@.within(COORDINATE_LIMIT as int),
        all_within(points_of(points@), COORDINATE_LIMIT as int),
    ensures
        (r.0 as int, r.1 as int) == bounds(norm@, points_of(points@)),
{
    let mut dots: Vec<i64> = Vec::new();
    let mut i: usize = 0;
    while i < points.len()
        invariant
            i <= points.len(),
            dots.len() == i,
            norm@.within(COORDINATE_LIMIT as int),
            all_within(points_of(points@), COORDINATE_LIMIT as int),
            forall|j: int| 0 <= j < i ==> #[trigger] dots@[j] == norm@.dot(points@[j]@),
        decreases points.len() - i,
    {
        assert(points_of(points@)[i as int].within(COORDINATE_LIMIT as int));
        proof {
            let p = points@[i as int]@;
            lemma_product_range(norm@.x, p.x, COORDINATE_LIMIT as int, COORDINATE_LIMIT as int);
            lemma_product_range(norm@.y, p.y, COORDINATE_LIMIT as int, COORDINATE_LIMIT as int);
        }
        dots.push(norm.dot(points[i]));
        i += 1;
    }
    let ghost projected = projections(norm@, points_of(points@));
    assert(dots@.map_values(|d: i64| d as int) =~= projected);
    match minmax(&dots) {
        Some((low, high)) => {
            proof {
                let at_low = choose|j: int| 0 <= j < dots@.len() && dots@[j] == low;
                let at_high = choose|j: int| 0 <= j < dots@.len() && dots@[j] == high;
                assert(projected[at_low] == low && projected[at_high] == high);
                lemma_least_and_greatest(projected, low as int, high as int);
            }
            (low, high)
        },
        None => {
            assert(projected.len() == 0);
            (0, 0)
        },
    }
}

/// For each edge its normal, the edge turned a quarter turn, and the signed
/// overlap along that normal of the intervals that the two point sets cover.
///
/// The normal is not scaled to unit length: the overlap is measured in units
/// of its length.
pub fn get_overlaps(edges: Vec<Vector>, points_a: &[Vector], points_b: &[Vector]) -> (os: Vec<
    (Vector, i64),
>)
    requires
        all_within(points_of(edges@), COORDINATE_LIMIT as int),
        all_within(points_of(points_a@), COORDINATE_LIMIT as int),
        all_within(points_of(points_b@), COORDINATE_LIMIT as int),
    ensures
        contacts(os@) == axis_overlaps(
            points_of(edges@),
            points_of(points_a@),
            points_of(points_b@),
        ),
{
    let ghost a = points_of(points_a@);
    let ghost b = points_of(points_b@);
    let mut os: Vec<(Vector, i64)> = Vec::new();
    let mut i: usize = 0;
    while i < edges.len()
        invariant
            i <= edges.len(),
            os.len() == i,
            a == points_of(points_a@),
            b == points_of(points_b@),
            all_within(points_of(edges@), COORDINATE_LIMIT as int),
            all_within(a, COORDINATE_LIMIT as int),
            all_within(b, COORDINATE_LIMIT as int),
            forall|j: int|
                0 <= j < i ==> contact(#[trigger] os@[j]) == (
                    edges@[j]@.perp(),
                    signed_overlap(edges@[j]@.perp(), a, b),
                ),
        decreases edges.len() - i,
    {
        assert(points_of(edges@)[i as int].within(COORDINATE_LIMIT as int));
        let e: Vector = edges[i].perp();
        let (a_min, a_max) = projection_bounds(e, points_a);
        let (b_min, b_max) = projection_bounds(e, points_b);
        proof {
            lemma_bounds_range(e@, a, COORDINATE_LIMIT as int, COORDINATE_LIMIT as int);
            lemma_bounds_range(e@, b, COORDINATE_LIMIT as int, COORDINATE_LIMIT as int);
        }
        let overlap: i64 = if a_min < b_max {
            a_max - b_min
        } else {
            b_max - a_min
        };
        os.push((e, overlap));
        i += 1;
    }
    assert(contacts(os@) =~= axis_overlaps(points_of(edges@), a, b));
    os
}

/// Tells whether the penetration `x` is strictly shallower than `y`.
///
/// The products that are compared do not fit in 128 bits, so each is held in
/// two words.
fn is_shallower(x: (Vector, i64), y: (Vector, i64)) -> (r: bool)
    requires
        in_range(contact(x)),
        in_range(contact(y)),
    ensures
        r == shallower(contact(x), contact(y)),
{
    let left = wide_product(squared(x.1), squared_length(y.0));
    let right = wide_product(squared(y.1), squared_length(x.0));
    left.0 < right.0 || (left.0 == right.0 && left.1 < right.1)
}

/// The square of an overlap.
fn squared(overlap: i64) -> (r: u128)
    requires
        -OVERLAP_LIMIT <= overlap <= OVERLAP_LIMIT,
    ensures
        r == overlap * overlap,
        r <= OVERLAP_LIMIT * OVERLAP_LIMIT,
{
    proof {
        lemma_product_range(
            overlap as int,
            overlap as int,
            OVERLAP_LIMIT as int,
            OVERLAP_LIMIT as int,
        );
        assert(overlap * overlap >= 0) by (nonlinear_arith);
    }
    let wide: i128 = overlap as i128;
    (wide * wide) as u128
}

/// The squared length of a candidate axis.
fn squared_length(v: Vector) -> (r: u64)
    requires
        v@.within(NORMAL_LIMIT as int),
    ensures
        r == v@.norm_sq(),
        r <= OVERLAP_LIMIT,
{
    proof {
        lemma_product_range(v.x as int, v.x as int, NORMAL_LIMIT as int, NORMAL_LIMIT as int);
        lemma_product_range(v.y as int, v.y as int, NORMAL_LIMIT as int, NORMAL_LIMIT as int);
        assert(v.x * v.x >= 0 && v.y * v.y >= 0) by (nonlinear_arith);
    }
    (v.x * v.x + v.y * v.y) as u64
}

/// Two to the power of 64: the size of the lower word of a wide product.
const WORD: u128 = 0x1_0000_0000_0000_0000;

/// The product of a square of an overlap and a squared length, in two words:
/// the upper one counts in units of [`WORD`].
fn wide_product(square: u128, norm: u64) -> (r: (u128, u64))
    requires
        square <= OVERLAP_LIMIT * OVERLAP_LIMIT,
        norm <= OVERLAP_LIMIT,
    ensures
        r.0 * WORD + r.1 == square * norm,
{
    let high: u128 = square / WORD;
    let low: u128 = square % WORD;
    proof {
        lemma_product_range(
            high as int,
            norm as int,
            0x400_0000_0000_0000,
            OVERLAP_LIMIT as int,
        );
        lemma_product_range(low as int, norm as int, WORD as int, OVERLAP_LIMIT as int);
        assert(high * norm >= 0 && low * norm >= 0) by (nonlinear_arith)
            requires
                high >= 0,
                low >= 0,
                norm >= 0,
        ;
        assert(square * norm == (high * norm) * WORD + low * norm) by (nonlinear_arith)
            requires
                square == high * WORD + low,
        ;
    }
    let upper: u128 = high * (norm as u128);
    let lower: u128 = low * (norm as u128);
    (upper + lower / WORD, (lower % WORD) as u64)
}

/// One step of the scan for the least overlap: a candidate axis without
/// overlap ends it with `None`, which then stays; else the candidate replaces
/// the least so far where it is strictly shallower.
fn narrower(min_overlap: Option<(Vector, i64)>, candidate: (Vector, i64)) -> (r: Option<
    (Vector, i64),
>)
    requires
        in_range(contact(candidate)),
        min_overlap matches Some(best) ==> in_range(contact(best)),
    ensures
        contact_of(r) == narrowed(contact_of(min_overlap), contact(candidate)),
        r matches Some(best) ==> in_range(contact(best)),
{
    if candidate.1 <= 0 {
        None
    } else {
        match min_overlap {
            Some(best) => if is_shallower(candidate, best) {
                Some(candidate)
            } else {
                Some(best)
            },
            None => None,
        }
    }
}

/// Tells whether two placed polygons collide, and if so how to part them.
///
/// The result is `None` where the two polygons are apart or just touch along
/// the normal of one of their edges. Else it is the first of those normals
/// along which they overlap the least, with the overlap along it. The normal
/// is not scaled to unit length and the overlap is measured in units of its
/// length: the penetration depth in grid units is the overlap divided by the
/// length of the normal.
///
/// An empty polygon has no edge to test and is not accepted.
pub fn are_colliding(a: (&Collider, &Transform), b: (&Collider, &Transform)) -> (r: Option<
    (Vector, i64),
>)
    requires
        a.0.wf(),
        a.1@.wf(),
        b.0.wf(),
        b.1@.wf(),
        a.0@.len() > 0,
        b.0@.len() > 0,
    ensures
        contact_of(r) == collision(a.1@.apply_all(a.0@), b.1@.apply_all(b.0@)),
        r matches Some(least) ==> in_range(contact(least)) && least.1 > 0,
{
    let (col_a, trans_a) = a;
    let (col_b, trans_b) = b;
    let points_a = points_to_world(col_a.0.as_slice(), trans_a);
    let points_b = points_to_world(col_b.0.as_slice(), trans_b);
    let ghost world_a = points_of(points_a@);
    let ghost world_b = points_of(points_b@);

    let edges_a = edges_between(points_a.as_slice());
    let edges_b = edges_between(points_b.as_slice());

    let mut found = get_overlaps(edges_a, points_a.as_slice(), points_b.as_slice());
    let mut found_b = get_overlaps(edges_b, points_a.as_slice(), points_b.as_slice());
    found.append(&mut found_b);
    let ghost all = overlaps(world_a, world_b);
    assert(contacts(found@) =~= all);
    assert forall|j: int| 0 <= j < all.len() implies in_range(#[trigger] all[j]) by {
        lemma_overlaps_in_range(world_a, world_b, j);
    }

    let first = found[0];
    assert(contact(first) == all[0]);
    let mut least: Option<(Vector, i64)> = if first.1 <= 0 {
        None
    } else {
        Some(first)
    };
    assert(contact_of(least) == least_overlap(all.take(1))) by {
        assert(all.take(1)[0] == all[0]);
    }
    let mut i: usize = 1;
    while i < found.len()
        invariant
            1 <= i <= found.len(),
            contacts(found@) == all,
            forall|j: int| 0 <= j < all.len() ==> in_range(#[trigger] all[j]),
            contact_of(least) == least_overlap(all.take(i as int)),
            least matches Some(best) ==> in_range(contact(best)),
        decreases found.len() - i,
    {
        assert(contact(found@[i as int]) == all[i as int]);
        proof {
            lemma_least_overlap_step(all.take(i + 1));
            assert(all.take(i + 1).drop_last() =~= all.take(i as int));
        }
        least = narrower(least, found[i]);
        i += 1;
    }
    assert(all.take(i as int) =~= all);
    proof {
        if least is Some {
            let k = lemma_shallowest_member(all);
            if all[k].1 <= 0 {
                assert(separated(all));
            }
        }
    }
    least
}

/// The shortest grid displacement along `axis`, each coordinate rounded away
/// from zero, that covers `overlap`, an overlap in units of the length of
/// `axis`; zero where there is no overlap.
///
/// Moving the second shape of a collision query by the correction for the
/// axis and the overlap that the query answered parts the two shapes.
pub fn correction(axis: Vector, overlap: i64) -> (by: Vector)
    requires
        in_range(contact((axis, overlap))),
    ensures
        by@ == correction_of(axis@, overlap as int),
{
    let norm = squared_length(axis);
    if overlap <= 0 || norm == 0 {
        Vector { x: 0, y: 0 }
    } else {
        proof {
            assert(axis.x * axis.x >= 0 && axis.y * axis.y >= 0) by (nonlinear_arith);
        }
        Vector { x: cover(axis.x, overlap, norm), y: cover(axis.y, overlap, norm) }
    }
}

/// The part of a correction along one coordinate of the axis.
fn cover(coordinate: i64, overlap: i64, norm: u64) -> (r: i64)
    requires
        -NORMAL_LIMIT <= coordinate <= NORMAL_LIMIT,
        0 < overlap <= OVERLAP_LIMIT,
        0 < norm <= OVERLAP_LIMIT,
        coordinate * coordinate <= norm,
    ensures
        r == signum(coordinate as int) * ceil_div(overlap * abs(coordinate as int), norm as int),
{
    let size: i128 = if coordinate < 0 {
        -(coordinate as i128)
    } else {
        coordinate as i128
    };
    proof {
        lemma_product_range(
            overlap as int,
            size as int,
            OVERLAP_LIMIT as int,
            NORMAL_LIMIT as int,
        );
        assert(overlap * size >= 0) by (nonlinear_arith)
            requires
                overlap > 0,
                size >= 0,
        ;
        assert(size * size == coordinate * coordinate) by (nonlinear_arith)
            requires
                size == coordinate || size == -coordinate,
        ;
    }
    let steps: i128 = ((overlap as i128) * size + (norm as i128) - 1) / (norm as i128);
    assert(0 <= steps <= overlap) by (nonlinear_arith)
        requires
            steps == (overlap * size + norm - 1) / (norm as int),
            0 <= size,
            size * size <= norm,
            0 < norm,
            0 < overlap,
    ;
    assert(signum(coordinate as int) * steps == if coordinate < 0 {
        -steps
    } else if coordinate == 0 {
        0
    } else {
        steps as int
    }) by (nonlinear_arith)
        requires
            -1 <= signum(coordinate as int) <= 1,
            (coordinate < 0) == (signum(coordinate as int) == -1),
            (coordinate == 0) == (signum(coordinate as int) == 0),
    ;
    if coordinate < 0 {
        (-steps) as i64
    } else if coordinate == 0 {
        0
    } else {
        steps as i64
    }
}

} // verus!
