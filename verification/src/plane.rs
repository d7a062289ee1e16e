//! The cross product of the plane, and identities between it and the scalar
//! product.

use vstd::prelude::*;
use crate::vector::Point;

verus! {

/// The cross product of two vectors of the plane: positive where `b` points
/// to the left of `a`.
pub open spec fn cross(a: Point, b: Point) -> int {
    a.x * b.y - a.y * b.x
}

/// For all vectors of the plane, `(a x c) b = (b x c) a + (a x b) c`.
pub proof fn lemma_cramer(a: Point, b: Point, c: Point)
    ensures
        cross(a, c) * b.x == cross(b, c) * a.x + cross(a, b) * c.x,
        cross(a, c) * b.y == cross(b, c) * a.y + cross(a, b) * c.y,
{
    let (ax, ay, bx, by, cx, cy) = (a.x, a.y, b.x, b.y, c.x, c.y);
    assert((ax * cy - ay * cx) * bx == (bx * cy - by * cx) * ax + (ax * by - ay * bx) * cx)
        by (nonlinear_arith);
    assert((ax * cy - ay * cx) * by == (bx * cy - by * cx) * ay + (ax * by - ay * bx) * cy)
        by (nonlinear_arith);
}

/// A sum scaled is the sum of its terms scaled.
proof fn lemma_scaled_sum(k: int, whole: int, first: int, second: int)
    by (nonlinear_arith)
    requires
        whole == first + second,
    ensures
        k * whole == k * first + k * second,
{
}

/// A scalar product scaled: `(p x + q y) k = p (k x) + q (k y)`.
proof fn lemma_scaled_dot(p: int, q: int, x: int, y: int, k: int)
    by (nonlinear_arith)
    ensures
        (p * x + q * y) * k == p * (k * x) + q * (k * y),
        k * (p * x + q * y) == p * (k * x) + q * (k * y),
{
}

/// A cross product scaled: `(p y - q x) k = p (k y) - q (k x)`.
proof fn lemma_scaled_cross(p: int, q: int, x: int, y: int, k: int)
    by (nonlinear_arith)
    ensures
        (p * y - q * x) * k == p * (k * y) - q * (k * x),
        k * (p * y - q * x) == p * (k * y) - q * (k * x),
{
}

/// For all vectors of the plane,
/// `(u . b) (a x c) = (u . a) (b x c) + (u . c) (a x b)`.
pub proof fn lemma_three_vectors(u: Point, a: Point, b: Point, c: Point)
    ensures
        u.dot(b) * cross(a, c) == u.dot(a) * cross(b, c) + u.dot(c) * cross(a, b),
{
    lemma_cramer(a, b, c);
    let (ac, bc, ab) = (cross(a, c), cross(b, c), cross(a, b));
    lemma_scaled_sum(u.x, ac * b.x, bc * a.x, ab * c.x);
    lemma_scaled_sum(u.y, ac * b.y, bc * a.y, ab * c.y);
    lemma_scaled_dot(u.x, u.y, b.x, b.y, ac);
    lemma_scaled_dot(u.x, u.y, a.x, a.y, bc);
    lemma_scaled_dot(u.x, u.y, c.x, c.y, ab);
}

/// For all vectors of the plane,
/// `(r x s) (d x v) = (v x s) (d x r) + (r x v) (d x s)`.
pub proof fn lemma_four_vectors(d: Point, r: Point, s: Point, v: Point)
    ensures
        cross(r, s) * cross(d, v) == cross(v, s) * cross(d, r) + cross(r, v) * cross(d, s),
{
    lemma_cramer(r, v, s);
    let (rs, vs, rv) = (cross(r, s), cross(v, s), cross(r, v));
    lemma_scaled_sum(d.x, rs * v.y, vs * r.y, rv * s.y);
    lemma_scaled_sum(d.y, rs * v.x, vs * r.x, rv * s.x);
    lemma_scaled_cross(d.x, d.y, v.x, v.y, rs);
    lemma_scaled_cross(d.x, d.y, r.x, r.y, vs);
    lemma_scaled_cross(d.x, d.y, s.x, s.y, rv);
}

/// For all vectors of the plane,
/// `|e|^2 (u . x) = (u . e) (e . x) + (e x u) (perp(e) . x)`.
pub proof fn lemma_split_along_edge(e: Point, u: Point, x: Point)
    ensures
        e.norm_sq() * u.dot(x) == u.dot(e) * e.dot(x) + cross(e, u) * e.perp().dot(x),
{
    let (ex, ey, ux, uy) = (e.x, e.y, u.x, u.y);
    let (m, ue, k) = (e.norm_sq(), u.dot(e), cross(e, u));
    assert(m * ux == ue * ex + k * (-ey)) by (nonlinear_arith)
        requires
            m == ex * ex + ey * ey,
            ue == ux * ex + uy * ey,
            k == ex * uy - ey * ux,
    ;
    assert(m * uy == ue * ey + k * ex) by (nonlinear_arith)
        requires
            m == ex * ex + ey * ey,
            ue == ux * ex + uy * ey,
            k == ex * uy - ey * ux,
    ;
    lemma_scaled_sum(x.x, m * ux, ue * ex, k * (-ey));
    lemma_scaled_sum(x.y, m * uy, ue * ey, k * ex);
    lemma_scaled_dot(x.x, x.y, ux, uy, m);
    lemma_scaled_dot(x.x, x.y, ex, ey, ue);
    lemma_scaled_dot(x.x, x.y, -ey, ex, k);
    assert(u.dot(x) == x.x * ux + x.y * uy) by (nonlinear_arith)
        requires
            u.dot(x) == ux * x.x + uy * x.y,
    ;
    assert(e.dot(x) == x.x * ex + x.y * ey) by (nonlinear_arith)
        requires
            e.dot(x) == ex * x.x + ey * x.y,
    ;
    assert(e.perp().dot(x) == x.x * (-ey) + x.y * ex) by (nonlinear_arith)
        requires
            e.perp().dot(x) == (-ey) * x.x + ex * x.y,
    ;
}

/// `|e|^2 |u|^2 = (u . e)^2 + (e x u)^2`.
pub proof fn lemma_lengths(e: Point, u: Point)
    ensures
        e.norm_sq() * u.norm_sq() == u.dot(e) * u.dot(e) + cross(e, u) * cross(e, u),
{
    lemma_split_along_edge(e, u, u);
    assert(e.dot(u) == u.dot(e)) by (nonlinear_arith)
        requires
            e.dot(u) == e.x * u.x + e.y * u.y,
            u.dot(e) == u.x * e.x + u.y * e.y,
    ;
    assert(e.perp().dot(u) == cross(e, u)) by (nonlinear_arith)
        requires
            e.perp().dot(u) == (-e.y) * u.x + e.x * u.y,
            cross(e, u) == e.x * u.y - e.y * u.x,
    ;
}

/// The cross product with `d` is additive, and it is the scalar product with
/// the normal of `d`.
pub proof fn lemma_cross_of_difference(d: Point, x: Point, o: Point)
    ensures
        cross(d, x.minus(o)) == d.perp().dot(x) - d.perp().dot(o),
{
    let (dx, dy, xx, xy, ox, oy) = (d.x, d.y, x.x, x.y, o.x, o.y);
    assert(dx * (xy - oy) - dy * (xx - ox) == ((-dy) * xx + dx * xy) - ((-dy) * ox + dx * oy))
        by (nonlinear_arith);
}

/// The cross product with the opposite vector.
pub proof fn lemma_cross_of_reverse(d: Point, x: Point, o: Point)
    ensures
        cross(d, o.minus(x)) == -cross(d, x.minus(o)),
{
    lemma_cross_of_difference(d, x, o);
    lemma_cross_of_difference(d, o, x);
}

/// Seen from the far end of the edge `d` that leads from `o` to `end`, a
/// point lies as far to the left of `d` as seen from `o`.
pub proof fn lemma_cross_from_far_end(d: Point, o: Point, end: Point, x: Point)
    requires
        d == end.minus(o),
    ensures
        cross(d, x.minus(end)) == cross(d, x.minus(o)),
{
    lemma_cross_of_difference(d, x, end);
    lemma_cross_of_difference(d, x, o);
    lemma_cross_of_difference(d, end, o);
    assert(cross(d, d) == 0) by (nonlinear_arith)
        requires
            cross(d, d) == d.x * d.y - d.y * d.x,
    ;
}

/// The scalar product distributes over a difference.
pub proof fn lemma_dot_of_difference(u: Point, x: Point, o: Point)
    ensures
        u.dot(x.minus(o)) == u.dot(x) - u.dot(o),
{
    let (ux, uy, xx, xy, ox, oy) = (u.x, u.y, x.x, x.y, o.x, o.y);
    assert(ux * (xx - ox) + uy * (xy - oy) == (ux * xx + uy * xy) - (ux * ox + uy * oy))
        by (nonlinear_arith);
}

} // verus!
