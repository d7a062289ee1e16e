//! What a host does with the answer of a collision query, and with the
//! pointer.

use vstd::prelude::*;
use crate::transform::{AffineMap, Transform, LOCAL_LIMIT, WORLD_LIMIT};
use crate::vector::{lemma_product_range, Point, Vector};

verus! {

/// The largest coordinate of a velocity and of a normal that can be
/// reflected without leaving the range of the grid: 2^20.
pub const REFLECT_LIMIT: i64 = 0x10_0000;

/// `vec` less twice its part along `norm`: `vec - 2 (vec . norm) norm`.
///
/// For a unit vector `norm` this is `vec` with its part along `norm`
/// reversed.
pub open spec fn reflected(vec: Point, norm: Point) -> Point {
    vec.minus(norm.times(2 * vec.dot(norm)))
}

/// The opposite of [`reflected`].
pub open spec fn mirrored(vec: Point, norm: Point) -> Point {
    reflected(vec, norm).neg()
}

/// Where the point `screen` of a window of size `window`, counted from a
/// corner of the window, lies in the world that the camera shows from the
/// middle of the window.
pub open spec fn screen_point(screen: Point, window: Point, camera: AffineMap) -> Point {
    camera.apply(screen.minus(window.halved()))
}

/// Reflects a vector at the side with the unit normal `norm`.
pub fn reflect_vector(vec: Vector, norm: Vector) -> (r: Vector)
    requires
        vec@.within(REFLECT_LIMIT as int),
        norm@.within(REFLECT_LIMIT as int),
    ensures
        r@ == reflected(vec@, norm@),
        r@.within(i64::MAX as int),
{
    proof {
        lemma_product_range(vec.x as int, norm.x as int, REFLECT_LIMIT as int, REFLECT_LIMIT as int);
        lemma_product_range(vec.y as int, norm.y as int, REFLECT_LIMIT as int, REFLECT_LIMIT as int);
    }
    let twice: i64 = 2 * (vec.x * norm.x + vec.y * norm.y);
    proof {
        lemma_product_range(
            twice as int,
            norm.x as int,
            4 * (REFLECT_LIMIT * REFLECT_LIMIT),
            REFLECT_LIMIT as int,
        );
        lemma_product_range(
            twice as int,
            norm.y as int,
            4 * (REFLECT_LIMIT * REFLECT_LIMIT),
            REFLECT_LIMIT as int,
        );
    }
    Vector { x: vec.x - twice * norm.x, y: vec.y - twice * norm.y }
}

/// The opposite of the reflected vector.
pub fn mirror_vector(vec: Vector, norm: Vector) -> (r: Vector)
    requires
        vec@.within(REFLECT_LIMIT as int),
        norm@.within(REFLECT_LIMIT as int),
    ensures
        r@ == mirrored(vec@, norm@),
{
    let reflected = reflect_vector(vec, norm);
    Vector { x: -reflected.x, y: -reflected.y }
}

/// Converts a point of the screen to a point of the world.
///
/// `screen` is counted from a corner of the window, whose size is `window`;
/// the camera looks at the middle of the window.
pub fn screen_to_world(screen: Vector, window: Vector, camera: &Transform) -> (world: Vector)
    requires
        screen@.minus(window@.halved()).within(LOCAL_LIMIT as int),
        camera@.wf(),
    ensures
        world@ == screen_point(screen@, window@, camera@),
        world@.within(WORLD_LIMIT as int),
{
    let pos = screen.minus(window.halved());
    camera.apply(pos)
}

/// **At a unit normal the reflection reverses the part along the normal and
/// keeps the part across it.**
///
/// Where `norm` has length one, the reflected vector has the opposite scalar
/// product with `norm` and the same one with the normal's quarter turn;
/// reflecting twice gives the vector back, and mirroring the reflected vector
/// gives its opposite.
pub proof fn reflection_at_unit_normal(vec: Point, norm: Point)
    requires
        norm.norm_sq() == 1,
    ensures
        reflected(vec, norm).dot(norm) == -vec.dot(norm),
        reflected(vec, norm).dot(norm.perp()) == vec.dot(norm.perp()),
        reflected(reflected(vec, norm), norm) == vec,
        mirrored(reflected(vec, norm), norm) == vec.neg(),
{
    let (nx, ny) = (norm.x, norm.y);
    assert((nx == 0 && (ny == 1 || ny == -1)) || (ny == 0 && (nx == 1 || nx == -1)))
        by (nonlinear_arith)
        requires
            nx * nx + ny * ny == 1,
    ;
    let along = vec.dot(norm);
    let back = reflected(vec, norm);
    assert(back.x == vec.x - 2 * along * nx && back.y == vec.y - 2 * along * ny)
        by (nonlinear_arith)
        requires
            back.x == vec.x - (2 * along) * nx,
            back.y == vec.y - (2 * along) * ny,
    ;
    if nx == 0 {
        assert(along == vec.y * ny && back.x == vec.x && back.y == -vec.y) by (nonlinear_arith)
            requires
                nx == 0,
                ny == 1 || ny == -1,
                along == vec.x * nx + vec.y * ny,
                back.x == vec.x - 2 * along * nx,
                back.y == vec.y - 2 * along * ny,
        ;
        assert(back.dot(norm) == -along && back.dot(norm.perp()) == vec.dot(norm.perp()))
            by (nonlinear_arith)
            requires
                nx == 0,
                ny == 1 || ny == -1,
                along == vec.y * ny,
                back.x == vec.x,
                back.y == -vec.y,
                back.dot(norm) == back.x * nx + back.y * ny,
                back.dot(norm.perp()) == back.x * (-ny) + back.y * nx,
                vec.dot(norm.perp()) == vec.x * (-ny) + vec.y * nx,
        ;
    } else {
        assert(along == vec.x * nx && back.x == -vec.x && back.y == vec.y) by (nonlinear_arith)
            requires
                ny == 0,
                nx == 1 || nx == -1,
                along == vec.x * nx + vec.y * ny,
                back.x == vec.x - 2 * along * nx,
                back.y == vec.y - 2 * along * ny,
        ;
        assert(back.dot(norm) == -along && back.dot(norm.perp()) == vec.dot(norm.perp()))
            by (nonlinear_arith)
            requires
                ny == 0,
                nx == 1 || nx == -1,
                along == vec.x * nx,
                back.x == -vec.x,
                back.y == vec.y,
                back.dot(norm) == back.x * nx + back.y * ny,
                back.dot(norm.perp()) == back.x * (-ny) + back.y * nx,
                vec.dot(norm.perp()) == vec.x * (-ny) + vec.y * nx,
        ;
    }
    let twice = reflected(back, norm);
    assert(twice.x == vec.x && twice.y == vec.y) by (nonlinear_arith)
        requires
            twice.x == back.x - (2 * back.dot(norm)) * nx,
            twice.y == back.y - (2 * back.dot(norm)) * ny,
            back.dot(norm) == -along,
            back.x == vec.x - 2 * along * nx,
            back.y == vec.y - 2 * along * ny,
    ;
}

} // verus!
