//! Affine placement of a shape in the world, in fixed-point arithmetic.

use vstd::prelude::*;
use crate::vector::{Point, Vector};

verus! {

/// The fixed-point value of the number one in the linear part of a
/// [`Transform`]: 2^16.
pub const ONE: i64 = 0x1_0000;

/// Half of [`ONE`], added before dividing so that the quotient is rounded to
/// the nearest integer.
pub const HALF: i64 = 0x8000;

/// The largest coordinate of a point in a shape's own frame: 2^26.
pub const LOCAL_LIMIT: i64 = 0x400_0000;

/// The largest entry of the linear part of a valid [`Transform`]: twice
/// [`ONE`].
pub const AXIS_LIMIT: i64 = 0x2_0000;

/// The largest coordinate of the translation of a valid [`Transform`]: 2^28.
pub const TRANSLATION_LIMIT: i64 = 0x1000_0000;

/// The largest coordinate of a point in the world: 2^29.
///
/// A valid transform takes every point within [`LOCAL_LIMIT`] to a point
/// within this limit.
pub const WORLD_LIMIT: i64 = 0x2000_0000;

/// `v / ONE`, rounded to the nearest integer, halves upwards.
pub open spec fn round_unit(v: int) -> int {
    (v + HALF as int) / (ONE as int)
}

/// The mathematical model of a [`Transform`]: the affine map
/// `p -> translation + round((p.x * x_axis + p.y * y_axis) / ONE)`.
pub struct AffineMap {
    pub translation: Point,
    pub x_axis: Point,
    pub y_axis: Point,
}

impl AffineMap {
    /// The image of the local point `p`.
    pub open spec fn apply(self, p: Point) -> Point {
        Point {
            x: self.translation.x + round_unit(p.x * self.x_axis.x + p.y * self.y_axis.x),
            y: self.translation.y + round_unit(p.x * self.x_axis.y + p.y * self.y_axis.y),
        }
    }

    /// The images of the local points `ps`, in their order.
    pub open spec fn apply_all(self, ps: Seq<Point>) -> Seq<Point> {
        Seq::new(ps.len(), |i: int| self.apply(ps[i]))
    }

    /// The same map followed by a shift by `by`.
    pub open spec fn translated(self, by: Point) -> AffineMap {
        AffineMap { translation: self.translation.plus(by), ..self }
    }

    /// The entries are small enough for the image of every point within
    /// [`LOCAL_LIMIT`] to lie within [`WORLD_LIMIT`].
    pub open spec fn wf(self) -> bool {
        &&& self.translation.within(TRANSLATION_LIMIT as int)
        &&& self.x_axis.within(AXIS_LIMIT as int)
        &&& self.y_axis.within(AXIS_LIMIT as int)
    }
}

/// Where a shape stands in the world: a linear part, given by the images of
/// the two unit vectors in fixed-point units of [`ONE`], and a translation in
/// grid units.
#[derive(Clone, Copy, Debug, PartialEq, Eq, Structural)]
pub struct Transform {
    pub translation: Vector,
    pub x_axis: Vector,
    pub y_axis: Vector,
}

impl View for Transform {
    type V = AffineMap;

    open spec fn view(&self) -> AffineMap {
        AffineMap { translation: self.translation@, x_axis: self.x_axis@, y_axis: self.y_axis@ }
    }
}

impl Default for Transform {
    /// The identity.
    fn default() -> (t: Transform)
        ensures
            t@ == identity(),
    {
        Transform {
            translation: Vector { x: 0, y: 0 },
            x_axis: Vector { x: ONE, y: 0 },
            y_axis: Vector { x: 0, y: ONE },
        }
    }
}

/// The map that leaves every point where it is.
pub open spec fn identity() -> AffineMap {
    AffineMap {
        translation: Point { x: 0, y: 0 },
        x_axis: Point { x: ONE as int, y: 0 },
        y_axis: Point { x: 0, y: ONE as int },
    }
}

impl Transform {
    /// The shift by `translation`, with no rotation and no scaling.
    pub fn from_translation(translation: Vector) -> (t: Transform)
        ensures
            t@ == identity().translated(translation@),
    {
        Transform {
            translation,
            x_axis: Vector { x: ONE, y: 0 },
            y_axis: Vector { x: 0, y: ONE },
        }
    }

    /// Tells whether the transform is valid, which [`Transform::apply`] and
    /// the collision query require.
    pub fn is_valid(&self) -> (r: bool)
        ensures
            r == self@.wf(),
    {
        self.translation.is_within(TRANSLATION_LIMIT) && self.x_axis.is_within(AXIS_LIMIT)
            && self.y_axis.is_within(AXIS_LIMIT)
    }

    /// Maps the local point `p` to its place in the world.
    pub fn apply(&self, p: Vector) -> (w: Vector)
        requires
            self@.wf(),
            p@.within(LOCAL_LIMIT as int),
        ensures
            w@ == self@.apply(p@),
            w@.within(WORLD_LIMIT as int),
    {
        proof {
            lemma_linear_bound(p.x as int, self.x_axis.x as int);
            lemma_linear_bound(p.y as int, self.y_axis.x as int);
            lemma_linear_bound(p.x as int, self.x_axis.y as int);
            lemma_linear_bound(p.y as int, self.y_axis.y as int);
        }
        let x: i64 = self.translation.x + rounded(p.x * self.x_axis.x + p.y * self.y_axis.x);
        let y: i64 = self.translation.y + rounded(p.x * self.x_axis.y + p.y * self.y_axis.y);
        Vector { x, y }
    }
}

/// Divides by [`ONE`] and rounds to the nearest integer, halves upwards.
fn rounded(v: i64) -> (r: i64)
    requires
        -0x1000_0000_0000 <= v <= 0x1000_0000_0000,
    ensures
        r == round_unit(v as int),
        -0x1000_0000 <= r <= 0x1000_0000,
{
    let shifted: i64 = v + HALF;
    if shifted >= 0 {
        shifted / ONE
    } else {
        -((ONE - 1 - shifted) / ONE)
    }
}

/// The product of a local coordinate and an entry of a valid linear part.
proof fn lemma_linear_bound(c: int, e: int)
    by (nonlinear_arith)
    requires
        -LOCAL_LIMIT <= c <= LOCAL_LIMIT,
        -AXIS_LIMIT <= e <= AXIS_LIMIT,
    ensures
        -0x800_0000_0000 <= c * e <= 0x800_0000_0000,
{
}

} // verus!
