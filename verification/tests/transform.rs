use convex_sat::transform::{Transform, ONE};
use convex_sat::vector::Vector;

#[test]
fn default_is_the_identity() {
    let t = Transform::default();
    assert_eq!(t.translation, Vector::new(0, 0));
    assert_eq!(t.x_axis, Vector::new(ONE, 0));
    assert_eq!(t.y_axis, Vector::new(0, ONE));
    assert_eq!(t.apply(Vector::new(7, -9)), Vector::new(7, -9));
}

#[test]
fn translation_shifts() {
    let t = Transform::from_translation(Vector::new(20, -3));
    assert_eq!(t.apply(Vector::new(-5, 5)), Vector::new(15, 2));
}

#[test]
fn apply_rounds_to_the_nearest_grid_point() {
    let half = Transform {
        translation: Vector::new(0, 0),
        x_axis: Vector::new(ONE / 2, 0),
        y_axis: Vector::new(0, ONE / 4),
    };
    // Halves go up: 1.5 -> 2, -1.5 -> -1; quarters go to the nearest.
    assert_eq!(half.apply(Vector::new(3, 3)), Vector::new(2, 1));
    assert_eq!(half.apply(Vector::new(-3, -3)), Vector::new(-1, -1));
    assert_eq!(half.apply(Vector::new(5, 5)), Vector::new(3, 1));
    assert_eq!(half.apply(Vector::new(-5, -5)), Vector::new(-2, -1));
    assert_eq!(half.apply(Vector::new(2, 6)), Vector::new(1, 2));
    assert_eq!(half.apply(Vector::new(-2, -6)), Vector::new(-1, -1));
}

#[test]
fn apply_reaches_the_world_limit() {
    let t = Transform {
        translation: Vector::new(1 << 28, -(1 << 28)),
        x_axis: Vector::new(2 * ONE, -2 * ONE),
        y_axis: Vector::new(2 * ONE, -2 * ONE),
    };
    assert!(t.is_valid());
    assert_eq!(t.apply(Vector::new(1 << 26, 1 << 26)), Vector::new(1 << 29, -(1 << 29)));
}

#[test]
fn transform_validity_is_checked() {
    assert!(Transform::default().is_valid());
    assert!(Transform::from_translation(Vector::new(1 << 28, -(1 << 28))).is_valid());
    assert!(!Transform::from_translation(Vector::new((1 << 28) + 1, 0)).is_valid());
    let stretched = Transform {
        translation: Vector::new(0, 0),
        x_axis: Vector::new(2 * ONE + 1, 0),
        y_axis: Vector::new(0, ONE),
    };
    assert!(!stretched.is_valid());
}

#[test]
fn vector_operations() {
    let v = Vector::new(3, -4);
    let w = Vector::new(-1, 2);
    assert_eq!(v.plus(w), Vector::new(2, -2));
    assert_eq!(v.minus(w), Vector::new(4, -6));
    assert_eq!(v.neg(), Vector::new(-3, 4));
    assert_eq!(v.perp(), Vector::new(4, 3));
    assert_eq!(v.dot(w), -11);
    assert_eq!(Vector::new(7, -7).halved(), Vector::new(3, -3));
    assert!(v.is_within(4));
    assert!(!v.is_within(3));
    assert!(!Vector::new(0, 0).is_within(-1));
    assert_eq!(Vector::new(i64::MIN, i64::MAX).halved(), Vector::new(i64::MIN / 2, i64::MAX / 2));
    assert_eq!(Vector::new(i64::MAX, 1).dot(Vector::new(1, i64::MIN + 1)), 0);
}
