use convex_sat::collider::{
    are_colliding, correction, edges_between, get_overlaps, points_to_world, projection_bounds,
    Collider,
};
use convex_sat::transform::{Transform, ONE};
use convex_sat::vector::Vector;

fn square(side: i64) -> Collider {
    Collider::rectangle(Vector::new(side, side))
}

fn at(x: i64, y: i64) -> Transform {
    Transform::from_translation(Vector::new(x, y))
}

#[test]
fn not_colliding() {
    let a = Collider::rectangle(Vector::new(10, 10));
    let b = Collider::rectangle(Vector::new(10, 10));
    let ta = Transform::default();
    let tb = Transform::from_translation(Vector::new(20, 20));

    assert!(
        are_colliding((&a, &ta), (&b, &tb)).is_none(),
        "Colliders are not colliding"
    )
}

#[test]
fn colliding() {
    let a = Collider::rectangle(Vector::new(10, 10));
    let b = Collider::rectangle(Vector::new(10, 10));
    let ta = Transform::default();
    let tb = Transform::from_translation(Vector::new(5, 5));

    assert!(
        are_colliding((&a, &ta), (&b, &tb)).is_some(),
        "Colliders are colliding"
    )
}

#[test]
fn correct_collision() {
    let a = Collider::rectangle(Vector::new(10, 10));
    let b = Collider::rectangle(Vector::new(10, 10));
    let ta = Transform::default();
    let mut tb = Transform::from_translation(Vector::new(5, 5));

    let (dir, mag) = are_colliding((&a, &ta), (&b, &tb)).unwrap();

    tb.translation = tb.translation.plus(correction(dir, mag));

    assert!(
        are_colliding((&a, &ta), (&b, &tb)).is_none(),
        "Corrected the collision"
    )
}

#[test]
fn colliding_squares_report_the_first_shallowest_axis() {
    let (axis, overlap) = are_colliding((&square(10), &at(0, 0)), (&square(10), &at(5, 5))).unwrap();
    // The first edge runs down the left side; its normal points right and is
    // ten units long, so an overlap of 50 is a depth of 5.
    assert_eq!(axis, Vector::new(10, 0));
    assert_eq!(overlap, 50);
    let depth = overlap as f64 / ((axis.x * axis.x + axis.y * axis.y) as f64).sqrt();
    assert!((depth - 5.0).abs() < 1e-4);
    assert_eq!(correction(axis, overlap), Vector::new(5, 0));
}

#[test]
fn depth_is_compared_not_raw_overlap() {
    // 10 wide, 40 high. Along x the shapes overlap by 3, seen along normals
    // of length 40 (raw 120); along y by 10, seen along normals of length 10
    // (raw 100). The shallower one is along x.
    let a = Collider::rectangle(Vector::new(10, 40));
    let b = Collider::rectangle(Vector::new(10, 40));
    let (axis, overlap) = are_colliding((&a, &at(0, 0)), (&b, &at(7, 30))).unwrap();
    assert_eq!(axis, Vector::new(40, 0));
    assert_eq!(overlap, 120);
    // The least of the four reaches, 3, 10, 17 and 70, squared, times the
    // squared length of the axis.
    assert_eq!(overlap * overlap, 3 * 3 * (axis.x * axis.x + axis.y * axis.y));
    assert_eq!(correction(axis, overlap), Vector::new(3, 0));
}

#[test]
fn tie_goes_to_the_first_axis() {
    // Same depth along x and y: the axis of the first edge wins.
    let (axis, _) = are_colliding((&square(10), &at(0, 0)), (&square(10), &at(3, 3))).unwrap();
    assert_eq!(axis, Vector::new(10, 0));
    // Same depth along y only for a later axis.
    let (axis, overlap) =
        are_colliding((&square(10), &at(0, 0)), (&square(10), &at(0, 7))).unwrap();
    assert_eq!(axis, Vector::new(0, 10));
    assert_eq!(overlap, 30);
}

#[test]
fn touching_squares_do_not_collide() {
    assert!(are_colliding((&square(10), &at(0, 0)), (&square(10), &at(10, 0))).is_none());
    assert!(are_colliding((&square(10), &at(0, 0)), (&square(10), &at(-10, 3))).is_none());
    assert!(are_colliding((&square(10), &at(0, 0)), (&square(10), &at(9, 0))).is_some());
}

#[test]
fn separation_along_one_axis_is_enough() {
    // Overlapping along y, apart along x.
    assert!(are_colliding((&square(10), &at(0, 0)), (&square(10), &at(11, 2))).is_none());
    // Overlapping along x, apart along y.
    assert!(are_colliding((&square(10), &at(0, 0)), (&square(10), &at(2, -11))).is_none());
}

#[test]
fn triangle_is_separated_by_its_slanted_side() {
    // The boxes around the two shapes overlap, the shapes do not.
    let a = Collider::_triangle(Vector::new(0, 0), Vector::new(10, 0), Vector::new(0, 10));
    let b = square(4);
    assert!(are_colliding((&a, &at(0, 0)), (&b, &at(8, 8))).is_none());
    assert!(are_colliding((&a, &at(0, 0)), (&b, &at(4, 4))).is_some());
}

#[test]
fn correction_parts_a_slanted_contact() {
    let a = Collider::_triangle(Vector::new(0, 0), Vector::new(10, 0), Vector::new(0, 10));
    let b = square(4);
    let ta = at(0, 0);
    let mut tb = at(5, 5);
    let (axis, overlap) = are_colliding((&a, &ta), (&b, &tb)).unwrap();
    let by = correction(axis, overlap);
    assert!(axis.x * by.x + axis.y * by.y >= overlap);
    tb.translation = tb.translation.plus(by);
    assert!(are_colliding((&a, &ta), (&b, &tb)).is_none());
}

#[test]
fn correction_rounds_away_from_zero() {
    // 7 / 5 of (3, -4) / 5 is (0.84, -1.12).
    assert_eq!(correction(Vector::new(3, -4), 7), Vector::new(1, -2));
    assert_eq!(correction(Vector::new(-3, 4), 7), Vector::new(-1, 2));
    assert_eq!(correction(Vector::new(0, 2), 6), Vector::new(0, 3));
}

#[test]
fn correction_is_zero_without_overlap() {
    assert_eq!(correction(Vector::new(3, -4), 0), Vector::new(0, 0));
    assert_eq!(correction(Vector::new(3, -4), -5), Vector::new(0, 0));
    assert_eq!(correction(Vector::new(0, 0), 5), Vector::new(0, 0));
}

#[test]
fn rectangle_has_its_corners_counter_clockwise() {
    let c = Collider::rectangle(Vector::new(10, 10));
    assert_eq!(
        c.0,
        vec![Vector::new(-5, -5), Vector::new(5, -5), Vector::new(5, 5), Vector::new(-5, 5)]
    );
    let c = Collider::rectangle(Vector::new(60, 433));
    assert_eq!(
        c.0,
        vec![Vector::new(-30, -216), Vector::new(30, -216), Vector::new(30, 217), Vector::new(-30, 217)]
    );
}

#[test]
fn triangle_keeps_its_corners() {
    let c = Collider::_triangle(Vector::new(1, 2), Vector::new(3, 4), Vector::new(5, 6));
    assert_eq!(c.0, vec![Vector::new(1, 2), Vector::new(3, 4), Vector::new(5, 6)]);
}

#[test]
fn edges_wrap_from_the_last_vertex_to_the_first() {
    let c = Collider::rectangle(Vector::new(10, 10));
    assert_eq!(
        edges_between(&c.0),
        vec![Vector::new(0, -10), Vector::new(10, 0), Vector::new(0, 10), Vector::new(-10, 0)]
    );
}

#[test]
fn edges_of_one_point_and_of_two() {
    assert_eq!(edges_between(&[Vector::new(3, 4)]), vec![Vector::new(0, 0)]);
    assert_eq!(
        edges_between(&[Vector::new(1, 1), Vector::new(4, 5)]),
        vec![Vector::new(-3, -4), Vector::new(3, 4)]
    );
}

#[test]
fn projection_bounds_are_least_and_greatest() {
    let points = [Vector::new(3, 1), Vector::new(-2, 7), Vector::new(0, -4), Vector::new(5, 5)];
    assert_eq!(projection_bounds(Vector::new(1, 0), &points), (-2, 5));
    assert_eq!(projection_bounds(Vector::new(0, 1), &points), (-4, 7));
    assert_eq!(projection_bounds(Vector::new(2, -1), &points), (-11, 5));
    assert_eq!(projection_bounds(Vector::new(1, 0), &[Vector::new(9, 9)]), (9, 9));
}

#[test]
fn projection_bounds_of_nothing() {
    assert_eq!(projection_bounds(Vector::new(1, 0), &[]), (0, 0));
}

#[test]
fn overlaps_follow_the_edges() {
    let a = points_to_world(&square(10).0, &at(0, 0));
    let b = points_to_world(&square(10).0, &at(5, 5));
    let overlaps = get_overlaps(edges_between(&a), &a, &b);
    assert_eq!(
        overlaps,
        vec![
            (Vector::new(10, 0), 50),
            (Vector::new(0, 10), 50),
            (Vector::new(-10, 0), 150),
            (Vector::new(0, -10), 150),
        ]
    );
}

#[test]
fn overlap_is_negative_by_the_gap() {
    let a = points_to_world(&square(10).0, &at(0, 0));
    let b = points_to_world(&square(10).0, &at(20, 0));
    let overlaps = get_overlaps(vec![Vector::new(0, -1), Vector::new(0, 1)], &a, &b);
    // The normals are (1, 0) and (-1, 0); the gap is 10.
    assert_eq!(overlaps, vec![(Vector::new(1, 0), -10), (Vector::new(-1, 0), -10)]);
}

#[test]
fn polygon_with_a_doubled_vertex_never_collides() {
    let a = Collider(vec![
        Vector::new(-5, -5),
        Vector::new(5, -5),
        Vector::new(5, -5),
        Vector::new(5, 5),
        Vector::new(-5, 5),
    ]);
    assert!(are_colliding((&a, &at(0, 0)), (&square(10), &at(5, 5))).is_none());
}

#[test]
fn single_points_do_not_collide() {
    let a = Collider(vec![Vector::new(0, 0)]);
    let b = Collider(vec![Vector::new(0, 0)]);
    assert!(are_colliding((&a, &at(0, 0)), (&b, &at(0, 0))).is_none());
}

#[test]
fn points_are_placed_in_order() {
    let c = Collider::_triangle(Vector::new(1, 0), Vector::new(0, 2), Vector::new(-3, -4));
    assert_eq!(
        points_to_world(&c.0, &at(10, 20)),
        vec![Vector::new(11, 20), Vector::new(10, 22), Vector::new(7, 16)]
    );
    let quarter_turn =
        Transform { translation: Vector::new(1, 1), x_axis: Vector::new(0, ONE), y_axis: Vector::new(-ONE, 0) };
    assert_eq!(
        points_to_world(&c.0, &quarter_turn),
        vec![Vector::new(1, 2), Vector::new(-1, 1), Vector::new(5, -2)]
    );
}

#[test]
fn turned_square_collides_by_its_diagonal() {
    // A square of side 10 turned by an eighth of a turn, as nearly as the
    // fixed-point entries allow: its corners lie about 7.07 from the centre.
    let eighth = Transform {
        translation: Vector::new(11, 0),
        x_axis: Vector::new(46341, 46341),
        y_axis: Vector::new(-46341, 46341),
    };
    let b = square(10);
    assert_eq!(
        points_to_world(&b.0, &eighth),
        vec![Vector::new(11, -7), Vector::new(18, 0), Vector::new(11, 7), Vector::new(4, 0)]
    );
    // The corner at x = 4 reaches into the square whose side is at x = 5.
    let (axis, overlap) = are_colliding((&square(10), &at(0, 0)), (&b, &eighth)).unwrap();
    assert_eq!((axis, overlap), (Vector::new(10, 0), 10));
    assert!(are_colliding((&square(10), &at(0, 0)), (&b, &at(11, 0))).is_none());
}

#[test]
fn collider_validity_is_checked() {
    assert!(square(10).is_valid());
    assert!(Collider::default().is_valid());
    assert!(Collider(vec![Vector::new(1 << 26, -(1 << 26))]).is_valid());
    assert!(!Collider(vec![Vector::new(0, 0), Vector::new((1 << 26) + 1, 0)]).is_valid());
    assert!(!Collider(vec![Vector::new(0, -(1 << 26) - 1)]).is_valid());
}

fn diamond(reach: i64) -> Collider {
    Collider(vec![
        Vector::new(0, -reach),
        Vector::new(reach, 0),
        Vector::new(0, reach),
        Vector::new(-reach, 0),
    ])
}

#[test]
fn shapes_apart_along_a_diagonal_only_do_not_collide() {
    // Along x and along y the square and the diamond overlap; along (1, 1)
    // the square ends at 10 and the diamond begins at 2 * 9 - 7 = 11.
    assert!(are_colliding((&square(10), &at(0, 0)), (&diamond(7), &at(9, 9))).is_none());
    assert!(are_colliding((&diamond(7), &at(9, 9)), (&square(10), &at(0, 0))).is_none());
    // One step closer they touch along (1, 1), and one more they overlap.
    assert!(are_colliding((&square(10), &at(0, 0)), (&diamond(7), &at(9, 8))).is_none());
    let (axis, overlap) =
        are_colliding((&square(10), &at(0, 0)), (&diamond(7), &at(8, 8))).unwrap();
    // The diamond's first edge runs down to the right; its normal (7, 7)
    // points from the square to the diamond.
    assert_eq!((axis, overlap), (Vector::new(7, 7), 7));
    assert_eq!(correction(axis, overlap), Vector::new(1, 1));
}

#[test]
fn clockwise_polygons_are_told_apart_as_well() {
    let clockwise = Collider(vec![
        Vector::new(-5, 5),
        Vector::new(5, 5),
        Vector::new(5, -5),
        Vector::new(-5, -5),
    ]);
    let turned = Collider(vec![
        Vector::new(-7, 0),
        Vector::new(0, 7),
        Vector::new(7, 0),
        Vector::new(0, -7),
    ]);
    assert!(are_colliding((&clockwise, &at(0, 0)), (&turned, &at(9, 9))).is_none());
    assert!(are_colliding((&clockwise, &at(0, 0)), (&diamond(7), &at(-9, 9))).is_none());
    assert!(are_colliding((&square(10), &at(0, 0)), (&turned, &at(9, -9))).is_none());
    assert!(are_colliding((&clockwise, &at(0, 0)), (&turned, &at(8, 8))).is_some());
}

#[test]
fn overlap_along_an_axis_changes_by_the_offset() {
    let a = points_to_world(&square(10).0, &at(0, 0));
    let touching = points_to_world(&square(10).0, &at(10, 0));
    let pushed = points_to_world(&square(10).0, &at(7, 4));
    let axis = vec![Vector::new(0, -1)];
    // The normal is (1, 0); the second square is pushed in by 3 along it.
    assert_eq!(get_overlaps(axis.clone(), &a, &touching), vec![(Vector::new(1, 0), 0)]);
    assert_eq!(get_overlaps(axis, &a, &pushed), vec![(Vector::new(1, 0), 3)]);
}

#[test]
fn moving_the_first_shape_back_parts_them_too() {
    let a = Collider::_triangle(Vector::new(0, 0), Vector::new(10, 0), Vector::new(0, 10));
    let b = square(4);
    let mut ta = at(0, 0);
    let tb = at(5, 5);
    let (axis, overlap) = are_colliding((&a, &ta), (&b, &tb)).unwrap();
    ta.translation = ta.translation.minus(correction(axis, overlap));
    assert!(are_colliding((&a, &ta), (&b, &tb)).is_none());
}

#[test]
fn no_axis_shows_a_shallower_penetration_than_the_answer() {
    let a = Collider::_triangle(Vector::new(0, 0), Vector::new(30, 0), Vector::new(0, 10));
    let b = Collider::rectangle(Vector::new(8, 6));
    let (ta, tb) = (at(0, 0), at(6, 4));
    let (axis, overlap) = are_colliding((&a, &ta), (&b, &tb)).unwrap();
    let world_a = points_to_world(&a.0, &ta);
    let world_b = points_to_world(&b.0, &tb);
    let mut all = get_overlaps(edges_between(&world_a), &world_a, &world_b);
    all.extend(get_overlaps(edges_between(&world_b), &world_a, &world_b));
    assert_eq!(all.len(), 7);
    assert!(all.contains(&(axis, overlap)));
    let square_of = |v: Vector| (v.x * v.x + v.y * v.y) as i128;
    for (other, other_overlap) in all {
        assert!(other_overlap > 0);
        let answered = (overlap as i128) * (overlap as i128) * square_of(other);
        let seen = (other_overlap as i128) * (other_overlap as i128) * square_of(axis);
        assert!(answered <= seen);
    }
}

#[test]
fn large_shapes_are_compared_exactly() {
    // Along x the rectangles reach 10 000 000 into each other, along y one
    // unit less. The overlap along y is the greater number, being counted in
    // units of a longer normal, and the products that decide between the two
    // are beyond 2^128.
    let a = Collider::rectangle(Vector::new(60_000_000, 40_000_000));
    let b = Collider::rectangle(Vector::new(60_000_000, 40_000_000));
    let (axis, overlap) =
        are_colliding((&a, &at(0, 0)), (&b, &at(50_000_000, 30_000_001))).unwrap();
    assert_eq!(axis, Vector::new(0, 60_000_000));
    assert_eq!(overlap, 60_000_000 * 9_999_999);
    assert_eq!(correction(axis, overlap), Vector::new(0, 9_999_999));
    // One unit the other way and the answer lies along x.
    let (axis, overlap) =
        are_colliding((&a, &at(0, 0)), (&b, &at(50_000_001, 30_000_000))).unwrap();
    assert_eq!(axis, Vector::new(40_000_000, 0));
    assert_eq!(overlap, 40_000_000 * 9_999_999);
    // Equal reaches: the first axis wins.
    let (axis, _) = are_colliding((&a, &at(0, 0)), (&b, &at(50_000_000, 30_000_000))).unwrap();
    assert_eq!(axis, Vector::new(40_000_000, 0));
}

#[test]
fn shapes_at_the_edge_of_the_world_collide() {
    let limit: i64 = 1 << 26;
    let far: i64 = 1 << 28;
    let a = Collider::rectangle(Vector::new(limit, limit));
    let b = Collider::rectangle(Vector::new(limit, limit));
    assert!(a.is_valid() && at(far, -far).is_valid());
    let (axis, overlap) = are_colliding((&a, &at(far, -far)), (&b, &at(far - 1, -far))).unwrap();
    // The second square lies one unit to the left: seen along its left side
    // they overlap by all but one unit, seen along its right side by one more
    // than the side; the first axis that shows the lesser is the third.
    assert_eq!(axis, Vector::new(-limit, 0));
    assert_eq!(overlap, limit * (limit - 1));
    assert_eq!(correction(axis, overlap), Vector::new(1 - limit, 0));
    assert!(are_colliding((&a, &at(far, -far)), (&b, &at(far - limit, -far))).is_none());
}

#[test]
fn vertices_on_a_straight_side_change_nothing() {
    // The square of side 10 with one more vertex in the middle of each side.
    let a = Collider(vec![
        Vector::new(-5, -5),
        Vector::new(0, -5),
        Vector::new(5, -5),
        Vector::new(5, 0),
        Vector::new(5, 5),
        Vector::new(0, 5),
        Vector::new(-5, 5),
        Vector::new(-5, 0),
    ]);
    assert!(are_colliding((&a, &at(0, 0)), (&diamond(7), &at(9, 9))).is_none());
    assert!(are_colliding((&a, &at(0, 0)), (&square(10), &at(10, 3))).is_none());
    let (axis, overlap) = are_colliding((&a, &at(0, 0)), (&square(10), &at(5, 5))).unwrap();
    // The sides are halved, and so are their normals.
    assert_eq!((axis, overlap), (Vector::new(5, 0), 25));
    assert_eq!(correction(axis, overlap), Vector::new(5, 0));
}
