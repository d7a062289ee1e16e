use convex_sat::transform::{Transform, ONE};
use convex_sat::util::{mirror_vector, reflect_vector, screen_to_world};
use convex_sat::vector::Vector;

#[test]
fn reflect() {
    let input = Vector::new(1, -1);
    let norm = Vector::new(0, 1);
    let expected = Vector::new(1, 1);

    let result = reflect_vector(input, norm);

    assert_eq!(expected, result, "reflect on y-axis")
}

#[test]
fn mirror_1() {
    let input = Vector::new(-1, 1);
    let norm = Vector::new(0, 1);
    let expected = Vector::new(1, 1);

    let result = mirror_vector(input, norm);

    assert_eq!(expected, result, "reflect on y-axis")
}

#[test]
fn mirror_2() {
    let input = Vector::new(-1, -1);
    let norm = Vector::new(0, -1);
    let expected = Vector::new(1, -1);

    let result = mirror_vector(input, norm);

    assert_eq!(expected, result, "reflect on y-axis")
}

#[test]
fn mirror_3() {
    let input = Vector::new(1, 1);
    let norm = Vector::new(1, 0);
    let expected = Vector::new(1, -1);

    let result = mirror_vector(input, norm);

    assert_eq!(expected, result, "reflect on y-axis")
}

#[test]
fn mirror_4() {
    let input = Vector::new(1, -1);
    let norm = Vector::new(1, 0);
    let expected = Vector::new(1, 1);

    let result = mirror_vector(input, norm);

    assert_eq!(expected, result, "reflect on y-axis")
}

#[test]
fn mirror_5() {
    let input = Vector::new(-1, 1);
    let norm = Vector::new(-1, 0);
    let expected = Vector::new(-1, -1);

    let result = mirror_vector(input, norm);

    assert_eq!(expected, result, "reflect on y-axis")
}

#[test]
fn reflect_follows_the_formula_for_any_normal() {
    // (3, 5) - 2 * (3 * 2 + 5 * 1) * (2, 1) = (3, 5) - 22 * (2, 1)
    assert_eq!(reflect_vector(Vector::new(3, 5), Vector::new(2, 1)), Vector::new(-41, -17));
    assert_eq!(mirror_vector(Vector::new(3, 5), Vector::new(2, 1)), Vector::new(41, 17));
}

#[test]
fn reflect_twice_at_a_unit_normal_gives_the_vector_back() {
    let v = Vector::new(17, -23);
    let n = Vector::new(0, -1);
    assert_eq!(reflect_vector(reflect_vector(v, n), n), v);
}

#[test]
fn reflect_at_the_limit() {
    let big: i64 = 1 << 20;
    assert_eq!(
        reflect_vector(Vector::new(big, big), Vector::new(big, big)),
        Vector::new(big - 4 * big * big * big, big - 4 * big * big * big)
    );
}

#[test]
fn screen_point_is_counted_from_the_middle_of_the_window() {
    let camera = Transform::default();
    assert_eq!(
        screen_to_world(Vector::new(0, 0), Vector::new(1280, 720), &camera),
        Vector::new(-640, -360)
    );
    assert_eq!(
        screen_to_world(Vector::new(640, 360), Vector::new(1280, 720), &camera),
        Vector::new(0, 0)
    );
    assert_eq!(
        screen_to_world(Vector::new(10, 10), Vector::new(7, 5), &camera),
        Vector::new(7, 8)
    );
}

#[test]
fn screen_point_goes_through_the_camera() {
    let camera = Transform {
        translation: Vector::new(100, -50),
        x_axis: Vector::new(0, ONE),
        y_axis: Vector::new(-ONE, 0),
    };
    // (700, 400) on a 1280 x 720 window is (60, 40) from the middle; turned
    // a quarter turn that is (-40, 60).
    assert_eq!(
        screen_to_world(Vector::new(700, 400), Vector::new(1280, 720), &camera),
        Vector::new(60, 10)
    );
}
