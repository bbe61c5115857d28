use tuple_math::scalar::Scalar;
use tuple_math::util::{build_color, build_point, build_tuple, build_vector, Tuple};

fn s(v: f32) -> Scalar {
    Scalar::from_bits(v.to_bits())
}

fn f(v: Scalar) -> f32 {
    f32::from_bits(v.to_bits())
}

fn floats(a: [Scalar; 4]) -> [f32; 4] {
    [f(a[0]), f(a[1]), f(a[2]), f(a[3])]
}

fn tuple(x: f32, y: f32, z: f32, w: f32) -> Tuple {
    Tuple { x: s(x), y: s(y), z: s(z), w: s(w) }
}

#[test]
fn util_build_point_creates_point() {
    assert_eq!(f(build_point(s(4.3), s(-4.2), s(3.1)).w), 1.0)
}

#[test]
fn util_build_point_creates_vector() {
    assert_eq!(
        floats(build_vector(s(4.3), s(-4.2), s(3.1)).to_array()),
        [4.3, -4.2, 3.1, 0.0]
    );
}

#[test]
fn util_tuple_with_w_one_is_a_point() {
    let a = build_tuple(s(4.3), s(-4.2), s(3.1), s(1.0));

    assert_eq!(f(a.x), 4.3);
    assert_eq!(f(a.y), -4.2);
    assert_eq!(f(a.z), 3.1);
    assert_eq!(f(a.w), 1.0);
    assert_eq!(a.is_point(), true);
    assert_eq!(a.is_vector(), false);
}

#[test]
fn util_tuple_with_w_zero_is_a_vector() {
    let a = build_tuple(s(4.3), s(-4.2), s(3.1), s(0.0));

    assert_eq!(f(a.x), 4.3);
    assert_eq!(f(a.w), 0.0);
    assert_eq!(a.is_point(), false);
    assert_eq!(a.is_vector(), true);
}

#[test]
fn util_tuples_are_equal() {
    let a = build_tuple(s(4.3), s(-4.2), s(3.1), s(0.0));
    let b = build_tuple(s(4.3), s(-4.2), s(3.1), s(0.0));

    assert_eq!(a == b, true)
}

#[test]
fn util_tuples_are_not_equal() {
    let a = build_tuple(s(4.3), s(-4.2), s(3.1), s(0.0));
    let b = build_tuple(s(4.3), s(-4.2001), s(3.1), s(0.0));

    assert_eq!(a == b, false)
}

#[test]
fn util_add_point_and_vector_makes_point() {
    let a = build_point(s(3.0), s(-2.0), s(5.0));
    let b = build_vector(s(-2.0), s(3.0), s(1.0));

    let res = a + b;

    assert_eq!(tuple(1.0, 1.0, 6.0, 1.0), res);
    assert_eq!(res.is_point(), true);
}

#[test]
fn util_add_vector_and_vector_makes_vector() {
    let a = build_vector(s(3.0), s(-2.0), s(5.0));
    let b = build_vector(s(2.0), s(3.0), s(1.0));

    let res = a + b;

    assert_eq!(tuple(5.0, 1.0, 6.0, 0.0), res);
    assert_eq!(res.is_vector(), true);
}

#[test]
fn util_substract_point_and_point_makes_vector() {
    let a = build_point(s(3.0), s(2.0), s(1.0));
    let b = build_point(s(5.0), s(6.0), s(7.0));

    let res = a - b;

    assert_eq!(tuple(-2.0, -4.0, -6.0, 0.0), res);
    assert_eq!(res.is_vector(), true);
}

#[test]
fn util_substract_vector_from_point_makes_point() {
    let a = build_point(s(3.0), s(2.0), s(1.0));
    let b = build_vector(s(5.0), s(6.0), s(7.0));

    let res = a - b;

    assert_eq!(tuple(-2.0, -4.0, -6.0, 1.0), res);
    assert_eq!(res.is_point(), true);
}

#[test]
fn util_substract_vector_from_vector() {
    let a = build_vector(s(3.0), s(2.0), s(1.0));
    let b = build_vector(s(5.0), s(6.0), s(7.0));

    let res = a - b;

    assert_eq!(tuple(-2.0, -4.0, -6.0, 0.0), res);
    assert_eq!(res.is_vector(), true);
}

#[test]
fn util_multiply_tuple_by_scalar() {
    let a = build_tuple(s(1.0), s(-2.0), s(3.0), s(-4.0));
    let b = s(2.0);

    let res = a * b;

    assert_eq!(tuple(2.0, -4.0, 6.0, -8.0), res);
}

#[test]
fn multiple_tuple_by_tuple() {
    // This applies to Colors.
    let c1 = build_color(s(1.0), s(0.2), s(0.4));
    let c2 = build_color(s(0.9), s(1.0), s(0.1));

    let res = c1 * c2;

    assert_eq!(tuple(0.9, 0.2, 0.04, 0.0), res);
}

#[test]
fn util_divide_tuple_by_scalar() {
    let a = build_tuple(s(6.0), s(-7.0), s(8.0), s(-9.0));
    let b = s(2.0);

    let res = a / b;

    assert_eq!(tuple(3.0, -3.5, 4.0, -4.5), res);
}

#[test]
fn util_negate_tuple() {
    let a = build_tuple(s(3.0), s(2.0), s(1.0), s(1.0));

    assert_eq!(tuple(-3.0, -2.0, -1.0, -1.0), -a);
}

#[test]
fn util_compute_vector_magnitud() {
    let v = build_vector(s(-1.0), s(-2.0), s(-3.0));

    let radicand = 14.0_f32;
    assert_eq!(f(v.magnitude()), radicand.sqrt())
}

#[test]
fn util_compute_unit_vector_magnitud() {
    let v1 = build_vector(s(1.0), s(0.0), s(0.0));
    let v2 = build_vector(s(0.0), s(1.0), s(0.0));
    let v3 = build_vector(s(0.0), s(0.0), s(1.0));

    assert_eq!(f(v1.magnitude()), 1.0);
    assert_eq!(f(v2.magnitude()), 1.0);
    assert_eq!(f(v3.magnitude()), 1.0);
}

#[test]
fn util_normalize_vectors() {
    let v = build_vector(s(4.0), s(0.0), s(0.0));
    let v2 = build_vector(s(1.0), s(2.0), s(3.0));

    let radicand = 14.0_f32;
    assert_eq!(v.normalize(), tuple(1.0, 0.0, 0.0, 0.0));
    assert_eq!(
        v2.normalize(),
        tuple(
            1.0 / radicand.sqrt(),
            2.0 / radicand.sqrt(),
            3.0 / radicand.sqrt(),
            0.0
        )
    )
}

#[test]
fn dot_product_two_vectors() {
    let v = build_vector(s(1.0), s(2.0), s(3.0));
    let v2 = build_vector(s(2.0), s(3.0), s(4.0));

    assert_eq!(f(v.dot(v2)), 20.0);
}

#[test]
fn cross_product_two_vectors() {
    let v = build_vector(s(1.0), s(2.0), s(3.0));
    let v2 = build_vector(s(2.0), s(3.0), s(4.0));

    assert_eq!(v.cross(v2), build_vector(s(-1.0), s(2.0), s(-1.0)));
    assert_eq!(v2.cross(v), build_vector(s(1.0), s(-2.0), s(1.0)));
}
