use tuple_math::projectile::{fly, tick, Environment, Projectile};
use tuple_math::scalar::Scalar;
use tuple_math::util::{build_color, build_point, build_tuple, build_vector, Tuple};

fn num(v: f32) -> Scalar {
    Scalar::from_bits(v.to_bits())
}

fn val(v: Scalar) -> f32 {
    f32::from_bits(v.to_bits())
}

fn tup(x: f32, y: f32, z: f32, w: f32) -> Tuple {
    build_tuple(num(x), num(y), num(z), num(w))
}

fn arr(t: Tuple) -> [f32; 4] {
    [val(t.x), val(t.y), val(t.z), val(t.w)]
}

// Bit patterns, with any NaN brought to one pattern.
fn pats(a: [f32; 4]) -> [u32; 4] {
    let p = |v: f32| if v.is_nan() { 0x7FC0_0000 } else { v.to_bits() };
    [p(a[0]), p(a[1]), p(a[2]), p(a[3])]
}

fn close(a: f32, b: f32) -> bool {
    (a - b).abs() < 0.00001
}

fn sample_tuples() -> Vec<[f32; 4]> {
    let mut v: Vec<[f32; 4]> = vec![
        [0.0, 0.0, 0.0, 0.0],
        [1.0, 2.0, 3.0, 0.0],
        [2.0, 3.0, 4.0, 0.0],
        [3.0, -2.0, 5.0, 1.0],
        [-0.0, 0.5, -0.25, 1.0],
        [4.3, -4.2, 3.1, 0.0],
        [1.0e-3, 2.5e7, -3.0e-9, 0.0],
        [1.0e30, 1.0e30, 0.0, 0.0],
        [1.0e-30, -1.0e-30, 1.0e-38, 1.0],
        [f32::MAX, f32::MIN_POSITIVE, 1.0e-45, 0.0],
        [f32::INFINITY, 1.0, -1.0, 0.0],
        [f32::NAN, 1.0, 2.0, 1.0],
        [0.1, 0.2, 0.3, 2.0],
    ];
    let mut x: u32 = 0xC0FF_EE11;
    let mut i = 0;
    while i < 40 {
        let mut c = [0.0f32; 4];
        for j in 0..4 {
            x = x.wrapping_mul(1664525).wrapping_add(1013904223);
            // numbers between about 1e-5 and 1e5, of either sign
            c[j] = f32::from_bits((x & 0x8FFF_FFFF) | 0x3780_0000 + ((x >> 28) & 7) * 0x0200_0000);
        }
        v.push(c);
        i += 1;
    }
    v
}

#[test]
fn constructed_points_are_points_and_vectors_are_vectors() {
    for c in sample_tuples() {
        let p = build_point(num(c[0]), num(c[1]), num(c[2]));
        let v = build_vector(num(c[0]), num(c[1]), num(c[2]));
        let col = build_color(num(c[0]), num(c[1]), num(c[2]));
        assert!(p.is_point() && !p.is_vector());
        assert!(v.is_vector() && !v.is_point());
        assert!(col.is_vector() && !col.is_point());
        assert_eq!(pats(arr(p)), pats([c[0], c[1], c[2], 1.0]));
        assert_eq!(pats(arr(v)), pats([c[0], c[1], c[2], 0.0]));
        assert_eq!(pats(arr(col)), pats([c[0], c[1], c[2], 0.0]));
    }
}

#[test]
fn classification_goes_by_w_alone() {
    assert!(tup(1.0, 2.0, 3.0, -0.0).is_vector());
    assert!(!tup(1.0, 2.0, 3.0, -0.0).is_point());
    assert!(!tup(1.0, 2.0, 3.0, 2.0).is_point());
    assert!(!tup(1.0, 2.0, 3.0, 2.0).is_vector());
    assert!(!tup(1.0, 2.0, 3.0, f32::NAN).is_point());
    assert!(!tup(1.0, 2.0, 3.0, f32::NAN).is_vector());
    assert!(!tup(1.0, 2.0, 3.0, 1.0000001).is_point());
    assert!(!tup(1.0, 2.0, 3.0, 1.0e-45).is_vector());
    assert!(!tup(1.0, 2.0, 3.0, -1.0).is_point());
    assert!(tup(f32::NAN, f32::INFINITY, 3.0, 1.0).is_point());
}

#[test]
fn to_array_keeps_the_order() {
    let a = tup(1.5, -2.5, 3.5, 1.0).to_array();
    assert_eq!([val(a[0]), val(a[1]), val(a[2]), val(a[3])], [1.5, -2.5, 3.5, 1.0]);
}

#[test]
fn equality_is_the_tolerance_on_every_component() {
    let v = sample_tuples();
    for a in &v {
        for b in &v {
            let expect = close(a[0], b[0]) && close(a[1], b[1]) && close(a[2], b[2]) && close(a[3], b[3]);
            let (ta, tb) = (tup(a[0], a[1], a[2], a[3]), tup(b[0], b[1], b[2], b[3]));
            assert_eq!(ta == tb, expect, "{:?} == {:?}", a, b);
            assert_eq!(ta == tb, tb == ta);
            assert_eq!(ta != tb, !expect);
        }
    }
}

#[test]
fn equality_at_the_edge_of_the_tolerance() {
    let base = tup(1.0, 2.0, 3.0, 0.0);
    // 0.000009 is inside the tolerance, 0.000011 outside, in any one component
    assert!(base == tup(1.000009, 2.0, 3.0, 0.0));
    assert!(base != tup(1.000011, 2.0, 3.0, 0.0));
    assert!(base == tup(1.0, 2.0, 3.0, 0.000009));
    assert!(base != tup(1.0, 2.0, 3.0, 0.000011));
    assert!(base != tup(1.0, 2.0, 2.99998, 0.0));
    // the difference must be below the tolerance, not at it
    let eps = 0.00001f32;
    assert!(tup(0.0, 0.0, 0.0, 0.0) != tup(eps, 0.0, 0.0, 0.0));
    assert!(tup(0.0, 0.0, 0.0, 0.0) == tup(f32::from_bits(eps.to_bits() - 1), 0.0, 0.0, 0.0));
    // the two zeros are equal
    assert!(tup(0.0, 0.0, 0.0, 0.0) == tup(-0.0, -0.0, -0.0, -0.0));
}

#[test]
fn equality_is_reflexive_on_finite_tuples_only() {
    for c in sample_tuples() {
        let t = tup(c[0], c[1], c[2], c[3]);
        let finite = c.iter().all(|v| v.is_finite());
        assert_eq!(t == t, finite, "{:?}", c);
    }
}

#[test]
fn equality_is_not_transitive() {
    let a = tup(0.0, 0.0, 0.0, 0.0);
    let b = tup(0.000008, 0.0, 0.0, 0.0);
    let c = tup(0.000016, 0.0, 0.0, 0.0);
    assert!(a == b);
    assert!(b == c);
    assert!(a != c);
}

#[test]
fn operators_agree_with_the_machine() {
    let v = sample_tuples();
    for a in &v {
        let ta = tup(a[0], a[1], a[2], a[3]);
        assert_eq!(pats(arr(-ta)), pats([-a[0], -a[1], -a[2], -a[3]]));
        for b in &v {
            let tb = tup(b[0], b[1], b[2], b[3]);
            assert_eq!(pats(arr(ta + tb)), pats([a[0] + b[0], a[1] + b[1], a[2] + b[2], a[3] + b[3]]));
            assert_eq!(pats(arr(ta - tb)), pats([a[0] - b[0], a[1] - b[1], a[2] - b[2], a[3] - b[3]]));
            assert_eq!(pats(arr(ta * tb)), pats([a[0] * b[0], a[1] * b[1], a[2] * b[2], a[3] * b[3]]));
            let k = b[1];
            assert_eq!(pats(arr(ta * num(k))), pats([a[0] * k, a[1] * k, a[2] * k, a[3] * k]));
            assert_eq!(pats(arr(ta / num(k))), pats([a[0] / k, a[1] / k, a[2] / k, a[3] / k]));
        }
    }
}

#[test]
fn negation_is_multiplication_by_minus_one() {
    for c in sample_tuples() {
        let t = tup(c[0], c[1], c[2], c[3]);
        assert_eq!(pats(arr(-t)), pats(arr(t * num(-1.0))));
    }
}

#[test]
fn operands_are_left_as_they_were() {
    let a = tup(1.0, 2.0, 3.0, 1.0);
    let b = tup(4.0, 5.0, 6.0, 0.0);
    let _ = a + b;
    let _ = a - b;
    let _ = a * b;
    let _ = a / num(2.0);
    let _ = -a;
    let _ = a.cross(b);
    let _ = a.normalize();
    assert_eq!(arr(a), [1.0, 2.0, 3.0, 1.0]);
    assert_eq!(arr(b), [4.0, 5.0, 6.0, 0.0]);
}

#[test]
fn geometry_agrees_with_the_machine() {
    let v = sample_tuples();
    for a in &v {
        let ta = tup(a[0], a[1], a[2], a[3]);
        let m = (a[0].powi(2) + a[1].powi(2) + a[2].powi(2) + a[3].powi(2)).sqrt();
        assert_eq!(pats([val(ta.magnitude()), 0.0, 0.0, 0.0]), pats([m, 0.0, 0.0, 0.0]), "{:?}", a);
        assert_eq!(pats(arr(ta.normalize())), pats([a[0] / m, a[1] / m, a[2] / m, 0.0]), "{:?}", a);
        for b in &v {
            let tb = tup(b[0], b[1], b[2], b[3]);
            let d = (a[0] * b[0]) + (a[1] * b[1]) + (a[2] * b[2]) + (a[3] * b[3]);
            assert_eq!(pats([val(ta.dot(tb)), 0.0, 0.0, 0.0]), pats([d, 0.0, 0.0, 0.0]));
            let c = [
                a[1] * b[2] - a[2] * b[1],
                a[2] * b[0] - a[0] * b[2],
                a[0] * b[1] - a[1] * b[0],
                0.0,
            ];
            assert_eq!(pats(arr(ta.cross(tb))), pats(c));
        }
    }
}

#[test]
fn cross_product_is_antisymmetric_where_it_is_finite() {
    let v = sample_tuples();
    for a in &v {
        for b in &v {
            let (ta, tb) = (tup(a[0], a[1], a[2], a[3]), tup(b[0], b[1], b[2], b[3]));
            let c = ta.cross(tb);
            if arr(c).iter().all(|x| x.is_finite()) {
                assert!(c == -(tb.cross(ta)), "{:?} x {:?}", a, b);
            }
            assert!(c.is_vector());
        }
    }
}

#[test]
fn cross_product_that_overflows_is_not_antisymmetric() {
    let a = tup(1.0e30, 0.0, 0.0, 0.0);
    let b = tup(0.0, 1.0e30, 0.0, 0.0);
    assert_eq!(val(a.cross(b).z), f32::INFINITY);
    assert!(a.cross(b) != -(b.cross(a)));
}

#[test]
fn cross_product_ignores_w() {
    let a = tup(1.0, 2.0, 3.0, 1.0);
    let b = tup(2.0, 3.0, 4.0, 7.5);
    assert_eq!(arr(a.cross(b)), [-1.0, 2.0, -1.0, 0.0]);
}

#[test]
fn dot_product_counts_w() {
    let a = tup(1.0, 2.0, 3.0, 2.0);
    let b = tup(2.0, 3.0, 4.0, 5.0);
    assert_eq!(val(a.dot(b)), 30.0);
}

#[test]
fn scalar_multiply_and_divide() {
    assert_eq!(arr(tup(1.0, -2.0, 3.0, -4.0) * num(2.0)), [2.0, -4.0, 6.0, -8.0]);
    assert_eq!(arr(tup(1.0, -2.0, 3.0, -4.0) * num(0.5)), [0.5, -1.0, 1.5, -2.0]);
    assert_eq!(arr(tup(6.0, -7.0, 8.0, -9.0) / num(2.0)), [3.0, -3.5, 4.0, -4.5]);
}

#[test]
fn division_by_zero_follows_the_standard() {
    let r = arr(tup(1.0, -1.0, 0.0, f32::INFINITY) / num(0.0));
    assert_eq!(r[0], f32::INFINITY);
    assert_eq!(r[1], f32::NEG_INFINITY);
    assert!(r[2].is_nan());
    assert_eq!(r[3], f32::INFINITY);
    let r = arr(tup(1.0, -1.0, 0.0, 2.0) / num(-0.0));
    assert_eq!(r[0], f32::NEG_INFINITY);
    assert_eq!(r[1], f32::INFINITY);
    assert!(r[2].is_nan());
}

#[test]
fn colours_multiply_channel_by_channel() {
    let c = build_color(num(1.0), num(0.2), num(0.4)) * build_color(num(0.9), num(1.0), num(0.1));
    assert!(c == tup(0.9, 0.2, 0.04, 0.0));
    assert_eq!(pats(arr(c)), pats([1.0 * 0.9, 0.2 * 1.0, 0.4 * 0.1, 0.0]));
}

#[test]
fn adding_two_points_gives_w_two() {
    let r = build_point(num(1.0), num(2.0), num(3.0)) + build_point(num(1.0), num(1.0), num(1.0));
    assert_eq!(arr(r), [2.0, 3.0, 4.0, 2.0]);
    assert!(!r.is_point() && !r.is_vector());
}

#[test]
fn magnitude_of_a_point_counts_w() {
    assert_eq!(val(build_point(num(0.0), num(0.0), num(0.0)).magnitude()), 1.0);
    assert_eq!(val(tup(1.0, 1.0, 1.0, 1.0).magnitude()), 2.0);
    assert_eq!(val(build_vector(num(1.0), num(2.0), num(3.0)).magnitude()), 14.0f32.sqrt());
    assert_eq!(val(build_vector(num(3.0), num(4.0), num(0.0)).magnitude()), 5.0);
}

#[test]
fn normalize_drops_w_and_gives_unit_length() {
    let n = tup(4.0, 0.0, 0.0, 1.0).normalize();
    // the magnitude is the root of 17, w included; the result is a vector all the same
    assert!(n.is_vector());
    assert_eq!(val(n.x), 4.0 / 17.0f32.sqrt());
    for c in sample_tuples() {
        let v = build_vector(num(c[0]), num(c[1]), num(c[2]));
        let m = val(v.magnitude());
        if m.is_finite() && m > 1.0e-10 && m < 1.0e10 {
            let n = v.normalize();
            assert!(n.is_vector());
            assert!((val(n.magnitude()) - 1.0).abs() < 0.00001, "{:?}", c);
        }
    }
}

#[test]
fn normalize_of_the_zero_vector_is_not_a_number() {
    let n = build_vector(num(0.0), num(0.0), num(0.0)).normalize();
    assert!(val(n.x).is_nan() && val(n.y).is_nan() && val(n.z).is_nan());
    assert_eq!(val(n.w), 0.0);
    assert!(n.is_vector());
    // a magnitude that overflows divides everything down to zero
    let n = build_vector(num(1.0e30), num(0.0), num(0.0)).normalize();
    assert_eq!(arr(n), [0.0, 0.0, 0.0, 0.0]);
}

fn start() -> (Environment, Projectile) {
    let p = Projectile {
        pos: build_point(num(0.0), num(1.1), num(0.0)),
        vel: build_vector(num(1.0), num(1.0), num(0.0)).normalize(),
    };
    let e = Environment {
        grav: build_vector(num(0.0), num(-0.1), num(0.0)),
        wind: build_vector(num(-0.01), num(0.0), num(0.0)),
    };
    (e, p)
}

#[test]
fn tick_moves_by_the_velocity_and_bends_it() {
    let (e, p) = start();
    let q = tick(e, p);
    assert_eq!(pats(arr(q.pos)), pats(arr(p.pos + p.vel)));
    assert_eq!(pats(arr(q.vel)), pats(arr(p.vel + e.grav + e.wind)));
    assert!(q.pos.is_point());
    assert!(q.vel.is_vector());
    assert!(!q.landed());
}

#[test]
fn projectile_comes_down() {
    let (e, mut p) = start();
    // the same flight on the machine's numbers
    let r = 2.0f32.sqrt();
    let (mut py, mut vy) = (1.1f32, 1.0f32 / r);
    let mut machine_ticks = 0;
    loop {
        py = py + vy;
        vy = vy + -0.1 + 0.0;
        machine_ticks += 1;
        if py <= 0.0 {
            break;
        }
    }
    let mut ticks = 0;
    loop {
        p = tick(e, p);
        ticks += 1;
        assert!(ticks < 1000);
        if p.landed() {
            break;
        }
    }
    assert!(val(p.pos.y) <= 0.0);
    assert_eq!(ticks, machine_ticks);
    assert_eq!(val(p.pos.y), py);
    assert_eq!(ticks, 17);
    assert!(p.pos.is_point());
}

#[test]
fn fly_stops_at_the_landing_or_at_the_limit() {
    let (e, p) = start();
    let (ticks, end) = fly(e, p, 1000);
    assert_eq!(ticks, 17);
    assert!(end.landed());
    assert!(val(end.pos.y) <= 0.0);
    let (ticks, end) = fly(e, p, 5);
    assert_eq!(ticks, 5);
    assert!(!end.landed());
    let mut q = p;
    for _ in 0..5 {
        q = tick(e, q);
    }
    assert_eq!(pats(arr(end.pos)), pats(arr(q.pos)));
    assert_eq!(pats(arr(end.vel)), pats(arr(q.vel)));
    let (ticks, end) = fly(e, p, 0);
    assert_eq!(ticks, 0);
    assert_eq!(pats(arr(end.pos)), pats(arr(p.pos)));
    // a projectile that starts on the ground still takes its first tick
    let low = Projectile { pos: build_point(num(0.0), num(0.0), num(0.0)), vel: p.vel };
    let (ticks, end) = fly(e, low, 1000);
    assert!(ticks >= 1);
    assert!(end.landed());
}
