use tuple_math::scalar::Scalar;

fn s(v: f32) -> Scalar {
    Scalar::from_bits(v.to_bits())
}

fn f(v: Scalar) -> f32 {
    f32::from_bits(v.to_bits())
}

fn same(soft: Scalar, hard: f32) -> bool {
    if hard.is_nan() {
        f(soft).is_nan()
    } else {
        soft.to_bits() == hard.to_bits()
    }
}

fn samples() -> Vec<u32> {
    let mut v: Vec<u32> = vec![
        0x0000_0000, 0x8000_0000, 0x0000_0001, 0x8000_0001, 0x0000_0002, 0x007F_FFFF, 0x0080_0000,
        0x0080_0001, 0x00FF_FFFF, 0x0100_0000, 0x3F80_0000, 0xBF80_0000, 0x3F7F_FFFF, 0x3F80_0001,
        0x4000_0000, 0x4080_0000, 0x3F00_0000, 0x3EAA_AAAB, 0x40490FDB, 0x7F7F_FFFF, 0xFF7F_FFFF,
        0x7F80_0000, 0xFF80_0000, 0x7FC0_0000, 0xFFC0_0001, 0x7F80_0001, 0x3727_C5AC, 0x4B00_0000,
        0x4B80_0000, 0x4B7F_FFFF, 0x3380_0000, 0x3400_0000, 0x3300_0000, 0x5F00_0000, 0x1F00_0000,
        0x2000_0000, 0x6000_0000, 0x0040_0000, 0x8040_0000, 0x7F00_0000, 0x7E80_0000, 0x0C00_0000,
    ];
    let mut x: u32 = 0x1234_5678;
    let mut i = 0;
    while i < 160 {
        x = x.wrapping_mul(1664525).wrapping_add(1013904223);
        v.push(x);
        // a neighbour in the same or an adjacent binade, where cancellation and ties occur
        v.push(x ^ (1 << (i % 25)));
        i += 1;
    }
    v
}

#[test]
fn add_agrees_with_the_machine() {
    let v = samples();
    for &a in &v {
        for &b in &v {
            let soft = Scalar::from_bits(a).add(Scalar::from_bits(b));
            let hard = f32::from_bits(a) + f32::from_bits(b);
            assert!(same(soft, hard), "{:08x} + {:08x}: {:08x} vs {:08x}", a, b, soft.to_bits(), hard.to_bits());
        }
    }
}

#[test]
fn sub_agrees_with_the_machine() {
    let v = samples();
    for &a in &v {
        for &b in &v {
            let soft = Scalar::from_bits(a).sub(Scalar::from_bits(b));
            let hard = f32::from_bits(a) - f32::from_bits(b);
            assert!(same(soft, hard), "{:08x} - {:08x}: {:08x} vs {:08x}", a, b, soft.to_bits(), hard.to_bits());
        }
    }
}

#[test]
fn mul_agrees_with_the_machine() {
    let v = samples();
    for &a in &v {
        for &b in &v {
            let soft = Scalar::from_bits(a).mul(Scalar::from_bits(b));
            let hard = f32::from_bits(a) * f32::from_bits(b);
            assert!(same(soft, hard), "{:08x} * {:08x}: {:08x} vs {:08x}", a, b, soft.to_bits(), hard.to_bits());
        }
    }
}

#[test]
fn comparisons_agree_with_the_machine() {
    let v = samples();
    for &a in &v {
        for &b in &v {
            let (x, y) = (Scalar::from_bits(a), Scalar::from_bits(b));
            let (p, q) = (f32::from_bits(a), f32::from_bits(b));
            assert_eq!(x.lt(y), p < q, "{:08x} < {:08x}", a, b);
            assert_eq!(x.le(y), p <= q, "{:08x} <= {:08x}", a, b);
            assert_eq!(x.equals(y), p == q, "{:08x} == {:08x}", a, b);
        }
    }
}

#[test]
fn neg_and_abs_agree_with_the_machine() {
    for &a in &samples() {
        let x = Scalar::from_bits(a);
        assert!(same(x.neg(), -f32::from_bits(a)));
        assert!(same(x.abs(), f32::from_bits(a).abs()));
        assert_eq!(x.is_nan(), f32::from_bits(a).is_nan());
        assert_eq!(x.is_infinite(), f32::from_bits(a).is_infinite());
        assert_eq!(x.is_finite(), f32::from_bits(a).is_finite());
        assert_eq!(x.is_zero(), f32::from_bits(a) == 0.0);
        assert_eq!(x.is_sign_negative(), f32::from_bits(a).is_sign_negative());
    }
}

#[test]
fn one_and_zero_are_the_machine_s() {
    assert_eq!(f(Scalar::one()), 1.0);
    assert_eq!(f(Scalar::zero()), 0.0);
    assert_eq!(Scalar::zero().to_bits(), 0.0f32.to_bits());
    assert!(f(Scalar::nan()).is_nan());
    assert_eq!(f(Scalar::infinity(false)), f32::INFINITY);
    assert_eq!(f(Scalar::infinity(true)), f32::NEG_INFINITY);
    assert_eq!(Scalar::signed_zero(true).to_bits(), (-0.0f32).to_bits());
    assert_eq!(f(s(2.5)), 2.5);
}

#[test]
fn div_agrees_with_the_machine() {
    let v = samples();
    for &a in &v {
        for &b in &v {
            let soft = Scalar::from_bits(a).div(Scalar::from_bits(b));
            let hard = f32::from_bits(a) / f32::from_bits(b);
            assert!(same(soft, hard), "{:08x} / {:08x}: {:08x} vs {:08x}", a, b, soft.to_bits(), hard.to_bits());
        }
    }
}

#[test]
fn sqrt_agrees_with_the_machine() {
    for &a in &samples() {
        let soft = Scalar::from_bits(a).sqrt();
        let hard = f32::from_bits(a).sqrt();
        assert!(same(soft, hard), "sqrt {:08x}: {:08x} vs {:08x}", a, soft.to_bits(), hard.to_bits());
    }
    let mut x: u32 = 1;
    let mut i = 0;
    while i < 20000 {
        x = x.wrapping_mul(1664525).wrapping_add(1013904223);
        let soft = Scalar::from_bits(x).sqrt();
        let hard = f32::from_bits(x).sqrt();
        assert!(same(soft, hard), "sqrt {:08x}: {:08x} vs {:08x}", x, soft.to_bits(), hard.to_bits());
        i += 1;
    }
}

fn bits(v: Scalar) -> u32 {
    v.to_bits()
}

#[test]
fn sums_round_to_nearest_ties_to_even() {
    assert_eq!(f(s(1.0).add(s(2.0))), 3.0);
    assert_eq!(f(s(0.1).add(s(0.2))), 0.1f32 + 0.2f32);
    assert_eq!(bits(s(0.1).add(s(0.2))), 0x3E99_999A);
    // 2^24 + 1 lies midway between 2^24 and 2^24 + 2: the even significand wins
    assert_eq!(f(s(16777216.0).add(s(1.0))), 16777216.0);
    assert_eq!(f(s(16777218.0).add(s(1.0))), 16777220.0);
    // a little more than half a step rounds up, a little less rounds down
    assert_eq!(f(s(16777216.0).add(s(1.0000001))), 16777218.0);
    assert_eq!(f(s(16777216.0).add(s(0.99999994))), 16777216.0);
    // far smaller terms change nothing, or the last place only
    assert_eq!(f(s(1.0).add(s(1.0e-30))), 1.0);
    assert_eq!(bits(s(1.0).sub(s(1.0e-30))), 0x3F80_0000);
    assert_eq!(bits(s(1.0).sub(s(2.9802322e-8))), 0x3F80_0000);
    assert_eq!(bits(s(1.0).sub(s(2.9802326e-8))), 0x3F7F_FFFF);
}

#[test]
fn zeros_keep_their_signs() {
    assert_eq!(bits(s(0.0).add(s(-0.0))), 0x0000_0000);
    assert_eq!(bits(s(-0.0).add(s(-0.0))), 0x8000_0000);
    assert_eq!(bits(s(1.5).sub(s(1.5))), 0x0000_0000);
    assert_eq!(bits(s(-1.5).add(s(1.5))), 0x0000_0000);
    assert_eq!(bits(s(-0.0).mul(s(3.0))), 0x8000_0000);
    assert_eq!(bits(s(-0.0).mul(s(-3.0))), 0x0000_0000);
    assert_eq!(bits(s(0.0).div(s(-3.0))), 0x8000_0000);
    assert_eq!(bits(s(-0.0).sqrt()), 0x8000_0000);
    assert_eq!(bits(s(3.0).div(s(f32::NEG_INFINITY))), 0x8000_0000);
}

#[test]
fn overflow_starts_half_a_step_above_the_largest_number() {
    let max = f32::MAX;
    // half a step of the top binade is 2^103
    let half = f32::from_bits(0x7300_0000);
    let below = f32::from_bits(0x72FF_FFFF);
    assert_eq!(half, 2.0f32.powi(103));
    assert_eq!(f(s(max).add(s(half))), f32::INFINITY);
    assert_eq!(f(s(max).add(s(below))), max);
    assert_eq!(f(s(-max).sub(s(half))), f32::NEG_INFINITY);
    assert_eq!(f(s(max).mul(s(2.0))), f32::INFINITY);
    assert_eq!(f(s(max).mul(s(1.0))), max);
    assert_eq!(f(s(1.0e20).mul(s(-1.0e20))), f32::NEG_INFINITY);
    assert_eq!(f(s(1.0).div(s(1.0e-45))), f32::INFINITY);
}

#[test]
fn small_results_are_subnormal_or_zero() {
    assert_eq!(bits(s(f32::MIN_POSITIVE).div(s(2.0))), 0x0040_0000);
    assert_eq!(bits(s(1.0e-45).div(s(2.0))), 0x0000_0000);
    assert_eq!(bits(s(1.0e-45).mul(s(0.75))), 0x0000_0001);
    assert_eq!(bits(s(1.0e-45).mul(s(1.5))), 0x0000_0002);
    assert_eq!(bits(s(1.0e-30).mul(s(1.0e-30))), 0x0000_0000);
    assert_eq!(bits(s(-1.0e-30).mul(s(1.0e-30))), 0x8000_0000);
    assert_eq!(bits(s(f32::MIN_POSITIVE).sub(s(1.0e-45))), 0x007F_FFFF);
    assert_eq!(f(s(1.0e-45).sqrt()), 1.0e-45f32.sqrt());
    assert_eq!(bits(s(1.0e-45).sqrt()), 0x1A35_04F3);
}

#[test]
fn products_quotients_and_roots_have_their_exact_values() {
    assert_eq!(f(s(3.0).mul(s(0.5))), 1.5);
    assert_eq!(f(s(-7.0).mul(s(6.0))), -42.0);
    assert_eq!(bits(s(0.1).mul(s(0.1))), 0x3C23_D70B);
    assert_eq!(f(s(6.0).div(s(2.0))), 3.0);
    assert_eq!(f(s(-7.0).div(s(2.0))), -3.5);
    assert_eq!(bits(s(1.0).div(s(3.0))), 0x3EAA_AAAB);
    assert_eq!(bits(s(2.0).div(s(3.0))), 0x3F2A_AAAB);
    assert_eq!(bits(s(1.0).div(s(10.0))), 0x3DCC_CCCD);
    assert_eq!(f(s(4.0).sqrt()), 2.0);
    assert_eq!(f(s(14.0).sqrt()), 14.0f32.sqrt());
    assert_eq!(bits(s(2.0).sqrt()), 0x3FB5_04F3);
    assert_eq!(bits(s(14.0).sqrt()), 0x406F_7751);
    assert_eq!(f(s(f32::INFINITY).sqrt()), f32::INFINITY);
}

#[test]
fn what_has_no_value_is_not_a_number() {
    assert!(f(s(-1.0).sqrt()).is_nan());
    assert!(f(s(f32::NEG_INFINITY).sqrt()).is_nan());
    assert!(f(s(0.0).div(s(0.0))).is_nan());
    assert!(f(s(f32::INFINITY).div(s(f32::INFINITY))).is_nan());
    assert!(f(s(f32::INFINITY).sub(s(f32::INFINITY))).is_nan());
    assert!(f(s(f32::INFINITY).add(s(f32::NEG_INFINITY))).is_nan());
    assert!(f(s(f32::INFINITY).mul(s(0.0))).is_nan());
    assert!(f(s(f32::NAN).add(s(1.0))).is_nan());
    assert!(f(s(1.0).mul(s(f32::NAN))).is_nan());
    assert_eq!(bits(s(f32::NAN).mul(s(1.0))), 0x7FC0_0000);
    assert_eq!(f(s(1.0).div(s(0.0))), f32::INFINITY);
    assert_eq!(f(s(-1.0).div(s(0.0))), f32::NEG_INFINITY);
    assert_eq!(f(s(f32::INFINITY).add(s(f32::INFINITY))), f32::INFINITY);
}

// Pairs whose exponents lie near each other, where sums cancel and round.
fn near_pairs(count: u32) -> Vec<(u32, u32)> {
    let mut v = Vec::new();
    let mut x: u32 = 0x9E37_79B9;
    let mut i = 0;
    while i < count {
        x = x.wrapping_mul(1664525).wrapping_add(1013904223);
        let a = x;
        x = x.wrapping_mul(1664525).wrapping_add(1013904223);
        let ea = (a >> 23) & 0xFF;
        let shift = (x >> 8) % 60;
        let eb = (ea + 30).saturating_sub(shift).min(255);
        x = x.wrapping_mul(1664525).wrapping_add(1013904223);
        // few significant bits now and then, so that ties occur
        let mask = if i % 3 == 0 { 0x007F_F000 } else { 0x007F_FFFF };
        let b = (x & 0x8000_0000) | (eb << 23) | (x & mask);
        v.push((a & !(0x007F_FFFF & !mask), b));
        i += 1;
    }
    v
}

#[test]
fn sums_of_near_numbers_agree_with_the_machine() {
    for (a, b) in near_pairs(200000) {
        let (x, y) = (Scalar::from_bits(a), Scalar::from_bits(b));
        let (p, q) = (f32::from_bits(a), f32::from_bits(b));
        assert!(same(x.add(y), p + q), "{:08x} + {:08x}", a, b);
        assert!(same(x.sub(y), p - q), "{:08x} - {:08x}", a, b);
    }
}

#[test]
fn products_and_quotients_agree_with_the_machine() {
    let mut x: u32 = 0x0BAD_5EED;
    let mut i = 0;
    while i < 200000 {
        x = x.wrapping_mul(1664525).wrapping_add(1013904223);
        let a = x;
        x = x.wrapping_mul(1664525).wrapping_add(1013904223);
        // every fourth pair is pushed towards the smallest numbers
        let b = if i % 4 == 0 { (x & 0x80FF_FFFF) | (((254 - ((a >> 23) & 0xFF)).min(254)) << 23) } else { x };
        let (p, q) = (f32::from_bits(a), f32::from_bits(b));
        assert!(same(Scalar::from_bits(a).mul(Scalar::from_bits(b)), p * q), "{:08x} * {:08x}", a, b);
        assert!(same(Scalar::from_bits(a).div(Scalar::from_bits(b)), p / q), "{:08x} / {:08x}", a, b);
        let r = f32::from_bits(b & 0x7FFF_FFFF) * 1.0e-38;
        assert!(same(s(p).mul(s(r)), p * r), "{:08x} * {:08x}", a, r.to_bits());
        assert!(same(s(r).div(s(q)), r / q), "{:08x} / {:08x}", r.to_bits(), b);
        i += 1;
    }
}
