//! What holds of the arithmetic and of the tuple algebra, for all inputs.
use vstd::prelude::*;
use vstd::arithmetic::power2::{pow2, lemma2_to64, lemma_pow2_adds, lemma_pow2_pos};
use vstd::std_specs::cmp::PartialEqSpec;
use crate::ieee::{
    Value,
    decode,
    encode,
    binade,
    round_ratio,
    rounded,
    value_abs,
    value_add,
    value_mul,
    value_neg,
    value_sub,
};
use crate::nearest::{lemma_rounded_parts, rounded_significand};
use crate::round::{
    lemma_pow2_le,
    lemma_scaled_le,
    lemma_decode_finite,
    lemma_finite_bits,
    lemma_round_ratio_at,
    lemma_round_ratio_decodes,
    scale_of,
    significand_of,
};
use crate::scalar::Scalar;
use crate::util::{Tuple, close, one, EPSILON_BITS};

verus! {

/// A magnitude that has a bit pattern rounds to itself, whatever the
/// denominator it is written over.
pub proof fn lemma_round_exact(negative: bool, m: nat, k: nat, d: nat)
    requires
        d > 0,
        k <= 253,
        m < 0x100_0000,
        k > 0 ==> m >= 0x80_0000,
    ensures
        round_ratio(negative, (m * pow2(k)) * d, d) == (Value::Finite {
            negative,
            mag: m * pow2(k),
        }),
{
    let pk = pow2(k) as int;
    let n = (m * pow2(k)) * d;
    lemma2_to64();
    lemma_pow2_pos(k);
    lemma_pow2_adds(24, k);
    lemma_pow2_adds(23, k);
    assert(n < d * pow2(24 + k) && (k > 0 ==> n >= d * pow2(23 + k)) && (2 * m) * (d * pk) == 2 * n
        && (2 * m + 1) * (d * pk) > 2 * n) by (nonlinear_arith)
        requires
            n == (m * pk) * d,
            pow2(24 + k) == 0x100_0000 * pk,
            pow2(23 + k) == 0x80_0000 * pk,
            m < 0x100_0000,
            k > 0 ==> m >= 0x80_0000,
            d > 0,
            pk > 0,
    {
        assert((m * pk) * d == m * (d * pk));
        assert(d * (0x100_0000 * pk) == 0x100_0000 * (d * pk));
        assert(d * (0x80_0000 * pk) == 0x80_0000 * (d * pk));
        assert(d * pk > 0);
    }
    lemma_round_ratio_at(negative, n, d, k, 2 * m, true);
    lemma_finite_bits(negative, m, k);
}

/// A NaN, the infinities and the zeros have bit patterns of their own.
pub proof fn lemma_special_decodes(v: Value)
    requires
        !v.is_finite() || v.is_zero(),
    ensures
        decode(encode(v)) == v,
{
    reveal(encode);
    match v {
        Value::Finite { negative, mag } => {
            lemma_finite_bits(negative, 0, 0);
            assert(0 * pow2(0) == 0) by (nonlinear_arith);
        },
        Value::Infinite { negative } => {
            assert(decode(0x7F80_0000u32) == (Value::Infinite { negative: false }));
            assert(decode(0xFF80_0000u32) == (Value::Infinite { negative: true }));
        },
        Value::Nan => {
            assert(decode(0x7FC0_0000u32) == Value::Nan);
        },
    }
}

/// The bit pattern of a sum stands for the sum.
pub proof fn lemma_add_decodes(a: Value, b: Value)
    ensures
        decode(encode(value_add(a, b))) == value_add(a, b),
{
    reveal(value_add);
    let s = a.signed() + b.signed();
    if !value_add(a, b).is_finite() || value_add(a, b).is_zero() {
        lemma_special_decodes(value_add(a, b));
    }
    lemma_round_ratio_decodes(s < 0, vstd::math::abs(s) as nat, 1);
}

/// The bit pattern of a product stands for the product.
pub proof fn lemma_mul_decodes(a: Value, b: Value)
    ensures
        decode(encode(value_mul(a, b))) == value_mul(a, b),
{
    reveal(value_mul);
    lemma_pow2_pos(149);
    if !value_mul(a, b).is_finite() || value_mul(a, b).is_zero() {
        lemma_special_decodes(value_mul(a, b));
    }
    match (a, b) {
        (Value::Finite { negative: na, mag: ma }, Value::Finite { negative: nb, mag: mb }) => {
            lemma_round_ratio_decodes(na != nb, ma * mb, pow2(149));
        },
        _ => {},
    }
}

/// The bit pattern of a quotient stands for the quotient.
pub proof fn lemma_div_decodes(a: Value, b: Value)
    ensures
        decode(encode(crate::ieee::value_div(a, b))) == crate::ieee::value_div(a, b),
{
    reveal(crate::ieee::value_div);
    let q = crate::ieee::value_div(a, b);
    if !q.is_finite() || q.is_zero() {
        lemma_special_decodes(q);
    }
    match (a, b) {
        (Value::Finite { negative: na, mag: ma }, Value::Finite { negative: nb, mag: mb }) => {
            if mb > 0 {
                lemma_round_ratio_decodes(na != nb, ma * pow2(149), mb);
            }
        },
        _ => {},
    }
}

/// The bit pattern of a square root stands for the square root.
pub proof fn lemma_sqrt_decodes(a: Value)
    ensures
        decode(encode(crate::ieee::value_sqrt(a))) == crate::ieee::value_sqrt(a),
{
    reveal(crate::ieee::value_sqrt);
    let q = crate::ieee::value_sqrt(a);
    if !q.is_finite() || q.is_zero() {
        lemma_special_decodes(q);
    }
    match a {
        Value::Finite { mag, .. } => {
            crate::root::lemma_round_sqrt_decodes(mag * pow2(149));
        },
        _ => {},
    }
}

/// The bit pattern of a difference stands for the difference.
pub proof fn lemma_sub_decodes(a: Value, b: Value)
    ensures
        decode(encode(value_sub(a, b))) == value_sub(a, b),
{
    lemma_add_decodes(a, value_neg(b));
}

/// Flipping the sign bit negates the value.
pub proof fn lemma_neg_view(s: Scalar)
    ensures
        s.neg_spec()@ == value_neg(s@),
{
    let r = s.neg_spec();
    assert(crate::ieee::exponent_of(r.bits) == crate::ieee::exponent_of(s.bits));
    assert(crate::ieee::fraction_of(r.bits) == crate::ieee::fraction_of(s.bits));
}

/// The product does not depend on the order of the factors.
pub proof fn lemma_mul_commutes(a: Scalar, b: Scalar)
    ensures
        a.mul_spec(b) == b.mul_spec(a),
{
    reveal(value_mul);
    match (a@, b@) {
        (Value::Finite { mag: ma, .. }, Value::Finite { mag: mb, .. }) => {
            assert(ma * mb == mb * ma) by (nonlinear_arith);
        },
        _ => {},
    }
}

/// The sum does not depend on the order of the terms.
pub proof fn lemma_add_commutes(a: Scalar, b: Scalar)
    ensures
        a.add_spec(b) == b.add_spec(a),
{
    reveal(value_add);
}

/// Swapping the terms of a difference changes at most its sign.
pub proof fn lemma_sub_swap(a: Value, b: Value)
    ensures
        value_abs(value_sub(a, b)) == value_abs(value_sub(b, a)),
        value_sub(a, b).is_finite() ==> value_sub(b, a).is_finite() && value_sub(b, a).signed()
            == -value_sub(a, b).signed(),
{
    reveal(value_add);
}

/// The tolerance of `==` is a positive number.
pub proof fn lemma_epsilon_positive()
    ensures
        decode(EPSILON_BITS).is_finite(),
        decode(EPSILON_BITS).signed() > 0,
{
    lemma_decode_finite(EPSILON_BITS);
    lemma_pow2_pos(scale_of(EPSILON_BITS));
    let m = significand_of(EPSILON_BITS) as int;
    let p = pow2(scale_of(EPSILON_BITS)) as int;
    assert(m * p > 0) by (nonlinear_arith)
        requires
            m > 0,
            p > 0,
    ;
}

/// Two finite numbers of the same value are close, also where they are zeros
/// of different sign.
pub proof fn lemma_same_value_close(a: Scalar, b: Scalar)
    requires
        a@.is_finite(),
        b@.is_finite(),
        a@.signed() == b@.signed(),
    ensures
        close(a, b),
{
    reveal(value_add);
    lemma_epsilon_positive();
}

/// No tuple is both a point and a vector.
pub proof fn lemma_point_is_no_vector(t: Tuple)
    ensures
        !(t.is_point_spec() && t.is_vector_spec()),
{
    lemma_pow2_pos(149);
}

/// A point plus a vector is a point, and a vector plus a vector is a vector.
pub proof fn lemma_add_kinds(a: Tuple, b: Tuple)
    ensures
        a.is_point_spec() && b.is_vector_spec() ==> a.plus(b).is_point_spec(),
        a.is_vector_spec() && b.is_point_spec() ==> a.plus(b).is_point_spec(),
        a.is_vector_spec() && b.is_vector_spec() ==> a.plus(b).is_vector_spec(),
{
    reveal(value_add);
    lemma_add_decodes(a.w@, b.w@);
    lemma_one_rounds_to_one();
}

/// A point minus a point is a vector, a point minus a vector is a point, and a
/// vector minus a vector is a vector.
pub proof fn lemma_sub_kinds(a: Tuple, b: Tuple)
    ensures
        a.is_point_spec() && b.is_point_spec() ==> a.minus(b).is_vector_spec(),
        a.is_point_spec() && b.is_vector_spec() ==> a.minus(b).is_point_spec(),
        a.is_vector_spec() && b.is_vector_spec() ==> a.minus(b).is_vector_spec(),
{
    reveal(value_add);
    lemma_sub_decodes(a.w@, b.w@);
    lemma_one_rounds_to_one();
}

/// One, as an exact result, is returned as one.
pub proof fn lemma_one_rounds_to_one()
    ensures
        round_ratio(false, pow2(149), 1) == one(),
        pow2(149) > 0,
{
    lemma2_to64();
    lemma_pow2_adds(23, 126);
    lemma_pow2_pos(149);
    lemma_round_exact(false, 0x80_0000, 126, 1);
    assert((0x80_0000 * pow2(126)) * 1 == pow2(149));
}

/// A tuple of finite components equals itself.
pub proof fn lemma_eq_reflexive(t: Tuple)
    requires
        t.is_finite(),
    ensures
        t.eq_spec(&t),
{
    lemma_same_value_close(t.x, t.x);
    lemma_same_value_close(t.y, t.y);
    lemma_same_value_close(t.z, t.z);
    lemma_same_value_close(t.w, t.w);
}

/// Whether two tuples are equal does not depend on their order.
pub proof fn lemma_eq_symmetric(a: Tuple, b: Tuple)
    ensures
        a.eq_spec(&b) == b.eq_spec(&a),
{
    lemma_sub_swap(a.x@, b.x@);
    lemma_sub_swap(a.y@, b.y@);
    lemma_sub_swap(a.z@, b.z@);
    lemma_sub_swap(a.w@, b.w@);
}

/// A finite difference is close to the negated difference taken the other way round.
pub proof fn lemma_difference_antisymmetric(p: Scalar, q: Scalar)
    requires
        p.sub_spec(q)@.is_finite(),
    ensures
        close(p.sub_spec(q), q.sub_spec(p).neg_spec()),
{
    lemma_sub_decodes(p@, q@);
    lemma_sub_decodes(q@, p@);
    lemma_sub_swap(p@, q@);
    lemma_neg_view(q.sub_spec(p));
    lemma_same_value_close(p.sub_spec(q), q.sub_spec(p).neg_spec());
}

/// The cross product is antisymmetric: wherever the cross product of `a` and `b` has finite
/// components, it equals the negated cross product of `b` and `a`.
pub proof fn lemma_cross_antisymmetric(a: Tuple, b: Tuple)
    requires
        a.cross_spec(b).is_finite(),
    ensures
        a.cross_spec(b).eq_spec(&b.cross_spec(a).negated()),
{
    lemma_mul_commutes(a.y, b.z);
    lemma_mul_commutes(a.z, b.y);
    lemma_mul_commutes(a.z, b.x);
    lemma_mul_commutes(a.x, b.z);
    lemma_mul_commutes(a.x, b.y);
    lemma_mul_commutes(a.y, b.x);
    lemma_difference_antisymmetric(a.y.mul_spec(b.z), a.z.mul_spec(b.y));
    lemma_difference_antisymmetric(a.z.mul_spec(b.x), a.x.mul_spec(b.z));
    lemma_difference_antisymmetric(a.x.mul_spec(b.y), a.y.mul_spec(b.x));
    let zero = Scalar { bits: 0 };
    lemma_neg_view(zero);
    lemma_same_value_close(zero, zero.neg_spec());
}

/// Multiplying a number by minus one negates it.
pub proof fn lemma_times_minus_one(a: Scalar)
    requires
        !a@.is_nan(),
    ensures
        value_mul(a@, value_neg(one())) == value_neg(a@),
{
    reveal(value_mul);
    lemma_pow2_pos(149);
    if a@.is_finite() {
        lemma_decode_finite(a.bits);
        lemma_round_exact(
            !crate::ieee::sign_of(a.bits),
            significand_of(a.bits),
            scale_of(a.bits),
            pow2(149),
        );
    }
}


/// The tolerance of `==` is the number `0xA7C5AC * 2^109` steps of 2^-149:
/// the binary32 number nearest to 0.00001.
pub proof fn lemma_epsilon_value()
    ensures
        decode(EPSILON_BITS) == (Value::Finite { negative: false, mag: 0xA7_C5AC * pow2(109) }),
        0xA7_C5AC * pow2(109) < crate::ieee::overflow_mag(),
{
    lemma_decode_finite(EPSILON_BITS);
    lemma_finite_bits(false, 0xA7_C5AC, 109);
}

/// A difference rounds to less than the tolerance exactly if it lies more than
/// half a step of the tolerance's binade below the tolerance.
pub proof fn lemma_rounded_below_epsilon(n: nat)
    ensures
        rounded(n, 1) < 0xA7_C5AC * pow2(109) <==> 2 * n < 0x14F_8B57 * pow2(109),
{
    let (ulp, t, rem) = lemma_rounded_parts(n, 1);
    let m = rounded_significand(n, 1) as int;
    let k = binade(n, 1);
    let p = pow2(109) as int;
    lemma2_to64();
    lemma_pow2_pos(109);
    lemma_pow2_pos(k);
    crate::round::lemma_binade_bounds(n, 1);
    assert(ulp == pow2(k)) by (nonlinear_arith)
        requires
            ulp == 1 * pow2(k),
    ;
    if k < 109 {
        lemma_pow2_adds(24, k);
        lemma_pow2_le(24 + k, 132);
        lemma_pow2_adds(23, 109);
        lemma_scaled_le(m as nat, k, 0x100_0000, k);
        assert(n < 0x80_0000 * p && m * pow2(k) <= 0x80_0000 * p) by (nonlinear_arith)
            requires
                n < 1 * pow2(24 + k),
                m * pow2(k) <= 0x100_0000 * pow2(k),
                pow2(24 + k) == 0x100_0000 * pow2(k),
                pow2(24 + k) <= pow2(132),
                pow2(132) == 0x80_0000 * p,
        ;
        assert(0x80_0000 * p < 0xA7_C5AC * p && 2 * (0x80_0000 * p) < 0x14F_8B57 * p)
            by (nonlinear_arith)
            requires
                p > 0,
        ;
    } else if k > 109 {
        lemma_pow2_adds(23, k);
        lemma_pow2_le(133, 23 + k);
        lemma_pow2_adds(24, 109);
        assert(n >= 0x100_0000 * p && m * pow2(k) >= 0x100_0000 * p) by (nonlinear_arith)
            requires
                n >= 1 * pow2(23 + k),
                m >= 0x80_0000,
                pow2(23 + k) == 0x80_0000 * pow2(k),
                pow2(23 + k) >= pow2(133),
                pow2(133) == 0x100_0000 * p,
        ;
        assert(0x100_0000 * p > 0xA7_C5AC * p && 2 * (0x100_0000 * p) > 0x14F_8B57 * p)
            by (nonlinear_arith)
            requires
                p > 0,
        ;
    } else {
        assert(m * p < 0xA7_C5AC * p <==> m < 0xA7_C5AC) by (nonlinear_arith)
            requires
                p > 0,
        ;
        assert(2 * n < 0x14F_8B57 * p <==> t < 0x14F_8B57) by (nonlinear_arith)
            requires
                2 * n == t * p + rem,
                0 <= rem < p,
        ;
    }
}

/// Only finite numbers are close to one another.
pub proof fn lemma_close_is_finite(a: Scalar, b: Scalar)
    requires
        close(a, b),
    ensures
        a@.is_finite(),
        b@.is_finite(),
{
    reveal(value_add);
    lemma_epsilon_value();
}

/// What the tolerance means in exact arithmetic: two finite numbers are close
/// exactly if they differ by less than `0x14F8B57 * 2^108` steps of 2^-149,
/// which is half a step of its binade less than the tolerance itself.
pub proof fn lemma_close_in_exact_terms(a: Scalar, b: Scalar)
    requires
        a@.is_finite(),
        b@.is_finite(),
    ensures
        close(a, b) <==> 2 * vstd::math::abs(a@.signed() - b@.signed()) < 0x14F_8B57 * pow2(109),
{
    reveal(value_add);
    lemma_epsilon_value();
    let s = a@.signed() - b@.signed();
    let n = vstd::math::abs(s) as nat;
    lemma_rounded_below_epsilon(n);
    lemma_pow2_pos(109);
    assert(0x14F_8B57 * pow2(109) > 0) by (nonlinear_arith)
        requires
            pow2(109) > 0,
    ;
}

/// Two tuples are equal exactly if their components are finite and differ, each
/// from its counterpart, by less than the bound of `lemma_close_in_exact_terms`.
pub proof fn lemma_eq_in_exact_terms(a: Tuple, b: Tuple)
    ensures
        a.eq_spec(&b) <==> a.is_finite() && b.is_finite() && within(a.x, b.x) && within(a.y, b.y)
            && within(a.z, b.z) && within(a.w, b.w),
{
    lemma_close_or_not(a.x, b.x);
    lemma_close_or_not(a.y, b.y);
    lemma_close_or_not(a.z, b.z);
    lemma_close_or_not(a.w, b.w);
}

/// Whether two numbers differ by less than `0x14F8B57 * 2^108` steps of 2^-149.
pub open spec fn within(a: Scalar, b: Scalar) -> bool {
    2 * vstd::math::abs(a@.signed() - b@.signed()) < 0x14F_8B57 * pow2(109)
}

proof fn lemma_close_or_not(a: Scalar, b: Scalar)
    ensures
        close(a, b) <==> a@.is_finite() && b@.is_finite() && within(a, b),
{
    if close(a, b) {
        lemma_close_is_finite(a, b);
    }
    if a@.is_finite() && b@.is_finite() {
        lemma_close_in_exact_terms(a, b);
    }
}


/// What a bit pattern stands for is representable.
pub proof fn lemma_decode_representable(bits: u32)
    ensures
        decode(bits).representable(),
{
    if crate::ieee::exponent_of(bits) != 255 {
        let m = significand_of(bits);
        let k = scale_of(bits);
        lemma_decode_finite(bits);
        lemma_finite_bits(crate::ieee::sign_of(bits), m, k);
        lemma_significand_binade(m, k);
        lemma_pow2_pos(k);
        vstd::arithmetic::div_mod::lemma_mod_multiples_basic(m as int, pow2(k) as int);
    }
}

/// A significand of 24 bits, or a smaller one in the lowest binade, lies in
/// the binade that it is scaled to.
pub proof fn lemma_significand_binade(m: nat, k: nat)
    requires
        m < 0x100_0000,
        k > 0 ==> m >= 0x80_0000,
    ensures
        binade(m * pow2(k), 1) == k,
{
    lemma2_to64();
    lemma_pow2_pos(k);
    lemma_pow2_adds(24, k);
    lemma_pow2_adds(23, k);
    let mag = m * pow2(k);
    assert(mag < 1 * pow2(24 + k) && (k > 0 ==> mag >= 1 * pow2(23 + k))) by (nonlinear_arith)
        requires
            mag == m * pow2(k),
            m < 0x100_0000,
            k > 0 ==> m >= 0x80_0000,
            pow2(24 + k) == 0x100_0000 * pow2(k),
            pow2(23 + k) == 0x80_0000 * pow2(k),
            pow2(k) > 0,
    ;
    crate::round::lemma_binade_unique(mag, 1, k);
}

/// A representable magnitude is a significand of 24 bits, or a smaller one in
/// the lowest binade, scaled to its binade.
pub proof fn lemma_representable_parts(mag: nat) -> (r: (nat, nat))
    requires
        (Value::Finite { negative: false, mag }).representable(),
    ensures
        mag == r.0 * pow2(r.1),
        r.1 == binade(mag, 1),
        r.1 <= 253,
        r.0 < 0x100_0000,
        r.1 > 0 ==> r.0 >= 0x80_0000,
{
    let k = binade(mag, 1);
    let p = pow2(k) as int;
    let m = mag as int / p;
    lemma2_to64();
    lemma_pow2_pos(k);
    crate::round::lemma_binade_bounds(mag, 1);
    vstd::arithmetic::div_mod::lemma_fundamental_div_mod(mag as int, p);
    lemma_pow2_adds(24, k);
    lemma_pow2_adds(23, k);
    assert(mag == m * p && 0 <= m < 0x100_0000 && (k > 0 ==> m >= 0x80_0000)) by (nonlinear_arith)
        requires
            mag == p * m + 0,
            mag < 1 * pow2(24 + k),
            k > 0 ==> mag >= 1 * pow2(23 + k),
            pow2(24 + k) == 0x100_0000 * p,
            pow2(23 + k) == 0x80_0000 * p,
            p > 0,
    ;
    if k > 253 {
        lemma_pow2_le(277, 23 + k);
    }
    (m as nat, k)
}

/// Every representable value is what its bit pattern stands for.
pub proof fn lemma_decode_encode(v: Value)
    requires
        v.representable(),
    ensures
        decode(encode(v)) == v,
{
    match v {
        Value::Finite { negative, mag } => {
            let (m, k) = lemma_representable_parts(mag);
            lemma_finite_bits(negative, m, k);
        },
        _ => {
            lemma_special_decodes(v);
        },
    }
}

/// Adding the positive zero changes nothing, except that it turns the
/// negative zero into the positive one.
pub proof fn lemma_add_zero(v: Value)
    requires
        v.representable(),
        !(v.is_zero() && v.is_negative()),
    ensures
        value_add(v, Value::Finite { negative: false, mag: 0 }) == v,
{
    reveal(value_add);
    match v {
        Value::Finite { negative, mag } => {
            if mag > 0 {
                let (m, k) = lemma_representable_parts(mag);
                lemma_round_exact(negative, m, k, 1);
                assert((m * pow2(k)) * 1 == mag);
            }
        },
        _ => {},
    }
}

/// For a vector the magnitude is the length in three dimensions: `w` adds nothing.
pub proof fn lemma_magnitude_of_vector(t: Tuple)
    requires
        t.is_vector_spec(),
    ensures
        t.magnitude_spec() == t.x.mul_spec(t.x).add_spec(t.y.mul_spec(t.y)).add_spec(
            t.z.mul_spec(t.z),
        ).sqrt_spec(),
{
    let xx = t.x.mul_spec(t.x);
    let yy = t.y.mul_spec(t.y);
    let zz = t.z.mul_spec(t.z);
    let ww = t.w.mul_spec(t.w);
    let xy = xx.add_spec(yy);
    let sum = xy.add_spec(zz);
    // The square of a zero is the positive zero.
    lemma_mul_decodes(t.w@, t.w@);
    assert(ww@ == (Value::Finite { negative: false, mag: 0 })) by {
        reveal(value_mul);
        lemma_pow2_pos(149);
        assert(0 * 0 == 0) by (nonlinear_arith);
        crate::round::lemma_round_zero(false, pow2(149));
    }
    // A sum of squares is not the negative zero.
    lemma_mul_decodes(t.x@, t.x@);
    lemma_mul_decodes(t.y@, t.y@);
    lemma_mul_decodes(t.z@, t.z@);
    lemma_add_decodes(xx@, yy@);
    lemma_add_decodes(xy@, zz@);
    lemma_square_sign(t.x@);
    lemma_square_sign(t.y@);
    lemma_square_sign(t.z@);
    lemma_sum_sign(xx@, yy@);
    lemma_sum_sign(xy@, zz@);
    lemma_decode_representable(sum.bits);
    lemma_add_zero(sum@);
    if !sum@.is_nan() {
        crate::round::lemma_encode_decode(sum.bits);
    } else {
        assert(sum.bits == 0x7FC0_0000) by {
            reveal(encode);
        }
        assert(encode(Value::Nan) == 0x7FC0_0000) by {
            reveal(encode);
        }
    }
    assert(sum.add_spec(ww) == sum);
}

/// A square is not negative.
pub proof fn lemma_square_sign(a: Value)
    ensures
        !value_mul(a, a).is_negative(),
{
    reveal(value_mul);
}

/// A sum of two numbers that are not negative is not negative.
pub proof fn lemma_sum_sign(a: Value, b: Value)
    requires
        !a.is_negative(),
        !b.is_negative(),
    ensures
        !value_add(a, b).is_negative(),
{
    reveal(value_add);
}


/// Subtracting is adding the negated number.
pub proof fn lemma_sub_is_add_neg(a: Scalar, b: Scalar)
    ensures
        a.sub_spec(b) == a.add_spec(b.neg_spec()),
{
    lemma_neg_view(b);
}

/// Negating twice gives the tuple back, bit for bit.
pub proof fn lemma_neg_twice(t: Tuple)
    ensures
        t.negated().negated() == t,
{
}

/// The sum of two tuples does not depend on their order.
pub proof fn lemma_plus_commutes(a: Tuple, b: Tuple)
    ensures
        a.plus(b) == b.plus(a),
{
    lemma_add_commutes(a.x, b.x);
    lemma_add_commutes(a.y, b.y);
    lemma_add_commutes(a.z, b.z);
    lemma_add_commutes(a.w, b.w);
}

/// The product of two tuples, component by component, does not depend on
/// their order.
pub proof fn lemma_times_commutes(a: Tuple, b: Tuple)
    ensures
        a.times(b) == b.times(a),
{
    lemma_mul_commutes(a.x, b.x);
    lemma_mul_commutes(a.y, b.y);
    lemma_mul_commutes(a.z, b.z);
    lemma_mul_commutes(a.w, b.w);
}

/// The dot product does not depend on the order of the two tuples.
pub proof fn lemma_dot_symmetric(a: Tuple, b: Tuple)
    ensures
        a.dot_spec(b) == b.dot_spec(a),
{
    lemma_mul_commutes(a.x, b.x);
    lemma_mul_commutes(a.y, b.y);
    lemma_mul_commutes(a.z, b.z);
    lemma_mul_commutes(a.w, b.w);
}

/// A difference of tuples is the sum with the negated tuple.
pub proof fn lemma_minus_is_plus_negated(a: Tuple, b: Tuple)
    ensures
        a.minus(b) == a.plus(b.negated()),
{
    lemma_sub_is_add_neg(a.x, b.x);
    lemma_sub_is_add_neg(a.y, b.y);
    lemma_sub_is_add_neg(a.z, b.z);
    lemma_sub_is_add_neg(a.w, b.w);
}

} // verus!
