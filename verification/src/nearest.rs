//! That `rounded` is what the standard asks for: the nearest number that has
//! a significand of 24 bits, of two nearest ones the even one, and an infinity
//! from half a step above the largest finite number on.
use vstd::prelude::*;
use vstd::arithmetic::power2::{pow2, lemma2_to64, lemma_pow2_adds, lemma_pow2_pos};
use vstd::arithmetic::div_mod::{lemma_fundamental_div_mod, lemma_mod_pos_bound};
use crate::ieee::{binade, nearest_even, round_ratio, rounded};
use crate::round::{lemma_binade_bounds, lemma_pow2_le, lemma_scaled_le};

verus! {

/// How far the magnitude `f` lies from the quotient `n / d`, in units of `1 / d`.
pub open spec fn distance(n: nat, d: nat, f: nat) -> nat {
    vstd::math::abs(n - f * d) as nat
}

/// The significand that `rounded` arrives at.
pub open spec fn rounded_significand(n: nat, d: nat) -> nat {
    let ulp = d * pow2(binade(n, d));
    nearest_even((2 * n) / ulp, (2 * n) % ulp == 0)
}

/// The parts of `rounded`: the step `ulp` of the binade (times `d`), the count
/// `t` of half steps below the quotient, and what is left over.
pub proof fn lemma_rounded_parts(n: nat, d: nat) -> (r: (int, int, int))
    requires
        d > 0,
    ensures
        ({
            let (ulp, t, rem) = r;
            let m = rounded_significand(n, d);
            &&& ulp == d * pow2(binade(n, d))
            &&& ulp > 0
            &&& t == (2 * n) as int / ulp
            &&& rem == (2 * n) as int % ulp
            &&& 2 * n == t * ulp + rem
            &&& 0 <= rem < ulp
            &&& 0 <= t < 0x200_0000
            &&& binade(n, d) > 0 ==> t >= 0x100_0000
            &&& m == nearest_even(t as nat, rem == 0)
            &&& rounded(n, d) == m * pow2(binade(n, d))
            &&& rounded(n, d) * d == m * ulp
            &&& m <= 0x100_0000
            &&& binade(n, d) > 0 ==> m >= 0x80_0000
        }),
{
    let k = binade(n, d);
    let ulp = (d * pow2(k)) as int;
    let t = (2 * n) as int / ulp;
    let rem = (2 * n) as int % ulp;
    let m = rounded_significand(n, d);
    lemma_binade_bounds(n, d);
    lemma_pow2_pos(k);
    lemma_pow2_adds(24, k);
    lemma_pow2_adds(23, k);
    lemma2_to64();
    assert(ulp > 0 && d * pow2(24 + k) == 0x100_0000 * ulp && d * pow2(23 + k) == 0x80_0000 * ulp)
        by (nonlinear_arith)
        requires
            ulp == d * pow2(k),
            d > 0,
            pow2(k) > 0,
            pow2(24 + k) == 0x100_0000 * pow2(k),
            pow2(23 + k) == 0x80_0000 * pow2(k),
    ;
    lemma_fundamental_div_mod((2 * n) as int, ulp);
    lemma_mod_pos_bound((2 * n) as int, ulp);
    assert(2 * n == t * ulp + rem) by (nonlinear_arith)
        requires
            2 * n == ulp * t + rem,
    ;
    assert(0 <= t < 0x200_0000 && (k > 0 ==> t >= 0x100_0000)) by (nonlinear_arith)
        requires
            2 * n == t * ulp + rem,
            0 <= rem < ulp,
            n < 0x100_0000 * ulp,
            k > 0 ==> n >= 0x80_0000 * ulp,
            ulp > 0,
    ;
    assert((m * pow2(k)) * d == m * ulp) by (nonlinear_arith)
        requires
            ulp == d * pow2(k),
    ;
    (ulp, t, rem)
}

/// The rounded number lies within half a step of its binade from the quotient.
pub proof fn lemma_rounded_within_half_step(n: nat, d: nat)
    requires
        d > 0,
    ensures
        2 * distance(n, d, rounded(n, d)) <= d * pow2(binade(n, d)),
{
    let (ulp, t, rem) = lemma_rounded_parts(n, d);
    let m = rounded_significand(n, d) as int;
    assert(2 * (n - m * ulp) == (t - 2 * m) * ulp + rem) by (nonlinear_arith)
        requires
            2 * n == t * ulp + rem,
    ;
    lemma_step_multiples(t - 2 * m, ulp);
}

proof fn lemma_step_multiples(c: int, ulp: int)
    ensures
        c == 0 ==> c * ulp == 0,
        c == 1 ==> c * ulp == ulp,
        c == -1 ==> c * ulp == -ulp,
{
    assert(0 * ulp == 0 && 1 * ulp == ulp && (-1) * ulp == -ulp) by (nonlinear_arith);
}

/// No multiple of the step of its binade is nearer to the quotient than the
/// rounded number is.
pub proof fn lemma_rounded_nearest_in_binade(n: nat, d: nat, j: nat)
    requires
        d > 0,
    ensures
        distance(n, d, rounded(n, d)) <= distance(n, d, j * pow2(binade(n, d))),
{
    let (ulp, t, rem) = lemma_rounded_parts(n, d);
    let m = rounded_significand(n, d) as int;
    let k = binade(n, d);
    lemma_rounded_within_half_step(n, d);
    assert((j * pow2(k)) * d == j * ulp) by (nonlinear_arith)
        requires
            ulp == d * pow2(k),
    ;
    if j != m {
        let a = n - m * ulp;
        let b = n - j * ulp;
        assert(a - b == (j - m) * ulp) by (nonlinear_arith)
            requires
                a == n - m * ulp,
                b == n - j * ulp,
        ;
        assert((j - m) * ulp >= ulp || (j - m) * ulp <= -ulp) by (nonlinear_arith)
            requires
                j != m,
                ulp > 0,
        ;
    }
}

/// No number with a significand of 24 bits, in whatever binade, is nearer to
/// the quotient than the rounded number is.
pub proof fn lemma_rounded_is_nearest(n: nat, d: nat, m: nat, k: nat)
    requires
        d > 0,
        m < 0x100_0000,
    ensures
        distance(n, d, rounded(n, d)) <= distance(n, d, m * pow2(k)),
{
    let kb = binade(n, d);
    lemma2_to64();
    if k >= kb {
        lemma_pow2_adds((k - kb) as nat, kb);
        let j = m * pow2((k - kb) as nat);
        assert(j * pow2(kb) == m * pow2(k)) by (nonlinear_arith)
            requires
                j == m * pow2((k - kb) as nat),
                pow2(k) == pow2((k - kb) as nat) * pow2(kb),
        ;
        lemma_rounded_nearest_in_binade(n, d, j);
    } else {
        // The number lies below the binade of the quotient, and so does not
        // come nearer than the lower end of that binade does.
        let low = 0x80_0000 * pow2(kb);
        let f = m * pow2(k);
        lemma_binade_bounds(n, d);
        lemma_pow2_adds(23, kb);
        lemma_scaled_le(m, k, 0x100_0000, k);
        lemma_pow2_adds(24, k);
        lemma_pow2_le(24 + k, 23 + kb);
        assert(f <= low);
        assert(f * d <= low * d && low * d == d * pow2(23 + kb)) by (nonlinear_arith)
            requires
                f <= low,
                low == pow2(23 + kb),
                d > 0,
        ;
        lemma_rounded_nearest_in_binade(n, d, 0x80_0000);
    }
}

/// Where another multiple of the step is as near to the quotient as the
/// rounded number, the rounded number has the even significand.
pub proof fn lemma_rounded_tie_is_even(n: nat, d: nat, j: nat)
    requires
        d > 0,
        j * pow2(binade(n, d)) != rounded(n, d),
        distance(n, d, j * pow2(binade(n, d))) == distance(n, d, rounded(n, d)),
    ensures
        rounded_significand(n, d) % 2 == 0,
        rounded(n, d) == rounded_significand(n, d) * pow2(binade(n, d)),
{
    let (ulp, t, rem) = lemma_rounded_parts(n, d);
    let m = rounded_significand(n, d) as int;
    let k = binade(n, d);
    lemma_rounded_within_half_step(n, d);
    assert((j * pow2(k)) * d == j * ulp) by (nonlinear_arith)
        requires
            ulp == d * pow2(k),
    ;
    assert(j != m);
    let a = n - m * ulp;
    let b = n - j * ulp;
    assert(a - b == (j - m) * ulp) by (nonlinear_arith)
            requires
                a == n - m * ulp,
                b == n - j * ulp,
        ;
    assert((j - m) * ulp >= ulp || (j - m) * ulp <= -ulp) by (nonlinear_arith)
        requires
            j != m,
            ulp > 0,
    ;
    // Both lie half a step away, so the quotient is a whole number of half steps.
    assert(2 * a == ulp || 2 * a == -ulp);
    assert(2 * a == (t - 2 * m) * ulp + rem) by (nonlinear_arith)
        requires
            a == n - m * ulp,
            2 * n == t * ulp + rem,
    ;
    lemma_step_multiples(t - 2 * m, ulp);
}

/// The result is an infinity from half a step above the largest finite number
/// on, and finite below.
pub proof fn lemma_overflow_threshold(negative: bool, n: nat, d: nat)
    requires
        d > 0,
    ensures
        round_ratio(negative, n, d) is Infinite <==> n >= d * (0x1FF_FFFF * pow2(252)),
        round_ratio(negative, n, d) is Finite <==> n < d * (0x1FF_FFFF * pow2(252)),
{
    let (ulp, t, rem) = lemma_rounded_parts(n, d);
    let m = rounded_significand(n, d);
    let k = binade(n, d);
    let half = pow2(252) as int;
    lemma2_to64();
    lemma_pow2_pos(252);
    lemma_pow2_adds(1, 252);
    lemma_pow2_adds(24, 253);
    lemma_pow2_adds(23, 253);
    lemma_pow2_adds(24, 252);
    lemma_binade_bounds(n, d);
    assert(pow2(253) == 2 * half);
    assert(pow2(277) == 0x200_0000 * half);
    assert(pow2(276) == 0x100_0000 * half);
    let thr = d * (0x1FF_FFFF * half);
    if k > 253 {
        lemma_scaled_le(0x80_0000, 254, m, k);
        lemma_pow2_adds(23, 254);
        lemma_pow2_le(277, 23 + k);
        assert(n >= thr) by (nonlinear_arith)
            requires
                n >= d * pow2(23 + k),
                pow2(23 + k) >= 0x200_0000 * half,
                thr == d * (0x1FF_FFFF * half),
                d > 0,
                half > 0,
        ;
    } else if k < 253 {
        lemma_scaled_le(m, k, 0x100_0000, 252);
        lemma_pow2_le(24 + k, 276);
        assert(n < thr) by (nonlinear_arith)
            requires
                n < d * pow2(24 + k),
                pow2(24 + k) <= 0x100_0000 * half,
                thr == d * (0x1FF_FFFF * half),
                d > 0,
                half > 0,
        ;
    } else {
        assert(ulp == d * (2 * half));
        assert(thr * 2 == 0x1FF_FFFF * ulp) by (nonlinear_arith)
            requires
                ulp == d * (2 * half),
                thr == d * (0x1FF_FFFF * half),
        ;
        assert(n >= thr <==> t >= 0x1FF_FFFF) by (nonlinear_arith)
            requires
                2 * n == t * ulp + rem,
                0 <= rem < ulp,
                thr * 2 == 0x1FF_FFFF * ulp,
        ;
        assert(m * pow2(253) >= pow2(277) <==> m >= 0x100_0000) by (nonlinear_arith)
            requires
                pow2(253) == 2 * half,
                pow2(277) == 0x200_0000 * half,
                half > 0,
        ;
    }
}

} // verus!
