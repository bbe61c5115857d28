//! Rounding to the nearest binary32 value, and the facts about powers of two
//! and binades that the arithmetic rests on.
use vstd::prelude::*;
use vstd::arithmetic::power2::{
    pow2,
    lemma2_to64,
    lemma_pow2_adds,
    lemma_pow2_pos,
    lemma_pow2_strictly_increases,
    lemma_pow2_unfold,
};
use vstd::arithmetic::div_mod::{
    lemma_div_by_multiple,
    lemma_div_denominator,
    lemma_fundamental_div_mod,
    lemma_fundamental_div_mod_converse,
    lemma_small_div_converse,
};
use crate::ieee::{
    Value,
    binade,
    decode,
    encode,
    exponent_of,
    fraction_of,
    nearest_even,
    overflow_mag,
    round_at,
    round_ratio,
    sign_of,
};
use crate::scalar::{Scalar, INFINITY_BITS, SIGN_BIT};

verus! {

/// Each power of two is twice the one before.
pub proof fn lemma_pow2_double(e: nat)
    ensures
        pow2(e + 1) == 2 * pow2(e),
        pow2(e) > 0,
{
    lemma_pow2_unfold(e + 1);
    lemma_pow2_pos(e);
}

/// The powers of two grow with the exponent.
pub proof fn lemma_pow2_le(a: nat, b: nat)
    requires
        a <= b,
    ensures
        0 < pow2(a) <= pow2(b),
{
    lemma_pow2_pos(a);
    if a < b {
        lemma_pow2_strictly_increases(a, b);
    }
}

/// A product with a power of two is monotone in both factors.
pub proof fn lemma_scaled_le(x: nat, a: nat, y: nat, b: nat)
    requires
        x <= y,
        a <= b,
    ensures
        x * pow2(a) <= y * pow2(b),
{
    lemma_pow2_le(a, b);
    let p = pow2(a) as int;
    let q = pow2(b) as int;
    assert(x * p <= y * q) by (nonlinear_arith)
        requires
            0 <= x <= y,
            0 < p <= q,
    ;
}

/// `k` is the binade of `n / d` as soon as the quotient lies below `2^(24 + k)`
/// and, unless `k` is the lowest binade, at or above `2^(23 + k)`.
pub proof fn lemma_binade_unique(n: nat, d: nat, k: nat)
    requires
        d > 0,
        n < d * pow2(24 + k),
        k > 0 ==> n >= d * pow2(23 + k),
    ensures
        binade(n, d) == k,
    decreases k,
{
    lemma2_to64();
    if k > 0 {
        let low = pow2((22 + k) as nat) as int;
        let mid = pow2(23 + k) as int;
        let top = pow2(24 + k) as int;
        lemma_pow2_double((22 + k) as nat);
        lemma_pow2_double(23 + k);
        assert(mid == 2 * low);
        assert(top == 2 * mid);
        lemma_pow2_le(24, 23 + k);
        let d24 = d * 0x100_0000;
        assert(d24 <= d * mid) by (nonlinear_arith)
            requires
                d24 == d * 0x100_0000,
                0x100_0000 <= mid,
                d > 0,
        ;
        assert(d * top == 2 * (d * mid)) by (nonlinear_arith)
            requires
                top == 2 * mid,
        ;
        assert(d * mid == 2 * (d * low)) by (nonlinear_arith)
            requires
                mid == 2 * low,
        ;
        assert(pow2((24 + (k - 1)) as nat) == mid);
        assert(pow2((23 + (k - 1)) as nat) == low);
        lemma_binade_unique(n / 2, d, (k - 1) as nat);
    }
}

/// The binade of a quotient brackets it between two powers of two.
pub proof fn lemma_binade_bounds(n: nat, d: nat)
    requires
        d > 0,
    ensures
        n < d * pow2(24 + binade(n, d)),
        binade(n, d) > 0 ==> n >= d * pow2(23 + binade(n, d)),
    decreases n,
{
    lemma2_to64();
    if n >= d * 0x100_0000 {
        lemma_binade_bounds(n / 2, d);
        let k = binade(n / 2, d);
        let mid = pow2(24 + k) as int;
        let top = pow2(24 + (k + 1)) as int;
        lemma_pow2_double(24 + k);
        assert(top == 2 * mid);
        assert(d * top == 2 * (d * mid)) by (nonlinear_arith)
            requires
                top == 2 * mid,
        ;
        assert(pow2(23 + (k + 1)) == mid);
        if k > 0 {
            let low = pow2(23 + k) as int;
            lemma_pow2_double(23 + k);
            assert(d * mid == 2 * (d * low)) by (nonlinear_arith)
                requires
                    mid == 2 * low,
            ;
        }
    }
}

/// Unfolds `round_ratio` once the binade `k` and the count `t` of half steps
/// below the quotient are known.
pub proof fn lemma_round_ratio_at(negative: bool, n: nat, d: nat, k: nat, t: nat, exact: bool)
    requires
        d > 0,
        n < d * pow2(24 + k),
        k > 0 ==> n >= d * pow2(23 + k),
        t * (d * pow2(k)) <= 2 * n < (t + 1) * (d * pow2(k)),
        exact <==> 2 * n == t * (d * pow2(k)),
    ensures
        round_ratio(negative, n, d) == round_at(negative, k, t, exact),
{
    lemma_binade_unique(n, d, k);
    lemma_pow2_pos(k);
    let ulp = (d * pow2(k)) as int;
    assert(ulp > 0) by (nonlinear_arith)
        requires
            ulp == d * pow2(k),
            d > 0,
            pow2(k) > 0,
    ;
    let r = 2 * n - t * ulp;
    assert(r < ulp) by (nonlinear_arith)
        requires
            2 * n < (t + 1) * ulp,
            r == 2 * n - t * ulp,
    ;
    lemma_fundamental_div_mod_converse((2 * n) as int, ulp, t as int, r);
}


proof fn lemma_cancel_le(x: int, y: int, p: int)
    by (nonlinear_arith)
    requires
        p > 0,
        x * p <= y * p,
    ensures
        x <= y,
{
}

proof fn lemma_cancel_lt(x: int, y: int, p: int)
    by (nonlinear_arith)
    requires
        p > 0,
        x * p < y * p,
    ensures
        x < y,
{
}

/// The significand of a finite bit pattern, with the hidden bit of a normal number.
pub open spec fn significand_of(bits: u32) -> nat {
    if exponent_of(bits) == 0 {
        fraction_of(bits)
    } else {
        0x80_0000 + fraction_of(bits)
    }
}

/// The power of two that the significand of a finite bit pattern is scaled by,
/// in steps of 2^-149.
pub open spec fn scale_of(bits: u32) -> nat {
    if exponent_of(bits) == 0 {
        0
    } else {
        (exponent_of(bits) - 1) as nat
    }
}

/// A finite bit pattern stands for its significand times a power of two.
pub proof fn lemma_decode_finite(bits: u32)
    requires
        exponent_of(bits) != 255,
    ensures
        decode(bits) == (Value::Finite {
            negative: sign_of(bits),
            mag: significand_of(bits) * pow2(scale_of(bits)),
        }),
        significand_of(bits) < 0x100_0000,
        scale_of(bits) <= 253,
        scale_of(bits) > 0 ==> significand_of(bits) >= 0x80_0000,
{
    lemma2_to64();
    let f = fraction_of(bits);
    assert(f * pow2(0) == f) by (nonlinear_arith)
        requires
            pow2(0) == 1,
    ;
}

/// The bit pattern of a significand `m` in binade `k`, and the value it stands for.
pub proof fn lemma_finite_bits(negative: bool, m: nat, k: nat)
    requires
        k <= 253,
        m < 0x100_0000,
        k > 0 ==> m >= 0x80_0000,
    ensures
        k * 0x80_0000 + m < 0x7F80_0000,
        m * pow2(k) < overflow_mag(),
        encode(Value::Finite { negative, mag: m * pow2(k) }) == k * 0x80_0000 + m + (if negative {
            0x8000_0000int
        } else {
            0int
        }),
        decode(encode(Value::Finite { negative, mag: m * pow2(k) })) == (Value::Finite {
            negative,
            mag: m * pow2(k),
        }),
{
    reveal(encode);
    lemma2_to64();
    let mag = m * pow2(k);
    lemma_pow2_pos(k);
    // The magnitude stays below 2^277.
    lemma_scaled_le(m, k, 0xFF_FFFF, 253);
    lemma_pow2_adds(24, 253);
    lemma_pow2_pos(253);
    assert(0xFF_FFFF * pow2(253) < pow2(277)) by (nonlinear_arith)
        requires
            pow2(277) == 0x100_0000 * pow2(253),
            pow2(253) > 0,
    ;
    // Its binade is k, so encode finds m again.
    lemma_pow2_adds(24, k);
    lemma_pow2_adds(23, k);
    assert(mag < 1 * pow2(24 + k)) by (nonlinear_arith)
        requires
            mag == m * pow2(k),
            m < 0x100_0000,
            pow2(24 + k) == 0x100_0000 * pow2(k),
            pow2(k) > 0,
    ;
    if k > 0 {
        assert(mag >= 1 * pow2(23 + k)) by (nonlinear_arith)
            requires
                mag == m * pow2(k),
                m >= 0x80_0000,
                pow2(23 + k) == 0x80_0000 * pow2(k),
                pow2(k) > 0,
        ;
    }
    lemma_binade_unique(mag, 1, k);
    lemma_div_by_multiple(m as int, pow2(k) as int);
    assert(mag / pow2(k) == m);
    let low = k * 0x80_0000 + m;
    let bits = encode(Value::Finite { negative, mag });
    assert(bits == low + (if negative {
        0x8000_0000int
    } else {
        0int
    }));
    assert(bits % 0x8000_0000 == low);
    if m < 0x80_0000 {
        assert(k == 0);
        assert(exponent_of(bits) == 0);
        assert(fraction_of(bits) == m);
    } else {
        assert(exponent_of(bits) == k + 1);
        assert(fraction_of(bits) == m - 0x80_0000);
    }
}

/// Decoding loses nothing but the payload of a NaN.
pub proof fn lemma_encode_decode(bits: u32)
    requires
        !decode(bits).is_nan(),
    ensures
        encode(decode(bits)) == bits,
{
    reveal(encode);
    if exponent_of(bits) != 255 {
        lemma_decode_finite(bits);
        lemma_finite_bits(sign_of(bits), significand_of(bits), scale_of(bits));
    }
}

/// What rounding within a binade returns has a bit pattern of its own.
pub proof fn lemma_round_at_decodes(negative: bool, k: nat, t: nat, exact: bool)
    requires
        t < 0x200_0000,
        k > 0 ==> t >= 0x100_0000,
    ensures
        decode(encode(round_at(negative, k, t, exact))) == round_at(negative, k, t, exact),
{
    reveal(encode);
    let m = nearest_even(t, exact);
    lemma2_to64();
    if m * pow2(k) < overflow_mag() {
        if k >= 254 {
            lemma_scaled_le(0x80_0000, 254, m, k);
            lemma_pow2_adds(23, 254);
        } else if m == 0x100_0000 {
            lemma_pow2_adds(24, k);
            lemma_pow2_adds(23, k + 1);
            lemma_pow2_adds(24, 253);
            assert(m * pow2(k) == 0x80_0000 * pow2(k + 1));
            if k == 253 {
                assert(false);
            }
            lemma_finite_bits(negative, 0x80_0000, k + 1);
        } else {
            lemma_finite_bits(negative, m, k);
        }
    }
}

/// What rounding a quotient returns has a bit pattern of its own.
pub proof fn lemma_round_ratio_decodes(negative: bool, n: nat, d: nat)
    requires
        d > 0,
    ensures
        decode(encode(round_ratio(negative, n, d))) == round_ratio(negative, n, d),
{
    let k = binade(n, d);
    let ulp = (d * pow2(k)) as int;
    let t = (2 * n) as int / ulp;
    lemma_binade_bounds(n, d);
    lemma_pow2_pos(k);
    lemma_pow2_adds(24, k);
    lemma_pow2_adds(23, k);
    lemma2_to64();
    assert(ulp > 0 && d * pow2(24 + k) == 0x100_0000 * ulp && d * pow2(23 + k) == 0x80_0000 * ulp)
        by (nonlinear_arith)
        requires
            ulp == d * pow2(k),
            d > 0,
            pow2(k) > 0,
            pow2(24 + k) == 0x100_0000 * pow2(k),
            pow2(23 + k) == 0x80_0000 * pow2(k),
    ;
    lemma_fundamental_div_mod((2 * n) as int, ulp);
    assert(0 <= (2 * n) as int % ulp < ulp) by {
        vstd::arithmetic::div_mod::lemma_mod_pos_bound((2 * n) as int, ulp);
    }
    assert(0 <= t < 0x200_0000 && (k > 0 ==> t >= 0x100_0000)) by (nonlinear_arith)
        requires
            2 * n == ulp * t + (2 * n) as int % ulp,
            0 <= (2 * n) as int % ulp < ulp,
            n < 0x100_0000 * ulp,
            k > 0 ==> n >= 0x80_0000 * ulp,
            ulp > 0,
    ;
    lemma_round_at_decodes(negative, k, t as nat, (2 * n) as int % ulp == 0);
}

/// Two to the power `k`.
pub fn pow2_u64(k: u32) -> (r: u64)
    requires
        k < 64,
    ensures
        r == pow2(k as nat),
{
    proof {
        vstd::bits::lemma_u64_pow2_no_overflow(k as nat);
        vstd::bits::lemma_u64_shl_is_mul(1, k as u64);
    }
    1u64 << (k as u64)
}

/// The number of bits of `q`: the least `l` with `q < 2^l`.
pub fn bit_length(q: u64) -> (l: u32)
    ensures
        l <= 64,
        q < pow2(l as nat),
        l > 0 ==> q >= pow2((l - 1) as nat),
{
    let mut l: u32 = 0;
    let mut rest: u64 = q;
    proof {
        lemma2_to64();
    }
    while rest > 0
        invariant
            l <= 64,
            rest == q as nat / pow2(l as nat),
            l > 0 ==> q >= pow2((l - 1) as nat),
        decreases rest,
    {
        proof {
            let p = pow2(l as nat) as int;
            lemma_pow2_double(l as nat);
            lemma_fundamental_div_mod(q as int, p);
            assert(q >= p) by (nonlinear_arith)
                requires
                    q == p * (q as int / p) + (q as int % p),
                    q as int / p >= 1,
                    q as int % p >= 0,
                    p > 0,
            ;
            lemma_div_denominator(q as int, p, 2);
            if l == 64 {
                vstd::arithmetic::power2::lemma2_to64_rest();
            }
        }
        rest = rest / 2;
        l = l + 1;
    }
    proof {
        lemma_pow2_pos(l as nat);
        lemma_small_div_converse(q as int, pow2(l as nat) as int);
    }
    l
}

/// Assembles the value of binade `k` nearest to a number given by `t` half
/// steps, saturating to an infinity.
pub fn pack(negative: bool, k: u32, t: u32, exact: bool) -> (r: Scalar)
    requires
        t < 0x200_0000,
        k > 0 ==> t >= 0x100_0000,
    ensures
        r == Scalar::of(round_at(negative, k as nat, t as nat, exact)),
{
    let base: u32 = t / 2;
    let up: bool = t % 2 == 1 && (!exact || base % 2 == 1);
    let m: u32 = if up {
        base + 1
    } else {
        base
    };
    let sign: u32 = if negative {
        SIGN_BIT
    } else {
        0
    };
    assert(m == nearest_even(t as nat, exact));
    proof {
        reveal(encode);
        lemma2_to64();
        lemma_pow2_pos(k as nat);
    }
    if k >= 254 {
        proof {
            lemma_scaled_le(0x80_0000, 254, m as nat, k as nat);
            lemma_pow2_adds(23, 254);
        }
        return Scalar { bits: sign + INFINITY_BITS };
    }
    let low: u32 = k * 0x80_0000 + m;
    if low >= INFINITY_BITS {
        proof {
            assert(k == 253 && m == 0x100_0000);
            lemma_pow2_adds(24, 253);
        }
        Scalar { bits: sign + INFINITY_BITS }
    } else {
        proof {
            if m == 0x100_0000 {
                lemma_pow2_adds(24, k as nat);
                lemma_pow2_adds(23, (k + 1) as nat);
                assert(m * pow2(k as nat) == 0x80_0000 * pow2((k + 1) as nat));
                lemma_finite_bits(negative, 0x80_0000, (k + 1) as nat);
            } else {
                lemma_finite_bits(negative, m as nat, k as nat);
            }
        }
        Scalar { bits: sign + low }
    }
}


/// Whether the dyadic number `q * 2^a / 2^b` is the quotient `n / d`, or
/// (`sticky`) lies below it by less than one step `2^a / 2^b`.
pub open spec fn approximates(n: nat, d: nat, q: nat, a: nat, b: nat, sticky: bool) -> bool {
    &&& d > 0
    &&& q * pow2(a) * d <= n * pow2(b)
    &&& n * pow2(b) < (q + 1) * pow2(a) * d
    &&& sticky <==> q * pow2(a) * d != n * pow2(b)
}

/// The value of `q * 2^a / 2^b` is the quotient `n / d` itself.
pub proof fn lemma_approximates_exact(n: nat, d: nat, q: nat, a: nat, b: nat)
    requires
        d > 0,
        q * pow2(a) * d == n * pow2(b),
    ensures
        approximates(n, d, q, a, b, false),
{
    let pa = pow2(a) as int;
    lemma_pow2_pos(a);
    assert((q + 1) * pa * d > q * pa * d) by (nonlinear_arith)
        requires
            pa > 0,
            d > 0,
    ;
}

proof fn lemma_coarser_bracket(nn: int, u: int, q: int, g: int, t: int, rem: int)
    by (nonlinear_arith)
    requires
        u > 0,
        g > 0,
        t >= 0,
        q == t * g + rem,
        0 <= rem < g,
        q * u <= nn < (q + 1) * u,
    ensures
        t * (g * u) <= nn < (t + 1) * (g * u),
        nn == t * (g * u) <==> rem == 0 && nn == q * u,
{
    assert(q * u == t * (g * u) + rem * u);
    assert(rem * u >= 0);
    assert((t + 1) * (g * u) == q * u + (g - rem) * u);
    assert((g - rem) * u >= u);
    assert(rem > 0 ==> rem * u > 0);
}

proof fn lemma_dyadic_binade(n: nat, d: nat, q: nat, a: nat, b: nat, len: nat, k: nat)
    requires
        d > 0,
        q * pow2(a) * d <= n * pow2(b),
        n * pow2(b) < (q + 1) * pow2(a) * d,
        len >= 1,
        pow2((len - 1) as nat) <= q < pow2(len),
        k + b + 24 >= len + a,
        k > 0 ==> k + b + 24 == len + a,
    ensures
        n < d * pow2(24 + k),
        k > 0 ==> n >= d * pow2(23 + k),
{
    let pa = pow2(a) as int;
    let pb = pow2(b) as int;
    let pl = pow2(len) as int;
    let top = pow2(24 + k) as int;
    lemma_pow2_pos(a);
    lemma_pow2_pos(b);
    lemma_pow2_adds(len, a);
    lemma_pow2_adds(24 + k, b);
    lemma_pow2_le(len + a, 24 + k + b);
    assert(n * pb < (d * top) * pb) by (nonlinear_arith)
        requires
            n * pb < (q + 1) * pa * d,
            q + 1 <= pl,
            pl * pa <= top * pb,
            d > 0,
            pa > 0,
    {
        assert((q + 1) * pa <= pl * pa);
        assert((q + 1) * pa * d <= (pl * pa) * d);
        assert((pl * pa) * d <= (top * pb) * d);
        assert((top * pb) * d == (d * top) * pb);
    }
    lemma_cancel_lt(n as int, d * top, pb);
    if k > 0 {
        let low = pow2((len - 1) as nat) as int;
        let mid = pow2(23 + k) as int;
        lemma_pow2_adds((len - 1) as nat, a);
        lemma_pow2_adds(23 + k, b);
        assert(pow2(((len - 1) as nat) + a) == pow2(23 + k + b));
        assert((d * mid) * pb <= n * pb) by (nonlinear_arith)
            requires
                q * pa * d <= n * pb,
                low <= q,
                low * pa == mid * pb,
                d > 0,
                pa > 0,
        {
            assert(low * pa <= q * pa);
            assert((low * pa) * d <= (q * pa) * d);
            assert((mid * pb) * d == (d * mid) * pb);
        }
        lemma_cancel_le(d * mid, n as int, pb);
    }
}

proof fn lemma_dyadic_coarser(
    n: nat,
    d: nat,
    q: nat,
    a: nat,
    b: nat,
    sticky: bool,
    k: nat,
    g: nat,
    t: nat,
    rem: nat,
)
    requires
        approximates(n, d, q, a, b, sticky),
        k + b == g + a + 1,
        q == t * pow2(g) + rem,
        rem < pow2(g),
    ensures
        t * (d * pow2(k)) <= 2 * n < (t + 1) * (d * pow2(k)),
        2 * n == t * (d * pow2(k)) <==> !sticky && rem == 0,
{
    let pa = pow2(a) as int;
    let pb = pow2(b) as int;
    let pg = pow2(g) as int;
    let pk = pow2(k) as int;
    lemma_pow2_pos(a);
    lemma_pow2_pos(b);
    lemma_pow2_pos(g);
    lemma_pow2_adds(k, b);
    lemma_pow2_adds(g, a);
    lemma_pow2_double(g + a);
    assert(pk * pb == 2 * (pg * pa));
    let u = pa * d;
    let nn = n * pb;
    let w = d * pk;
    assert(u > 0) by (nonlinear_arith)
        requires
            u == pa * d,
            pa > 0,
            d > 0,
    ;
    assert(q * u == q * pa * d && (q + 1) * u == (q + 1) * pa * d) by (nonlinear_arith)
        requires
            u == pa * d,
    ;
    lemma_coarser_bracket(nn, u, q as int, pg, t as int, rem as int);
    let c = pg * u;
    assert(w * pb == 2 * c) by (nonlinear_arith)
        requires
            pk * pb == 2 * (pg * pa),
            u == pa * d,
            w == d * pk,
            c == pg * u,
    {
        assert(w * pb == d * (pk * pb));
        assert(pg * (pa * d) == (pg * pa) * d);
    }
    assert((t * w) * pb == 2 * (t * c) && ((t + 1) * w) * pb == 2 * ((t + 1) * c)) by (nonlinear_arith)
        requires
            w * pb == 2 * c,
    {
        assert((t * w) * pb == t * (w * pb));
        assert(((t + 1) * w) * pb == (t + 1) * (w * pb));
    }
    assert((2 * n) * pb == 2 * nn) by (nonlinear_arith)
        requires
            nn == n * pb,
    ;
    lemma_cancel_le(t * w, (2 * n) as int, pb);
    lemma_cancel_lt((2 * n) as int, (t + 1) * w, pb);
    if 2 * n == t * w {
        assert(nn == t * c);
    }
    if nn == t * c {
        assert((2 * n) * pb == (t * w) * pb);
        lemma_cancel_le(t * w, (2 * n) as int, pb);
        lemma_cancel_le((2 * n) as int, t * w, pb);
    }
}

proof fn lemma_dyadic_finer(n: nat, d: nat, q: nat, a: nat, b: nat, k: nat, s: nat)
    requires
        approximates(n, d, q, a, b, false),
        a + 1 == k + b + s,
    ensures
        2 * n == (q * pow2(s)) * (d * pow2(k)),
{
    let pa = pow2(a) as int;
    let pb = pow2(b) as int;
    let ps = pow2(s) as int;
    let pk = pow2(k) as int;
    lemma_pow2_pos(b);
    lemma_pow2_double(a);
    lemma_pow2_adds(k, b);
    lemma_pow2_adds(s, k + b);
    assert(2 * pa == ps * (pk * pb));
    let lhs = (2 * n) as int;
    let rhs = (q * ps) * (d * pk);
    assert(rhs * pb == lhs * pb) by (nonlinear_arith)
        requires
            2 * pa == ps * (pk * pb),
            q * pa * d == n * pb,
            rhs == (q * ps) * (d * pk),
            lhs == 2 * n,
    {
        assert(rhs * pb == (q * d) * (ps * (pk * pb)));
        assert((q * d) * (2 * pa) == 2 * (q * pa * d));
    }
    lemma_cancel_le(lhs, rhs, pb);
    lemma_cancel_le(rhs, lhs, pb);
}

/// Rounds the quotient `n / d` from a dyadic number that approximates it: `q`
/// scaled up by `2^a` and down by `2^b`, with `sticky` set when the quotient
/// lies strictly above it.
pub(crate) fn round_dyadic(
    negative: bool,
    q: u64,
    a: u32,
    b: u32,
    sticky: bool,
    Ghost(n): Ghost<nat>,
    Ghost(d): Ghost<nat>,
) -> (r: Scalar)
    requires
        approximates(n, d, q as nat, a as nat, b as nat, sticky),
        q < 0x4000_0000_0000_0000,
        a <= 1000,
        b <= 1000,
        sticky ==> q >= 0x200_0000,
    ensures
        r == Scalar::of(round_ratio(negative, n, d)),
        r@ == round_ratio(negative, n, d),
{
    proof {
        lemma_round_ratio_decodes(negative, n, d);
        lemma2_to64();
        vstd::arithmetic::power2::lemma2_to64_rest();
        lemma_pow2_pos(a as nat);
        lemma_pow2_pos(b as nat);
    }
    if q == 0 {
        proof {
            let pb = pow2(b as nat) as int;
            assert(0 * pow2(a as nat) * d == 0) by (nonlinear_arith);
            assert(n == 0) by (nonlinear_arith)
                requires
                    n * pb == 0,
                    pb > 0,
            ;
            assert(0 * (d * pow2(0)) == 0) by (nonlinear_arith);
            assert(1 * (d * pow2(0)) > 0) by (nonlinear_arith)
                requires
                    d > 0,
                    pow2(0) == 1,
            ;
            assert(0 < d * pow2(24)) by (nonlinear_arith)
                requires
                    d > 0,
                    pow2(24) > 0,
            ;
            lemma_round_ratio_at(negative, 0, d, 0, 0, true);
        }
        return pack(negative, 0, 0, true);
    }
    let len: u32 = bit_length(q);
    proof {
        if len > 62 {
            lemma_pow2_le(62, (len - 1) as nat);
        }
        if sticky && len < 26 {
            lemma_pow2_le(len as nat, 25);
        }
    }
    assert(1 <= len <= 62);
    assert(sticky ==> len >= 26);
    let k: u32 = if len + a > b + 24 {
        len + a - b - 24
    } else {
        0
    };
    proof {
        lemma_dyadic_binade(n, d, q as nat, a as nat, b as nat, len as nat, k as nat);
    }
    let t: u64;
    let exact: bool;
    if k + b >= a + 1 {
        let g: u32 = k + b - a - 1;
        let ghost rem: nat;
        if g >= 63 {
            t = 0;
            exact = false;
            proof {
                rem = q as nat;
                lemma_pow2_le(62, g as nat);
                assert(q == 0 * pow2(g as nat) + rem) by (nonlinear_arith)
                    requires
                        rem == q,
                ;
            }
        } else {
            let p: u64 = pow2_u64(g);
            t = q / p;
            exact = !sticky && q % p == 0;
            proof {
                rem = (q % p) as nat;
                lemma_fundamental_div_mod(q as int, p as int);
                assert(q == t * pow2(g as nat) + rem) by (nonlinear_arith)
                    requires
                        q == p * (q / p) + (q % p),
                        t == q / p,
                        rem == q % p,
                        p == pow2(g as nat),
                ;
            }
        }
        proof {
            let pg = pow2(g as nat) as int;
            lemma_pow2_pos(g as nat);
            lemma_dyadic_coarser(
                n,
                d,
                q as nat,
                a as nat,
                b as nat,
                sticky,
                k as nat,
                g as nat,
                t as nat,
                rem,
            );
            // The count of half steps has at most 25 bits, and exactly 25 above the lowest binade.
            if len >= 25 {
                lemma_pow2_adds(25, g as nat);
                lemma_pow2_le(len as nat, (25 + g) as nat);
                assert(t < 0x200_0000) by (nonlinear_arith)
                    requires
                        q == t * pg + rem,
                        q < 0x200_0000 * pg,
                        pg > 0,
                ;
            } else {
                lemma_pow2_le(len as nat, 25);
                assert(t <= q) by (nonlinear_arith)
                    requires
                        q == t * pg + rem,
                        pg > 0,
                        t >= 0,
                ;
            }
            if k > 0 {
                lemma_pow2_adds(24, g as nat);
                assert(pow2((len - 1) as nat) == pow2((24 + g) as nat));
                assert(t >= 0x100_0000) by (nonlinear_arith)
                    requires
                        q == t * pg + rem,
                        rem < pg,
                        q >= 0x100_0000 * pg,
                        pg > 0,
                ;
            }
            lemma_round_ratio_at(negative, n, d, k as nat, t as nat, exact);
        }
    } else {
        let s: u32 = a + 1 - k - b;
        assert(!sticky);
        proof {
            let ps = pow2(s as nat) as int;
            lemma_pow2_pos(s as nat);
            lemma_pow2_adds(len as nat, s as nat);
            lemma_pow2_le((len + s) as nat, 25);
            assert(q * ps < 0x200_0000) by (nonlinear_arith)
                requires
                    q < pow2(len as nat),
                    pow2(len as nat) * ps <= 0x200_0000,
                    ps > 0,
            ;
            lemma_pow2_le(s as nat, 25);
        }
        let p: u64 = pow2_u64(s);
        t = q * p;
        exact = true;
        proof {
            let ps = pow2(s as nat) as int;
            let w = (d * pow2(k as nat)) as int;
            lemma_pow2_pos(k as nat);
            lemma_dyadic_finer(n, d, q as nat, a as nat, b as nat, k as nat, s as nat);
            assert(w > 0) by (nonlinear_arith)
                requires
                    w == d * pow2(k as nat),
                    d > 0,
                    pow2(k as nat) > 0,
            ;
            assert((t + 1) * w > t * w) by (nonlinear_arith)
                requires
                    w > 0,
            ;
            if k > 0 {
                lemma_pow2_adds((len - 1) as nat, s as nat);
                assert(pow2(((len - 1) as nat) + (s as nat)) == pow2(24));
                assert(q * ps >= 0x100_0000) by (nonlinear_arith)
                    requires
                        q >= pow2((len - 1) as nat),
                        pow2((len - 1) as nat) * ps == 0x100_0000,
                        ps > 0,
                ;
            }
            lemma_round_ratio_at(negative, n, d, k as nat, t as nat, exact);
        }
    }
    pack(negative, k, t as u32, exact)
}


/// Zero rounds to zero, with the sign it was given.
pub proof fn lemma_round_zero(negative: bool, d: nat)
    requires
        d > 0,
    ensures
        round_ratio(negative, 0, d) == (Value::Finite { negative, mag: 0 }),
{
    lemma2_to64();
    lemma_pow2_pos(277);
    assert(0 * (d * pow2(0)) == 0) by (nonlinear_arith);
    assert(1 * (d * pow2(0)) > 0) by (nonlinear_arith)
        requires
            d > 0,
            pow2(0) == 1,
    ;
    assert(0 < d * pow2(24)) by (nonlinear_arith)
        requires
            d > 0,
            pow2(24) > 0,
    ;
    lemma_round_ratio_at(negative, 0, d, 0, 0, true);
    assert(0 * pow2(0) == 0) by (nonlinear_arith);
}

/// Finite magnitudes are ordered as their scales and, within one scale, as
/// their significands.
pub proof fn lemma_magnitude_order(mx: nat, kx: nat, my: nat, ky: nat)
    requires
        my < 0x100_0000,
        kx > 0 ==> mx >= 0x80_0000,
        kx > ky || (kx == ky && mx >= my),
    ensures
        mx * pow2(kx) >= my * pow2(ky),
        mx != my || kx != ky ==> mx * pow2(kx) > my * pow2(ky),
{
    let px = pow2(kx) as int;
    let py = pow2(ky) as int;
    lemma_pow2_pos(ky);
    if kx == ky {
        assert(mx * px >= my * py && (mx != my ==> mx * px > my * py)) by (nonlinear_arith)
            requires
                px == py,
                py > 0,
                mx >= my,
        ;
    } else {
        lemma_pow2_le(ky + 1, kx);
        lemma_pow2_double(ky);
        assert(mx * px > my * py) by (nonlinear_arith)
            requires
                px >= 2 * py,
                py > 0,
                mx >= 0x80_0000,
                my < 0x100_0000,
        {
            assert(mx * px >= 0x80_0000 * px);
            assert(0x80_0000 * px >= 0x100_0000 * py);
            assert(0x100_0000 * py > my * py);
        }
    }
}

/// The bit pattern without its sign, as a number: it grows with the magnitude.
pub open spec fn abs_bits(bits: u32) -> nat {
    (bits % 0x8000_0000) as nat
}

/// Among numbers, the patterns without sign are ordered as the magnitudes are.
pub proof fn lemma_abs_bits_monotone(x: u32, y: u32)
    requires
        !decode(x).is_nan(),
        !decode(y).is_nan(),
        abs_bits(x) < abs_bits(y),
    ensures
        crate::ieee::value_abs(decode(x)).signed() < crate::ieee::value_abs(decode(y)).signed(),
{
    lemma_decode_finite(x);
    lemma_finite_bits(false, significand_of(x), scale_of(x));
    if exponent_of(y) != 255 {
        lemma_decode_finite(y);
        let kx = scale_of(x);
        let ky = scale_of(y);
        let mx = significand_of(x);
        let my = significand_of(y);
        assert(abs_bits(x) == kx * 0x80_0000 + mx);
        assert(abs_bits(y) == ky * 0x80_0000 + my);
        assert(ky > kx || (ky == kx && my >= mx));
        lemma_magnitude_order(my, ky, mx, kx);
    }
}


/// A number in whose order the bit patterns of numbers stand as their values do.
pub open spec fn order_key(bits: u32) -> int {
    if sign_of(bits) {
        -(abs_bits(bits) as int)
    } else {
        abs_bits(bits) as int
    }
}

/// Comparing the keys of two numbers compares their values.
pub proof fn lemma_order_key(x: u32, y: u32)
    requires
        !decode(x).is_nan(),
        !decode(y).is_nan(),
    ensures
        decode(x).signed() < decode(y).signed() <==> order_key(x) < order_key(y),
        decode(x).signed() == decode(y).signed() <==> order_key(x) == order_key(y),
{
    let mx = crate::ieee::value_abs(decode(x)).signed();
    let my = crate::ieee::value_abs(decode(y)).signed();
    lemma_pow2_pos(277);
    assert(decode(0u32) == (Value::Finite { negative: false, mag: 0 }));
    if abs_bits(x) > 0 {
        lemma_abs_bits_monotone(0u32, x);
    } else {
        assert(mx == 0);
    }
    if abs_bits(y) > 0 {
        lemma_abs_bits_monotone(0u32, y);
    } else {
        assert(my == 0);
    }
    if abs_bits(x) < abs_bits(y) {
        lemma_abs_bits_monotone(x, y);
    } else if abs_bits(y) < abs_bits(x) {
        lemma_abs_bits_monotone(y, x);
    } else {
        assert(exponent_of(x) == exponent_of(y) && fraction_of(x) == fraction_of(y));
        assert(mx == my);
    }
    assert(decode(x).signed() == if sign_of(x) {
        -mx
    } else {
        mx
    });
    assert(decode(y).signed() == if sign_of(y) {
        -my
    } else {
        my
    });
}

} // verus!
