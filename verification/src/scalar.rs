//! A binary32 number held by its bit pattern, with arithmetic on integers.
use vstd::prelude::*;
use vstd::arithmetic::power2::{pow2, lemma2_to64, lemma_pow2_adds, lemma_pow2_pos};
use crate::ieee::{
    Value,
    decode,
    encode,
    exponent_of,
    fraction_of,
    sign_of,
    round_ratio,
    value_abs,
    value_add,
    value_eq,
    value_le,
    value_lt,
    value_mul,
    value_neg,
    value_sub,
};
use crate::round::{
    approximates,
    lemma_approximates_exact,
    lemma_order_key,
    lemma_decode_finite,
    lemma_encode_decode,
    lemma_magnitude_order,
    lemma_pow2_le,
    lemma_round_zero,
    pow2_u64,
    round_dyadic,
    scale_of,
    significand_of,
};

verus! {

/// An IEEE 754 binary32 number. The field is its bit pattern, as `to_bits` of
/// the machine type gives it.
#[derive(Clone, Copy, Debug)]
pub struct Scalar {
    pub bits: u32,
}

impl View for Scalar {
    type V = Value;

    open spec fn view(&self) -> Value {
        decode(self.bits)
    }
}

pub const ZERO_BITS: u32 = 0;

pub const ONE_BITS: u32 = 0x3F80_0000;

pub const NAN_BITS: u32 = 0x7FC0_0000;

pub const INFINITY_BITS: u32 = 0x7F80_0000;

pub const SIGN_BIT: u32 = 0x8000_0000;

impl Scalar {
    /// The scalar that stands for `v`.
    pub open spec fn of(v: Value) -> Scalar {
        Scalar { bits: encode(v) }
    }

    /// The bit pattern with the sign bit flipped.
    pub open spec fn neg_spec(self) -> Scalar {
        Scalar {
            bits: if self.bits >= 0x8000_0000 {
                (self.bits - 0x8000_0000) as u32
            } else {
                (self.bits + 0x8000_0000) as u32
            },
        }
    }

    /// The bit pattern with the sign bit cleared.
    pub open spec fn abs_spec(self) -> Scalar {
        Scalar { bits: self.bits % 0x8000_0000 }
    }

    /// The scalar that stands for the product.
    pub open spec fn mul_spec(self, rhs: Scalar) -> Scalar {
        Scalar::of(value_mul(self@, rhs@))
    }

    /// The number with the bit pattern given.
    pub fn from_bits(bits: u32) -> (r: Scalar)
        ensures
            r.bits == bits,
    {
        Scalar { bits }
    }

    /// The bit pattern of the number.
    pub fn to_bits(self) -> (r: u32)
        ensures
            r == self.bits,
    {
        self.bits
    }

    /// The positive zero.
    pub fn zero() -> (r: Scalar)
        ensures
            r.bits == ZERO_BITS,
            r@ == (Value::Finite { negative: false, mag: 0 }),
    {
        Scalar { bits: ZERO_BITS }
    }

    /// The number one.
    pub fn one() -> (r: Scalar)
        ensures
            r.bits == ONE_BITS,
            r@ == (Value::Finite { negative: false, mag: pow2(149) }),
    {
        proof {
            lemma2_to64();
            lemma_pow2_adds(23, 126);
        }
        Scalar { bits: ONE_BITS }
    }

    /// The quiet NaN with an empty payload.
    pub fn nan() -> (r: Scalar)
        ensures
            r == Scalar::of(Value::Nan),
            r@ == Value::Nan,
    {
        proof {
            reveal(encode);
        }
        Scalar { bits: NAN_BITS }
    }

    /// The infinity of the sign given.
    pub fn infinity(negative: bool) -> (r: Scalar)
        ensures
            r == Scalar::of(Value::Infinite { negative }),
            r@ == (Value::Infinite { negative }),
    {
        proof {
            reveal(encode);
        }
        if negative {
            Scalar { bits: SIGN_BIT + INFINITY_BITS }
        } else {
            Scalar { bits: INFINITY_BITS }
        }
    }

    /// The zero of the sign given.
    pub fn signed_zero(negative: bool) -> (r: Scalar)
        ensures
            r@ == (Value::Finite { negative, mag: 0 }),
            r == Scalar::of(r@),
    {
        let r = if negative {
            Scalar { bits: SIGN_BIT }
        } else {
            Scalar { bits: ZERO_BITS }
        };
        proof {
            lemma_encode_decode(r.bits);
        }
        r
    }

    /// Whether this is a NaN.
    pub fn is_nan(self) -> (r: bool)
        ensures
            r == self@.is_nan(),
    {
        self.bits % 0x8000_0000 > INFINITY_BITS
    }

    /// Whether this is one of the two infinities.
    pub fn is_infinite(self) -> (r: bool)
        ensures
            r == (self@ is Infinite),
    {
        self.bits % 0x8000_0000 == INFINITY_BITS
    }

    /// Whether this is a number other than the infinities.
    pub fn is_finite(self) -> (r: bool)
        ensures
            r == self@.is_finite(),
    {
        self.bits % 0x8000_0000 < INFINITY_BITS
    }

    /// Whether this is one of the two zeros.
    pub fn is_zero(self) -> (r: bool)
        ensures
            r == self@.is_zero(),
    {
        proof {
            if exponent_of(self.bits) != 255 {
                lemma_decode_finite(self.bits);
                let m = significand_of(self.bits) as int;
                let p = pow2(scale_of(self.bits)) as int;
                lemma_pow2_pos(scale_of(self.bits));
                assert(m * p == 0 <==> m == 0) by (nonlinear_arith)
                    requires
                        p > 0,
                        m >= 0,
                ;
            }
        }
        self.bits % 0x8000_0000 == 0
    }

    /// Whether the sign bit is set; it is set on negative zero too.
    pub fn is_sign_negative(self) -> (r: bool)
        ensures
            r == sign_of(self.bits),
            !self@.is_nan() ==> r == self@.is_negative(),
    {
        self.bits >= SIGN_BIT
    }

    /// Significand and scale of a finite number: it is `m * 2^k` steps of 2^-149.
    pub fn unpack(self) -> (r: (u32, u32))
        requires
            self@.is_finite(),
        ensures
            r.0 == significand_of(self.bits),
            r.1 == scale_of(self.bits),
            self@ == (Value::Finite { negative: sign_of(self.bits), mag: r.0 as nat * pow2(r.1 as nat) }),
            r.0 < 0x100_0000,
            r.1 <= 253,
            r.1 > 0 ==> r.0 >= 0x80_0000,
    {
        proof {
            lemma_decode_finite(self.bits);
        }
        let e: u32 = (self.bits % 0x8000_0000) / 0x80_0000;
        let f: u32 = self.bits % 0x80_0000;
        if e == 0 {
            (f, 0)
        } else {
            (f + 0x80_0000, e - 1)
        }
    }

    /// The number with the opposite sign.
    pub fn neg(self) -> (r: Scalar)
        ensures
            r == self.neg_spec(),
            r@ == value_neg(self@),
    {
        let r = if self.bits >= SIGN_BIT {
            Scalar { bits: self.bits - SIGN_BIT }
        } else {
            Scalar { bits: self.bits + SIGN_BIT }
        };
        assert(exponent_of(r.bits) == exponent_of(self.bits));
        assert(fraction_of(r.bits) == fraction_of(self.bits));
        r
    }

    /// The number without its sign.
    pub fn abs(self) -> (r: Scalar)
        ensures
            r == self.abs_spec(),
            r@ == value_abs(self@),
    {
        let r = Scalar { bits: self.bits % 0x8000_0000 };
        assert(exponent_of(r.bits) == exponent_of(self.bits));
        assert(fraction_of(r.bits) == fraction_of(self.bits));
        r
    }

    /// The product, correctly rounded.
    pub fn mul(self, rhs: Scalar) -> (r: Scalar)
        ensures
            r == self.mul_spec(rhs),
            r@ == value_mul(self@, rhs@),
    {
        proof {
            reveal(value_mul);
        }
        if self.is_nan() || rhs.is_nan() {
            return Scalar::nan();
        }
        let negative: bool = self.is_sign_negative() != rhs.is_sign_negative();
        if self.is_infinite() || rhs.is_infinite() {
            if self.is_zero() || rhs.is_zero() {
                return Scalar::nan();
            }
            return Scalar::infinity(negative);
        }
        let (ma, ka) = self.unpack();
        let (mb, kb) = rhs.unpack();
        proof {
            assert((ma as int) * (mb as int) < 0x1_0000_0000_0000) by (nonlinear_arith)
                requires
                    0 <= ma < 0x100_0000,
                    0 <= mb < 0x100_0000,
            ;
        }
        let q: u64 = (ma as u64) * (mb as u64);
        let ghost n: nat = (ma as nat * pow2(ka as nat)) * (mb as nat * pow2(kb as nat));
        let ghost d: nat = pow2(149);
        proof {
            let pa = pow2(ka as nat) as int;
            let pb = pow2(kb as nat) as int;
            let pd = pow2(149) as int;
            lemma_pow2_pos(149);
            lemma_pow2_adds(ka as nat, kb as nat);
            assert(q * (pa * pb) * pd == ((ma * pa) * (mb * pb)) * pd) by (nonlinear_arith)
                requires
                    q == ma * mb,
            {
                assert((ma * mb) * (pa * pb) == (ma * pa) * (mb * pb));
            }
            lemma_approximates_exact(n, d, q as nat, (ka + kb) as nat, 149);
        }
        round_dyadic(negative, q, ka + kb, 149, false, Ghost(n), Ghost(d))
    }
}


/// The sum or the difference of two magnitudes, each a significand scaled by a
/// power of two.
pub open spec fn combined(mx: u32, kx: u32, my: u32, ky: u32, subtract: bool) -> nat {
    if subtract {
        (mx * pow2(kx as nat) - my * pow2(ky as nat)) as nat
    } else {
        (mx * pow2(kx as nat) + my * pow2(ky as nat)) as nat
    }
}

/// The sum or difference of two finite magnitudes, the larger one first,
/// rounded and given the sign `negative`.
fn combine(negative: bool, mx: u32, kx: u32, my: u32, ky: u32, subtract: bool) -> (r: Scalar)
    requires
        mx < 0x100_0000,
        my < 0x100_0000,
        kx <= 253,
        kx > 0 ==> mx >= 0x80_0000,
        ky > 0 ==> my >= 0x80_0000,
        kx > ky || (kx == ky && mx >= my),
    ensures
        mx * pow2(kx as nat) >= my * pow2(ky as nat),
        r == Scalar::of(round_ratio(negative, combined(mx, kx, my, ky, subtract), 1)),
        r@ == round_ratio(negative, combined(mx, kx, my, ky, subtract), 1),
{
    let ghost px = pow2(kx as nat) as int;
    let ghost py = pow2(ky as nat) as int;
    let ghost n: nat = if subtract {
        (mx * px - my * py) as nat
    } else {
        (mx * px + my * py) as nat
    };
    proof {
        lemma2_to64();
        lemma_magnitude_order(mx as nat, kx as nat, my as nat, ky as nat);
        lemma_pow2_pos(ky as nat);
    }
    let delta: u32 = kx - ky;
    if delta <= 30 {
        let p: u64 = pow2_u64(delta);
        proof {
            lemma_pow2_le(delta as nat, 30);
            lemma_pow2_adds(delta as nat, ky as nat);
            assert(mx * p < 0x40_0000_0000_0000) by (nonlinear_arith)
                requires
                    0 <= mx < 0x100_0000,
                    0 < p <= 0x4000_0000,
            ;
            assert((mx * p) * py == mx * px) by (nonlinear_arith)
                requires
                    px == p * py,
            ;
            assert(mx * p >= my) by (nonlinear_arith)
                requires
                    (mx * p) * py >= my * py,
                    py > 0,
            ;
        }
        let big: u64 = (mx as u64) * p;
        let q: u64 = if subtract {
            big - my as u64
        } else {
            big + my as u64
        };
        proof {
            assert(q * py * 1 == n * pow2(0)) by (nonlinear_arith)
                requires
                    pow2(0) == 1,
                    big * py == mx * px,
                    subtract ==> q == big - my && n == mx * px - my * py,
                    !subtract ==> q == big + my && n == mx * px + my * py,
            ;
            lemma_approximates_exact(n, 1, q as nat, ky as nat, 0);
        }
        round_dyadic(negative, q, ky, 0, false, Ghost(n), Ghost(1))
    } else {
        let sticky: bool = my != 0;
        let q: u64 = if subtract && sticky {
            (mx as u64) * 8 - 1
        } else {
            (mx as u64) * 8
        };
        proof {
            let step = pow2((kx - 3) as nat) as int;
            lemma_pow2_adds(3, (kx - 3) as nat);
            lemma_pow2_adds(24, ky as nat);
            lemma_pow2_le((24 + ky) as nat, (kx - 3) as nat);
            assert(px == 8 * step);
            assert(my * py < step) by (nonlinear_arith)
                requires
                    my < 0x100_0000,
                    py > 0,
                    0x100_0000 * py <= step,
            ;
            assert(my * py > 0 <==> my != 0) by (nonlinear_arith)
                requires
                    py > 0,
                    my >= 0,
            ;
            assert(q * step * 1 == mx * px - (if subtract && sticky {
                step
            } else {
                0
            }) && (q + 1) * step * 1 == q * step * 1 + step) by (nonlinear_arith)
                requires
                    px == 8 * step,
                    q == mx * 8 - (if subtract && sticky {
                        1int
                    } else {
                        0int
                    }),
            ;
            assert(n * pow2(0) == n) by (nonlinear_arith)
                requires
                    pow2(0) == 1,
            ;
            assert(approximates(n, 1, q as nat, (kx - 3) as nat, 0, sticky));
        }
        round_dyadic(negative, q, kx - 3, 0, sticky, Ghost(n), Ghost(1))
    }
}

impl Scalar {
    /// The scalar that stands for the sum.
    pub open spec fn add_spec(self, rhs: Scalar) -> Scalar {
        Scalar::of(value_add(self@, rhs@))
    }

    /// The scalar that stands for the difference.
    pub open spec fn sub_spec(self, rhs: Scalar) -> Scalar {
        Scalar::of(value_sub(self@, rhs@))
    }

    /// The sum, correctly rounded.
    pub fn add(self, rhs: Scalar) -> (r: Scalar)
        ensures
            r == self.add_spec(rhs),
            r@ == value_add(self@, rhs@),
    {
        proof {
            reveal(value_add);
        }
        if self.is_nan() || rhs.is_nan() {
            return Scalar::nan();
        }
        let sa: bool = self.is_sign_negative();
        let sb: bool = rhs.is_sign_negative();
        if self.is_infinite() {
            if rhs.is_infinite() && sa != sb {
                return Scalar::nan();
            }
            return Scalar::infinity(sa);
        }
        if rhs.is_infinite() {
            return Scalar::infinity(sb);
        }
        let (ma, ka) = self.unpack();
        let (mb, kb) = rhs.unpack();
        let subtract: bool = sa != sb;
        if subtract && ma == mb && ka == kb {
            return Scalar::signed_zero(false);
        }
        proof {
            lemma_round_zero(sa, 1);
            lemma_pow2_pos(ka as nat);
            lemma_pow2_pos(kb as nat);
            let pa = pow2(ka as nat) as int;
            let pb = pow2(kb as nat) as int;
            assert(ma * pa >= 0 && mb * pb >= 0) by (nonlinear_arith)
                requires
                    pa > 0,
                    pb > 0,
                    ma >= 0,
                    mb >= 0,
            ;
            if ka > kb || (ka == kb && ma >= mb) {
                lemma_magnitude_order(ma as nat, ka as nat, mb as nat, kb as nat);
            } else {
                lemma_magnitude_order(mb as nat, kb as nat, ma as nat, ka as nat);
            }
        }
        if ka > kb || (ka == kb && ma >= mb) {
            combine(sa, ma, ka, mb, kb, subtract)
        } else {
            combine(sb, mb, kb, ma, ka, subtract)
        }
    }

    /// The difference, correctly rounded.
    pub fn sub(self, rhs: Scalar) -> (r: Scalar)
        ensures
            r == self.sub_spec(rhs),
            r@ == value_sub(self@, rhs@),
    {
        self.add(rhs.neg())
    }

    /// Whether this number is below the other.
    pub fn lt(self, rhs: Scalar) -> (r: bool)
        ensures
            r == value_lt(self@, rhs@),
    {
        if self.is_nan() || rhs.is_nan() {
            return false;
        }
        let x: u32 = self.bits % 0x8000_0000;
        let y: u32 = rhs.bits % 0x8000_0000;
        proof {
            lemma_order_key(self.bits, rhs.bits);
        }
        if self.bits >= SIGN_BIT {
            if rhs.bits >= SIGN_BIT {
                y < x
            } else {
                x != 0 || y != 0
            }
        } else {
            if rhs.bits >= SIGN_BIT {
                false
            } else {
                x < y
            }
        }
    }

    /// Whether the two numbers are equal; the two zeros are, and a NaN equals nothing.
    pub fn equals(self, rhs: Scalar) -> (r: bool)
        ensures
            r == value_eq(self@, rhs@),
    {
        if self.is_nan() || rhs.is_nan() {
            return false;
        }
        let x: u32 = self.bits % 0x8000_0000;
        let y: u32 = rhs.bits % 0x8000_0000;
        proof {
            lemma_order_key(self.bits, rhs.bits);
        }
        (x == 0 && y == 0) || self.bits == rhs.bits
    }

    /// Whether this number is below the other or equal to it.
    pub fn le(self, rhs: Scalar) -> (r: bool)
        ensures
            r == value_le(self@, rhs@),
    {
        self.lt(rhs) || self.equals(rhs)
    }
}

} // verus!
