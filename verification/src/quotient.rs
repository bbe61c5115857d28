//! Division of binary32 numbers.
use vstd::prelude::*;
use vstd::arithmetic::power2::{pow2, lemma2_to64, lemma_pow2_adds, lemma_pow2_pos};
use vstd::arithmetic::div_mod::lemma_fundamental_div_mod;
use crate::ieee::value_div;
use crate::round::{
    approximates,
    bit_length,
    lemma_pow2_le,
    lemma_round_zero,
    pow2_u64,
    round_dyadic,
};
use crate::scalar::Scalar;

verus! {

/// A significand shifted up until it has 24 bits, and the shift.
pub fn normalize_significand(m: u32) -> (r: (u32, u32))
    requires
        0 < m < 0x100_0000,
    ensures
        r.0 == m * pow2(r.1 as nat),
        0x80_0000 <= r.0 < 0x100_0000,
        r.1 <= 23,
{
    let len: u32 = bit_length(m as u64);
    proof {
        lemma2_to64();
        if len > 24 {
            lemma_pow2_le(24, (len - 1) as nat);
        }
    }
    let shift: u32 = 24 - len;
    let p: u64 = pow2_u64(shift);
    proof {
        lemma_pow2_adds(len as nat, shift as nat);
        lemma_pow2_adds((len - 1) as nat, shift as nat);
        assert(pow2(((len - 1) as nat) + (shift as nat)) == pow2(23));
        assert(0x80_0000 <= m * p < 0x100_0000) by (nonlinear_arith)
            requires
                pow2((len - 1) as nat) <= m < pow2(len as nat),
                pow2(len as nat) * p == 0x100_0000,
                pow2((len - 1) as nat) * p == 0x80_0000,
                p > 0,
        ;
    }
    ((m as u64 * p) as u32, shift)
}

/// The quotient of two scaled significands, as `round_dyadic` wants it.
proof fn lemma_quotient_approximates(
    ma: nat,
    ka: nat,
    la: nat,
    mb: nat,
    kb: nat,
    lb: nat,
    q: nat,
    rem: nat,
)
    requires
        mb > 0,
        (ma * pow2(la)) * pow2(27) == q * (mb * pow2(lb)) + rem,
        rem < mb * pow2(lb),
    ensures
        approximates(
            (ma * pow2(ka)) * pow2(149),
            mb * pow2(kb),
            q,
            ka + lb + 149,
            kb + la + 27,
            rem != 0,
        ),
{
    let n = ((ma * pow2(ka)) * pow2(149)) as int;
    let d = (mb * pow2(kb)) as int;
    let pa = pow2(ka + lb + 149) as int;
    let pb = pow2(kb + la + 27) as int;
    let c = pow2(ka + 149 + kb) as int;
    let num = ((ma * pow2(la)) * pow2(27)) as int;
    let den = (mb * pow2(lb)) as int;
    lemma_pow2_pos(ka + 149 + kb);
    lemma_pow2_pos(kb);
    lemma_pow2_pos(lb);
    // pa * d == den * c
    let sl = pow2(lb) as int;
    let sm = pow2(ka + 149) as int;
    let sr = pow2(kb) as int;
    lemma_pow2_adds(lb, ka + 149);
    lemma_pow2_adds(ka + 149, kb);
    assert(pa == sl * sm);
    assert(c == sm * sr);
    assert(pa * d == den * c) by (nonlinear_arith)
        requires
            pa == sl * sm,
            c == sm * sr,
            d == mb * sr,
            den == mb * sl,
    {
        assert((sl * sm) * (mb * sr) == (mb * sl) * (sm * sr));
    }
    // n * pb == num * c
    let fa = pow2(ka) as int;
    let fb = pow2(149) as int;
    let fc = pow2(la) as int;
    let fd = pow2(27) as int;
    lemma_pow2_adds(ka, 149);
    lemma_pow2_adds(la, 27);
    lemma_pow2_adds(kb, la + 27);
    let tail = pow2(la + 27) as int;
    assert(sm == fa * fb);
    assert(tail == fc * fd);
    assert(pb == sr * tail);
    let x = ma * fa;
    let y = ma * fc;
    assert(n * pb == num * c) by (nonlinear_arith)
        requires
            n == (ma * fa) * fb,
            num == (ma * fc) * fd,
            pb == sr * (fc * fd),
            c == (fa * fb) * sr,
    {
        assert(n * pb == ma * ((fa * fb) * (sr * (fc * fd))));
        assert(num * c == ma * ((fc * fd) * ((fa * fb) * sr)));
        assert((fa * fb) * (sr * (fc * fd)) == (fc * fd) * ((fa * fb) * sr));
    }
    assert(den > 0) by (nonlinear_arith)
        requires
            den == mb * sl,
            mb > 0,
            sl > 0,
    ;
    assert(d > 0) by (nonlinear_arith)
        requires
            d == mb * sr,
            mb > 0,
            sr > 0,
    ;
    assert(q * pa * d == (q * den) * c && (q + 1) * pa * d == (q * den + den) * c)
        by (nonlinear_arith)
        requires
            pa * d == den * c,
    {
        assert(q * pa * d == q * (pa * d));
        assert((q + 1) * pa * d == (q + 1) * (pa * d));
    }
    assert((q * den) * c <= num * c < (q * den + den) * c && (rem != 0 <==> (q * den) * c != num
        * c)) by (nonlinear_arith)
        requires
            num == q * den + rem,
            0 <= rem < den,
            c > 0,
    {
        assert(num * c == (q * den) * c + rem * c);
        assert((q * den + den) * c == (q * den) * c + den * c);
        assert(rem * c < den * c);
        assert(rem > 0 ==> rem * c > 0);
    }
}

impl Scalar {
    /// The scalar that stands for the quotient.
    pub open spec fn div_spec(self, rhs: Scalar) -> Scalar {
        Scalar::of(value_div(self@, rhs@))
    }

    /// The quotient, correctly rounded. A zero divisor gives an infinity, or a
    /// NaN when the dividend is zero too.
    pub fn div(self, rhs: Scalar) -> (r: Scalar)
        ensures
            r == self.div_spec(rhs),
            r@ == value_div(self@, rhs@),
    {
        proof {
            reveal(value_div);
        }
        if self.is_nan() || rhs.is_nan() {
            return Scalar::nan();
        }
        let negative: bool = self.is_sign_negative() != rhs.is_sign_negative();
        if self.is_infinite() {
            if rhs.is_infinite() {
                return Scalar::nan();
            }
            return Scalar::infinity(negative);
        }
        if rhs.is_infinite() {
            return Scalar::signed_zero(negative);
        }
        if rhs.is_zero() {
            if self.is_zero() {
                return Scalar::nan();
            }
            return Scalar::infinity(negative);
        }
        let (ma, ka) = self.unpack();
        let (mb, kb) = rhs.unpack();
        proof {
            lemma2_to64();
            lemma_pow2_pos(ka as nat);
            lemma_pow2_pos(kb as nat);
            let pa = pow2(ka as nat) as int;
            let pb = pow2(kb as nat) as int;
            assert((ma * pa == 0 <==> ma == 0) && (mb * pb == 0 <==> mb == 0)) by (nonlinear_arith)
                requires
                    pa > 0,
                    pb > 0,
                    ma >= 0,
                    mb >= 0,
            ;
        }
        if ma == 0 {
            proof {
                assert(0 * pow2(149) == 0) by (nonlinear_arith);
                lemma_round_zero(negative, mb as nat * pow2(kb as nat));
            }
            return Scalar::signed_zero(negative);
        }
        let (na, la) = normalize_significand(ma);
        let (nb, lb) = normalize_significand(mb);
        let num: u64 = (na as u64) * 0x800_0000;
        let q: u64 = num / (nb as u64);
        let rem: u64 = num % (nb as u64);
        proof {
            lemma_fundamental_div_mod(num as int, nb as int);
            assert(num == q * nb + rem) by (nonlinear_arith)
                requires
                    num == nb * q + rem,
            ;
            assert(0x400_0000 <= q <= 0x1000_0000) by (nonlinear_arith)
                requires
                    num == q * nb + rem,
                    0 <= rem < nb,
                    0x80_0000 <= nb < 0x100_0000,
                    0x400_0000_0000 * 0x100 <= num,
                    num < 0x1000_0000 * 0x80_0000,
            ;
            lemma_quotient_approximates(
                ma as nat,
                ka as nat,
                la as nat,
                mb as nat,
                kb as nat,
                lb as nat,
                q as nat,
                rem as nat,
            );
        }
        round_dyadic(
            negative,
            q,
            ka + lb + 149,
            kb + la + 27,
            rem != 0,
            Ghost((ma as nat * pow2(ka as nat)) * pow2(149)),
            Ghost(mb as nat * pow2(kb as nat)),
        )
    }
}

} // verus!
