//! The square root of a binary32 number.
use vstd::prelude::*;
use vstd::arithmetic::power2::{pow2, lemma2_to64, lemma_pow2_adds, lemma_pow2_pos};
use vstd::arithmetic::div_mod::{lemma_div_by_multiple, lemma_fundamental_div_mod, lemma_mod_pos_bound};
use crate::ieee::{
    decode,
    encode,
    floor_sqrt,
    is_floor_sqrt,
    nearest_even,
    round_sqrt,
    sqrt_binade,
    value_sqrt,
};
use crate::quotient::normalize_significand;
use crate::round::{lemma_pow2_double, lemma_pow2_le, lemma_round_at_decodes, pack, pow2_u64};
use crate::scalar::Scalar;

verus! {

/// Only one number is the square root rounded down.
pub proof fn lemma_floor_sqrt_unique(x: nat, r: nat)
    requires
        is_floor_sqrt(x, r),
    ensures
        floor_sqrt(x) == r,
{
    let c = floor_sqrt(x);
    assert(is_floor_sqrt(x, c));
    assert(c == r) by (nonlinear_arith)
        requires
            c * c <= x < (c + 1) * (c + 1),
            r * r <= x < (r + 1) * (r + 1),
    {
        if c < r {
            assert((c + 1) * (c + 1) <= r * r);
        }
        if r < c {
            assert((r + 1) * (r + 1) <= c * c);
        }
    }
}

/// `k` is the binade of the square root of `x` as soon as `x` lies below
/// `2^(48 + 2k)` and, unless `k` is the lowest binade, at or above `2^(46 + 2k)`.
pub proof fn lemma_sqrt_binade_unique(x: nat, k: nat)
    requires
        x < pow2(48 + 2 * k),
        k > 0 ==> x >= pow2(46 + 2 * k),
    ensures
        sqrt_binade(x) == k,
    decreases k,
{
    lemma2_to64();
    vstd::arithmetic::power2::lemma2_to64_rest();
    if k > 0 {
        lemma_pow2_adds(2, (44 + 2 * k) as nat);
        lemma_pow2_adds(2, 46 + 2 * k);
        lemma_pow2_le(48, 46 + 2 * k);
        assert(pow2((48 + 2 * (k - 1)) as nat) == pow2(46 + 2 * k));
        assert(pow2((46 + 2 * (k - 1)) as nat) == pow2((44 + 2 * k) as nat));
        lemma_sqrt_binade_unique(x / 4, (k - 1) as nat);
    }
}

/// The square root of `y`, rounded down.
pub fn isqrt(y: u64) -> (r: u64)
    requires
        y < 0x4_0000_0000_0000,
    ensures
        is_floor_sqrt(y as nat, r as nat),
        r < 0x200_0000,
{
    let mut r: u64 = 0;
    let mut i: u32 = 25;
    proof {
        lemma2_to64();
        assert(0x200_0000 * 0x200_0000 == 0x4_0000_0000_0000int);
    }
    while i > 0
        invariant
            i <= 25,
            r * r <= y,
            y < (r + pow2(i as nat)) * (r + pow2(i as nat)),
            r + pow2(i as nat) <= 0x200_0000,
        decreases i,
    {
        i = i - 1;
        let step: u64 = pow2_u64(i);
        proof {
            lemma_pow2_double(i as nat);
        }
        let cand: u64 = r + step;
        proof {
            assert(cand * cand <= 0x4_0000_0000_0000) by (nonlinear_arith)
                requires
                    0 <= cand <= 0x200_0000,
            ;
        }
        if cand * cand <= y {
            r = cand;
        }
    }
    proof {
        assert(pow2(0) == 1);
    }
    r
}

impl Scalar {
    /// The scalar that stands for the square root.
    pub open spec fn sqrt_spec(self) -> Scalar {
        Scalar::of(value_sqrt(self@))
    }

    /// The square root, correctly rounded; a NaN for a number below zero.
    pub fn sqrt(self) -> (r: Scalar)
        ensures
            r == self.sqrt_spec(),
            r@ == value_sqrt(self@),
    {
        proof {
            reveal(value_sqrt);
        }
        if self.is_nan() {
            return Scalar::nan();
        }
        if self.is_zero() {
            return Scalar::signed_zero(self.is_sign_negative());
        }
        if self.is_sign_negative() {
            return Scalar::nan();
        }
        if self.is_infinite() {
            return Scalar::infinity(false);
        }
        let (m, k) = self.unpack();
        proof {
            lemma2_to64();
            vstd::arithmetic::power2::lemma2_to64_rest();
            lemma_pow2_pos(k as nat);
            let p = pow2(k as nat) as int;
            assert(m * p == 0 <==> m == 0) by (nonlinear_arith)
                requires
                    p > 0,
                    m >= 0,
            ;
        }
        let (nm, l) = normalize_significand(m);
        // The radicand is nm * 2^e steps of 2^-298, with e = k + 149 - l.
        let e: u32 = k + 149 - l;
        let even: bool = e % 2 == 0;
        let y: u64 = if even {
            (nm as u64) * 0x400_0000
        } else {
            (nm as u64) * 0x200_0000
        };
        let j: u32 = if even {
            (e - 26) / 2
        } else {
            (e - 25) / 2
        };
        let t: u64 = isqrt(y);
        let exact: bool = t * t == y;
        proof {
            let x = (m as nat * pow2(k as nat)) * pow2(149);
            let kk = (j + 1) as nat;
            let four = pow2(2 * kk) as int;
            let pj = pow2((2 * j) as nat) as int;
            // x == y * 4^j
            lemma_pow2_pos((2 * j) as nat);
            lemma_root_scaling(m as nat, k as nat, l as nat, nm as nat, y as nat, j as nat, even);
            assert(x == y * pj);
            lemma_pow2_adds(2, (2 * j) as nat);
            assert(four == 4 * pj);
            lemma_pow2_adds(48, (2 * j) as nat);
            lemma_pow2_adds(50, (2 * j) as nat);
            assert(pow2(48 + 2 * kk) == pow2((50 + 2 * j) as nat));
            assert(pow2(46 + 2 * kk) == pow2((48 + 2 * j) as nat));
            assert(x < pow2(48 + 2 * kk) && x >= pow2(46 + 2 * kk)) by (nonlinear_arith)
                requires
                    x == y * pj,
                    pj > 0,
                    0x1_0000_0000_0000 <= y < 0x4_0000_0000_0000,
                    pow2(48 + 2 * kk) == 0x4_0000_0000_0000 * pj,
                    pow2(46 + 2 * kk) == 0x1_0000_0000_0000 * pj,
            ;
            lemma_sqrt_binade_unique(x, kk);
            assert(4 * x == y * four) by (nonlinear_arith)
                requires
                    x == y * pj,
                    four == 4 * pj,
            ;
            lemma_div_by_multiple(y as int, four);
            assert((4 * x) / pow2(2 * kk) == y);
            lemma_floor_sqrt_unique(y as nat, t as nat);
            assert(t * t * four == 4 * x <==> t * t == y) by (nonlinear_arith)
                requires
                    4 * x == y * four,
                    four > 0,
            ;
            assert(t >= 0x100_0000) by (nonlinear_arith)
                requires
                    y < (t + 1) * (t + 1),
                    y >= 0x1_0000_0000_0000,
                    t >= 0,
            ;
            lemma_round_at_decodes(false, kk, t as nat, exact);
        }
        pack(false, j + 1, t as u32, exact)
    }
}

/// The radicand `m * 2^k * 2^149`, with `m` normalized to `nm`, is `y` times a
/// power of four.
proof fn lemma_root_scaling(m: nat, k: nat, l: nat, nm: nat, y: nat, j: nat, even: bool)
    requires
        nm == m * pow2(l),
        l <= 23,
        even ==> k + 149 - l == 2 * j + 26 && y == nm * 0x400_0000,
        !even ==> k + 149 - l == 2 * j + 25 && y == nm * 0x200_0000,
    ensures
        (m * pow2(k)) * pow2(149) == y * pow2(2 * j),
{
    lemma2_to64();
    let pl = pow2(l) as int;
    let pk = pow2(k) as int;
    let pj = pow2(2 * j) as int;
    let c: nat = if even {
        26
    } else {
        25
    };
    let pc = pow2(c) as int;
    lemma_pow2_adds(k, 149);
    lemma_pow2_adds(l, c + 2 * j);
    lemma_pow2_adds(c, 2 * j);
    assert(pow2(k + 149) == pow2(l + (c + 2 * j)));
    let rest = pow2(c + 2 * j) as int;
    let big = pow2(k + 149) as int;
    assert((m * pk) * pow2(149) == y * pj) by (nonlinear_arith)
        requires
            big == pk * pow2(149),
            big == pl * rest,
            rest == pc * pj,
            y == (m * pl) * pc,
    {
        assert((m * pk) * pow2(149) == m * (pk * pow2(149)));
        assert(y * pj == m * (pl * (pc * pj)));
    }
}


/// Every number has a square root rounded down.
pub proof fn lemma_floor_sqrt_exists(x: nat)
    ensures
        is_floor_sqrt(x, floor_sqrt(x)),
    decreases x,
{
    if x == 0 {
        assert(0nat * 0nat <= 0 < (0nat + 1) * (0nat + 1)) by (nonlinear_arith);
        assert(is_floor_sqrt(0, 0));
    } else {
        lemma_floor_sqrt_exists((x - 1) as nat);
        let r = floor_sqrt((x - 1) as nat);
        if (r + 1) * (r + 1) <= x {
            assert((r + 2) * (r + 2) > (r + 1) * (r + 1)) by (nonlinear_arith)
                requires
                    r >= 0,
            ;
            assert(is_floor_sqrt(x, r + 1));
        } else {
            assert(is_floor_sqrt(x, r));
        }
    }
}

/// The binade of a square root brackets the radicand between two powers of four.
pub proof fn lemma_sqrt_binade_bounds(x: nat)
    ensures
        x < pow2(48 + 2 * sqrt_binade(x)),
        sqrt_binade(x) > 0 ==> x >= pow2(46 + 2 * sqrt_binade(x)),
    decreases x,
{
    lemma2_to64();
    vstd::arithmetic::power2::lemma2_to64_rest();
    if x >= 0x1_0000_0000_0000 {
        lemma_sqrt_binade_bounds(x / 4);
        let k = sqrt_binade(x / 4);
        lemma_pow2_adds(2, 48 + 2 * k);
        lemma_pow2_adds(2, 46 + 2 * k);
        assert(pow2(48 + 2 * (k + 1)) == 4 * pow2(48 + 2 * k));
        assert(pow2(46 + 2 * (k + 1)) == pow2(48 + 2 * k));
        assert(pow2(48 + 2 * k) == 4 * pow2(46 + 2 * k));
    }
}

/// The significand that `round_sqrt` arrives at.
pub open spec fn root_significand(x: nat) -> nat {
    let k = sqrt_binade(x);
    let t = floor_sqrt((4 * x) / pow2(2 * k));
    nearest_even(t, t * t * pow2(2 * k) == 4 * x)
}

/// The count `t` of half steps below the square root of `x`, and its bounds.
pub proof fn lemma_root_parts(x: nat) -> (r: (int, int))
    ensures
        ({
            let (t, four) = r;
            let k = sqrt_binade(x);
            &&& four == pow2(2 * k)
            &&& four > 0
            &&& t == floor_sqrt((4 * x) / pow2(2 * k))
            &&& (t * t) * four <= 4 * x < ((t + 1) * (t + 1)) * four
            &&& 0 <= t < 0x200_0000
            &&& k > 0 ==> t >= 0x100_0000
        }),
{
    let k = sqrt_binade(x);
    let four = pow2(2 * k) as int;
    let y = (4 * x) as int / four;
    let rem = (4 * x) as int % four;
    let t = floor_sqrt(y as nat) as int;
    lemma2_to64();
    vstd::arithmetic::power2::lemma2_to64_rest();
    lemma_pow2_pos(2 * k);
    lemma_fundamental_div_mod((4 * x) as int, four);
    lemma_mod_pos_bound((4 * x) as int, four);
    lemma_floor_sqrt_exists(y as nat);
    lemma_sqrt_binade_bounds(x);
    lemma_pow2_adds(48, 2 * k);
    lemma_pow2_adds(46, 2 * k);
    assert(0 <= y < 0x4_0000_0000_0000 && (k > 0 ==> y >= 0x1_0000_0000_0000)) by (nonlinear_arith)
        requires
            4 * x == four * y + rem,
            0 <= rem < four,
            x < 0x1_0000_0000_0000 * four,
            k > 0 ==> x >= 0x4000_0000_0000 * four,
    ;
    assert((t * t) * four <= 4 * x < ((t + 1) * (t + 1)) * four) by (nonlinear_arith)
        requires
            4 * x == four * y + rem,
            0 <= rem < four,
            t * t <= y < (t + 1) * (t + 1),
    {
        assert((t * t) * four <= y * four);
        assert((y + 1) * four <= ((t + 1) * (t + 1)) * four);
    }
    assert(t < 0x200_0000 && (k > 0 ==> t >= 0x100_0000)) by (nonlinear_arith)
        requires
            t >= 0,
            t * t <= y < (t + 1) * (t + 1),
            y < 0x4_0000_0000_0000,
            k > 0 ==> y >= 0x1_0000_0000_0000,
    {
        if t >= 0x200_0000 {
            assert(t * t >= 0x200_0000 * 0x200_0000);
        }
        if t < 0x100_0000 {
            assert((t + 1) * (t + 1) <= 0x100_0000 * 0x100_0000);
        }
    }
    (t, four)
}

/// What rounding a square root returns has a bit pattern of its own.
pub proof fn lemma_round_sqrt_decodes(x: nat)
    ensures
        decode(encode(round_sqrt(x))) == round_sqrt(x),
{
    let (t, four) = lemma_root_parts(x);
    lemma_round_at_decodes(false, sqrt_binade(x), t as nat, t * t * pow2(2 * sqrt_binade(x)) == 4 * x);
}

/// The rounded square root lies within half a step of its binade from the
/// square root itself: `m - 1/2 <= sqrt(x) / 2^k <= m + 1/2`, here squared.
pub proof fn lemma_root_within_half_step(x: nat)
    ensures
        ({
            let m = root_significand(x);
            let four = pow2(2 * sqrt_binade(x));
            &&& 4 * x <= ((2 * m + 1) * (2 * m + 1)) * four
            &&& m > 0 ==> ((2 * m - 1) * (2 * m - 1)) * four <= 4 * x
        }),
{
    let (t, four) = lemma_root_parts(x);
    let m = root_significand(x) as int;
    let exact = (t * t) * four == 4 * x;
    assert(m == nearest_even(t as nat, exact));
    if 2 * m == t {
        assert(((t + 1) * (t + 1)) * four == ((2 * m + 1) * (2 * m + 1)) * four);
        if m > 0 {
            assert(((2 * m - 1) * (2 * m - 1)) * four <= (t * t) * four) by (nonlinear_arith)
                requires
                    2 * m == t,
                    m > 0,
                    four > 0,
            {
                assert((2 * m - 1) * (2 * m - 1) <= t * t);
            }
        }
    } else if 2 * m == t + 1 {
        assert(((2 * m - 1) * (2 * m - 1)) * four == (t * t) * four);
        assert(((t + 1) * (t + 1)) * four <= ((2 * m + 1) * (2 * m + 1)) * four) by (nonlinear_arith)
            requires
                2 * m == t + 1,
                t >= 0,
                four > 0,
        {
            assert((t + 1) * (t + 1) <= (2 * m + 1) * (2 * m + 1));
        }
    } else {
        assert(2 * m == t - 1 && exact);
        assert(((2 * m + 1) * (2 * m + 1)) * four == (t * t) * four);
        if m > 0 {
            assert(((2 * m - 1) * (2 * m - 1)) * four <= (t * t) * four) by (nonlinear_arith)
                requires
                    2 * m == t - 1,
                    m > 0,
                    four > 0,
            {
                assert((2 * m - 1) * (2 * m - 1) <= t * t);
            }
        }
    }
}

} // verus!
