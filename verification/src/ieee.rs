//! The values of IEEE 754 binary32 and what its operations must return.
//!
//! Everything here is mathematics: bit patterns are decoded into [`Value`], and the
//! result of each operation is the exact result, rounded to the nearest
//! representable value with ties going to the even significand.
use vstd::prelude::*;
use vstd::arithmetic::power2::pow2;

verus! {

/// What a bit pattern stands for.
///
/// Every finite binary32 number is a whole multiple of 2^-149, the smallest
/// positive subnormal number; `mag` is the absolute value counted in such steps.
pub enum Value {
    Nan,
    Infinite { negative: bool },
    Finite { negative: bool, mag: nat },
}

/// The magnitude 2^128, counted in steps of 2^-149: the first one that is too
/// large for a finite number.
pub open spec fn overflow_mag() -> nat {
    pow2(277)
}

impl Value {
    pub open spec fn is_nan(self) -> bool {
        self is Nan
    }

    pub open spec fn is_finite(self) -> bool {
        self is Finite
    }

    pub open spec fn is_zero(self) -> bool {
        match self {
            Value::Finite { mag, .. } => mag == 0,
            _ => false,
        }
    }

    pub open spec fn is_negative(self) -> bool {
        match self {
            Value::Nan => false,
            Value::Infinite { negative } => negative,
            Value::Finite { negative, .. } => negative,
        }
    }

    /// The value on the number line, in steps of 2^-149. The infinities are put
    /// just beyond the finite numbers; a NaN has no place and gets 0.
    pub open spec fn signed(self) -> int {
        match self {
            Value::Nan => 0,
            Value::Infinite { negative } => if negative {
                -(overflow_mag() as int)
            } else {
                overflow_mag() as int
            },
            Value::Finite { negative, mag } => if negative {
                -(mag as int)
            } else {
                mag as int
            },
        }
    }

    /// Whether some bit pattern stands for this value.
    pub open spec fn representable(self) -> bool {
        match self {
            Value::Finite { mag, .. } => mag < overflow_mag() && mag % pow2(binade(mag, 1)) == 0,
            _ => true,
        }
    }
}

pub open spec fn sign_of(bits: u32) -> bool {
    bits >= 0x8000_0000
}

pub open spec fn exponent_of(bits: u32) -> nat {
    ((bits % 0x8000_0000) / 0x80_0000) as nat
}

pub open spec fn fraction_of(bits: u32) -> nat {
    (bits % 0x80_0000) as nat
}

/// The value of a bit pattern: one sign bit, eight exponent bits, 23 fraction bits.
pub open spec fn decode(bits: u32) -> Value {
    let e = exponent_of(bits);
    let f = fraction_of(bits);
    if e == 255 {
        if f == 0 {
            Value::Infinite { negative: sign_of(bits) }
        } else {
            Value::Nan
        }
    } else if e == 0 {
        Value::Finite { negative: sign_of(bits), mag: f }
    } else {
        Value::Finite { negative: sign_of(bits), mag: (0x80_0000 + f) * pow2((e - 1) as nat) }
    }
}

/// The bit pattern of a representable value. Of the many patterns of a NaN it
/// is the quiet one with an empty payload.
#[verifier::opaque]
pub open spec fn encode(v: Value) -> u32 {
    match v {
        Value::Nan => 0x7FC0_0000,
        Value::Infinite { negative } => if negative {
            0xFF80_0000
        } else {
            0x7F80_0000
        },
        Value::Finite { negative, mag } => {
            let k = binade(mag, 1);
            let low = k * 0x80_0000 + mag / pow2(k);
            (if negative {
                low + 0x8000_0000
            } else {
                low
            }) as u32
        },
    }
}

/// The exponent at which the quotient `n / d` is rounded: the least `k` with
/// `n / d < 2^(24 + k)`. The significand of the result then counts steps of `2^k`.
pub open spec fn binade(n: nat, d: nat) -> nat
    decreases n,
{
    if d == 0 || n < d * 0x100_0000 {
        0
    } else {
        1 + binade(n / 2, d)
    }
}

/// Rounds to the nearest whole number, ties to even. The number is given by
/// `t`, the count of halves at or below it, and by whether it is exactly `t` halves.
pub open spec fn nearest_even(t: nat, exact: bool) -> nat {
    t / 2 + if t % 2 == 1 && (!exact || (t / 2) % 2 == 1) {
        1nat
    } else {
        0nat
    }
}

/// A finite value, or the infinity that takes its place on overflow.
pub open spec fn saturate(negative: bool, mag: nat) -> Value {
    if mag >= overflow_mag() {
        Value::Infinite { negative }
    } else {
        Value::Finite { negative, mag }
    }
}

/// The value with sign `negative` in binade `k` that is nearest to a number
/// given by the count `t` of half steps at or below it.
pub open spec fn round_at(negative: bool, k: nat, t: nat, exact: bool) -> Value {
    saturate(negative, nearest_even(t, exact) * pow2(k))
}

/// The quotient `n / d` rounded to 24 significant bits, or to a whole number
/// of steps where it lies in the lowest binade: the nearest such number, and of
/// two nearest ones the one with the even significand.
pub open spec fn rounded(n: nat, d: nat) -> nat {
    let k = binade(n, d);
    let ulp = d * pow2(k);
    nearest_even((2 * n) / ulp, (2 * n) % ulp == 0) * pow2(k)
}

/// The value with sign `negative` nearest to the quotient `n / d`, counted in
/// steps of 2^-149.
pub open spec fn round_ratio(negative: bool, n: nat, d: nat) -> Value {
    saturate(negative, rounded(n, d))
}

pub open spec fn value_neg(a: Value) -> Value {
    match a {
        Value::Nan => Value::Nan,
        Value::Infinite { negative } => Value::Infinite { negative: !negative },
        Value::Finite { negative, mag } => Value::Finite { negative: !negative, mag },
    }
}

pub open spec fn value_abs(a: Value) -> Value {
    match a {
        Value::Nan => Value::Nan,
        Value::Infinite { .. } => Value::Infinite { negative: false },
        Value::Finite { mag, .. } => Value::Finite { negative: false, mag },
    }
}

/// The sum: exact, then rounded. Infinities of opposite sign have no sum, and an
/// exact zero is negative only if both terms are.
#[verifier::opaque]
pub open spec fn value_add(a: Value, b: Value) -> Value {
    match (a, b) {
        (Value::Nan, _) => Value::Nan,
        (_, Value::Nan) => Value::Nan,
        (Value::Infinite { negative: na }, Value::Infinite { negative: nb }) => if na == nb {
            a
        } else {
            Value::Nan
        },
        (Value::Infinite { .. }, Value::Finite { .. }) => a,
        (Value::Finite { .. }, Value::Infinite { .. }) => b,
        (Value::Finite { negative: na, .. }, Value::Finite { negative: nb, .. }) => {
            let s = a.signed() + b.signed();
            if s == 0 {
                Value::Finite { negative: na && nb, mag: 0 }
            } else {
                round_ratio(s < 0, vstd::math::abs(s), 1)
            }
        },
    }
}

pub open spec fn value_sub(a: Value, b: Value) -> Value {
    value_add(a, value_neg(b))
}

/// The product: exact, then rounded. Zero times infinity has no value.
#[verifier::opaque]
pub open spec fn value_mul(a: Value, b: Value) -> Value {
    match (a, b) {
        (Value::Nan, _) => Value::Nan,
        (_, Value::Nan) => Value::Nan,
        (Value::Infinite { negative: na }, Value::Infinite { negative: nb }) => Value::Infinite {
            negative: na != nb,
        },
        (Value::Infinite { negative: na }, Value::Finite { negative: nb, mag }) => if mag == 0 {
            Value::Nan
        } else {
            Value::Infinite { negative: na != nb }
        },
        (Value::Finite { negative: na, mag }, Value::Infinite { negative: nb }) => if mag == 0 {
            Value::Nan
        } else {
            Value::Infinite { negative: na != nb }
        },
        (
            Value::Finite { negative: na, mag: ma },
            Value::Finite { negative: nb, mag: mb },
        ) => round_ratio(na != nb, ma * mb, pow2(149)),
    }
}

/// The quotient: exact, then rounded. Zero by zero and infinity by infinity
/// have no value; any other division by zero gives an infinity.
#[verifier::opaque]
pub open spec fn value_div(a: Value, b: Value) -> Value {
    match (a, b) {
        (Value::Nan, _) => Value::Nan,
        (_, Value::Nan) => Value::Nan,
        (Value::Infinite { .. }, Value::Infinite { .. }) => Value::Nan,
        (Value::Infinite { negative: na }, Value::Finite { negative: nb, .. }) => Value::Infinite {
            negative: na != nb,
        },
        (Value::Finite { negative: na, .. }, Value::Infinite { negative: nb }) => Value::Finite {
            negative: na != nb,
            mag: 0,
        },
        (Value::Finite { negative: na, mag: ma }, Value::Finite { negative: nb, mag: mb }) => {
            if mb == 0 {
                if ma == 0 {
                    Value::Nan
                } else {
                    Value::Infinite { negative: na != nb }
                }
            } else {
                round_ratio(na != nb, ma * pow2(149), mb)
            }
        },
    }
}

/// Whether `r` is the square root of `x`, rounded down to a whole number.
pub open spec fn is_floor_sqrt(x: nat, r: nat) -> bool {
    r * r <= x < (r + 1) * (r + 1)
}

/// The square root of `x`, rounded down to a whole number.
pub open spec fn floor_sqrt(x: nat) -> nat {
    choose|r: nat| is_floor_sqrt(x, r)
}

/// The exponent at which the square root of `x` is rounded: the least `k`
/// with `x < 2^(48 + 2k)`, so that the root lies below `2^(24 + k)`.
pub open spec fn sqrt_binade(x: nat) -> nat
    decreases x,
{
    if x < 0x1_0000_0000_0000 {
        0
    } else {
        1 + sqrt_binade(x / 4)
    }
}

/// The value nearest to the square root of `x`, counted in steps of 2^-149.
pub open spec fn round_sqrt(x: nat) -> Value {
    let k = sqrt_binade(x);
    let t = floor_sqrt((4 * x) / pow2(2 * k));
    round_at(false, k, t, t * t * pow2(2 * k) == 4 * x)
}

/// The square root: exact, then rounded. Below zero there is none; the root
/// of a zero is that zero.
#[verifier::opaque]
pub open spec fn value_sqrt(a: Value) -> Value {
    match a {
        Value::Nan => Value::Nan,
        Value::Infinite { negative } => if negative {
            Value::Nan
        } else {
            a
        },
        Value::Finite { negative, mag } => if mag == 0 {
            a
        } else if negative {
            Value::Nan
        } else {
            round_sqrt(mag * pow2(149))
        },
    }
}

/// Whether `a` is below `b`. A NaN is below nothing and nothing is below it; the
/// two zeros are equal.
pub open spec fn value_lt(a: Value, b: Value) -> bool {
    !a.is_nan() && !b.is_nan() && a.signed() < b.signed()
}

pub open spec fn value_le(a: Value, b: Value) -> bool {
    !a.is_nan() && !b.is_nan() && a.signed() <= b.signed()
}

/// Numerical equality: a NaN equals nothing, itself included, and the two zeros
/// are equal.
pub open spec fn value_eq(a: Value, b: Value) -> bool {
    !a.is_nan() && !b.is_nan() && a.signed() == b.signed()
}

} // verus!
