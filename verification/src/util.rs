//! The tuple: four binary32 components `x`, `y`, `z`, `w`. A point has `w`
//! equal to one, a vector has `w` equal to zero; a colour keeps its channels
//! in `x`, `y`, `z` and is a vector otherwise.
use vstd::prelude::*;
use vstd::arithmetic::power2::pow2;
use vstd::std_specs::cmp::PartialEqSpecImpl;
use vstd::std_specs::ops::{AddSpecImpl, DivSpecImpl, MulSpecImpl, NegSpecImpl, SubSpecImpl};
use crate::ieee::{Value, decode, value_abs, value_lt, value_sub};
use crate::round::lemma_encode_decode;
use crate::scalar::{Scalar, ONE_BITS};

verus! {

/// The bit pattern of the tolerance of `==`: the binary32 number nearest to 0.00001.
pub const EPSILON_BITS: u32 = 0x3727_C5AC;

/// Four components in homogeneous coordinates. Nothing is asked of them: any
/// `w` is allowed and is carried through the arithmetic like the others.
#[derive(Debug, Clone, Copy)]
pub struct Tuple {
    pub x: Scalar,
    pub y: Scalar,
    pub z: Scalar,
    pub w: Scalar,
}

/// The number one.
pub open spec fn one() -> Value {
    Value::Finite { negative: false, mag: pow2(149) }
}

/// Whether two components differ by less than the tolerance. The difference is
/// the rounded one, so anything that is not a number is close to nothing.
pub open spec fn close(a: Scalar, b: Scalar) -> bool {
    value_lt(value_abs(value_sub(a@, b@)), decode(EPSILON_BITS))
}

/// The bit pattern `0x3F800000` stands for one.
pub proof fn lemma_one_bits()
    ensures
        decode(ONE_BITS) == one(),
{
    vstd::arithmetic::power2::lemma2_to64();
    vstd::arithmetic::power2::lemma_pow2_adds(23, 126);
}

fn is_close(a: Scalar, b: Scalar) -> (r: bool)
    ensures
        r == close(a, b),
{
    a.sub(b).abs().lt(Scalar::from_bits(EPSILON_BITS))
}

impl Tuple {
    /// The products of the four pairs of components, added from left to right.
    pub open spec fn dot_spec(self, v: Tuple) -> Scalar {
        self.x.mul_spec(v.x).add_spec(self.y.mul_spec(v.y)).add_spec(
            self.z.mul_spec(v.z),
        ).add_spec(self.w.mul_spec(v.w))
    }

    /// The cross product in three dimensions, with `w` zero.
    pub open spec fn cross_spec(self, v: Tuple) -> Tuple {
        Tuple {
            x: self.y.mul_spec(v.z).sub_spec(self.z.mul_spec(v.y)),
            y: self.z.mul_spec(v.x).sub_spec(self.x.mul_spec(v.z)),
            z: self.x.mul_spec(v.y).sub_spec(self.y.mul_spec(v.x)),
            w: Scalar { bits: 0 },
        }
    }

    /// A point is a tuple whose `w` is one.
    pub open spec fn is_point_spec(self) -> bool {
        self.w@ == one()
    }

    /// A vector is a tuple whose `w` is zero, of either sign.
    pub open spec fn is_vector_spec(self) -> bool {
        self.w@.is_zero()
    }

    /// Whether all four components are finite numbers.
    pub open spec fn is_finite(self) -> bool {
        self.x@.is_finite() && self.y@.is_finite() && self.z@.is_finite() && self.w@.is_finite()
    }

    /// The sum, component by component.
    pub open spec fn plus(self, t: Tuple) -> Tuple {
        Tuple {
            x: self.x.add_spec(t.x),
            y: self.y.add_spec(t.y),
            z: self.z.add_spec(t.z),
            w: self.w.add_spec(t.w),
        }
    }

    /// The tuple with the sign of every component flipped.
    pub open spec fn negated(self) -> Tuple {
        Tuple {
            x: self.x.neg_spec(),
            y: self.y.neg_spec(),
            z: self.z.neg_spec(),
            w: self.w.neg_spec(),
        }
    }

    /// The difference, component by component.
    pub open spec fn minus(self, t: Tuple) -> Tuple {
        Tuple {
            x: self.x.sub_spec(t.x),
            y: self.y.sub_spec(t.y),
            z: self.z.sub_spec(t.z),
            w: self.w.sub_spec(t.w),
        }
    }

    /// Every component multiplied by `s`.
    pub open spec fn scaled(self, s: Scalar) -> Tuple {
        Tuple {
            x: self.x.mul_spec(s),
            y: self.y.mul_spec(s),
            z: self.z.mul_spec(s),
            w: self.w.mul_spec(s),
        }
    }

    /// The product, component by component.
    pub open spec fn times(self, t: Tuple) -> Tuple {
        Tuple {
            x: self.x.mul_spec(t.x),
            y: self.y.mul_spec(t.y),
            z: self.z.mul_spec(t.z),
            w: self.w.mul_spec(t.w),
        }
    }

    /// Every component divided by `s`.
    pub open spec fn divided(self, s: Scalar) -> Tuple {
        Tuple {
            x: self.x.div_spec(s),
            y: self.y.div_spec(s),
            z: self.z.div_spec(s),
            w: self.w.div_spec(s),
        }
    }

    /// The square root of the sum of the four squares, added from left to right.
    pub open spec fn magnitude_spec(self) -> Scalar {
        self.x.mul_spec(self.x).add_spec(self.y.mul_spec(self.y)).add_spec(
            self.z.mul_spec(self.z),
        ).add_spec(self.w.mul_spec(self.w)).sqrt_spec()
    }

    /// `x`, `y` and `z` divided by the magnitude, with `w` zero.
    pub open spec fn normalize_spec(self) -> Tuple {
        let m = self.magnitude_spec();
        Tuple {
            x: self.x.div_spec(m),
            y: self.y.div_spec(m),
            z: self.z.div_spec(m),
            w: Scalar { bits: 0 },
        }
    }

    /// Whether `w` is one.
    pub fn is_point(&self) -> (r: bool)
        ensures
            r == self.is_point_spec(),
    {
        proof {
            lemma_one_bits();
            if self.w@ == one() {
                lemma_encode_decode(self.w.bits);
                lemma_encode_decode(ONE_BITS);
            }
        }
        self.w.bits == ONE_BITS
    }

    /// Whether `w` is zero, of either sign.
    pub fn is_vector(&self) -> (r: bool)
        ensures
            r == self.is_vector_spec(),
    {
        self.w.is_zero()
    }

    /// The components in the order `x`, `y`, `z`, `w`.
    pub fn to_array(&self) -> (r: [Scalar; 4])
        ensures
            r@ == seq![self.x, self.y, self.z, self.w],
    {
        let r = [self.x, self.y, self.z, self.w];
        assert(r@ =~= seq![self.x, self.y, self.z, self.w]);
        r
    }

    /// The Euclidean norm over all four components: the square root of the
    /// sum of their squares, each step rounded.
    pub fn magnitude(&self) -> (r: Scalar)
        ensures
            r == self.magnitude_spec(),
    {
        self.x.mul(self.x).add(self.y.mul(self.y)).add(self.z.mul(self.z)).add(
            self.w.mul(self.w),
        ).sqrt()
    }

    /// The vector of `x`, `y`, `z` divided by the magnitude; `w` is dropped and
    /// the result has `w` zero.
    pub fn normalize(&self) -> (r: Tuple)
        ensures
            r == self.normalize_spec(),
            r.is_vector_spec(),
    {
        let m = self.magnitude();
        build_vector(self.x.div(m), self.y.div(m), self.z.div(m))
    }

    /// The sum of the products of the components, `w` included, added from left to right.
    pub fn dot(&self, v: Tuple) -> (r: Scalar)
        ensures
            r == self.dot_spec(v),
    {
        self.x.mul(v.x).add(self.y.mul(v.y)).add(self.z.mul(v.z)).add(self.w.mul(v.w))
    }

    /// The cross product of the `x`, `y`, `z` parts; `w` of the result is zero.
    pub fn cross(&self, v: Tuple) -> (r: Tuple)
        ensures
            r == self.cross_spec(v),
            r.is_vector_spec(),
    {
        build_vector(
            self.y.mul(v.z).sub(self.z.mul(v.y)),
            self.z.mul(v.x).sub(self.x.mul(v.z)),
            self.x.mul(v.y).sub(self.y.mul(v.x)),
        )
    }
}

/// Equality with a tolerance: see `close`.
impl PartialEq for Tuple {
    fn eq(&self, t: &Tuple) -> (r: bool)
        ensures
            r == (close(self.x, t.x) && close(self.y, t.y) && close(self.z, t.z) && close(
                self.w,
                t.w,
            )),
    {
        is_close(self.x, t.x) && is_close(self.y, t.y) && is_close(self.z, t.z) && is_close(
            self.w,
            t.w,
        )
    }
}

impl PartialEqSpecImpl for Tuple {
    open spec fn obeys_eq_spec() -> bool {
        true
    }

    /// Equal are tuples whose components are close, all four of them.
    open spec fn eq_spec(&self, t: &Tuple) -> bool {
        close(self.x, t.x) && close(self.y, t.y) && close(self.z, t.z) && close(self.w, t.w)
    }
}

impl core::ops::Neg for Tuple {
    type Output = Tuple;

    fn neg(self) -> (r: Tuple)
        ensures
            r == self.negated(),
    {
        Tuple { x: self.x.neg(), y: self.y.neg(), z: self.z.neg(), w: self.w.neg() }
    }
}

impl NegSpecImpl for Tuple {
    open spec fn obeys_neg_spec() -> bool {
        true
    }

    open spec fn neg_req(self) -> bool {
        true
    }

    open spec fn neg_spec(self) -> Tuple {
        self.negated()
    }
}

impl core::ops::Add for Tuple {
    type Output = Tuple;

    fn add(self, t: Tuple) -> (r: Tuple)
        ensures
            r == self.plus(t),
    {
        Tuple { x: self.x.add(t.x), y: self.y.add(t.y), z: self.z.add(t.z), w: self.w.add(t.w) }
    }
}

impl AddSpecImpl for Tuple {
    open spec fn obeys_add_spec() -> bool {
        true
    }

    open spec fn add_req(self, t: Tuple) -> bool {
        true
    }

    open spec fn add_spec(self, t: Tuple) -> Tuple {
        self.plus(t)
    }
}

impl core::ops::Sub for Tuple {
    type Output = Tuple;

    fn sub(self, t: Tuple) -> (r: Tuple)
        ensures
            r == self.minus(t),
    {
        Tuple { x: self.x.sub(t.x), y: self.y.sub(t.y), z: self.z.sub(t.z), w: self.w.sub(t.w) }
    }
}

impl SubSpecImpl for Tuple {
    open spec fn obeys_sub_spec() -> bool {
        true
    }

    open spec fn sub_req(self, t: Tuple) -> bool {
        true
    }

    open spec fn sub_spec(self, t: Tuple) -> Tuple {
        self.minus(t)
    }
}

impl core::ops::Mul<Scalar> for Tuple {
    type Output = Tuple;

    fn mul(self, s: Scalar) -> (r: Tuple)
        ensures
            r == self.scaled(s),
    {
        Tuple { x: self.x.mul(s), y: self.y.mul(s), z: self.z.mul(s), w: self.w.mul(s) }
    }
}

impl MulSpecImpl<Scalar> for Tuple {
    open spec fn obeys_mul_spec() -> bool {
        true
    }

    open spec fn mul_req(self, s: Scalar) -> bool {
        true
    }

    open spec fn mul_spec(self, s: Scalar) -> Tuple {
        self.scaled(s)
    }
}

impl core::ops::Mul<Tuple> for Tuple {
    type Output = Tuple;

    fn mul(self, t: Tuple) -> (r: Tuple)
        ensures
            r == self.times(t),
    {
        Tuple { x: self.x.mul(t.x), y: self.y.mul(t.y), z: self.z.mul(t.z), w: self.w.mul(t.w) }
    }
}

impl MulSpecImpl<Tuple> for Tuple {
    open spec fn obeys_mul_spec() -> bool {
        true
    }

    open spec fn mul_req(self, t: Tuple) -> bool {
        true
    }

    open spec fn mul_spec(self, t: Tuple) -> Tuple {
        self.times(t)
    }
}

impl core::ops::Div<Scalar> for Tuple {
    type Output = Tuple;

    fn div(self, s: Scalar) -> (r: Tuple)
        ensures
            r == self.divided(s),
    {
        Tuple { x: self.x.div(s), y: self.y.div(s), z: self.z.div(s), w: self.w.div(s) }
    }
}

impl DivSpecImpl<Scalar> for Tuple {
    open spec fn obeys_div_spec() -> bool {
        true
    }

    open spec fn div_req(self, s: Scalar) -> bool {
        true
    }

    open spec fn div_spec(self, s: Scalar) -> Tuple {
        self.divided(s)
    }
}

/// The tuple with the four components given.
pub fn build_tuple(x: Scalar, y: Scalar, z: Scalar, w: Scalar) -> (r: Tuple)
    ensures
        r == (Tuple { x, y, z, w }),
{
    Tuple { x: x, y: y, z: z, w: w }
}

/// The point at `x`, `y`, `z`: its `w` is one.
pub fn build_point(x: Scalar, y: Scalar, z: Scalar) -> (r: Tuple)
    ensures
        r == (Tuple { x, y, z, w: Scalar { bits: ONE_BITS } }),
        r.is_point_spec(),
        !r.is_vector_spec(),
{
    proof {
        lemma_one_bits();
        vstd::arithmetic::power2::lemma_pow2_pos(149);
    }
    build_tuple(x, y, z, Scalar::one())
}

/// The vector `x`, `y`, `z`: its `w` is zero.
pub fn build_vector(x: Scalar, y: Scalar, z: Scalar) -> (r: Tuple)
    ensures
        r == (Tuple { x, y, z, w: Scalar { bits: 0 } }),
        r.is_vector_spec(),
        !r.is_point_spec(),
{
    proof {
        vstd::arithmetic::power2::lemma_pow2_pos(149);
    }
    build_tuple(x, y, z, Scalar::zero())
}

/// The colour with channels `r`, `g`, `b`, held as a vector.
pub fn build_color(r: Scalar, g: Scalar, b: Scalar) -> (c: Tuple)
    ensures
        c == (Tuple { x: r, y: g, z: b, w: Scalar { bits: 0 } }),
        c.is_vector_spec(),
        !c.is_point_spec(),
{
    proof {
        vstd::arithmetic::power2::lemma_pow2_pos(149);
    }
    build_tuple(r, g, b, Scalar::zero())
}

} // verus!
