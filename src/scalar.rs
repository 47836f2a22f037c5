//! The scalar field that matrices are made of.
//!
//! Every operation is stated by a spec function of the trait, and each
//! executable operation is proved to return exactly that value.
use vstd::prelude::*;

verus! {

/// A field of scalars with conjugation, real or complex.
pub trait ComplexField: Copy + Sized {
    spec fn zero_spec() -> Self;

    spec fn one_spec() -> Self;

    /// Complex conjugate.
    spec fn conj_spec(self) -> Self;

    /// The real part, as a scalar of the same field.
    spec fn real_spec(self) -> Self;

    spec fn neg_spec(self) -> Self;

    spec fn add_spec(self, other: Self) -> Self;

    spec fn mul_spec(self, other: Self) -> Self;

    /// Multiplicative inverse, as far as the field has one.
    spec fn recip_spec(self) -> Self;

    fn zero() -> (r: Self)
        ensures
            r == Self::zero_spec(),
    ;

    fn one() -> (r: Self)
        ensures
            r == Self::one_spec(),
    ;

    fn conj(&self) -> (r: Self)
        ensures
            r == self.conj_spec(),
    ;

    fn real_part(&self) -> (r: Self)
        ensures
            r == self.real_spec(),
    ;

    fn negate(&self) -> (r: Self)
        ensures
            r == self.neg_spec(),
    ;

    fn plus(&self, other: &Self) -> (r: Self)
        ensures
            r == self.add_spec(*other),
    ;

    fn times(&self, other: &Self) -> (r: Self)
        ensures
            r == self.mul_spec(*other),
    ;

    fn recip(&self) -> (r: Self)
        ensures
            r == self.recip_spec(),
    ;

    fn is_zero(&self) -> (r: bool)
        ensures
            r == (*self == Self::zero_spec()),
    ;

    /// Conjugation is an involution.
    proof fn lemma_conj_conj(x: Self)
        ensures
            x.conj_spec().conj_spec() == x,
    ;

    /// A real part is its own conjugate.
    proof fn lemma_real_self_adjoint(x: Self)
        ensures
            x.real_spec().conj_spec() == x.real_spec(),
    ;

    /// Taking the real part twice changes nothing.
    proof fn lemma_real_real(x: Self)
        ensures
            x.real_spec().real_spec() == x.real_spec(),
    ;

    /// Addition is commutative and associative, with zero as identity and
    /// negation as inverse.
    proof fn lemma_add_laws(x: Self, y: Self, z: Self)
        ensures
            x.add_spec(y) == y.add_spec(x),
            x.add_spec(y).add_spec(z) == x.add_spec(y.add_spec(z)),
            x.add_spec(Self::zero_spec()) == x,
            x.add_spec(x.neg_spec()) == Self::zero_spec(),
    ;

    /// One is a left identity of multiplication, and zero absorbs it.
    proof fn lemma_mul_unit_zero(x: Self)
        ensures
            Self::one_spec().mul_spec(x) == x,
            Self::zero_spec().mul_spec(x) == Self::zero_spec(),
    ;

    /// Negation is an involution.
    proof fn lemma_neg_neg(x: Self)
        ensures
            x.neg_spec().neg_spec() == x,
    ;

    /// Zero is its own negation.
    proof fn lemma_neg_zero()
        ensures
            Self::zero_spec().neg_spec() == Self::zero_spec(),
    ;

    /// Zero and one are real.
    proof fn lemma_constants_real()
        ensures
            Self::zero_spec().conj_spec() == Self::zero_spec(),
            Self::one_spec().conj_spec() == Self::one_spec(),
    ;
}

/// A field whose scalars are all real: conjugation is the identity.
pub trait RealField: ComplexField {
    proof fn lemma_conj_identity(x: Self)
        ensures
            x.conj_spec() == x,
            x.real_spec() == x,
    ;
}

/// Exact integers with two's-complement wrap-around, seen as real scalars.
impl ComplexField for i64 {
    open spec fn zero_spec() -> i64 {
        0
    }

    open spec fn one_spec() -> i64 {
        1
    }

    open spec fn conj_spec(self) -> i64 {
        self
    }

    open spec fn real_spec(self) -> i64 {
        self
    }

    open spec fn neg_spec(self) -> i64 {
        0i64.wrapping_sub(self)
    }

    open spec fn add_spec(self, other: i64) -> i64 {
        self.wrapping_add(other)
    }

    open spec fn mul_spec(self, other: i64) -> i64 {
        self.wrapping_mul(other)
    }

    /// `1 / x` rounded toward zero, and zero for zero.
    open spec fn recip_spec(self) -> i64 {
        if self == 1 {
            1
        } else if self == -1 {
            -1i64
        } else {
            0
        }
    }

    fn zero() -> (r: i64) {
        0
    }

    fn one() -> (r: i64) {
        1
    }

    fn conj(&self) -> (r: i64) {
        *self
    }

    fn real_part(&self) -> (r: i64) {
        *self
    }

    fn negate(&self) -> (r: i64) {
        0i64.wrapping_sub(*self)
    }

    fn plus(&self, other: &i64) -> (r: i64) {
        self.wrapping_add(*other)
    }

    fn times(&self, other: &i64) -> (r: i64) {
        self.wrapping_mul(*other)
    }

    fn recip(&self) -> (r: i64) {
        if *self == 1 {
            1
        } else if *self == -1 {
            -1
        } else {
            0
        }
    }

    fn is_zero(&self) -> (r: bool) {
        *self == 0
    }

    proof fn lemma_conj_conj(x: i64) {
    }

    proof fn lemma_real_self_adjoint(x: i64) {
    }

    proof fn lemma_real_real(x: i64) {
    }

    proof fn lemma_add_laws(x: i64, y: i64, z: i64) {
    }

    proof fn lemma_mul_unit_zero(x: i64) {
        assert(1 * x == x);
        assert(0 * x == 0);
        let r: int = 0x1_0000_0000_0000_0000;
        if x >= 0 {
            vstd::arithmetic::div_mod::lemma_small_mod(x as nat, r as nat);
        } else {
            vstd::arithmetic::div_mod::lemma_mod_add_multiples_vanish(x as int, r);
            vstd::arithmetic::div_mod::lemma_small_mod((x + r) as nat, r as nat);
        }
    }

    proof fn lemma_neg_neg(x: i64) {
    }

    proof fn lemma_neg_zero() {
    }

    proof fn lemma_constants_real() {
    }
}

impl RealField for i64 {
    proof fn lemma_conj_identity(x: i64) {
    }
}

/// A complex scalar over a real field.
#[derive(Clone, Copy, Debug, PartialEq, Eq)]
pub struct Complex<R> {
    pub re: R,
    pub im: R,
}

impl<R: RealField> Complex<R> {
    pub fn new(re: R, im: R) -> (r: Self)
        ensures
            r.re == re,
            r.im == im,
    {
        Complex { re, im }
    }
}

impl<R: RealField> ComplexField for Complex<R> {
    open spec fn zero_spec() -> Self {
        Complex { re: R::zero_spec(), im: R::zero_spec() }
    }

    open spec fn one_spec() -> Self {
        Complex { re: R::one_spec(), im: R::zero_spec() }
    }

    open spec fn conj_spec(self) -> Self {
        Complex { re: self.re, im: self.im.neg_spec() }
    }

    open spec fn real_spec(self) -> Self {
        Complex { re: self.re, im: R::zero_spec() }
    }

    open spec fn neg_spec(self) -> Self {
        Complex { re: self.re.neg_spec(), im: self.im.neg_spec() }
    }

    open spec fn add_spec(self, other: Self) -> Self {
        Complex { re: self.re.add_spec(other.re), im: self.im.add_spec(other.im) }
    }

    open spec fn mul_spec(self, other: Self) -> Self {
        Complex {
            re: self.re.mul_spec(other.re).add_spec(self.im.mul_spec(other.im).neg_spec()),
            im: self.re.mul_spec(other.im).add_spec(self.im.mul_spec(other.re)),
        }
    }

    /// `conj(z) / |z|²`.
    open spec fn recip_spec(self) -> Self {
        let r = self.re.mul_spec(self.re).add_spec(self.im.mul_spec(self.im)).recip_spec();
        Complex { re: self.re.mul_spec(r), im: self.im.neg_spec().mul_spec(r) }
    }

    fn zero() -> (r: Self) {
        Complex { re: R::zero(), im: R::zero() }
    }

    fn one() -> (r: Self) {
        Complex { re: R::one(), im: R::zero() }
    }

    fn conj(&self) -> (r: Self) {
        Complex { re: self.re, im: self.im.negate() }
    }

    fn real_part(&self) -> (r: Self) {
        Complex { re: self.re, im: R::zero() }
    }

    fn negate(&self) -> (r: Self) {
        Complex { re: self.re.negate(), im: self.im.negate() }
    }

    fn plus(&self, other: &Self) -> (r: Self) {
        Complex { re: self.re.plus(&other.re), im: self.im.plus(&other.im) }
    }

    fn times(&self, other: &Self) -> (r: Self) {
        let ac = self.re.times(&other.re);
        let bd = self.im.times(&other.im);
        let ad = self.re.times(&other.im);
        let bc = self.im.times(&other.re);
        Complex { re: ac.plus(&bd.negate()), im: ad.plus(&bc) }
    }

    fn recip(&self) -> (r: Self) {
        let norm2 = self.re.times(&self.re).plus(&self.im.times(&self.im));
        let r = norm2.recip();
        Complex { re: self.re.times(&r), im: self.im.negate().times(&r) }
    }

    fn is_zero(&self) -> (r: bool) {
        self.re.is_zero() && self.im.is_zero()
    }

    proof fn lemma_conj_conj(x: Self) {
        R::lemma_neg_neg(x.im);
    }

    proof fn lemma_real_self_adjoint(x: Self) {
        R::lemma_neg_zero();
    }

    proof fn lemma_real_real(x: Self) {
    }

    proof fn lemma_add_laws(x: Self, y: Self, z: Self) {
        R::lemma_add_laws(x.re, y.re, z.re);
        R::lemma_add_laws(x.im, y.im, z.im);
    }

    proof fn lemma_mul_unit_zero(x: Self) {
        R::lemma_mul_unit_zero(x.re);
        R::lemma_mul_unit_zero(x.im);
        R::lemma_neg_zero();
        R::lemma_add_laws(x.re, x.re, x.re);
        R::lemma_add_laws(x.im, x.im, x.im);
        R::lemma_add_laws(R::zero_spec(), R::zero_spec(), R::zero_spec());
    }

    proof fn lemma_neg_neg(x: Self) {
        R::lemma_neg_neg(x.re);
        R::lemma_neg_neg(x.im);
    }

    proof fn lemma_neg_zero() {
        R::lemma_neg_zero();
    }

    proof fn lemma_constants_real() {
        R::lemma_neg_zero();
    }
}

} // verus!
