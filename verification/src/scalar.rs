//! The scalar abstraction.
//!
//! `Scalar` is the capability set every element type of `Vector` and
//! `Matrix` must supply: total arithmetic, identities, conjugation, a real
//! magnitude, and an embedding of rationals.  Each operation has a spec
//! function pinning its exact value, so the generic linear-algebra
//! algorithms carry exact contracts for every scalar type.
//!
//! The real scalar type is `Rat`; the complex scalar is `Complex`.  The
//! magnitude type is always `Rat` (real, even for complex scalars).

use crate::rat::{rat_abs, rat_add, rat_div, rat_inv, rat_mul, rat_neg, rat_one, rat_sqrt, rat_sub,
    rat_zero, Rat};
use vstd::prelude::*;

verus! {

/// The numeric capabilities required of a vector or matrix element type.
///
/// The `s`-prefixed spec functions give the mathematical value of each
/// executable operation; `swf` is the type's well-formedness invariant,
/// which every operation preserves.
pub trait Scalar: Sized + Copy {
    /// Well-formedness of a scalar value.
    spec fn swf(self) -> bool;

    /// The additive identity.
    spec fn szero() -> Self;

    /// The multiplicative identity.
    spec fn sone() -> Self;

    spec fn sadd(self, other: Self) -> Self;

    spec fn ssub(self, other: Self) -> Self;

    spec fn smul(self, other: Self) -> Self;

    spec fn sdiv(self, other: Self) -> Self;

    spec fn sneg(self) -> Self;

    /// The multiplicative inverse (of zero: zero).
    spec fn sinv(self) -> Self;

    /// Conjugation; the identity on real scalars.
    spec fn sconj(self) -> Self;

    /// The real magnitude (absolute value or modulus).
    spec fn smag(self) -> Rat;

    /// The real part; the value itself for real scalars.
    spec fn sreal(self) -> Rat;

    /// The embedding of a rational into this scalar type.
    spec fn sfrom_rat(t: Rat) -> Self;

    proof fn lemma_identities_wf()
        ensures
            Self::szero().swf(),
            Self::sone().swf(),
    ;

    fn zero() -> (r: Self)
        ensures
            r == Self::szero(),
            r.swf(),
    ;

    fn one() -> (r: Self)
        ensures
            r == Self::sone(),
            r.swf(),
    ;

    fn add(self, other: Self) -> (r: Self)
        requires
            self.swf(),
            other.swf(),
        ensures
            r == self.sadd(other),
            r.swf(),
    ;

    fn sub(self, other: Self) -> (r: Self)
        requires
            self.swf(),
            other.swf(),
        ensures
            r == self.ssub(other),
            r.swf(),
    ;

    fn mul(self, other: Self) -> (r: Self)
        requires
            self.swf(),
            other.swf(),
        ensures
            r == self.smul(other),
            r.swf(),
    ;

    fn div(self, other: Self) -> (r: Self)
        requires
            self.swf(),
            other.swf(),
        ensures
            r == self.sdiv(other),
            r.swf(),
    ;

    fn neg(self) -> (r: Self)
        requires
            self.swf(),
        ensures
            r == self.sneg(),
            r.swf(),
    ;

    fn inv(self) -> (r: Self)
        requires
            self.swf(),
        ensures
            r == self.sinv(),
            r.swf(),
    ;

    fn conj(self) -> (r: Self)
        requires
            self.swf(),
        ensures
            r == self.sconj(),
            r.swf(),
    ;

    fn mag(self) -> (r: Rat)
        requires
            self.swf(),
        ensures
            r == self.smag(),
            r.wf(),
    ;

    fn real_part(self) -> (r: Rat)
        requires
            self.swf(),
        ensures
            r == self.sreal(),
            r.wf(),
    ;

    fn from_rat(t: Rat) -> (r: Self)
        requires
            t.wf(),
        ensures
            r == Self::sfrom_rat(t),
            r.swf(),
    ;

    fn is_zero(&self) -> (r: bool)
        requires
            self.swf(),
        ensures
            r == (*self == Self::szero()),
    ;

    fn eq_val(&self, other: &Self) -> (r: bool)
        requires
            self.swf(),
            other.swf(),
        ensures
            r == (*self == *other),
    ;
}

/// A fused multiply-add: `self * a + b` in one call.  Over these exact
/// scalars fusing does not change the value, so the contract is simply the
/// product followed by the sum.
pub trait MulAdd: Scalar {
    fn mul_add(self, a: &Self, b: &Self) -> (r: Self)
        requires
            self.swf(),
            a.swf(),
            b.swf(),
        ensures
            r == self.smul(*a).sadd(*b),
            r.swf(),
    ;
}

/// A square root at the scalar's fixed precision.
pub trait Sqrt: Scalar {
    /// The value `sqrt` returns.
    spec fn ssqrt(self) -> Self;

    fn sqrt(self) -> (r: Self)
        requires
            self.swf(),
        ensures
            r == self.ssqrt(),
            r.swf(),
    ;
}

/// Linear interpolation between two values, with exact passthrough of the
/// endpoints at blend factors zero and one.
pub trait Lerp: Sized {
    /// Whether `u` and `v` may be interpolated (well-formed, equal shapes).
    spec fn lerp_req(u: Self, v: Self) -> bool;

    /// Whether an interpolation result is well-formed.
    spec fn lerp_wf(r: Self) -> bool;

    /// Exactly which value `lerp` returns.
    spec fn lerp_post(u: Self, v: Self, t: Rat, r: Self) -> bool;

    fn lerp(u: Self, v: Self, t: Rat) -> (r: Self)
        requires
            Self::lerp_req(u, v),
            t.wf(),
        ensures
            Self::lerp_post(u, v, t, r),
            t == rat_zero() ==> r == u,
            t == rat_one() ==> r == v,
            Self::lerp_wf(r),
    ;
}

/// Interpolates between `u` and `v` with blend factor `t`: exactly `u` at
/// `t == 0` and exactly `v` at `t == 1`.
pub fn lerp<V: Lerp>(u: V, v: V, t: Rat) -> (r: V)
    requires
        V::lerp_req(u, v),
        t.wf(),
    ensures
        V::lerp_post(u, v, t, r),
        t == rat_zero() ==> r == u,
        t == rat_one() ==> r == v,
        V::lerp_wf(r),
{
    V::lerp(u, v, t)
}

impl Scalar for Rat {
    open spec fn swf(self) -> bool {
        self.wf()
    }

    open spec fn szero() -> Rat {
        rat_zero()
    }

    open spec fn sone() -> Rat {
        rat_one()
    }

    open spec fn sadd(self, other: Rat) -> Rat {
        rat_add(self, other)
    }

    open spec fn ssub(self, other: Rat) -> Rat {
        rat_sub(self, other)
    }

    open spec fn smul(self, other: Rat) -> Rat {
        rat_mul(self, other)
    }

    open spec fn sdiv(self, other: Rat) -> Rat {
        rat_div(self, other)
    }

    open spec fn sneg(self) -> Rat {
        rat_neg(self)
    }

    open spec fn sinv(self) -> Rat {
        rat_inv(self)
    }

    open spec fn sconj(self) -> Rat {
        self
    }

    open spec fn smag(self) -> Rat {
        rat_abs(self)
    }

    open spec fn sreal(self) -> Rat {
        self
    }

    open spec fn sfrom_rat(t: Rat) -> Rat {
        t
    }

    proof fn lemma_identities_wf() {
        crate::rat::lemma_int_frac_wf(0);
        crate::rat::lemma_int_frac_wf(1);
    }

    fn zero() -> (r: Rat) {
        Rat::zero_val()
    }

    fn one() -> (r: Rat) {
        Rat::one_val()
    }

    fn add(self, other: Rat) -> (r: Rat) {
        Rat::add(self, other)
    }

    fn sub(self, other: Rat) -> (r: Rat) {
        Rat::sub(self, other)
    }

    fn mul(self, other: Rat) -> (r: Rat) {
        Rat::mul(self, other)
    }

    fn div(self, other: Rat) -> (r: Rat) {
        Rat::div(self, other)
    }

    fn neg(self) -> (r: Rat) {
        Rat::neg(self)
    }

    fn inv(self) -> (r: Rat) {
        Rat::inv(self)
    }

    fn conj(self) -> (r: Rat) {
        self
    }

    fn mag(self) -> (r: Rat) {
        Rat::abs(self)
    }

    fn real_part(self) -> (r: Rat) {
        self
    }

    fn from_rat(t: Rat) -> (r: Rat) {
        t
    }

    fn is_zero(&self) -> (r: bool) {
        self.is_zero_val()
    }

    fn eq_val(&self, other: &Rat) -> (r: bool) {
        self.num == other.num && self.den == other.den
    }
}

impl MulAdd for Rat {
    fn mul_add(self, a: &Rat, b: &Rat) -> (r: Rat) {
        Rat::add(Rat::mul(self, *a), *b)
    }
}

impl Sqrt for Rat {
    open spec fn ssqrt(self) -> Rat {
        rat_sqrt(self)
    }

    fn sqrt(self) -> (r: Rat) {
        self.sqrt_impl()
    }
}

impl Lerp for Rat {
    open spec fn lerp_req(u: Rat, v: Rat) -> bool {
        u.wf() && v.wf()
    }

    open spec fn lerp_wf(r: Rat) -> bool {
        r.wf()
    }

    open spec fn lerp_post(u: Rat, v: Rat, t: Rat, r: Rat) -> bool {
        if t == rat_zero() {
            r == u
        } else if t == rat_one() {
            r == v
        } else {
            r == rat_add(u, rat_mul(rat_sub(v, u), t))
        }
    }

    fn lerp(u: Rat, v: Rat, t: Rat) -> (r: Rat) {
        if t.is_zero_val() {
            u
        } else if t.num == 1 && t.den == 1 {
            v
        } else {
            Rat::add(u, Rat::mul(Rat::sub(v, u), t))
        }
    }
}

} // verus!
