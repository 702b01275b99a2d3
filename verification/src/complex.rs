//! Complex scalars over exact rationals.
//!
//! A `Complex` is `re + im * i` with rational components.  It implements
//! the full `Scalar` capability set: arithmetic follows the standard
//! complex field rules, conjugation negates the imaginary part, and the
//! magnitude is the real value `sqrt(re^2 + im^2)` at the fixed precision
//! of the rational square root.

use crate::rat::{lemma_rat_mul_comm, lemma_rat_norm, lemma_rat_sub_swap, rat_abs, rat_add,
    rat_div, rat_mul, rat_neg, rat_one, rat_sqrt, rat_sub, rat_zero, Rat};
use crate::scalar::{Lerp, MulAdd, Scalar, Sqrt};
use vstd::prelude::*;

verus! {

/// A complex number `re + im * i` with exact rational components.
#[derive(Clone, Copy, Debug, PartialEq, Eq, Structural)]
pub struct Complex {
    pub re: Rat,
    pub im: Rat,
}

pub open spec fn c_zero() -> Complex {
    Complex { re: rat_zero(), im: rat_zero() }
}

pub open spec fn c_one() -> Complex {
    Complex { re: rat_one(), im: rat_zero() }
}

pub open spec fn c_add(a: Complex, b: Complex) -> Complex {
    Complex { re: rat_add(a.re, b.re), im: rat_add(a.im, b.im) }
}

pub open spec fn c_sub(a: Complex, b: Complex) -> Complex {
    Complex { re: rat_sub(a.re, b.re), im: rat_sub(a.im, b.im) }
}

pub open spec fn c_mul(a: Complex, b: Complex) -> Complex {
    Complex {
        re: rat_sub(rat_mul(a.re, b.re), rat_mul(a.im, b.im)),
        im: rat_add(rat_mul(a.re, b.im), rat_mul(a.im, b.re)),
    }
}

/// The squared modulus `re^2 + im^2`, a rational.
pub open spec fn c_mod_sq(a: Complex) -> Rat {
    rat_add(rat_mul(a.re, a.re), rat_mul(a.im, a.im))
}

/// Complex division by the standard formula; division by zero yields zero
/// (the rational division-by-zero convention applied componentwise).
pub open spec fn c_div(a: Complex, b: Complex) -> Complex {
    Complex {
        re: rat_div(rat_add(rat_mul(a.re, b.re), rat_mul(a.im, b.im)), c_mod_sq(b)),
        im: rat_div(rat_sub(rat_mul(a.im, b.re), rat_mul(a.re, b.im)), c_mod_sq(b)),
    }
}

pub open spec fn c_neg(a: Complex) -> Complex {
    Complex { re: rat_neg(a.re), im: rat_neg(a.im) }
}

pub open spec fn c_conj(a: Complex) -> Complex {
    Complex { re: a.re, im: rat_neg(a.im) }
}

/// The multiplicative inverse `conj(a) / |a|^2`; the inverse of zero is zero.
pub open spec fn c_inv(a: Complex) -> Complex {
    Complex { re: rat_div(a.re, c_mod_sq(a)), im: rat_div(rat_neg(a.im), c_mod_sq(a)) }
}

/// The modulus `sqrt(re^2 + im^2)`, a real value.
pub open spec fn c_mag(a: Complex) -> Rat {
    rat_sqrt(c_mod_sq(a))
}

/// The principal square root: `x = sqrt((|z| + re) / 2)` and
/// `y = sign(im) * sqrt((|z| - re) / 2)`, where `sign(im)` is `im / |im|`
/// (zero when `im` is zero, by the division convention).
pub open spec fn c_sqrt(a: Complex) -> Complex {
    Complex {
        re: rat_sqrt(rat_div(rat_add(c_mag(a), a.re), Rat { num: 2, den: 1 })),
        im: rat_mul(
            rat_div(a.im, rat_abs(a.im)),
            rat_sqrt(rat_div(rat_sub(c_mag(a), a.re), Rat { num: 2, den: 1 })),
        ),
    }
}

impl Complex {
    /// Both components well-formed.
    pub open spec fn cwf(self) -> bool {
        self.re.wf() && self.im.wf()
    }

    /// The complex number `re + im * i`.
    pub fn new(re: Rat, im: Rat) -> (r: Complex)
        requires
            re.wf(),
            im.wf(),
        ensures
            r == (Complex { re, im }),
            r.cwf(),
    {
        Complex { re, im }
    }
}


/// Adding rationals is commutative (used for the complex product).
proof fn lemma_rat_add_comm(x: Rat, y: Rat)
    ensures
        rat_add(x, y) == rat_add(y, x),
{
    assert(x.num * y.den + y.num * x.den == y.num * x.den + x.num * y.den);
    assert(x.den * y.den == y.den * x.den) by (nonlinear_arith);
}


/// The complex arithmetic operations preserve well-formedness.
pub proof fn lemma_c_ops_wf(a: Complex, b: Complex)
    requires
        a.cwf(),
        b.cwf(),
    ensures
        c_add(a, b).cwf(),
        c_sub(a, b).cwf(),
        c_mul(a, b).cwf(),
        c_neg(a).cwf(),
{
    crate::rat::lemma_rat_ops_wf(a.re, b.re);
    crate::rat::lemma_rat_ops_wf(a.im, b.im);
    crate::rat::lemma_rat_ops_wf(a.re, b.im);
    crate::rat::lemma_rat_ops_wf(a.im, b.re);
    crate::rat::lemma_rat_ops_wf(rat_mul(a.re, b.re), rat_mul(a.im, b.im));
    crate::rat::lemma_rat_ops_wf(rat_mul(a.re, b.im), rat_mul(a.im, b.re));
}

/// Complex multiplication is commutative.
pub proof fn lemma_c_mul_comm(a: Complex, b: Complex)
    ensures
        c_mul(a, b) == c_mul(b, a),
{
    lemma_rat_mul_comm(a.re, b.re);
    lemma_rat_mul_comm(a.im, b.im);
    lemma_rat_mul_comm(a.re, b.im);
    lemma_rat_mul_comm(a.im, b.re);
    lemma_rat_add_comm(rat_mul(a.re, b.im), rat_mul(a.im, b.re));
}

/// Swapping the operands of a complex subtraction negates the result.
pub proof fn lemma_c_sub_swap(x: Complex, y: Complex)
    requires
        x.re.den >= 1,
        x.im.den >= 1,
        y.re.den >= 1,
        y.im.den >= 1,
    ensures
        c_sub(y, x) == c_neg(c_sub(x, y)),
{
    lemma_rat_sub_swap(x.re, y.re);
    lemma_rat_sub_swap(x.im, y.im);
}

impl Scalar for Complex {
    open spec fn swf(self) -> bool {
        self.cwf()
    }

    open spec fn szero() -> Complex {
        c_zero()
    }

    open spec fn sone() -> Complex {
        c_one()
    }

    open spec fn sadd(self, other: Complex) -> Complex {
        c_add(self, other)
    }

    open spec fn ssub(self, other: Complex) -> Complex {
        c_sub(self, other)
    }

    open spec fn smul(self, other: Complex) -> Complex {
        c_mul(self, other)
    }

    open spec fn sdiv(self, other: Complex) -> Complex {
        c_div(self, other)
    }

    open spec fn sneg(self) -> Complex {
        c_neg(self)
    }

    open spec fn sinv(self) -> Complex {
        c_inv(self)
    }

    open spec fn sconj(self) -> Complex {
        c_conj(self)
    }

    open spec fn smag(self) -> Rat {
        c_mag(self)
    }

    open spec fn sreal(self) -> Rat {
        self.re
    }

    open spec fn sfrom_rat(t: Rat) -> Complex {
        Complex { re: t, im: rat_zero() }
    }

    proof fn lemma_identities_wf() {
        crate::rat::lemma_int_frac_wf(0);
        crate::rat::lemma_int_frac_wf(1);
    }

    fn zero() -> (r: Complex) {
        Complex { re: Rat::zero_val(), im: Rat::zero_val() }
    }

    fn one() -> (r: Complex) {
        Complex { re: Rat::one_val(), im: Rat::zero_val() }
    }

    fn add(self, other: Complex) -> (r: Complex) {
        Complex { re: self.re.add(other.re), im: self.im.add(other.im) }
    }

    fn sub(self, other: Complex) -> (r: Complex) {
        Complex { re: self.re.sub(other.re), im: self.im.sub(other.im) }
    }

    fn mul(self, other: Complex) -> (r: Complex) {
        Complex {
            re: self.re.mul(other.re).sub(self.im.mul(other.im)),
            im: self.re.mul(other.im).add(self.im.mul(other.re)),
        }
    }

    fn div(self, other: Complex) -> (r: Complex) {
        let m2 = other.re.mul(other.re).add(other.im.mul(other.im));
        Complex {
            re: self.re.mul(other.re).add(self.im.mul(other.im)).div(m2),
            im: self.im.mul(other.re).sub(self.re.mul(other.im)).div(m2),
        }
    }

    fn neg(self) -> (r: Complex) {
        Complex { re: self.re.neg(), im: self.im.neg() }
    }

    fn inv(self) -> (r: Complex) {
        let m2 = self.re.mul(self.re).add(self.im.mul(self.im));
        Complex { re: self.re.div(m2), im: self.im.neg().div(m2) }
    }

    fn conj(self) -> (r: Complex) {
        Complex { re: self.re, im: self.im.neg() }
    }

    fn mag(self) -> (r: Rat) {
        self.re.mul(self.re).add(self.im.mul(self.im)).sqrt_impl()
    }

    fn real_part(self) -> (r: Rat) {
        self.re
    }

    fn from_rat(t: Rat) -> (r: Complex) {
        Complex { re: t, im: Rat::zero_val() }
    }

    fn is_zero(&self) -> (r: bool) {
        self.re.is_zero_val() && self.im.is_zero_val()
    }

    fn eq_val(&self, other: &Complex) -> (r: bool) {
        self.re.num == other.re.num && self.re.den == other.re.den && self.im.num == other.im.num
            && self.im.den == other.im.den
    }
}

impl MulAdd for Complex {
    fn mul_add(self, a: &Complex, b: &Complex) -> (r: Complex) {
        self.mul(*a).add(*b)
    }
}

impl Sqrt for Complex {
    open spec fn ssqrt(self) -> Complex {
        c_sqrt(self)
    }

    fn sqrt(self) -> (r: Complex) {
        let two = Rat::from_int(2);
        let m = self.mag();
        let sign = self.im.div(self.im.abs());
        Complex {
            re: m.add(self.re).div(two).sqrt_impl(),
            im: sign.mul(m.sub(self.re).div(two).sqrt_impl()),
        }
    }
}

impl Lerp for Complex {
    open spec fn lerp_req(u: Complex, v: Complex) -> bool {
        u.cwf() && v.cwf()
    }

    open spec fn lerp_wf(r: Complex) -> bool {
        r.cwf()
    }

    open spec fn lerp_post(u: Complex, v: Complex, t: Rat, r: Complex) -> bool {
        if t == rat_zero() {
            r == u
        } else if t == rat_one() {
            r == v
        } else {
            r == (Complex {
                re: rat_add(rat_mul(rat_sub(v.re, u.re), t), u.re),
                im: rat_add(rat_mul(rat_sub(v.im, u.im), t), u.im),
            })
        }
    }

    fn lerp(u: Complex, v: Complex, t: Rat) -> (r: Complex) {
        if t.is_zero_val() {
            u
        } else if t.num == 1 && t.den == 1 {
            v
        } else {
            Complex {
                re: v.re.sub(u.re).mul(t).add(u.re),
                im: v.im.sub(u.im).mul(t).add(u.im),
            }
        }
    }
}

} // verus!
