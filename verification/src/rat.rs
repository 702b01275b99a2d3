//! Exact rational scalars.
//!
//! A `Rat` is a fraction of two `i64` values kept in lowest terms with a
//! positive denominator, so every value has exactly one representation and
//! spec-level structural equality coincides with equality of values.
//!
//! Each arithmetic operation computes the exact reduced result in 128-bit
//! intermediates.  When the reduced result does not fit the 64-bit fields it
//! is clamped to a saturated value; the spec functions below describe that
//! behaviour exactly, and `rat_fits` says when an operation is exact.

use crate::arith::{
    gcd, iabs, lemma_canon_unique, lemma_div_exact, lemma_gcd_divides, lemma_gcd_pos,
    lemma_gcd_reduce, lemma_gcd_sym,
};
use vstd::prelude::*;

verus! {

/// Largest magnitude stored in either field of a `Rat`.
pub open spec fn rat_limit() -> int {
    0x7fff_ffff_ffff_ffff
}

/// Whether `x` fits the symmetric 64-bit range used by `Rat` fields.
pub open spec fn fits_i64(x: int) -> bool {
    -rat_limit() <= x <= rat_limit()
}

/// An exact rational number: `num / den`, in lowest terms, `den >= 1`.
#[derive(Clone, Copy, Debug, PartialEq, Eq, Structural)]
pub struct Rat {
    pub num: i64,
    pub den: i64,
}

/// The canonical (sign-normalized, fully reduced) form of the fraction
/// `n / d`, for `d != 0`.
pub open spec fn norm_frac(n: int, d: int) -> (int, int) {
    let n1 = if d < 0 {
        -n
    } else {
        n
    };
    let d1 = if d < 0 {
        -d
    } else {
        d
    };
    let g = gcd(iabs(n1), d1 as nat) as int;
    (n1 / g, d1 / g)
}

/// The `Rat` produced for the fraction `n / d`: its canonical form when that
/// fits the 64-bit fields, and a saturated value otherwise.
pub open spec fn rat_norm(n: int, d: int) -> Rat {
    let nf = norm_frac(n, d);
    if fits_i64(nf.0) && fits_i64(nf.1) {
        Rat { num: nf.0 as i64, den: nf.1 as i64 }
    } else if nf.0 > 0 {
        Rat { num: 0x7fff_ffff_ffff_ffffi64, den: 1 }
    } else {
        Rat { num: (-0x7fff_ffff_ffff_ffff) as i64, den: 1 }
    }
}

/// Whether the canonical form of `n / d` fits, i.e. the operation producing
/// this fraction is exact.
pub open spec fn rat_fits(n: int, d: int) -> bool {
    fits_i64(norm_frac(n, d).0) && fits_i64(norm_frac(n, d).1)
}

pub open spec fn rat_zero() -> Rat {
    Rat { num: 0, den: 1 }
}

pub open spec fn rat_one() -> Rat {
    Rat { num: 1, den: 1 }
}

pub open spec fn rat_add(a: Rat, b: Rat) -> Rat {
    rat_norm(a.num * b.den + b.num * a.den, a.den * b.den)
}

pub open spec fn rat_sub(a: Rat, b: Rat) -> Rat {
    rat_norm(a.num * b.den - b.num * a.den, a.den * b.den)
}

pub open spec fn rat_mul(a: Rat, b: Rat) -> Rat {
    rat_norm(a.num * b.num, a.den * b.den)
}

/// Division; dividing by zero yields zero (the one total-function convention
/// this library adopts where floating-point arithmetic would give infinity).
pub open spec fn rat_div(a: Rat, b: Rat) -> Rat {
    if b.num == 0 {
        rat_zero()
    } else {
        rat_norm(a.num * b.den, a.den * b.num)
    }
}

pub open spec fn rat_neg(a: Rat) -> Rat {
    Rat { num: -a.num as i64, den: a.den }
}

pub open spec fn rat_abs(a: Rat) -> Rat {
    if a.num < 0 {
        Rat { num: -a.num as i64, den: a.den }
    } else {
        a
    }
}

pub open spec fn rat_inv(a: Rat) -> Rat {
    rat_div(rat_one(), a)
}

/// Strict order on rationals by cross-multiplication.
pub open spec fn rat_lt(a: Rat, b: Rat) -> bool {
    a.num * b.den < b.num * a.den
}

impl Rat {
    /// In lowest terms, positive denominator, magnitudes within range.
    pub open spec fn wf(self) -> bool {
        &&& self.den >= 1
        &&& self.num > i64::MIN
        &&& gcd(iabs(self.num as int), self.den as nat) == 1
    }
}

/// `gcd(a, 1) == 1`.
pub proof fn lemma_gcd_one(a: nat)
    ensures
        gcd(a, 1) == 1,
{
    assert(a % 1 == 0) by (nonlinear_arith);
    assert(gcd(a, 1) == gcd(1, 0));
    assert(gcd(1, 0) == 1);
}

/// Constant fractions with denominator one are well-formed.
pub proof fn lemma_int_frac_wf(n: i64)
    requires
        n > i64::MIN,
    ensures
        (Rat { num: n, den: 1 }).wf(),
{
    lemma_gcd_one(iabs(n as int));
}

/// The canonical form of `n / d` is well-formed and stands for the same
/// rational value (cross-multiplication equality).
pub proof fn lemma_norm_frac(n: int, d: int)
    requires
        d != 0,
    ensures
        norm_frac(n, d).1 >= 1,
        gcd(iabs(norm_frac(n, d).0), norm_frac(n, d).1 as nat) == 1,
        norm_frac(n, d).0 * d == n * norm_frac(n, d).1,
{
    let n1 = if d < 0 {
        -n
    } else {
        n
    };
    let d1 = if d < 0 {
        -d
    } else {
        d
    };
    let na = iabs(n1);
    let g = gcd(na, d1 as nat) as int;
    lemma_gcd_pos(na, d1 as nat);
    lemma_gcd_divides(na, d1 as nat);
    // g divides n1 (with sign) and d1 exactly.
    let kn_abs = choose|k: int| na as int == #[trigger] (g * k);
    let kn = if n1 >= 0 {
        kn_abs
    } else {
        -kn_abs
    };
    assert(n1 == g * kn) by (nonlinear_arith)
        requires
            na as int == g * kn_abs,
            kn == if n1 >= 0 { kn_abs } else { -kn_abs },
            na == iabs(n1),
    ;
    let kd = choose|k: int| d1 as int == #[trigger] (g * k);
    lemma_div_exact(n1, g, kn);
    lemma_div_exact(d1, g, kd);
    lemma_div_exact(na as int, g, kn_abs);
    // Positivity of the reduced denominator.
    assert(kd >= 1) by (nonlinear_arith)
        requires
            d1 == g * kd,
            g >= 1,
            d1 >= 1,
    ;
    // Value preservation: (n1/g) * d == n * (d1/g).
    assert(kn * d == n * kd) by (nonlinear_arith)
        requires
            n1 == g * kn,
            d1 == g * kd,
            g >= 1,
            n1 == if d < 0 { -n } else { n },
            d1 == if d < 0 { -d } else { d },
    ;
    // Coprimality of the reduced pair.
    lemma_gcd_reduce(na, d1 as nat);
    assert(iabs(kn) == na as int / g) by (nonlinear_arith)
        requires
            n1 == g * kn,
            na as int == g * kn_abs,
            kn == if n1 >= 0 { kn_abs } else { -kn_abs },
            na == iabs(n1),
            na as int / g == kn_abs,
            g >= 1,
    ;
}

/// `rat_norm` always yields a well-formed value; when the canonical form
/// fits, that value stands for exactly the fraction `n / d`.
pub proof fn lemma_rat_norm(n: int, d: int)
    requires
        d != 0,
    ensures
        rat_norm(n, d).wf(),
        rat_fits(n, d) ==> rat_norm(n, d).num * d == n * rat_norm(n, d).den,
{
    lemma_norm_frac(n, d);
    if !(rat_fits(n, d)) {
        lemma_int_frac_wf(0x7fff_ffff_ffff_ffff);
        lemma_int_frac_wf((-0x7fff_ffff_ffff_ffff) as i64);
    }
}

/// Canonicalizing a well-formed value gives it back unchanged.
pub proof fn lemma_rat_norm_id(a: Rat)
    requires
        a.wf(),
    ensures
        rat_norm(a.num as int, a.den as int) == a,
{
    let na = iabs(a.num as int);
    lemma_div_exact(a.num as int, 1, a.num as int);
    lemma_div_exact(a.den as int, 1, a.den as int);
}

/// Fractions with equal values canonicalize to the same `Rat`.
pub proof fn lemma_rat_norm_eq(n1: int, d1: int, n2: int, d2: int)
    requires
        d1 != 0,
        d2 != 0,
        n1 * d2 == n2 * d1,
    ensures
        rat_norm(n1, d1) == rat_norm(n2, d2),
{
    lemma_norm_frac(n1, d1);
    lemma_norm_frac(n2, d2);
    let p1 = norm_frac(n1, d1).0;
    let q1 = norm_frac(n1, d1).1;
    let p2 = norm_frac(n2, d2).0;
    let q2 = norm_frac(n2, d2).1;
    assert(p1 * q2 == p2 * q1) by (nonlinear_arith)
        requires
            p1 * d1 == n1 * q1,
            p2 * d2 == n2 * q2,
            n1 * d2 == n2 * d1,
            d1 != 0,
            d2 != 0,
            q1 >= 1,
            q2 >= 1,
    ;
    lemma_canon_unique(p1, q1, p2, q2);
}

/// Euclid's algorithm on unsigned 128-bit integers.
fn gcd_u128(a: u128, b: u128) -> (g: u128)
    ensures
        g as nat == gcd(a as nat, b as nat),
{
    let mut x: u128 = a;
    let mut y: u128 = b;
    while y != 0
        invariant
            gcd(x as nat, y as nat) == gcd(a as nat, b as nat),
        decreases y,
    {
        let t: u128 = x % y;
        x = y;
        y = t;
    }
    x
}

/// Reduce the fraction `n / d` (with `d >= 1`) to a `Rat`, saturating when
/// the reduced fraction does not fit.
fn reduce(n: i128, d: i128) -> (r: Rat)
    requires
        d >= 1,
        n > i128::MIN,
    ensures
        r == rat_norm(n as int, d as int),
        r.wf(),
{
    proof {
        lemma_rat_norm(n as int, d as int);
    }
    let neg: bool = n < 0;
    let na: u128 = if neg {
        (-n) as u128
    } else {
        n as u128
    };
    let g: u128 = gcd_u128(na, d as u128);
    proof {
        lemma_gcd_pos(na as nat, d as nat);
        lemma_norm_frac(n as int, d as int);
    }
    let nq: u128 = na / g;
    let dq: u128 = (d as u128) / g;
    proof {
        let ni = n as int;
        let di = d as int;
        let gi = g as int;
        let nf = norm_frac(ni, di);
        lemma_gcd_divides(na as nat, d as nat);
        let kn_abs = choose|k: int| na as int == #[trigger] (gi * k);
        let kd = choose|k: int| di == #[trigger] (gi * k);
        lemma_div_exact(na as int, gi, kn_abs);
        lemma_div_exact(di, gi, kd);
        assert(nq as int == kn_abs);
        assert(dq as int == kd);
        if neg {
            assert(ni == gi * (-kn_abs)) by (nonlinear_arith)
                requires
                    na as int == gi * kn_abs,
                    n < 0,
                    na as int == -ni,
            ;
            lemma_div_exact(ni, gi, -kn_abs);
            assert(nf.0 == -(nq as int));
        } else {
            assert(nf.0 == nq as int);
        }
        assert(nf.1 == dq as int);
        assert(dq >= 1) by (nonlinear_arith)
            requires
                di == gi * (dq as int),
                di >= 1,
                gi >= 1,
        ;
        if n != 0 {
            assert(nq >= 1) by (nonlinear_arith)
                requires
                    na as int == gi * (nq as int),
                    na >= 1,
                    gi >= 1,
            ;
        } else {
            // gcd(0, d) == d, so the canonical form of 0 / d is 0 / 1.
            assert((0 as nat) % (d as nat) == 0) by (nonlinear_arith)
                requires
                    d >= 1,
            ;
            assert(gcd(0, d as nat) == gcd(d as nat, 0));
            assert(gi == di);
            lemma_div_exact(di, di, 1);
            assert(dq as int == 1);
        }
    }
    if nq <= 0x7fff_ffff_ffff_ffff && dq <= 0x7fff_ffff_ffff_ffff {
        if neg {
            Rat { num: -(nq as i64), den: dq as i64 }
        } else {
            Rat { num: nq as i64, den: dq as i64 }
        }
    } else {
        if neg {
            Rat { num: -0x7fff_ffff_ffff_ffff, den: 1 }
        } else {
            Rat { num: 0x7fff_ffff_ffff_ffff, den: 1 }
        }
    }
}

impl Rat {
    /// The rational zero.
    pub fn zero_val() -> (r: Rat)
        ensures
            r == rat_zero(),
            r.wf(),
    {
        proof {
            lemma_int_frac_wf(0);
        }
        Rat { num: 0, den: 1 }
    }

    /// The rational one.
    pub fn one_val() -> (r: Rat)
        ensures
            r == rat_one(),
            r.wf(),
    {
        proof {
            lemma_int_frac_wf(1);
        }
        Rat { num: 1, den: 1 }
    }

    /// The integer `n` as a rational.
    pub fn from_int(n: i64) -> (r: Rat)
        requires
            n > i64::MIN,
        ensures
            r == (Rat { num: n, den: 1 }),
            r.wf(),
    {
        proof {
            lemma_int_frac_wf(n);
        }
        Rat { num: n, den: 1 }
    }

    /// The fraction `n / d`, canonicalized.
    pub fn new(n: i64, d: i64) -> (r: Rat)
        requires
            d != 0,
            n > i64::MIN,
            d > i64::MIN,
        ensures
            r == rat_norm(n as int, d as int),
            r.wf(),
    {
        proof {
            lemma_rat_norm(n as int, d as int);
        }
        if d < 0 {
            let r = reduce(-(n as i128), -(d as i128));
            proof {
                assert(norm_frac(-(n as int), -(d as int)) == norm_frac(n as int, d as int));
            }
            r
        } else {
            reduce(n as i128, d as i128)
        }
    }

    /// Exact addition (saturating when out of range).
    pub fn add(self, other: Rat) -> (r: Rat)
        requires
            self.wf(),
            other.wf(),
        ensures
            r == rat_add(self, other),
            r.wf(),
    {
        proof {
            lemma_rat_mul_bounds(self, other);
        }
        let n: i128 = (self.num as i128) * (other.den as i128) + (other.num as i128) * (self.den
            as i128);
        let d: i128 = (self.den as i128) * (other.den as i128);
        reduce(n, d)
    }

    /// Exact subtraction (saturating when out of range).
    pub fn sub(self, other: Rat) -> (r: Rat)
        requires
            self.wf(),
            other.wf(),
        ensures
            r == rat_sub(self, other),
            r.wf(),
    {
        proof {
            lemma_rat_mul_bounds(self, other);
        }
        let n: i128 = (self.num as i128) * (other.den as i128) - (other.num as i128) * (self.den
            as i128);
        let d: i128 = (self.den as i128) * (other.den as i128);
        reduce(n, d)
    }

    /// Exact multiplication (saturating when out of range).
    pub fn mul(self, other: Rat) -> (r: Rat)
        requires
            self.wf(),
            other.wf(),
        ensures
            r == rat_mul(self, other),
            r.wf(),
    {
        proof {
            lemma_rat_mul_bounds(self, other);
        }
        let n: i128 = (self.num as i128) * (other.num as i128);
        let d: i128 = (self.den as i128) * (other.den as i128);
        reduce(n, d)
    }

    /// Division; dividing by zero yields zero.
    pub fn div(self, other: Rat) -> (r: Rat)
        requires
            self.wf(),
            other.wf(),
        ensures
            r == rat_div(self, other),
            r.wf(),
    {
        proof {
            lemma_rat_mul_bounds(self, other);
        }
        if other.num == 0 {
            Rat::zero_val()
        } else {
            let n: i128 = (self.num as i128) * (other.den as i128);
            let d: i128 = (self.den as i128) * (other.num as i128);
            proof {
                assert(d != 0) by (nonlinear_arith)
                    requires
                        self.den >= 1,
                        other.num != 0,
                        d as int == (self.den as int) * (other.num as int),
                ;
            }
            if d < 0 {
                let r = reduce(-n, -d);
                proof {
                    assert(norm_frac(-(n as int), -(d as int)) == norm_frac(n as int, d as int));
                }
                r
            } else {
                reduce(n, d)
            }
        }
    }

    /// Exact negation.
    pub fn neg(self) -> (r: Rat)
        requires
            self.wf(),
        ensures
            r == rat_neg(self),
            r.wf(),
    {
        Rat { num: -self.num, den: self.den }
    }

    /// Exact absolute value.
    pub fn abs(self) -> (r: Rat)
        requires
            self.wf(),
        ensures
            r == rat_abs(self),
            r.wf(),
    {
        if self.num < 0 {
            Rat { num: -self.num, den: self.den }
        } else {
            self
        }
    }

    /// Multiplicative inverse; the inverse of zero is zero.
    pub fn inv(self) -> (r: Rat)
        requires
            self.wf(),
        ensures
            r == rat_inv(self),
            r.wf(),
    {
        let one = Rat::one_val();
        one.div(self)
    }

    /// Strict comparison of rational values.
    pub fn lt(&self, other: &Rat) -> (r: bool)
        requires
            self.wf(),
            other.wf(),
        ensures
            r == rat_lt(*self, *other),
    {
        proof {
            lemma_rat_mul_bounds(*self, *other);
        }
        (self.num as i128) * (other.den as i128) < (other.num as i128) * (self.den as i128)
    }

    /// Whether this value is zero.
    pub fn is_zero_val(&self) -> (r: bool)
        requires
            self.wf(),
        ensures
            r == (*self == rat_zero()),
    {
        proof {
            if self.num == 0 {
                assert(gcd(0, self.den as nat) == gcd(self.den as nat, 0));
            }
        }
        self.num == 0
    }
}

/// `r` is the integer square root of `x`, rounded down.
pub open spec fn is_sqrt(x: int, r: int) -> bool {
    0 <= r && r * r <= x && x < (r + 1) * (r + 1)
}

/// The integer square root of `x`, rounded down.
pub open spec fn isqrt(x: int) -> int {
    choose|r: int| is_sqrt(x, r)
}

/// The integer square root is unique.
pub proof fn lemma_isqrt_is(x: int, r: int)
    requires
        is_sqrt(x, r),
    ensures
        isqrt(x) == r,
{
    assert(exists|r2: int| is_sqrt(x, r2));
    let r2 = isqrt(x);
    assert(r == r2) by (nonlinear_arith)
        requires
            0 <= r,
            r * r <= x,
            x < (r + 1) * (r + 1),
            0 <= r2,
            r2 * r2 <= x,
            x < (r2 + 1) * (r2 + 1),
    ;
}

/// The square root of a rational, rounded down at a fixed precision.
///
/// For small operands the fraction is scaled by `2^48` before taking the
/// integer square root, so the result is within `2^-24` of the true root;
/// larger operands fall back to an unscaled (coarser) approximation.  The
/// root of a negative value is zero by convention (floating-point
/// arithmetic would produce a NaN here).
pub open spec fn rat_sqrt(a: Rat) -> Rat {
    if a.num <= 0 {
        rat_zero()
    } else if a.num < 0x40_0000_0000 && a.den < 0x40_0000_0000 {
        rat_norm(isqrt(a.num * a.den * 0x1_0000_0000_0000), (a.den as int) * 0x100_0000)
    } else {
        rat_norm(isqrt(a.num * a.den), a.den as int)
    }
}

/// Binary-search integer square root on 128-bit operands.
fn isqrt_u128(x: u128) -> (r: u128)
    ensures
        r as int == isqrt(x as int),
        is_sqrt(x as int, r as int),
{
    let mut lo: u128 = 0;
    let mut hi: u128 = 0x1_0000_0000_0000_0000;
    proof {
        assert((x as int) < 0x1_0000_0000_0000_0000int * 0x1_0000_0000_0000_0000int)
            by (nonlinear_arith)
            requires
                x <= u128::MAX,
        ;
    }
    while lo + 1 < hi
        invariant
            lo < hi,
            hi <= 0x1_0000_0000_0000_0000,
            (lo as int) * (lo as int) <= x as int,
            (x as int) < (hi as int) * (hi as int),
        decreases hi - lo,
    {
        let mid: u128 = lo + (hi - lo) / 2;
        proof {
            assert(lo < mid && mid < hi);
            assert((mid as int) * (mid as int) < u128::MAX as int) by (nonlinear_arith)
                requires
                    mid < 0x1_0000_0000_0000_0000,
            ;
        }
        if mid * mid <= x {
            lo = mid;
        } else {
            hi = mid;
        }
    }
    proof {
        lemma_isqrt_is(x as int, lo as int);
    }
    lo
}

impl Rat {
    /// Approximate square root at fixed precision; see `rat_sqrt`.
    pub fn sqrt_impl(self) -> (r: Rat)
        requires
            self.wf(),
        ensures
            r == rat_sqrt(self),
            r.wf(),
    {
        if self.num <= 0 {
            Rat::zero_val()
        } else if self.num < 0x40_0000_0000 && self.den < 0x40_0000_0000 {
            proof {
                assert((self.num as int) * (self.den as int) < 0x40_0000_0000int * 0x40_0000_0000int)
                    by (nonlinear_arith)
                    requires
                        0 < self.num < 0x40_0000_0000,
                        0 < self.den < 0x40_0000_0000,
                ;
                assert((self.num as int) * (self.den as int) >= 1) by (nonlinear_arith)
                    requires
                        0 < self.num,
                        0 < self.den,
                ;
            }
            let p: u128 = (self.num as u128) * (self.den as u128);
            let s: u128 = isqrt_u128(p * 0x1_0000_0000_0000);
            proof {
                assert((s as int) * (s as int) <= (p * 0x1_0000_0000_0000) as int);
                assert(s < 0x1_0000_0000_0000_0000) by (nonlinear_arith)
                    requires
                        (s as int) * (s as int) <= (p * 0x1_0000_0000_0000) as int,
                        ((p * 0x1_0000_0000_0000) as int) < 0x1_0000_0000_0000_0000int * 0x1_0000_0000_0000_0000int,
                        s >= 0,
                ;
            }
            reduce(s as i128, (self.den as i128) * 0x100_0000)
        } else {
            proof {
                assert((self.num as int) * (self.den as int) <= 0x7fff_ffff_ffff_ffffint * 0x7fff_ffff_ffff_ffffint)
                    by (nonlinear_arith)
                    requires
                        0 < self.num <= 0x7fff_ffff_ffff_ffff,
                        0 < self.den <= 0x7fff_ffff_ffff_ffff,
                ;
                assert((self.num as int) * (self.den as int) >= 1) by (nonlinear_arith)
                    requires
                        0 < self.num,
                        0 < self.den,
                ;
            }
            let p: u128 = (self.num as u128) * (self.den as u128);
            let s: u128 = isqrt_u128(p);
            proof {
                assert((s as int) * (s as int) <= p as int);
                assert(s <= 0x7fff_ffff_ffff_ffff_ffff_ffff_ffff_ffffu128) by (nonlinear_arith)
                    requires
                        (s as int) * (s as int) <= p as int,
                        p <= u128::MAX,
                        s >= 0,
                ;
            }
            reduce(s as i128, self.den as i128)
        }
    }
}



/// The arithmetic operations preserve well-formedness.
pub proof fn lemma_rat_ops_wf(a: Rat, b: Rat)
    requires
        a.wf(),
        b.wf(),
    ensures
        rat_add(a, b).wf(),
        rat_sub(a, b).wf(),
        rat_mul(a, b).wf(),
        rat_div(a, b).wf(),
        rat_neg(a).wf(),
{
    assert(a.den * b.den >= 1) by (nonlinear_arith)
        requires
            a.den >= 1,
            b.den >= 1,
    ;
    lemma_rat_norm(a.num * b.den + b.num * a.den, a.den * b.den);
    lemma_rat_norm(a.num * b.den - b.num * a.den, a.den * b.den);
    lemma_rat_norm(a.num * b.num, a.den * b.den);
    if b.num == 0 {
        lemma_int_frac_wf(0);
    } else {
        assert(a.den * b.num != 0) by (nonlinear_arith)
            requires
                a.den >= 1,
                b.num != 0,
        ;
        lemma_rat_norm(a.num * b.den, a.den * b.num);
    }
}


/// An in-range integer fraction canonicalizes to itself.
pub proof fn lemma_rat_norm_int(k: int)
    requires
        fits_i64(k),
    ensures
        rat_norm(k, 1) == (Rat { num: k as i64, den: 1 }),
{
    lemma_gcd_one(iabs(k));
    lemma_div_exact(k, 1, k);
    lemma_div_exact(1, 1, 1);
}

/// Arithmetic on integer-valued rationals is plain integer arithmetic,
/// as long as the integer results are in range.
pub proof fn lemma_rat_int_ops(x: Rat, y: Rat)
    requires
        x.den == 1,
        y.den == 1,
    ensures
        fits_i64(x.num * y.num) ==> rat_mul(x, y) == (Rat { num: (x.num * y.num) as i64, den: 1 }),
        fits_i64(x.num + y.num) ==> rat_add(x, y) == (Rat { num: (x.num + y.num) as i64, den: 1 }),
        fits_i64(x.num - y.num) ==> rat_sub(x, y) == (Rat { num: (x.num - y.num) as i64, den: 1 }),
{
    if fits_i64(x.num * y.num) {
        lemma_rat_norm_int(x.num * y.num);
    }
    if fits_i64(x.num + y.num) {
        lemma_rat_norm_int(x.num + y.num);
    }
    if fits_i64(x.num - y.num) {
        lemma_rat_norm_int(x.num - y.num);
    }
}


/// The square root is exact on perfect squares of small integers.
pub proof fn lemma_rat_sqrt_exact(k: int)
    requires
        0 <= k,
        k * k < 0x40_0000_0000,
    ensures
        rat_sqrt(Rat { num: (k * k) as i64, den: 1 }) == (Rat { num: k as i64, den: 1 }),
{
    let a = Rat { num: (k * k) as i64, den: 1 };
    assert(k * k >= 0) by (nonlinear_arith)
        requires
            k >= 0,
    ;
    if k == 0 {
        assert(k * k == 0) by (nonlinear_arith)
            requires
                k == 0,
        ;
    } else {
        assert(a.num > 0) by (nonlinear_arith)
            requires
                k >= 1,
                a.num == k * k,
        ;
        let x = a.num * a.den * 0x1_0000_0000_0000;
        let r = k * 0x100_0000;
        assert(is_sqrt(x, r)) by (nonlinear_arith)
            requires
                x == (k * k) * 1 * 0x1_0000_0000_0000,
                r == k * 0x100_0000,
                k >= 1,
        ;
        lemma_isqrt_is(x, r);
        assert(k < 0x80_0000) by (nonlinear_arith)
            requires
                k * k < 0x40_0000_0000,
                k >= 1,
        ;
        assert(r * 1 == k * 0x100_0000) by (nonlinear_arith)
            requires
                r == k * 0x100_0000,
        ;
        lemma_rat_norm_eq(r, 0x100_0000, k, 1);
        lemma_rat_norm_int(k);
    }
}


/// The inverse of one is one.
pub proof fn lemma_rat_inv_one()
    ensures
        rat_inv(rat_one()) == rat_one(),
{
    lemma_rat_norm_int(1);
}

/// One is the multiplicative identity.
pub proof fn lemma_rat_mul_one(x: Rat)
    requires
        x.wf(),
    ensures
        rat_mul(x, rat_one()) == x,
{
    assert(x.num * 1 == x.num);
    assert(x.den * 1 == x.den);
    lemma_rat_norm_id(x);
}


/// A nonzero rational times its inverse is exactly one: the inverse of a
/// value in lowest terms is again in lowest terms and never saturates.
pub proof fn lemma_rat_mul_inv(p: Rat)
    requires
        p.wf(),
        p.num != 0,
    ensures
        rat_mul(p, rat_inv(p)) == rat_one(),
{
    let q = rat_inv(p);
    assert(1 * p.den == p.den);
    assert(1 * p.num == p.num);
    assert(q == rat_norm(p.den as int, p.num as int));
    // The flipped fraction is already in lowest terms, so canonicalizing
    // it only normalizes the sign.
    lemma_gcd_sym(iabs(p.num as int), p.den as nat);
    let n1 = if p.num < 0 {
        -(p.den as int)
    } else {
        p.den as int
    };
    let d1 = if p.num < 0 {
        -(p.num as int)
    } else {
        p.num as int
    };
    assert(iabs(n1) == p.den as nat);
    assert(gcd(iabs(n1), d1 as nat) == 1);
    lemma_div_exact(n1, 1, n1);
    lemma_div_exact(d1, 1, d1);
    assert(norm_frac(p.den as int, p.num as int) == (n1, d1));
    assert(q == (Rat { num: n1 as i64, den: d1 as i64 }));
    // The product's fraction is value-equal to one.
    assert((p.num as int) * (q.num as int) == (p.den as int) * (q.den as int))
        by (nonlinear_arith)
        requires
            q.num as int == if p.num < 0 { -(p.den as int) } else { p.den as int },
            q.den as int == if p.num < 0 { -(p.num as int) } else { p.num as int },
            p.num != 0,
    ;
    assert((p.num as int) * (q.num as int) * 1 == 1 * ((p.den as int) * (q.den as int)));
    assert((p.den as int) * (q.den as int) >= 1) by (nonlinear_arith)
        requires
            p.den >= 1,
            q.den >= 1,
    ;
    lemma_rat_norm_eq(
        (p.num as int) * (q.num as int),
        (p.den as int) * (q.den as int),
        1,
        1,
    );
    lemma_rat_norm_int(1);
}


/// Canonicalizing a zero fraction gives zero.
pub proof fn lemma_rat_norm_zero(d: int)
    requires
        d >= 1,
    ensures
        rat_norm(0, d) == rat_zero(),
{
    assert((0 as nat) % (d as nat) == 0) by (nonlinear_arith)
        requires
            d >= 1,
    ;
    assert(gcd(0, d as nat) == gcd(d as nat, 0));
    lemma_div_exact(0, d, 0);
    lemma_div_exact(d, d, 1);
}

/// Eliminating against a nonzero pivot clears the entry exactly:
/// `x + p * (-x / p) == 0`, as long as neither the division nor the
/// multiplication saturates.
#[verifier::rlimit(100)]
pub proof fn lemma_rat_eliminate_zero(x: Rat, p: Rat)
    requires
        x.wf(),
        p.wf(),
        p.num != 0,
        rat_fits(-x.num * p.den, x.den * p.num),
        rat_fits(
            p.num * rat_div(rat_neg(x), p).num,
            p.den * rat_div(rat_neg(x), p).den,
        ),
    ensures
        rat_add(x, rat_mul(p, rat_div(rat_neg(x), p))) == rat_zero(),
{
    let q = rat_div(rat_neg(x), p);
    let t = rat_mul(p, q);
    assert(x.den * p.num != 0) by (nonlinear_arith)
        requires
            x.den >= 1,
            p.num != 0,
    ;
    lemma_rat_norm(-x.num * p.den, x.den * p.num);
    assert(q == rat_norm(-x.num * p.den, x.den * p.num));
    assert(q.num * (x.den * p.num) == (-x.num * p.den) * q.den);
    assert(p.den * q.den >= 1) by (nonlinear_arith)
        requires
            p.den >= 1,
            q.den >= 1,
    ;
    lemma_rat_norm(p.num * q.num, p.den * q.den);
    assert(t.num * (p.den * q.den) == (p.num * q.num) * t.den);
    // The product is value-equal to the negation of x, by a chain of
    // rearrangements around the two canonicalization equalities.
    let qn = q.num as int;
    let qd = q.den as int;
    let tn = t.num as int;
    let td = t.den as int;
    let pn = p.num as int;
    let pd = p.den as int;
    let xn = x.num as int;
    let xd = x.den as int;
    let sden = pd * qd;
    assert(tn * sden * xd == (pn * qn) * td * xd) by (nonlinear_arith)
        requires
            tn * sden == (pn * qn) * td,
    ;
    assert((pn * qn) * td * xd == (qn * (xd * pn)) * td) by (nonlinear_arith);
    assert((qn * (xd * pn)) * td == ((-xn * pd) * qd) * td) by (nonlinear_arith)
        requires
            qn * (xd * pn) == (-xn * pd) * qd,
    ;
    assert(((-xn * pd) * qd) * td == (-xn * td) * sden) by (nonlinear_arith)
        requires
            sden == pd * qd,
    ;
    assert(tn * sden * xd == (tn * xd) * sden) by (nonlinear_arith);
    assert(tn * xd == -xn * td) by (nonlinear_arith)
        requires
            (tn * xd) * sden == (-xn * td) * sden,
            sden >= 1,
    ;
    assert(t.num * x.den == -x.num * t.den);
    // So the sum's numerator vanishes.
    assert(x.num * t.den + t.num * x.den == 0) by (nonlinear_arith)
        requires
            t.num * x.den == -x.num * t.den,
    ;
    assert(x.den * t.den >= 1) by (nonlinear_arith)
        requires
            x.den >= 1,
            t.den >= 1,
    ;
    lemma_rat_norm_zero(x.den * t.den);
}


/// A well-formed rational with zero numerator is the canonical zero.
pub proof fn lemma_rat_wf_zero(p: Rat)
    requires
        p.wf(),
        p.num == 0,
    ensures
        p == rat_zero(),
{
    assert((0 as nat) % (p.den as nat) == 0) by (nonlinear_arith)
        requires
            p.den >= 1,
    ;
    assert(gcd(0, p.den as nat) == gcd(p.den as nat, 0));
}

/// Whether eliminating `x` against the pivot `p` is exact: the division
/// and the following multiplication both stay within range.
pub open spec fn elim_exact(x: Rat, p: Rat) -> bool {
    &&& rat_fits(-x.num * p.den, x.den * p.num)
    &&& rat_fits(p.num * rat_div(rat_neg(x), p).num, p.den * rat_div(rat_neg(x), p).den)
}

/// Negating a fraction negates its canonical form.
pub proof fn lemma_rat_norm_neg(n: int, d: int)
    requires
        d >= 1,
    ensures
        rat_norm(-n, d) == rat_neg(rat_norm(n, d)),
{
    lemma_norm_frac(n, d);
    lemma_norm_frac(-n, d);
    lemma_rat_norm(n, d);
    lemma_rat_norm(-n, d);
    let nf = norm_frac(n, d);
    let ng = norm_frac(-n, d);
    // The canonical forms have negated numerators and equal denominators.
    assert(nf.0 * d == n * nf.1);
    assert(ng.0 * d == -n * ng.1);
    assert(iabs(n) == iabs(-n));
    assert(nf.1 == ng.1);
    assert(ng.0 == -nf.0) by (nonlinear_arith)
        requires
            nf.0 * d == n * nf.1,
            ng.0 * d == -n * ng.1,
            nf.1 == ng.1,
            nf.1 >= 1,
            d >= 1,
    ;
    if fits_i64(nf.0) && fits_i64(nf.1) {
    } else {
        // The saturated case: the numerator is nonzero and the two
        // saturations have opposite signs.
        if n == 0 {
            assert((0 as nat) % (d as nat) == 0) by (nonlinear_arith)
                requires
                    d >= 1,
            ;
            assert(gcd(0, d as nat) == gcd(d as nat, 0));
            lemma_div_exact(d, d, 1);
            lemma_div_exact(0, d, 0);
            assert(nf.1 == 1);
            assert(nf.0 == 0);
            assert(false);
        }
        assert(nf.0 != 0) by (nonlinear_arith)
            requires
                nf.0 * d == n * nf.1,
                n != 0,
                nf.1 >= 1,
                d >= 1,
        ;
    }
}

/// Adding `b` and then subtracting `b` restores the original value,
/// provided the sum did not saturate.
pub proof fn lemma_rat_add_sub(a: Rat, b: Rat)
    requires
        a.wf(),
        b.wf(),
        rat_fits(a.num * b.den + b.num * a.den, a.den * b.den),
    ensures
        rat_sub(rat_add(a, b), b) == a,
{
    let sn = a.num * b.den + b.num * a.den;
    let sd = a.den * b.den;
    assert(sd >= 1) by (nonlinear_arith)
        requires
            sd == a.den * b.den,
            a.den >= 1,
            b.den >= 1,
    ;
    lemma_rat_norm(sn, sd);
    let s = rat_add(a, b);
    assert(s == rat_norm(sn, sd));
    assert(s.num * sd == sn * s.den);
    let dn = s.num * b.den - b.num * s.den;
    let dd = s.den * b.den;
    assert(dd >= 1) by (nonlinear_arith)
        requires
            dd == s.den * b.den,
            s.den >= 1,
            b.den >= 1,
    ;
    assert(dn * a.den == a.num * dd) by (nonlinear_arith)
        requires
            s.num * sd == sn * s.den,
            sn == a.num * b.den + b.num * a.den,
            sd == a.den * b.den,
            dn == s.num * b.den - b.num * s.den,
            dd == s.den * b.den,
            a.den >= 1,
            b.den >= 1,
            s.den >= 1,
    ;
    lemma_rat_norm_eq(dn, dd, a.num as int, a.den as int);
    lemma_rat_norm_id(a);
}

/// Multiplication of rationals is commutative.
pub proof fn lemma_rat_mul_comm(a: Rat, b: Rat)
    ensures
        rat_mul(a, b) == rat_mul(b, a),
{
    assert(a.num * b.num == b.num * a.num) by (nonlinear_arith);
    assert(a.den * b.den == b.den * a.den) by (nonlinear_arith);
}

/// Swapping the operands of a subtraction negates the result.
pub proof fn lemma_rat_sub_swap(x: Rat, y: Rat)
    requires
        x.den >= 1,
        y.den >= 1,
    ensures
        rat_sub(y, x) == rat_neg(rat_sub(x, y)),
{
    let n = x.num * y.den - y.num * x.den;
    let d = x.den * y.den;
    assert(d >= 1) by (nonlinear_arith)
        requires
            d == x.den * y.den,
            x.den >= 1,
            y.den >= 1,
    ;
    assert(y.num * x.den - x.num * y.den == -n);
    assert(y.den * x.den == d) by (nonlinear_arith)
        requires
            d == x.den * y.den,
    ;
    lemma_rat_norm_neg(n, d);
}

/// Products of `Rat` fields stay within `i128`.
proof fn lemma_rat_mul_bounds(a: Rat, b: Rat)
    requires
        a.wf(),
        b.wf(),
    ensures
        -0x3fff_ffff_ffff_ffff_8000_0000_0000_0001
            <= (a.num as int) * (b.den as int)
            <= 0x3fff_ffff_ffff_ffff_8000_0000_0000_0001,
        -0x3fff_ffff_ffff_ffff_8000_0000_0000_0001
            <= (b.num as int) * (a.den as int)
            <= 0x3fff_ffff_ffff_ffff_8000_0000_0000_0001,
        -0x3fff_ffff_ffff_ffff_8000_0000_0000_0001
            <= (a.num as int) * (b.num as int)
            <= 0x3fff_ffff_ffff_ffff_8000_0000_0000_0001,
        1 <= (a.den as int) * (b.den as int) <= 0x3fff_ffff_ffff_ffff_8000_0000_0000_0001,
        -0x3fff_ffff_ffff_ffff_8000_0000_0000_0001
            <= (a.den as int) * (b.num as int)
            <= 0x3fff_ffff_ffff_ffff_8000_0000_0000_0001,
{
    let m = 0x7fff_ffff_ffff_ffffint;
    assert forall|x: int, y: int|
        -m <= x <= m && -m <= y <= m implies -(m * m) <= #[trigger] (x * y) <= m * m by {
        assert(-(m * m) <= x * y <= m * m) by (nonlinear_arith)
            requires
                -m <= x <= m,
                -m <= y <= m,
        ;
    }
    assert(1 <= (a.den as int) * (b.den as int)) by (nonlinear_arith)
        requires
            a.den >= 1,
            b.den >= 1,
    ;
}

} // verus!
