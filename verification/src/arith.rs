//! Divisibility and greatest-common-divisor facts for integers.
//!
//! The rational scalar type keeps its fractions in lowest terms, so its
//! well-formedness predicate and its arithmetic lemmas all rest on the
//! `gcd` function and the divisibility lemmas collected here.

use vstd::arithmetic::div_mod::{
    lemma_fundamental_div_mod, lemma_fundamental_div_mod_converse,
};
use vstd::prelude::*;

verus! {

/// `d` divides `n` over the integers.
pub open spec fn divides(d: int, n: int) -> bool {
    exists|k: int| n == #[trigger] (d * k)
}

/// Absolute value of an integer, as a natural number.
pub open spec fn iabs(x: int) -> nat {
    if x >= 0 {
        x as nat
    } else {
        (-x) as nat
    }
}

/// Greatest common divisor, by Euclid's recursion; `gcd(a, 0) == a`.
pub open spec fn gcd(a: nat, b: nat) -> nat
    decreases b,
{
    if b == 0 {
        a
    } else {
        gcd(b, a % b)
    }
}

/// Anything divides zero.
pub proof fn lemma_divides_zero(d: int)
    ensures
        divides(d, 0),
{
    assert(0 == d * 0);
}

/// Every integer divides itself.
pub proof fn lemma_divides_self(d: int)
    ensures
        divides(d, d),
{
    assert(d == d * 1);
}

/// A divisor of `x` and `y` divides any combination `c * x + y`.
pub proof fn lemma_divides_linear(d: int, x: int, y: int, c: int)
    requires
        divides(d, x),
        divides(d, y),
    ensures
        divides(d, c * x + y),
{
    let kx = choose|k: int| x == #[trigger] (d * k);
    let ky = choose|k: int| y == #[trigger] (d * k);
    assert(c * x + y == d * (c * kx + ky)) by (nonlinear_arith)
        requires
            x == d * kx,
            y == d * ky,
    ;
}

/// A divisor of `n` also divides `-n`.
pub proof fn lemma_divides_neg(d: int, n: int)
    requires
        divides(d, n),
    ensures
        divides(d, -n),
{
    let k = choose|k: int| n == #[trigger] (d * k);
    assert(-n == d * (-k)) by (nonlinear_arith)
        requires
            n == d * k,
    ;
}

/// Exact division: if `x == g * k` with `g > 0`, then `x / g == k`.
pub proof fn lemma_div_exact(x: int, g: int, k: int)
    requires
        g > 0,
        x == g * k,
    ensures
        x / g == k,
        x % g == 0,
{
    assert(x == k * g + 0) by (nonlinear_arith)
        requires
            x == g * k,
    ;
    lemma_fundamental_div_mod_converse(x, g, k, 0);
}

/// The gcd divides both of its arguments.
pub proof fn lemma_gcd_divides(a: nat, b: nat)
    ensures
        divides(gcd(a, b) as int, a as int),
        divides(gcd(a, b) as int, b as int),
    decreases b,
{
    if b == 0 {
        lemma_divides_self(a as int);
        lemma_divides_zero(a as int);
    } else {
        lemma_gcd_divides(b, a % b);
        let g = gcd(b, a % b) as int;
        lemma_fundamental_div_mod(a as int, b as int);
        let q = (a as int) / (b as int);
        lemma_divides_linear(g, b as int, (a % b) as int, q);
        assert(q * (b as int) == (b as int) * q) by (nonlinear_arith);
        assert(a as int == q * (b as int) + (a % b) as int);
    }
}

/// The gcd is positive as soon as one argument is.
pub proof fn lemma_gcd_pos(a: nat, b: nat)
    requires
        a > 0 || b > 0,
    ensures
        gcd(a, b) > 0,
    decreases b,
{
    if b == 0 {
    } else {
        lemma_gcd_pos(b, a % b);
    }
}

/// Dividing both arguments by a common divisor divides the gcd by it.
pub proof fn lemma_gcd_quotient(a: nat, b: nat, d: nat)
    requires
        d >= 1,
        divides(d as int, a as int),
        divides(d as int, b as int),
    ensures
        divides(d as int, gcd(a, b) as int),
        gcd((a as int / d as int) as nat, (b as int / d as int) as nat) == gcd(a, b) as int / d as int,
    decreases b,
{
    let di = d as int;
    let ka = choose|k: int| a as int == #[trigger] (di * k);
    assert(ka >= 0) by (nonlinear_arith)
        requires
            a as int == di * ka,
            di >= 1,
            a >= 0,
    ;
    lemma_div_exact(a as int, di, ka);
    if b == 0 {
        assert(b as int / di == 0) by {
            lemma_div_exact(0, di, 0);
        }
    } else {
        let q = a as int / b as int;
        let r = (a % b) as int;
        lemma_fundamental_div_mod(a as int, b as int);
        // d divides the remainder r == a - q * b.
        lemma_divides_neg(di, b as int);
        lemma_divides_linear(di, -(b as int), a as int, q);
        assert(q * (-(b as int)) + a as int == r) by (nonlinear_arith)
            requires
                a as int == q * (b as int) + r,
        ;
        assert(divides(di, r));
        lemma_gcd_quotient(b, (a % b) as nat, d);
        // Relate (a/d) divmod (b/d) to a divmod b.
        let kb = choose|k: int| b as int == #[trigger] (di * k);
        let kr = choose|k: int| r == #[trigger] (di * k);
        lemma_div_exact(b as int, di, kb);
        lemma_div_exact(r, di, kr);
        assert(kb >= 1) by (nonlinear_arith)
            requires
                b as int == di * kb,
                di >= 1,
                b >= 1,
        ;
        assert(0 <= kr < kb) by (nonlinear_arith)
            requires
                r == di * kr,
                b as int == di * kb,
                di >= 1,
                0 <= r < b as int,
        ;
        assert(ka == q * kb + kr) by (nonlinear_arith)
            requires
                a as int == q * (b as int) + r,
                a as int == di * ka,
                b as int == di * kb,
                r == di * kr,
                di >= 1,
        ;
        lemma_fundamental_div_mod_converse(ka, kb, q, kr);
        assert(ka % kb == kr);
        assert(gcd(ka as nat, kb as nat) == if kb == 0 { ka as nat } else { gcd(kb as nat, (ka as nat) % (kb as nat)) });
        assert((ka as nat) % (kb as nat) == kr as nat);
        assert(gcd(ka as nat, kb as nat) == gcd(kb as nat, kr as nat));
    }
}

/// Reducing by the gcd leaves a coprime pair.
pub proof fn lemma_gcd_reduce(a: nat, b: nat)
    requires
        a > 0 || b > 0,
    ensures
        gcd((a as int / gcd(a, b) as int) as nat, (b as int / gcd(a, b) as int) as nat) == 1,
    decreases b,
{
    lemma_gcd_pos(a, b);
    lemma_gcd_divides(a, b);
    let g = gcd(a, b);
    lemma_gcd_quotient(a, b, g);
    lemma_div_exact(g as int, g as int, 1);
}

/// Bezout's identity: the gcd is an integer combination of its arguments.
pub proof fn lemma_bezout(a: nat, b: nat)
    ensures
        exists|x: int, y: int| gcd(a, b) as int == #[trigger] ((a as int) * x) + #[trigger] ((b as int) * y),
    decreases b,
{
    if b == 0 {
        assert(gcd(a, b) as int == (a as int) * 1 + (b as int) * 0);
    } else {
        lemma_bezout(b, a % b);
        let (x, y) = choose|x: int, y: int|
            gcd(b, a % b) as int == #[trigger] ((b as int) * x) + #[trigger] (((a % b) as int) * y);
        lemma_fundamental_div_mod(a as int, b as int);
        let q = a as int / b as int;
        assert(gcd(a, b) as int == (a as int) * y + (b as int) * (x - q * y)) by (nonlinear_arith)
            requires
                gcd(a, b) as int == (b as int) * x + ((a % b) as int) * y,
                (a % b) as int == a as int - (b as int) * q,
    ;
    }
}

/// Euclid's lemma, coprime form: if `d` and `m` are coprime and `d` divides
/// `m * k`, then `d` divides `k`.
pub proof fn lemma_coprime_divides(d: nat, m: nat, k: int)
    requires
        d >= 1,
        gcd(m, d) == 1,
        divides(d as int, (m as int) * k),
    ensures
        divides(d as int, k),
{
    lemma_bezout(m, d);
    let (x, y) = choose|x: int, y: int| 1int == #[trigger] ((m as int) * x) + #[trigger] ((d as int) * y);
    let j = choose|j: int| (m as int) * k == #[trigger] ((d as int) * j);
    assert(k == (d as int) * (x * j + y * k)) by (nonlinear_arith)
        requires
            1int == (m as int) * x + (d as int) * y,
            (m as int) * k == (d as int) * j,
    ;
}


/// Every common divisor divides the gcd.
pub proof fn lemma_common_divides_gcd(a: nat, b: nat, c: int)
    requires
        divides(c, a as int),
        divides(c, b as int),
    ensures
        divides(c, gcd(a, b) as int),
{
    lemma_bezout(a, b);
    let (x, y) = choose|x: int, y: int|
        gcd(a, b) as int == #[trigger] ((a as int) * x) + #[trigger] ((b as int) * y);
    let ka = choose|k: int| a as int == #[trigger] (c * k);
    let kb = choose|k: int| b as int == #[trigger] (c * k);
    assert(gcd(a, b) as int == c * (ka * x + kb * y)) by (nonlinear_arith)
        requires
            gcd(a, b) as int == (a as int) * x + (b as int) * y,
            a as int == c * ka,
            b as int == c * kb,
    ;
}

/// The gcd is symmetric in its arguments.
pub proof fn lemma_gcd_sym(a: nat, b: nat)
    ensures
        gcd(a, b) == gcd(b, a),
{
    if a == 0 && b == 0 {
        assert(gcd(0, 0) == 0);
    } else {
        lemma_gcd_pos(a, b);
        lemma_gcd_pos(b, a);
        lemma_gcd_divides(a, b);
        lemma_gcd_divides(b, a);
        lemma_common_divides_gcd(b, a, gcd(a, b) as int);
        lemma_common_divides_gcd(a, b, gcd(b, a) as int);
        lemma_divides_antisym(gcd(a, b) as int, gcd(b, a) as int);
    }
}

/// Two positive integers that divide each other are equal.
pub proof fn lemma_divides_antisym(a: int, b: int)
    requires
        a >= 1,
        b >= 1,
        divides(a, b),
        divides(b, a),
    ensures
        a == b,
{
    let k1 = choose|k: int| b == #[trigger] (a * k);
    let k2 = choose|k: int| a == #[trigger] (b * k);
    assert(a == b) by (nonlinear_arith)
        requires
            a >= 1,
            b >= 1,
            b == a * k1,
            a == b * k2,
    ;
}

/// A fraction in lowest terms is the unique such representative of its value:
/// cross-equal reduced fractions with positive denominators coincide.
pub proof fn lemma_canon_unique(n1: int, d1: int, n2: int, d2: int)
    requires
        d1 >= 1,
        d2 >= 1,
        gcd(iabs(n1), d1 as nat) == 1,
        gcd(iabs(n2), d2 as nat) == 1,
        n1 * d2 == n2 * d1,
    ensures
        n1 == n2,
        d1 == d2,
{
    // d1 divides |n1| * d2, so being coprime to |n1| it divides d2.
    assert(divides(d1, n1 * d2)) by {
        assert(n1 * d2 == d1 * n2) by (nonlinear_arith)
            requires
                n1 * d2 == n2 * d1,
        ;
    }
    assert(divides(d1, (iabs(n1) as int) * d2)) by {
        if n1 >= 0 {
            assert((iabs(n1) as int) * d2 == n1 * d2);
        } else {
            lemma_divides_neg(d1, n1 * d2);
            assert((iabs(n1) as int) * d2 == -(n1 * d2)) by (nonlinear_arith)
                requires
                    n1 < 0,
            ;
        }
    }
    lemma_coprime_divides(d1 as nat, iabs(n1), d2);
    // Symmetrically d2 divides d1.
    assert(divides(d2, n2 * d1)) by {
        assert(n2 * d1 == d2 * n1) by (nonlinear_arith)
            requires
                n1 * d2 == n2 * d1,
        ;
    }
    assert(divides(d2, (iabs(n2) as int) * d1)) by {
        if n2 >= 0 {
            assert((iabs(n2) as int) * d1 == n2 * d1);
        } else {
            lemma_divides_neg(d2, n2 * d1);
            assert((iabs(n2) as int) * d1 == -(n2 * d1)) by (nonlinear_arith)
                requires
                    n2 < 0,
            ;
        }
    }
    lemma_coprime_divides(d2 as nat, iabs(n2), d1);
    lemma_divides_antisym(d1, d2);
    assert(n1 == n2) by (nonlinear_arith)
        requires
            n1 * d2 == n2 * d1,
            d1 == d2,
            d1 >= 1,
    ;
}

} // verus!
