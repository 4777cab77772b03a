//! Divisibility and greatest-common-divisor facts.
//!
//! `Rational` keeps every fraction in lowest terms with a positive
//! denominator.  The lemmas here justify that normal form: the gcd divides
//! both parts, dividing by it leaves a coprime pair, and two coprime pairs
//! with the same value are identical.

use vstd::arithmetic::div_mod::*;
use vstd::prelude::*;

verus! {

/// Greatest common divisor, by Euclid's algorithm.
pub open spec fn gcd_nat(a: nat, b: nat) -> nat
    decreases b,
{
    if b == 0 {
        a
    } else {
        gcd_nat(b, a % b)
    }
}

/// Magnitude of an integer.
pub open spec fn abs_int(n: int) -> nat {
    if n >= 0 {
        n as nat
    } else {
        (-n) as nat
    }
}

/// Cross-multiplication equality of the fractions `n1/d1` and `n2/d2`.
pub open spec fn frac_eq(n1: int, d1: int, n2: int, d2: int) -> bool {
    n1 * d2 == n2 * d1
}

/// `n/d` is in normal form: positive denominator, no common factor.
pub open spec fn coprime_frac(n: int, d: int) -> bool {
    d >= 1 && gcd_nat(abs_int(n), d as nat) == 1
}

/// The gcd of two numbers, not both zero, is positive and divides both.
pub proof fn lemma_gcd_divides(a: nat, b: nat)
    requires
        a > 0 || b > 0,
    ensures
        gcd_nat(a, b) > 0,
        a % gcd_nat(a, b) == 0,
        b % gcd_nat(a, b) == 0,
    decreases b,
{
    let g = gcd_nat(a, b);
    if b == 0 {
        lemma_mod_self_0(a as int);
        lemma_small_mod(0, a);
    } else {
        lemma_mod_bound(a as int, b as int);
        lemma_gcd_divides(b, a % b);
        assert(g == gcd_nat(b, a % b));
        let q = (a / b) as int;
        let r = (a % b) as int;
        lemma_fundamental_div_mod(a as int, b as int);
        assert(b as int % (g as int) == 0);
        assert(r % (g as int) == 0);
        assert((b as int * q) % (g as int) == 0) by {
            lemma_mul_mod_noop_left(b as int, q, g as int);
            assert((b as int % (g as int)) * q == 0) by (nonlinear_arith)
                requires
                    b as int % (g as int) == 0,
            ;
            lemma_small_mod(0, g);
        };
        assert(a as int % (g as int) == 0) by {
            lemma_add_mod_noop(b as int * q, r, g as int);
            lemma_small_mod(0, g);
        };
    }
}

/// Any common divisor of `a` and `b` divides their gcd.
pub proof fn lemma_gcd_greatest(a: nat, b: nat, d: nat)
    requires
        d > 0,
        a % d == 0,
        b % d == 0,
    ensures
        gcd_nat(a, b) % d == 0,
    decreases b,
{
    if b == 0 {
    } else {
        let q = (a / b) as int;
        let r = (a % b) as int;
        lemma_fundamental_div_mod(a as int, b as int);
        assert((b as int * q) % (d as int) == 0) by {
            lemma_mul_mod_noop_left(b as int, q, d as int);
            assert((b as int % (d as int)) * q == 0) by (nonlinear_arith)
                requires
                    b as int % (d as int) == 0,
            ;
            lemma_small_mod(0, d);
        };
        assert(r % (d as int) == 0) by {
            lemma_sub_mod_noop(a as int, b as int * q, d as int);
        };
        lemma_gcd_greatest(b, a % b, d);
    }
}

/// Everything is coprime to one.
pub proof fn lemma_gcd_one(a: nat)
    ensures
        gcd_nat(a, 1) == 1,
{
    lemma_mod_bound(a as int, 1);
    assert(a % 1 == 0);
    assert(gcd_nat(a, 1) == gcd_nat(1, 0));
    assert(gcd_nat(1, 0) == 1);
}

/// Coefficients `(x, y)` with `a*x + b*y == gcd_nat(a, b)`.
pub open spec fn bezout_coeffs(a: nat, b: nat) -> (int, int)
    decreases b,
{
    if b == 0 {
        (1int, 0int)
    } else {
        let p = bezout_coeffs(b, a % b);
        (p.1, p.0 - (a / b) * p.1)
    }
}

/// The gcd is an integer combination of its arguments.
pub proof fn lemma_bezout(a: nat, b: nat)
    ensures
        a * bezout_coeffs(a, b).0 + b * bezout_coeffs(a, b).1 == gcd_nat(a, b),
    decreases b,
{
    if b == 0 {
    } else {
        lemma_bezout(b, a % b);
        let p = bezout_coeffs(b, a % b);
        let x = p.0;
        let y = p.1;
        let q = (a / b) as int;
        let r = (a % b) as int;
        let g = gcd_nat(a, b) as int;
        lemma_fundamental_div_mod(a as int, b as int);
        assert(a as int * y + b as int * (x - q * y) == g) by (nonlinear_arith)
            requires
                a as int == b as int * q + r,
                b as int * x + r * y == g,
        ;
    }
}

/// If `c` is coprime to `a` and divides `a*b`, then `c` divides `b`.
pub proof fn lemma_coprime_divides(a: nat, b: nat, c: nat)
    requires
        c >= 1,
        gcd_nat(a, c) == 1,
        (a * b) % c == 0,
    ensures
        b % c == 0,
{
    let p = bezout_coeffs(a, c);
    lemma_bezout(a, c);
    let k = ((a * b) as int) / (c as int);
    lemma_fundamental_div_mod((a * b) as int, c as int);
    assert(b as int == c as int * (k * p.0 + b as int * p.1)) by (nonlinear_arith)
        requires
            a as int * p.0 + c as int * p.1 == 1,
            (a * b) as int == c as int * k,
            (a * b) as int == a as int * b as int,
    ;
    lemma_mod_multiples_basic(k * p.0 + b as int * p.1, c as int);
}

/// Dividing two numbers, not both zero, by their gcd leaves a coprime pair.
pub proof fn lemma_gcd_quotients_coprime(a: nat, b: nat)
    requires
        a > 0 || b > 0,
    ensures
        gcd_nat(a / gcd_nat(a, b), b / gcd_nat(a, b)) == 1,
{
    let g = gcd_nat(a, b);
    lemma_gcd_divides(a, b);
    let a1 = a / g;
    let b1 = b / g;
    lemma_fundamental_div_mod(a as int, g as int);
    lemma_fundamental_div_mod(b as int, g as int);
    assert(a == g * a1 && b == g * b1);
    assert(a1 > 0 || b1 > 0) by (nonlinear_arith)
        requires
            a == g * a1,
            b == g * b1,
            a > 0 || b > 0,
            a1 >= 0,
            b1 >= 0,
    ;
    let h = gcd_nat(a1, b1);
    lemma_gcd_divides(a1, b1);
    let a2 = a1 / h;
    let b2 = b1 / h;
    lemma_fundamental_div_mod(a1 as int, h as int);
    lemma_fundamental_div_mod(b1 as int, h as int);
    assert(a == (g * h) * a2 && b == (g * h) * b2) by (nonlinear_arith)
        requires
            a == g * a1,
            b == g * b1,
            a1 == h * a2,
            b1 == h * b2,
    ;
    assert(a % (g * h) == 0) by {
        lemma_mod_multiples_basic(a2 as int, (g * h) as int);
        assert((g * h) as int * a2 as int == a as int) by (nonlinear_arith)
            requires
                a == (g * h) * a2,
        ;
    };
    assert(b % (g * h) == 0) by {
        lemma_mod_multiples_basic(b2 as int, (g * h) as int);
        assert((g * h) as int * b2 as int == b as int) by (nonlinear_arith)
            requires
                b == (g * h) * b2,
        ;
    };
    lemma_gcd_greatest(a, b, g * h);
    if h > 1 {
        assert(g < g * h) by (nonlinear_arith)
            requires
                g > 0,
                h > 1,
        ;
        lemma_small_mod(g, g * h);
        assert(false);
    }
}

/// Two fractions in normal form with equal value are the same pair.
pub proof fn lemma_canonical_unique(n1: int, d1: int, n2: int, d2: int)
    requires
        coprime_frac(n1, d1),
        coprime_frac(n2, d2),
        frac_eq(n1, d1, n2, d2),
    ensures
        n1 == n2,
        d1 == d2,
{
    if n1 == 0 || n2 == 0 {
        assert(n1 == 0 && n2 == 0) by (nonlinear_arith)
            requires
                n1 * d2 == n2 * d1,
                d1 >= 1,
                d2 >= 1,
                n1 == 0 || n2 == 0,
        ;
        assert(gcd_nat(0, d1 as nat) == d1 as nat) by {
            lemma_small_mod(0, d1 as nat);
            assert(gcd_nat(0, d1 as nat) == gcd_nat(d1 as nat, 0));
        };
        assert(gcd_nat(0, d2 as nat) == d2 as nat) by {
            lemma_small_mod(0, d2 as nat);
            assert(gcd_nat(0, d2 as nat) == gcd_nat(d2 as nat, 0));
        };
    } else {
        let p1 = abs_int(n1);
        let p2 = abs_int(n2);
        assert(p1 * d2 == p2 * d1 && p1 > 0 && p2 > 0) by (nonlinear_arith)
            requires
                n1 * d2 == n2 * d1,
                d1 >= 1,
                d2 >= 1,
                n1 != 0,
                n2 != 0,
                p1 == abs_int(n1),
                p2 == abs_int(n2),
        ;
        assert((p1 * (d2 as nat)) % (d1 as nat) == 0) by {
            lemma_mod_multiples_basic(p2 as int, d1 as int);
            assert(p1 as int * d2 as int == d1 as int * p2 as int) by (nonlinear_arith)
                requires
                    p1 * d2 == p2 * d1,
            ;
        };
        lemma_coprime_divides(p1, d2 as nat, d1 as nat);
        assert((p2 * (d1 as nat)) % (d2 as nat) == 0) by {
            lemma_mod_multiples_basic(p1 as int, d2 as int);
            assert(p2 as int * d1 as int == d2 as int * p1 as int) by (nonlinear_arith)
                requires
                    p1 * d2 == p2 * d1,
            ;
        };
        lemma_coprime_divides(p2, d1 as nat, d2 as nat);
        // mutual divisibility of the positive denominators
        lemma_fundamental_div_mod(d2 as int, d1 as int);
        lemma_fundamental_div_mod(d1 as int, d2 as int);
        assert(d1 == d2) by (nonlinear_arith)
            requires
                d2 == d1 * (d2 / d1),
                d1 == d2 * (d1 / d2),
                d1 >= 1,
                d2 >= 1,
        ;
        assert(n1 == n2) by (nonlinear_arith)
            requires
                n1 * d2 == n2 * d1,
                d1 == d2,
                d1 >= 1,
        ;
    }
}

/// The reduced numerator of `n/d`.
pub open spec fn reduced_num(n: int, d: int) -> int {
    n / (gcd_nat(abs_int(n), d as nat) as int)
}

/// The reduced denominator of `n/d`.
pub open spec fn reduced_den(n: int, d: int) -> int {
    d / (gcd_nat(abs_int(n), d as nat) as int)
}

/// An exact division of a signed multiple: if `g` divides `|n|` then it
/// divides `n`, with quotient of magnitude `|n|/g`.
pub proof fn lemma_exact_div_signed(n: int, g: int)
    requires
        g >= 1,
        abs_int(n) % (g as nat) == 0,
    ensures
        n == g * (n / g),
        abs_int(n / g) == abs_int(n) / (g as nat),
{
    let a = abs_int(n);
    lemma_fundamental_div_mod(a as int, g);
    if n >= 0 {
    } else {
        let q = -((a / (g as nat)) as int);
        assert(n == g * q + 0) by (nonlinear_arith)
            requires
                a as int == g * (-q),
                n == -(a as int),
        ;
        lemma_fundamental_div_mod_converse(n, g, q, 0);
    }
}

/// Reducing a fraction by the gcd keeps its value, yields normal form,
/// and never grows either part.
pub proof fn lemma_reduced_frac(n: int, d: int)
    requires
        d >= 1,
    ensures
        reduced_den(n, d) >= 1,
        coprime_frac(reduced_num(n, d), reduced_den(n, d)),
        frac_eq(reduced_num(n, d), reduced_den(n, d), n, d),
        abs_int(reduced_num(n, d)) <= abs_int(n),
        reduced_den(n, d) <= d,
{
    let a = abs_int(n);
    lemma_gcd_divides(a, d as nat);
    let g = gcd_nat(a, d as nat) as int;
    let rn = reduced_num(n, d);
    let rd = reduced_den(n, d);
    lemma_exact_div_signed(n, g);
    lemma_fundamental_div_mod(d, g);
    assert(rd >= 1 && rd <= d) by (nonlinear_arith)
        requires
            d == g * rd + 0,
            g >= 1,
            d >= 1,
            rd >= 0,
    ;
    lemma_gcd_quotients_coprime(a, d as nat);
    assert(abs_int(rn) == a / (g as nat));
    lemma_fundamental_div_mod(a as int, g);
    assert(abs_int(rn) <= abs_int(n)) by (nonlinear_arith)
        requires
            a as int == g * (a as int / g),
            a as int / g == (a / (g as nat)) as int,
            g >= 1,
            abs_int(rn) == a / (g as nat),
            a == abs_int(n),
    ;
    assert(rn * d == n * rd) by (nonlinear_arith)
        requires
            n == g * rn,
            d == g * rd,
    ;
}

} // verus!
