//! Exact rational numbers for money arithmetic.
//!
//! A `Rational` is a signed fraction held in normal form: the denominator
//! is positive, the sign sits on the numerator, and the two parts share no
//! common factor.  Normal form makes equality structural, so two amounts
//! computed along different routes compare equal exactly when their values
//! are equal.  Amounts whose normal form does not fit the machine words
//! are reported as out of range rather than silently rounded.

use crate::arith::{
    abs_int, coprime_frac, frac_eq, gcd_nat, lemma_canonical_unique, lemma_exact_div_signed,
    lemma_gcd_divides, lemma_gcd_one, lemma_reduced_frac, reduced_den, reduced_num,
};
use vstd::arithmetic::div_mod::lemma_fundamental_div_mod;
use vstd::prelude::*;

verus! {

/// An exact fraction in normal form.
#[derive(Clone, Copy, Debug, PartialEq, Eq, Structural, Hash)]
pub struct Rational {
    pub num: i64,
    pub den: i64,
}

/// Why an arithmetic operation could not produce a `Rational`.
#[derive(Clone, Copy, Debug, PartialEq, Eq, Structural)]
pub enum RationalError {
    /// The divisor was zero.
    DivisionByZero,
    /// The result's normal form does not fit the machine representation.
    OutOfRange,
}

/// The reduced form of `n/d` fits the fields of `Rational`.
pub open spec fn fits_frac(n: int, d: int) -> bool {
    &&& i64::MIN <= reduced_num(n, d) <= i64::MAX
    &&& reduced_den(n, d) <= i64::MAX
}

impl Rational {
    /// Normal form: positive denominator, coprime parts.
    pub open spec fn wf(self) -> bool {
        coprime_frac(self.num as int, self.den as int)
    }

    /// This fraction's value equals `n/d`.
    pub open spec fn eq_frac(self, n: int, d: int) -> bool {
        frac_eq(self.num as int, self.den as int, n, d)
    }

    /// Value comparison: `self <= other`.
    pub open spec fn le_spec(self, other: Rational) -> bool {
        self.num * other.den <= other.num * self.den
    }
}

/// Two well-formed fractions with the same value are the same pair.
pub proof fn lemma_rational_eq(a: Rational, b: Rational)
    requires
        a.wf(),
        b.wf(),
        frac_eq(a.num as int, a.den as int, b.num as int, b.den as int),
    ensures
        a == b,
{
    lemma_canonical_unique(a.num as int, a.den as int, b.num as int, b.den as int);
}

/// A well-formed fraction equal to `n/d` is the reduced form of `n/d`.
pub proof fn lemma_eq_frac_is_reduced(a: Rational, n: int, d: int)
    requires
        a.wf(),
        d >= 1,
        a.eq_frac(n, d),
    ensures
        a.num as int == reduced_num(n, d),
        a.den as int == reduced_den(n, d),
        fits_frac(n, d),
{
    lemma_reduced_frac(n, d);
    let rn = reduced_num(n, d);
    let rd = reduced_den(n, d);
    assert(a.num * rd == rn * a.den) by (nonlinear_arith)
        requires
            a.num * d == n * a.den,
            rn * d == n * rd,
            d >= 1,
    ;
    lemma_canonical_unique(a.num as int, a.den as int, rn, rd);
}

/// Euclid's algorithm.
fn gcd_u128(a: u128, b: u128) -> (g: u128)
    ensures
        g as nat == gcd_nat(a as nat, b as nat),
{
    let mut x = a;
    let mut y = b;
    while y != 0
        invariant
            gcd_nat(x as nat, y as nat) == gcd_nat(a as nat, b as nat),
        decreases y,
    {
        let t = x % y;
        x = y;
        y = t;
    }
    x
}

/// The signed value of a magnitude with a sign flag.
pub open spec fn signed_of(neg: bool, a: nat) -> int {
    if neg {
        -(a as int)
    } else {
        a as int
    }
}

/// Reduce the fraction `±a/d`, given by sign and magnitudes, to normal
/// form, reporting a value whose normal form does not fit the fields of
/// `Rational`.
pub(crate) fn normalize_mag(neg: bool, a: u128, d: u128) -> (r: Option<Rational>)
    requires
        d >= 1,
    ensures
        match r {
            Some(x) => {
                &&& x.wf()
                &&& x.eq_frac(signed_of(neg, a as nat), d as int)
                &&& x.num as int == reduced_num(signed_of(neg, a as nat), d as int)
                &&& x.den as int == reduced_den(signed_of(neg, a as nat), d as int)
            },
            None => !fits_frac(signed_of(neg, a as nat), d as int),
        },
        r is Some <==> fits_frac(signed_of(neg, a as nat), d as int),
{
    let ghost n = signed_of(neg, a as nat);
    proof {
        lemma_reduced_frac(n, d as int);
        assert(abs_int(n) == a as nat);
    }
    let neg = neg && a > 0;
    let du: u128 = d;
    let g = gcd_u128(a, du);
    proof {
        lemma_gcd_divides(a as nat, du as nat);
        lemma_exact_div_signed(n as int, g as int);
        lemma_fundamental_div_mod(a as int, g as int);
        lemma_fundamental_div_mod(du as int, g as int);
    }
    let rn = a / g;
    let rd = du / g;
    assert(rd as int == reduced_den(n as int, d as int));
    assert(rn as int == abs_int(reduced_num(n as int, d as int)));
    if rd > i64::MAX as u128 {
        return None;
    }
    if neg {
        if rn > 9223372036854775808u128 {
            // |numerator| above 2^63
            return None;
        }
        let num: i64 = (-(rn as i128)) as i64;
        Some(Rational { num, den: rd as i64 })
    } else {
        if rn > i64::MAX as u128 {
            return None;
        }
        Some(Rational { num: rn as i64, den: rd as i64 })
    }
}

/// Reduce `n/d` to normal form, reporting a value whose normal form does
/// not fit the fields of `Rational`.
fn normalize_frac(n: i128, d: i128) -> (r: Option<Rational>)
    requires
        d >= 1,
        n > i128::MIN,
    ensures
        match r {
            Some(x) => {
                &&& x.wf()
                &&& x.eq_frac(n as int, d as int)
                &&& x.num as int == reduced_num(n as int, d as int)
                &&& x.den as int == reduced_den(n as int, d as int)
            },
            None => !fits_frac(n as int, d as int),
        },
        r is Some <==> fits_frac(n as int, d as int),
{
    let neg = n < 0;
    let a: u128 = if neg {
        (-n) as u128
    } else {
        n as u128
    };
    proof {
        assert(signed_of(neg, a as nat) == n as int);
    }
    normalize_mag(neg, a, d as u128)
}

impl Rational {
    /// The amount of `cents` hundredths, e.g. `from_cents(150)` is `3/2`.
    pub fn from_cents(cents: i64) -> (r: Rational)
        ensures
            r.wf(),
            r.eq_frac(cents as int, 100),
    {
        proof {
            lemma_reduced_frac(cents as int, 100);
            let rn = reduced_num(cents as int, 100);
            let rd = reduced_den(cents as int, 100);
            assert(abs_int(rn) <= abs_int(cents as int));
            assert((cents < 0 ==> rn <= 0) && (cents >= 0 ==> rn >= 0)) by (nonlinear_arith)
                requires
                    rn * 100 == cents * rd,
                    rd >= 1,
            ;
            assert(fits_frac(cents as int, 100));
        }
        normalize_frac(cents as i128, 100).unwrap()
    }

    /// The exact value `num/den` in normal form.  Any 64-bit pair fits,
    /// because reduction never grows either part.
    pub fn frac_exact(num: i64, den: i64) -> (r: Rational)
        requires
            den >= 1,
        ensures
            r.wf(),
            r.eq_frac(num as int, den as int),
    {
        proof {
            lemma_reduced_frac(num as int, den as int);
            let rn = reduced_num(num as int, den as int);
            let rd = reduced_den(num as int, den as int);
            assert(abs_int(rn) <= abs_int(num as int));
            assert((num < 0 ==> rn <= 0) && (num >= 0 ==> rn >= 0)) by (nonlinear_arith)
                requires
                    rn * (den as int) == (num as int) * rd,
                    rd >= 1,
                    den >= 1,
            ;
            assert(fits_frac(num as int, den as int));
        }
        normalize_frac(num as i128, den as i128).unwrap()
    }

    /// The whole number `n` as a fraction.
    pub fn from_int(n: i64) -> (r: Rational)
        ensures
            r.wf(),
            r.num == n,
            r.den == 1,
    {
        proof {
            lemma_gcd_one(abs_int(n as int));
        }
        Rational { num: n, den: 1 }
    }

    /// The zero amount.
    pub fn zero() -> (r: Rational)
        ensures
            r.wf(),
            r.num == 0,
            r.den == 1,
    {
        Rational::from_int(0)
    }

    /// Whether the value is zero.
    pub fn is_zero(&self) -> (r: bool)
        ensures
            r == (self.num == 0),
    {
        self.num == 0
    }

    /// Exact sum.  Out of range only if the reduced sum leaves `i64`.
    pub fn add(&self, other: &Rational) -> (r: Result<Rational, RationalError>)
        requires
            self.wf(),
            other.wf(),
        ensures
            match r {
                Ok(x) => {
                    &&& x.wf()
                    &&& x.eq_frac(
                        self.num * other.den + other.num * self.den,
                        self.den * other.den,
                    )
                },
                Err(e) => {
                    &&& e == RationalError::OutOfRange
                    &&& !fits_frac(
                        self.num * other.den + other.num * self.den,
                        self.den * other.den,
                    )
                },
            },
    {
        proof {
            lemma_den_product_bounds(*self, *other);
        }
        let n = (self.num as i128) * (other.den as i128) + (other.num as i128) * (self.den
            as i128);
        let d = (self.den as i128) * (other.den as i128);
        match normalize_frac(n, d) {
            Some(x) => Ok(x),
            None => Err(RationalError::OutOfRange),
        }
    }

    /// Exact difference.  Out of range only if the reduced difference
    /// leaves `i64`.
    pub fn sub(&self, other: &Rational) -> (r: Result<Rational, RationalError>)
        requires
            self.wf(),
            other.wf(),
        ensures
            match r {
                Ok(x) => {
                    &&& x.wf()
                    &&& x.eq_frac(
                        self.num * other.den - other.num * self.den,
                        self.den * other.den,
                    )
                },
                Err(e) => {
                    &&& e == RationalError::OutOfRange
                    &&& !fits_frac(
                        self.num * other.den - other.num * self.den,
                        self.den * other.den,
                    )
                },
            },
    {
        proof {
            lemma_den_product_bounds(*self, *other);
        }
        let n = (self.num as i128) * (other.den as i128) - (other.num as i128) * (self.den
            as i128);
        let d = (self.den as i128) * (other.den as i128);
        match normalize_frac(n, d) {
            Some(x) => Ok(x),
            None => Err(RationalError::OutOfRange),
        }
    }

    /// Exact quotient.  Division by zero is an error, never a crash.
    pub fn div(&self, other: &Rational) -> (r: Result<Rational, RationalError>)
        requires
            self.wf(),
            other.wf(),
        ensures
            match r {
                Ok(x) => {
                    &&& other.num != 0
                    &&& x.wf()
                    &&& x.num * (self.den * other.num) == self.num * other.den * x.den
                },
                Err(RationalError::DivisionByZero) => other.num == 0,
                Err(RationalError::OutOfRange) => {
                    &&& other.num != 0
                    &&& (if other.num > 0 {
                        !fits_frac(self.num * other.den, self.den * other.num)
                    } else {
                        !fits_frac(-(self.num * other.den), -(self.den * other.num))
                    })
                },
            },
    {
        if other.num == 0 {
            return Err(RationalError::DivisionByZero);
        }
        proof {
            lemma_den_product_bounds(*self, *other);
        }
        let n0 = (self.num as i128) * (other.den as i128);
        let d0 = (self.den as i128) * (other.num as i128);
        proof {
            assert((other.num < 0 ==> d0 < 0) && (other.num > 0 ==> d0 >= 1))
                by (nonlinear_arith)
                requires
                    d0 == self.den * other.num,
                    self.den >= 1,
            ;
        }
        let (n, d) = if other.num < 0 {
            (-n0, -d0)
        } else {
            (n0, d0)
        };
        match normalize_frac(n, d) {
            Some(x) => {
                proof {
                    if other.num < 0 {
                        assert(x.num as int * d0 as int == n0 as int * x.den as int)
                            by (nonlinear_arith)
                            requires
                                x.num as int * (-(d0 as int)) == (-(n0 as int)) * x.den as int,
                        ;
                    }
                }
                Ok(x)
            },
            None => Err(RationalError::OutOfRange),
        }
    }

    /// Value comparison, `self <= other`.
    pub fn le(&self, other: &Rational) -> (r: bool)
        requires
            self.wf(),
            other.wf(),
        ensures
            r == self.le_spec(*other),
    {
        proof {
            lemma_den_product_bounds(*self, *other);
        }
        (self.num as i128) * (other.den as i128) <= (other.num as i128) * (self.den as i128)
    }
}

/// Any 64-bit pair is representable: reduction never grows the parts.
pub proof fn lemma_i64_pair_fits(n: int, d: int)
    requires
        i64::MIN <= n <= i64::MAX,
        1 <= d <= i64::MAX,
    ensures
        fits_frac(n, d),
{
    lemma_reduced_frac(n, d);
    let rn = reduced_num(n, d);
    let rd = reduced_den(n, d);
    assert(abs_int(rn) <= abs_int(n));
    assert((n < 0 ==> rn <= 0) && (n >= 0 ==> rn >= 0)) by (nonlinear_arith)
        requires
            rn * d == n * rd,
            rd >= 1,
            d >= 1,
    ;
}

/// The value order is transitive.
pub proof fn lemma_rational_le_trans(a: Rational, b: Rational, c: Rational)
    requires
        a.wf(),
        b.wf(),
        c.wf(),
        a.le_spec(b),
        b.le_spec(c),
    ensures
        a.le_spec(c),
{
    assert(a.num * c.den <= c.num * a.den) by (nonlinear_arith)
        requires
            a.num * b.den <= b.num * a.den,
            b.num * c.den <= c.num * b.den,
            a.den >= 1,
            b.den >= 1,
            c.den >= 1,
    ;
}

/// Denominators are positive, so cross products and their sums stay well
/// inside `i128`.
proof fn lemma_den_product_bounds(a: Rational, b: Rational)
    requires
        a.wf(),
        b.wf(),
    ensures
        1 <= a.den * b.den < 0x4000_0000_0000_0000_0000_0000_0000_0000,
        -0x3fff_ffff_ffff_ffff_8000_0000_0000_0001 < a.num * b.den
            < 0x3fff_ffff_ffff_ffff_8000_0000_0000_0001,
        -0x3fff_ffff_ffff_ffff_8000_0000_0000_0001 < b.num * a.den
            < 0x3fff_ffff_ffff_ffff_8000_0000_0000_0001,
{
    assert(1 <= a.den * b.den) by (nonlinear_arith)
        requires
            a.den >= 1,
            b.den >= 1,
    ;
    assert(a.den * b.den < 0x4000_0000_0000_0000_0000_0000_0000_0000 && a.num * b.den
        < 0x3fff_ffff_ffff_ffff_8000_0000_0000_0001 && a.num * b.den
        > -0x3fff_ffff_ffff_ffff_8000_0000_0000_0001 && b.num * a.den
        < 0x3fff_ffff_ffff_ffff_8000_0000_0000_0001 && b.num * a.den
        > -0x3fff_ffff_ffff_ffff_8000_0000_0000_0001) by (nonlinear_arith)
        requires
            1 <= a.den < 0x8000_0000_0000_0000,
            1 <= b.den < 0x8000_0000_0000_0000,
            -0x8000_0000_0000_0000 <= a.num < 0x8000_0000_0000_0000,
            -0x8000_0000_0000_0000 <= b.num < 0x8000_0000_0000_0000,
    ;
}

} // verus!
