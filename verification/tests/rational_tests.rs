//! The fraction type: parsing, rendering, exact arithmetic.

use fishsticks::rational::{Rational, RationalError};
use fishsticks::text::{parse_cents, ParseRationalError};

fn parse(s: &str) -> Result<Rational, ParseRationalError> {
    Rational::parse(s)
}

#[test]
fn parse_mixed_number() {
    let actual = parse("1 1/2").unwrap();
    let expected = Rational::frac_exact(3, 2);
    assert_eq!(expected, actual);
}

#[test]
fn it_can_parse_mixed_number() {
    let actual = parse("1 1/2").unwrap();
    let expected = Rational::frac_exact(3, 2);
    assert_eq!(expected, actual);
}

#[test]
fn format_simple_rational() {
    let r = parse("1/2").unwrap();
    assert_eq!("1/2", r.to_string());
}

#[test]
fn format_mixed_number() {
    let r = parse("1 1/2").unwrap();
    assert_eq!("1 1/2", r.to_string());
}

#[test]
fn format_zero() {
    let r = Rational::zero();
    assert_eq!("0", r.to_string());
}

#[test]
fn format_whole_number() {
    let r = parse("5").unwrap();
    assert_eq!("5", r.to_string());
}

#[test]
fn eq() {
    let a = parse("1/2").unwrap();
    let b = parse("1/2").unwrap();
    assert_eq!(a, b);
}

fn fabricate_to_add() -> (Rational, Rational) {
    (parse("1/2").unwrap(), parse("1/3").unwrap())
}

#[test]
fn add_m_m() {
    let (a, b) = fabricate_to_add();
    assert_eq!(parse("5/6").unwrap(), a.add(&b).unwrap());
}

#[test]
fn add_m_b() {
    let (a, b) = fabricate_to_add();
    assert_eq!(parse("5/6").unwrap(), a.add(&b).unwrap());
}

#[test]
fn add_b_m() {
    let (a, b) = fabricate_to_add();
    assert_eq!(parse("5/6").unwrap(), a.add(&b).unwrap());
}

#[test]
fn add_b_b() {
    let (a, b) = fabricate_to_add();
    assert_eq!(parse("5/6").unwrap(), a.add(&b).unwrap());
}

#[test]
fn parser_accepts_the_grammar() {
    assert_eq!(parse("5").unwrap(), Rational::from_int(5));
    assert_eq!(parse("1/2").unwrap(), Rational::frac_exact(1, 2));
    assert_eq!(parse("1 1/2").unwrap(), Rational::frac_exact(3, 2));
    assert_eq!(parse("-1 1/2").unwrap(), Rational::frac_exact(-3, 2));
    assert_eq!(parse("-3/4").unwrap(), Rational::frac_exact(-3, 4));
    assert_eq!(parse("0/5").unwrap(), Rational::zero());
    assert_eq!(parse("007").unwrap(), Rational::from_int(7));
}

#[test]
fn parser_rejects_junk() {
    assert!(parse("1/0").is_err());
    assert!(parse("5 1/0").is_err());
    assert!(parse("").is_err());
    assert!(parse("-").is_err());
    assert!(parse("- 1/2").is_err());
    assert!(parse("1.5").is_err());
    assert!(parse("one").is_err());
    assert!(parse("1/ 2").is_err());
    assert!(parse("1 1").is_err());
    assert!(parse("1 1/2 3").is_err());
    assert!(parse("--1").is_err());
}

#[test]
fn round_trip_holds() {
    for s in ["0", "5", "-5", "1/2", "-1/2", "1 1/2", "-1 1/2", "22/7", "-104 93/100"] {
        let x = Rational::parse(s).unwrap();
        assert_eq!(Rational::parse(&x.to_string()).unwrap(), x);
    }
    // and through the verified round-trip witness
    let x = Rational::frac_exact(-355, 113);
    assert_eq!(Rational::round_trip(&x), x);
    assert_eq!(x.to_string(), "-3 16/113");
}

#[test]
fn arithmetic_is_exact() {
    // a third of a monetary unit, summed three times, is the unit again
    let unit = Rational::from_cents(100);
    let third = unit.div(&Rational::from_cents(300)).unwrap();
    let share = unit.div(&Rational::from_int(3)).unwrap();
    let sum = share.add(&share).unwrap().add(&share).unwrap();
    assert_eq!(sum, unit);
    assert_eq!(third, Rational::frac_exact(1, 3));
    let back = third
        .add(&third)
        .unwrap()
        .add(&third)
        .unwrap();
    assert_eq!(back, Rational::from_int(1));
}

#[test]
fn division_by_zero_is_an_error() {
    let unit = Rational::from_cents(100);
    assert_eq!(unit.div(&Rational::zero()), Err(RationalError::DivisionByZero));
}

#[test]
fn subtraction_and_order() {
    let a = Rational::from_cents(1000);
    let b = Rational::from_cents(550);
    assert_eq!(a.sub(&b).unwrap(), Rational::frac_exact(9, 2));
    assert!(b.le(&a));
    assert!(!a.le(&b));
}

#[test]
fn cents_parsing() {
    assert_eq!(parse_cents("12.34"), Some(1234));
    assert_eq!(parse_cents("12.3"), Some(1230));
    assert_eq!(parse_cents("12"), Some(1200));
    assert_eq!(parse_cents("-1.50"), Some(-150));
    assert_eq!(parse_cents("0.05"), Some(5));
    assert_eq!(parse_cents("12.345"), None);
    assert_eq!(parse_cents("12."), None);
    assert_eq!(parse_cents(".5"), None);
    assert_eq!(parse_cents("abc"), None);
    assert_eq!(parse_cents(""), None);
}
