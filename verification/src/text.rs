//! The string grammar for fractions.
//!
//! A fraction is written as an optional leading `-` followed by a bare
//! integer `W`, a bare fraction `N/D`, or a mixed number `W N/D`; the sign
//! applies to the whole value.  Rendering is the inverse: integer form
//! when the denominator is one, `N/D` when the magnitude is below one,
//! `W N/D` otherwise.  Parsing a rendered value gives back the value
//! exactly; digit runs above 64 bits are rejected as out of range.

use crate::arith::abs_int;
use crate::rational::{fits_frac, normalize_mag, signed_of, Rational};
use vstd::arithmetic::div_mod::{lemma_fundamental_div_mod, lemma_small_mod};
use vstd::prelude::*;
use vstd::string::{StrSliceExecFns, StringExecFns};

verus! {

/// A string that does not belong to the fraction grammar, or a value
/// whose digit runs or normal form leave the machine representation.
#[derive(Clone, Copy, Debug, PartialEq, Eq, Structural)]
pub enum ParseRationalError {
    InvalidRationalNumber,
}

/// The characters `0` through `9`.
pub open spec fn is_digit_char(c: char) -> bool {
    48 <= c as int <= 57
}

/// Numeric value of a digit character.
pub open spec fn digit_val(c: char) -> nat {
    (c as int - 48) as nat
}

/// The digit character for `n < 10`.
pub open spec fn digit_char(n: nat) -> char {
    if n == 0 {
        '0'
    } else if n == 1 {
        '1'
    } else if n == 2 {
        '2'
    } else if n == 3 {
        '3'
    } else if n == 4 {
        '4'
    } else if n == 5 {
        '5'
    } else if n == 6 {
        '6'
    } else if n == 7 {
        '7'
    } else if n == 8 {
        '8'
    } else {
        '9'
    }
}

/// A nonempty run of digit characters.
pub open spec fn is_digits(s: Seq<char>) -> bool {
    s.len() >= 1 && forall|i: int| 0 <= i < s.len() ==> is_digit_char(#[trigger] s[i])
}

/// Value of a digit run, most significant first.
pub open spec fn digits_val(s: Seq<char>) -> nat
    decreases s.len(),
{
    if s.len() == 0 {
        0
    } else {
        digits_val(s.drop_last()) * 10 + digit_val(s.last())
    }
}

/// A digit run that a 64-bit accumulator can hold.
pub open spec fn piece_ok(s: Seq<char>) -> bool {
    is_digits(s) && digits_val(s) <= u64::MAX
}

/// Decimal digits of `n`, without leading zeros.
pub open spec fn dec_digits(n: nat) -> Seq<char>
    decreases n,
{
    if n < 10 {
        seq![digit_char(n)]
    } else {
        dec_digits(n / 10).push(digit_char(n % 10))
    }
}

/// Index of the first occurrence of `c` in `s`, or `-1`.
pub open spec fn find_char(s: Seq<char>, c: char) -> int
    decreases s.len(),
{
    if s.len() == 0 {
        -1
    } else if s[0] == c {
        0
    } else {
        let r = find_char(s.drop_first(), c);
        if r < 0 {
            -1
        } else {
            r + 1
        }
    }
}

/// The `N/D` form: two digit runs around the first `/`, nonzero `D`.
pub open spec fn parse_fraction(s: Seq<char>) -> Option<(nat, nat)> {
    let sl = find_char(s, '/');
    if sl >= 0 {
        let ns = s.subrange(0, sl);
        let ds = s.subrange(sl + 1, s.len() as int);
        if piece_ok(ns) && piece_ok(ds) && digits_val(ds) > 0 {
            Some((digits_val(ns), digits_val(ds)))
        } else {
            None
        }
    } else {
        None
    }
}

/// An unsigned number: `W`, `N/D`, or `W N/D`, as numerator/denominator.
pub open spec fn parse_unsigned(s: Seq<char>) -> Option<(nat, nat)> {
    let sp = find_char(s, ' ');
    if sp >= 0 {
        let ws = s.subrange(0, sp);
        let rest = s.subrange(sp + 1, s.len() as int);
        match parse_fraction(rest) {
            Some((n, d)) => if piece_ok(ws) {
                Some(((digits_val(ws) * d + n) as nat, d))
            } else {
                None
            },
            None => None,
        }
    } else {
        if find_char(s, '/') >= 0 {
            parse_fraction(s)
        } else {
            if piece_ok(s) {
                Some((digits_val(s), 1))
            } else {
                None
            }
        }
    }
}

/// The whole grammar: optional sign, then an unsigned number.  The result
/// is the denoted value as an unreduced signed fraction.
pub open spec fn parse_spec(s: Seq<char>) -> Option<(int, int)> {
    if s.len() > 0 && s[0] == '-' {
        match parse_unsigned(s.drop_first()) {
            Some((n, d)) => Some((-(n as int), d as int)),
            None => None,
        }
    } else {
        match parse_unsigned(s) {
            Some((n, d)) => Some((n as int, d as int)),
            None => None,
        }
    }
}

/// Rendering of a nonnegative value `n/d` (`d >= 1`, already reduced).
pub open spec fn render_unsigned(n: nat, d: nat) -> Seq<char> {
    if d == 1 {
        dec_digits(n)
    } else if n < d {
        dec_digits(n) + seq!['/'] + dec_digits(d)
    } else {
        dec_digits(n / d) + seq![' '] + dec_digits(n % d) + seq!['/'] + dec_digits(d)
    }
}

/// Rendering of a fraction in normal form.
pub open spec fn render_spec(x: Rational) -> Seq<char> {
    if x.num >= 0 {
        render_unsigned(x.num as nat, x.den as nat)
    } else {
        seq!['-'] + render_unsigned(abs_int(x.num as int), x.den as nat)
    }
}

/// The digit characters carry the values they stand for.
pub proof fn lemma_digit_char_val(n: nat)
    requires
        n < 10,
    ensures
        is_digit_char(digit_char(n)),
        digit_val(digit_char(n)) == n,
{
    assert('0' as int == 48 && '1' as int == 49 && '2' as int == 50 && '3' as int == 51 && '4'
        as int == 52 && '5' as int == 53 && '6' as int == 54 && '7' as int == 55 && '8' as int
        == 56 && '9' as int == 57);
}

/// `dec_digits` yields digits whose value is the number itself.
pub proof fn lemma_dec_digits(n: nat)
    ensures
        is_digits(dec_digits(n)),
        digits_val(dec_digits(n)) == n,
    decreases n,
{
    if n < 10 {
        lemma_digit_char_val(n);
        let s = dec_digits(n);
        assert(s.drop_last() =~= Seq::<char>::empty());
        assert(s.last() == digit_char(n));
        assert(digits_val(s) == digits_val(s.drop_last()) * 10 + digit_val(s.last()));
        assert(digits_val(s.drop_last()) == 0);
        assert(digit_val(s.last()) == n);
    } else {
        lemma_digit_char_val(n % 10);
        lemma_dec_digits(n / 10);
        lemma_fundamental_div_mod(n as int, 10);
        let s = dec_digits(n);
        let p = dec_digits(n / 10);
        assert(s.drop_last() =~= p);
        assert(forall|i: int|
            0 <= i < s.len() ==> is_digit_char(#[trigger] s[i])) by {
            assert(forall|i: int| 0 <= i < p.len() ==> s[i] == p[i]);
        };
    }
}

/// The characterization of `find_char`: a found index is the first one.
pub proof fn lemma_find_char(s: Seq<char>, c: char)
    ensures
        find_char(s, c) == -1 ==> forall|i: int| 0 <= i < s.len() ==> s[i] != c,
        find_char(s, c) >= 0 ==> {
            &&& find_char(s, c) < s.len()
            &&& s[find_char(s, c)] == c
            &&& forall|i: int| 0 <= i < find_char(s, c) ==> s[i] != c
        },
    decreases s.len(),
{
    if s.len() == 0 {
    } else if s[0] == c {
    } else {
        lemma_find_char(s.drop_first(), c);
        let r = find_char(s.drop_first(), c);
        if r >= 0 {
            assert(forall|i: int| 0 <= i < r + 1 ==> s[i] != c) by {
                assert(forall|i: int| 1 <= i < r + 1 ==> s[i] == s.drop_first()[i - 1]);
            };
        } else {
            assert(forall|i: int| 0 <= i < s.len() ==> s[i] != c) by {
                assert(forall|i: int| 1 <= i < s.len() ==> s[i] == s.drop_first()[i - 1]);
            };
        }
    }
}

/// The first occurrence is determined by any witness index.
pub proof fn lemma_find_char_witness(s: Seq<char>, c: char, i: int)
    requires
        0 <= i < s.len(),
        s[i] == c,
        forall|j: int| 0 <= j < i ==> s[j] != c,
    ensures
        find_char(s, c) == i,
{
    lemma_find_char(s, c);
}

/// A digit run contains no sign, space, or slash.
pub proof fn lemma_digits_have_no_marks(s: Seq<char>, c: char)
    requires
        is_digits(s),
        c == ' ' || c == '/' || c == '-',
    ensures
        find_char(s, c) == -1,
        s[0] != '-',
{
    lemma_find_char(s, c);
    if find_char(s, c) >= 0 {
        assert(is_digit_char(s[find_char(s, c)]));
    }
    assert(is_digit_char(s[0]));
}

/// The parsed pair, with a harmless placeholder for rejected strings.
pub open spec fn parsed(s: Seq<char>) -> (int, int) {
    match parse_spec(s) {
        Some(p) => p,
        None => (0, 1),
    }
}

/// Extending a digit prefix by one character.
pub proof fn lemma_digits_val_step(s: Seq<char>, i: int)
    requires
        0 <= i < s.len(),
    ensures
        digits_val(s.subrange(0, i + 1)) == digits_val(s.subrange(0, i)) * 10 + digit_val(s[i]),
{
    let p = s.subrange(0, i + 1);
    assert(p.drop_last() =~= s.subrange(0, i));
    assert(p.last() == s[i]);
}

/// A digit prefix never has a larger value than the whole run.
pub proof fn lemma_digits_val_monotone(s: Seq<char>, i: int)
    requires
        0 <= i <= s.len(),
    ensures
        digits_val(s.subrange(0, i)) <= digits_val(s),
    decreases s.len() - i,
{
    if i == s.len() {
        assert(s.subrange(0, i) =~= s);
    } else {
        lemma_digits_val_step(s, i);
        lemma_digits_val_monotone(s, i + 1);
    }
}

/// Finding a character past a prefix that lacks it.
pub proof fn lemma_find_char_concat(s1: Seq<char>, s2: Seq<char>, c: char)
    requires
        find_char(s1, c) == -1,
    ensures
        find_char(s1 + s2, c) == if find_char(s2, c) < 0 {
            -1
        } else {
            s1.len() + find_char(s2, c)
        },
    decreases s1.len(),
{
    lemma_find_char(s1, c);
    lemma_find_char(s2, c);
    let s = s1 + s2;
    if find_char(s2, c) < 0 {
        lemma_find_char(s, c);
        if find_char(s, c) >= 0 {
            let k = find_char(s, c);
            if k < s1.len() {
                assert(s[k] == s1[k]);
            } else {
                assert(s[k] == s2[k - s1.len()]);
            }
            assert(false);
        }
    } else {
        let k = s1.len() + find_char(s2, c);
        assert(s[k] == s2[find_char(s2, c)]);
        assert(forall|j: int| 0 <= j < k ==> s[j] != c) by {
            assert(forall|j: int| 0 <= j < s1.len() ==> s[j] == s1[j]);
            assert(forall|j: int|
                s1.len() <= j < k ==> s[j] == s2[j - s1.len()] && s2[j - s1.len()] != c);
        };
        lemma_find_char_witness(s, c, k);
    }
}

/// The string of a single digit.
fn digit_str(d: u8) -> (r: &'static str)
    requires
        d < 10,
    ensures
        r@ == seq![digit_char(d as nat)],
{
    if d == 0 {
        proof {
            reveal_strlit("0");
            assert("0"@ =~= seq![digit_char(0)]);
        }
        "0"
    } else if d == 1 {
        proof {
            reveal_strlit("1");
            assert("1"@ =~= seq![digit_char(1)]);
        }
        "1"
    } else if d == 2 {
        proof {
            reveal_strlit("2");
            assert("2"@ =~= seq![digit_char(2)]);
        }
        "2"
    } else if d == 3 {
        proof {
            reveal_strlit("3");
            assert("3"@ =~= seq![digit_char(3)]);
        }
        "3"
    } else if d == 4 {
        proof {
            reveal_strlit("4");
            assert("4"@ =~= seq![digit_char(4)]);
        }
        "4"
    } else if d == 5 {
        proof {
            reveal_strlit("5");
            assert("5"@ =~= seq![digit_char(5)]);
        }
        "5"
    } else if d == 6 {
        proof {
            reveal_strlit("6");
            assert("6"@ =~= seq![digit_char(6)]);
        }
        "6"
    } else if d == 7 {
        proof {
            reveal_strlit("7");
            assert("7"@ =~= seq![digit_char(7)]);
        }
        "7"
    } else if d == 8 {
        proof {
            reveal_strlit("8");
            assert("8"@ =~= seq![digit_char(8)]);
        }
        "8"
    } else {
        proof {
            reveal_strlit("9");
            assert("9"@ =~= seq![digit_char(9)]);
        }
        "9"
    }
}

/// Digit characters of a reversed digit stack, most significant first.
spec fn rev_digit_chars(rev: Seq<u8>) -> Seq<char> {
    Seq::new(rev.len(), |i: int| digit_char(rev[rev.len() - 1 - i] as nat))
}

/// `dec_digits` splits into the digits of `n/10` and the last digit.
proof fn lemma_dec_digits_unfold(n: nat)
    ensures
        n >= 10 ==> dec_digits(n) == dec_digits(n / 10).push(digit_char(n % 10)),
        n < 10 ==> dec_digits(n) == seq![digit_char(n)] && n % 10 == n,
{
    if n < 10 {
        lemma_small_mod(n, 10);
    }
}

/// Append the decimal digits of `n`.
fn push_digits(out: &mut String, n: u64)
    ensures
        final(out)@ == old(out)@ + dec_digits(n as nat),
{
    let mut rev: Vec<u8> = Vec::new();
    let mut m: u64 = n;
    rev.push((m % 10) as u8);
    m = m / 10;
    proof {
        lemma_dec_digits_unfold(n as nat);
        assert(dec_digits(n as nat) =~= (if m > 0 {
            dec_digits(m as nat)
        } else {
            Seq::<char>::empty()
        }) + rev_digit_chars(rev@));
    }
    while m > 0
        invariant
            rev.len() >= 1,
            forall|j: int| 0 <= j < rev.len() ==> #[trigger] rev[j] < 10,
            dec_digits(n as nat) == (if m > 0 {
                dec_digits(m as nat)
            } else {
                Seq::<char>::empty()
            }) + rev_digit_chars(rev@),
        decreases m,
    {
        let ghost rev0 = rev@;
        let ghost m0 = m as nat;
        rev.push((m % 10) as u8);
        m = m / 10;
        proof {
            lemma_dec_digits_unfold(m0);
            assert(rev_digit_chars(rev@) =~= seq![digit_char(m0 % 10)] + rev_digit_chars(rev0));
            assert(dec_digits(m0) =~= (if m > 0 {
                dec_digits(m as nat)
            } else {
                Seq::<char>::empty()
            }) + seq![digit_char(m0 % 10)]);
            assert(dec_digits(n as nat) =~= (if m > 0 {
                dec_digits(m as nat)
            } else {
                Seq::<char>::empty()
            }) + rev_digit_chars(rev@));
        }
    }
    let ghost start = out@;
    let mut i: usize = rev.len();
    while i > 0
        invariant
            i <= rev.len(),
            forall|j: int| 0 <= j < rev.len() ==> #[trigger] rev[j] < 10,
            dec_digits(n as nat) == rev_digit_chars(rev@),
            out@ == start + rev_digit_chars(rev@).subrange(0, rev.len() - i),
        decreases i,
    {
        i = i - 1;
        let piece = digit_str(rev[i]);
        out.append(piece);
        proof {
            assert(out@ =~= start + rev_digit_chars(rev@).subrange(
                0,
                rev.len() - i,
            ));
        }
    }
    proof {
        assert(rev_digit_chars(rev@).subrange(0, rev.len() as int) =~= rev_digit_chars(rev@));
    }
}

/// First occurrence of `c` in `s`, by character index.
pub fn find_char_in(s: &str, c: char) -> (r: Option<usize>)
    ensures
        match r {
            Some(i) => find_char(s@, c) == i as int && i < s@.len(),
            None => find_char(s@, c) == -1,
        },
{
    let len = s.unicode_len();
    let mut i: usize = 0;
    while i < len
        invariant
            i <= len,
            len == s@.len(),
            forall|j: int| 0 <= j < i ==> s@[j] != c,
        decreases len - i,
    {
        if s.get_char(i) == c {
            proof {
                lemma_find_char_witness(s@, c, i as int);
            }
            return Some(i);
        }
        i = i + 1;
    }
    proof {
        lemma_find_char(s@, c);
        if find_char(s@, c) >= 0 {
            assert(s@[find_char(s@, c)] == c);
        }
    }
    None
}

/// Parse a digit run into a 64-bit accumulator.
pub fn parse_digits(s: &str) -> (r: Option<u64>)
    ensures
        match r {
            Some(v) => piece_ok(s@) && v as nat == digits_val(s@),
            None => !piece_ok(s@),
        },
{
    let len = s.unicode_len();
    if len == 0 {
        return None;
    }
    let mut acc: u64 = 0;
    let mut i: usize = 0;
    while i < len
        invariant
            i <= len,
            len == s@.len(),
            forall|j: int| 0 <= j < i ==> is_digit_char(#[trigger] s@[j]),
            acc as nat == digits_val(s@.subrange(0, i as int)),
        decreases len - i,
    {
        let c = s.get_char(i);
        let v = c as u32;
        if v < 48 || v > 57 {
            proof {
                assert(!is_digit_char(s@[i as int]));
            }
            return None;
        }
        let d = (v - 48) as u64;
        proof {
            lemma_digits_val_step(s@, i as int);
        }
        let next = match acc.checked_mul(10) {
            Some(x) => x.checked_add(d),
            None => None,
        };
        match next {
            Some(x) => {
                acc = x;
            },
            None => {
                proof {
                    lemma_digits_val_monotone(s@, i + 1);
                }
                return None;
            },
        }
        i = i + 1;
    }
    proof {
        assert(s@.subrange(0, len as int) =~= s@);
    }
    Some(acc)
}

/// Parse the `N/D` form.
fn parse_fraction_str(s: &str) -> (r: Option<(u64, u64)>)
    ensures
        match r {
            Some(p) => parse_fraction(s@) == Some((p.0 as nat, p.1 as nat)) && p.1 >= 1,
            None => parse_fraction(s@) is None,
        },
{
    let len = s.unicode_len();
    match find_char_in(s, '/') {
        Some(i) => {
            let ns = s.substring_char(0, i);
            let ds = s.substring_char(i + 1, len);
            proof {
                assert(ns@ =~= s@.subrange(0, i as int));
                assert(ds@ =~= s@.subrange(i + 1, s@.len() as int));
            }
            match (parse_digits(ns), parse_digits(ds)) {
                (Some(n), Some(d)) => if d > 0 {
                    Some((n, d))
                } else {
                    None
                },
                _ => None,
            }
        },
        None => None,
    }
}

/// Parse an unsigned number: `W`, `N/D`, or `W N/D`.
fn parse_unsigned_str(s: &str) -> (r: Option<(u128, u128)>)
    ensures
        match r {
            Some(p) => parse_unsigned(s@) == Some((p.0 as nat, p.1 as nat)) && p.1 >= 1,
            None => parse_unsigned(s@) is None,
        },
{
    let len = s.unicode_len();
    match find_char_in(s, ' ') {
        Some(i) => {
            let ws = s.substring_char(0, i);
            let rest = s.substring_char(i + 1, len);
            proof {
                assert(ws@ =~= s@.subrange(0, i as int));
                assert(rest@ =~= s@.subrange(i + 1, s@.len() as int));
            }
            match (parse_digits(ws), parse_fraction_str(rest)) {
                (Some(w), Some((n, d))) => {
                    proof {
                        assert(w as nat * d as nat + n as nat <= u128::MAX as nat)
                            by (nonlinear_arith)
                            requires
                                w as nat <= u64::MAX as nat,
                                d as nat <= u64::MAX as nat,
                                n as nat <= u64::MAX as nat,
                        ;
                    }
                    Some(((w as u128) * (d as u128) + (n as u128), d as u128))
                },
                _ => None,
            }
        },
        None => {
            match find_char_in(s, '/') {
                Some(_) => match parse_fraction_str(s) {
                    Some((n, d)) => Some((n as u128, d as u128)),
                    None => None,
                },
                None => match parse_digits(s) {
                    Some(v) => Some((v as u128, 1)),
                    None => None,
                },
            }
        },
    }
}

impl Rational {
    /// Parse the fraction grammar: optional `-`, then `W`, `N/D`, or
    /// `W N/D`.  Rejects anything else, a zero denominator, digit runs
    /// beyond 64 bits, and values whose normal form leaves `i64`.
    pub fn parse(s: &str) -> (r: Result<Rational, ParseRationalError>)
        ensures
            match r {
                Ok(x) => {
                    &&& parse_spec(s@) is Some
                    &&& x.wf()
                    &&& x.eq_frac(parsed(s@).0, parsed(s@).1)
                    &&& fits_frac(parsed(s@).0, parsed(s@).1)
                },
                Err(e) => {
                    &&& e == ParseRationalError::InvalidRationalNumber
                    &&& (parse_spec(s@) is None || !fits_frac(parsed(s@).0, parsed(s@).1))
                },
            },
    {
        let len = s.unicode_len();
        let neg = len > 0 && s.get_char(0) == '-';
        let body = if neg {
            s.substring_char(1, len)
        } else {
            s
        };
        proof {
            if neg {
                assert(body@ =~= s@.drop_first());
            }
        }
        match parse_unsigned_str(body) {
            Some((n, d)) => {
                proof {
                    assert(parsed(s@) == (signed_of(neg, n as nat), d as int));
                }
                match normalize_mag(neg, n, d) {
                    Some(x) => Ok(x),
                    None => Err(ParseRationalError::InvalidRationalNumber),
                }
            },
            None => Err(ParseRationalError::InvalidRationalNumber),
        }
    }

    /// Render in the fraction grammar: integer form for denominator one,
    /// `N/D` below one in magnitude, `W N/D` otherwise, with a single
    /// leading `-` for negative values.
    pub fn to_string(&self) -> (r: String)
        requires
            self.wf(),
        ensures
            r@ == render_spec(*self),
    {
        let mut out = String::new();
        if self.num < 0 {
            proof {
                reveal_strlit("-");
                assert("-"@ =~= seq!['-']);
            }
            out.append("-");
        }
        let a: u64 = if self.num < 0 {
            (-(self.num as i128)) as u64
        } else {
            self.num as u64
        };
        let d: u64 = self.den as u64;
        if d == 1 {
            push_digits(&mut out, a);
        } else if a < d {
            push_digits(&mut out, a);
            proof {
                reveal_strlit("/");
                assert("/"@ =~= seq!['/']);
            }
            out.append("/");
            push_digits(&mut out, d);
        } else {
            push_digits(&mut out, a / d);
            proof {
                reveal_strlit(" ");
                assert(" "@ =~= seq![' ']);
            }
            out.append(" ");
            push_digits(&mut out, a % d);
            proof {
                reveal_strlit("/");
                assert("/"@ =~= seq!['/']);
            }
            out.append("/");
            push_digits(&mut out, d);
        }
        proof {
            assert(out@ =~= render_spec(*self));
        }
        out
    }
}

/// Decimal digits of a signed number.
pub open spec fn int_digits(n: int) -> Seq<char> {
    if n >= 0 {
        dec_digits(n as nat)
    } else {
        seq!['-'] + dec_digits((-n) as nat)
    }
}

/// Append the decimal form of a signed 32-bit number.
pub fn push_int(out: &mut String, n: i32)
    ensures
        final(out)@ == old(out)@ + int_digits(n as int),
{
    if n < 0 {
        proof {
            reveal_strlit("-");
            assert("-"@ =~= seq!['-']);
        }
        out.append("-");
        push_digits(out, (-(n as i64)) as u64);
        proof {
            assert(final(out)@ =~= old(out)@ + int_digits(n as int));
        }
    } else {
        push_digits(out, n as u64);
    }
}

/// Cents denoted by an unsigned decimal amount: digits with at most two
/// decimal places, e.g. `12`, `12.3`, `12.34`.
pub open spec fn cents_unsigned(s: Seq<char>) -> Option<int> {
    let dot = find_char(s, '.');
    if dot >= 0 {
        let ws = s.subrange(0, dot);
        let fs = s.subrange(dot + 1, s.len() as int);
        if piece_ok(ws) && is_digits(fs) && 1 <= fs.len() <= 2 {
            Some(
                digits_val(ws) * 100int + digits_val(fs) * (if fs.len() == 1 {
                    10int
                } else {
                    1int
                }),
            )
        } else {
            None
        }
    } else {
        if piece_ok(s) {
            Some(digits_val(s) * 100int)
        } else {
            None
        }
    }
}

/// Cents denoted by a signed decimal amount.
pub open spec fn cents_of(s: Seq<char>) -> Option<int> {
    if s.len() > 0 && s[0] == '-' {
        match cents_unsigned(s.drop_first()) {
            Some(v) => Some(-v),
            None => None,
        }
    } else {
        cents_unsigned(s)
    }
}

/// Parse a decimal money amount into integer cents: an optional sign,
/// digits, and at most two decimal places.  Rejects more places, any
/// other shape, and values outside 32-bit cents.
pub fn parse_cents(s: &str) -> (r: Option<i32>)
    ensures
        match r {
            Some(v) => cents_of(s@) == Some(v as int),
            None => match cents_of(s@) {
                Some(v) => v < i32::MIN || v > i32::MAX,
                None => true,
            },
        },
{
    let len = s.unicode_len();
    let neg = len > 0 && s.get_char(0) == '-';
    let body = if neg {
        s.substring_char(1, len)
    } else {
        s
    };
    proof {
        if neg {
            assert(body@ =~= s@.drop_first());
        }
    }
    let blen = body.unicode_len();
    let raw: Option<u128> = match find_char_in(body, '.') {
        Some(dot) => {
            let ws = body.substring_char(0, dot);
            let fs = body.substring_char(dot + 1, blen);
            proof {
                assert(ws@ =~= body@.subrange(0, dot as int));
                assert(fs@ =~= body@.subrange(dot + 1, body@.len() as int));
            }
            let flen = blen - dot - 1;
            if flen < 1 || flen > 2 {
                None
            } else {
                match (parse_digits(ws), parse_digits(fs)) {
                    (Some(w), Some(f)) => {
                        let scale: u128 = if flen == 1 {
                            10
                        } else {
                            1
                        };
                        Some((w as u128) * 100 + (f as u128) * scale)
                    },
                    _ => None,
                }
            }
        },
        None => {
            match parse_digits(body) {
                Some(w) => Some((w as u128) * 100),
                None => None,
            }
        },
    };
    match raw {
        Some(v) => {
            if neg {
                if v <= 2147483648u128 {
                    Some((-(v as i64)) as i32)
                } else {
                    None
                }
            } else {
                if v <= 2147483647u128 {
                    Some(v as i32)
                } else {
                    None
                }
            }
        },
        None => None,
    }
}

/// Parsing inverts rendering on unsigned values in normal-form range.
#[verifier::rlimit(50)]
proof fn lemma_parse_unsigned_render(n: nat, d: nat)
    requires
        1 <= d <= 0x7fff_ffff_ffff_ffff,
        n <= 0x8000_0000_0000_0000,
    ensures
        parse_unsigned(render_unsigned(n, d)) == Some((n, d)),
{
    if d == 1 {
        let s = render_unsigned(n, d);
        lemma_dec_digits(n);
        lemma_digits_have_no_marks(s, ' ');
        lemma_digits_have_no_marks(s, '/');
    } else if n < d {
        let ns = dec_digits(n);
        let ds = dec_digits(d);
        let s = render_unsigned(n, d);
        lemma_dec_digits(n);
        lemma_dec_digits(d);
        lemma_digits_have_no_marks(ns, ' ');
        lemma_digits_have_no_marks(ns, '/');
        lemma_digits_have_no_marks(ds, ' ');
        lemma_digits_have_no_marks(ds, '/');
        let tail = seq!['/'] + ds;
        assert(s =~= ns + tail);
        assert(tail.drop_first() =~= ds);
        assert(find_char(tail, ' ') == -1);
        lemma_find_char_concat(ns, tail, ' ');
        assert(find_char(s, ' ') == -1);
        assert(find_char(tail, '/') == 0);
        lemma_find_char_concat(ns, tail, '/');
        assert(find_char(s, '/') == ns.len());
        assert(s.subrange(0, ns.len() as int) =~= ns);
        assert(s.subrange(ns.len() as int + 1, s.len() as int) =~= ds);
        assert(parse_fraction(s) == Some((n, d)));
    } else {
        let w = n / d;
        let r = n % d;
        lemma_fundamental_div_mod(n as int, d as int);
        let ws = dec_digits(w);
        let rs = dec_digits(r);
        let ds = dec_digits(d);
        let s = render_unsigned(n, d);
        lemma_dec_digits(w);
        lemma_dec_digits(r);
        lemma_dec_digits(d);
        lemma_digits_have_no_marks(ws, ' ');
        lemma_digits_have_no_marks(rs, ' ');
        lemma_digits_have_no_marks(rs, '/');
        lemma_digits_have_no_marks(ds, ' ');
        lemma_digits_have_no_marks(ds, '/');
        let frac = rs + seq!['/'] + ds;
        let tail = seq![' '] + frac;
        assert(s =~= ws + tail);
        assert(tail[0] == ' ');
        assert(find_char(tail, ' ') == 0);
        lemma_find_char_concat(ws, tail, ' ');
        assert(find_char(s, ' ') == ws.len());
        assert(s.subrange(0, ws.len() as int) =~= ws);
        assert(s.subrange(ws.len() as int + 1, s.len() as int) =~= frac);
        // the fraction part parses as (r, d)
        let dtail = seq!['/'] + ds;
        assert(frac =~= rs + dtail);
        assert(dtail.drop_first() =~= ds);
        assert(find_char(dtail, '/') == 0);
        lemma_find_char_concat(rs, dtail, '/');
        assert(find_char(frac, '/') == rs.len());
        assert(frac.subrange(0, rs.len() as int) =~= rs);
        assert(frac.subrange(rs.len() as int + 1, frac.len() as int) =~= ds);
        assert(parse_fraction(frac) == Some((r, d)));
        assert(w * d + r == n) by (nonlinear_arith)
            requires
                n == d * (n / d) + n % d,
                w == n / d,
                r == n % d,
        ;
    }
}

/// Round-trip law: parsing a rendered fraction denotes exactly the
/// fraction's own numerator and denominator.
pub proof fn lemma_parse_render(x: Rational)
    requires
        x.wf(),
    ensures
        parse_spec(render_spec(x)) == Some((x.num as int, x.den as int)),
{
    if x.num >= 0 {
        let s = render_spec(x);
        lemma_parse_unsigned_render(x.num as nat, x.den as nat);
        assert(s == render_unsigned(x.num as nat, x.den as nat));
        // a rendered unsigned value starts with a digit, never `-`
        lemma_dec_digits(x.num as nat);
        lemma_dec_digits((x.num as nat) / (x.den as nat));
        assert(s.len() > 0 && is_digit_char(s[0]));
        assert(s[0] != '-');
    } else {
        let a = abs_int(x.num as int);
        let b = render_unsigned(a, x.den as nat);
        let s = render_spec(x);
        lemma_parse_unsigned_render(a, x.den as nat);
        assert(s =~= seq!['-'] + b);
        assert(s[0] == '-');
        assert(s.drop_first() =~= b);
        assert(parse_spec(s) == Some((-(a as int), x.den as int)));
        assert(-(a as int) == x.num as int);
    }
}

impl Rational {
    /// Round-trip law in executable form: `parse(to_string(x)) == x` for
    /// every well-formed fraction.
    pub fn round_trip(x: &Rational) -> (r: Rational)
        requires
            x.wf(),
        ensures
            r == *x,
    {
        let s = x.to_string();
        proof {
            lemma_parse_render(*x);
            crate::rational::lemma_eq_frac_is_reduced(*x, x.num as int, x.den as int);
        }
        match Rational::parse(s.as_str()) {
            Ok(y) => {
                proof {
                    crate::rational::lemma_rational_eq(y, *x);
                }
                y
            },
            Err(_) => *x,
        }
    }
}

} // verus!
