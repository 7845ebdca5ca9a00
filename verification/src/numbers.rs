//! Reading whole numbers from stored setting texts.

use vstd::prelude::*;

verus! {

/// Whether `c` is an ASCII decimal digit.
pub open spec fn is_digit(c: char) -> bool {
    '0' <= c && c <= '9'
}

/// The value of a string of decimal digits.
pub open spec fn digits_value(s: Seq<char>) -> int
    decreases s.len(),
{
    if s.len() == 0 {
        0
    } else {
        digits_value(s.drop_last()) * 10 + (s.last() as int - '0' as int)
    }
}

/// What `str::parse::<i64>` reads from a text: an optional `+` or `-`, then
/// one or more ASCII digits and nothing else, whose value fits in an `i64`.
pub open spec fn parsed_i64(s: Seq<char>) -> Option<int> {
    let negative = s.len() > 0 && s[0] == '-';
    let body = if s.len() > 0 && (s[0] == '-' || s[0] == '+') {
        s.drop_first()
    } else {
        s
    };
    let magnitude = digits_value(body);
    let value = if negative {
        -magnitude
    } else {
        magnitude
    };
    if body.len() > 0 && (forall|i: int| 0 <= i < body.len() ==> is_digit(#[trigger] body[i]))
        && i64::MIN <= value <= i64::MAX {
        Some(value)
    } else {
        None
    }
}

/// Reads a whole number.
///
/// Calls `str::parse::<i64>`; the contract states its documented behaviour
/// ([`parsed_i64`]): an optional sign, then decimal digits only, in range.
#[verifier::external_body]
pub(crate) fn parse_i64(value: &str) -> (r: Option<i64>)
    ensures
        match r {
            Some(n) => parsed_i64(value@) == Some(n as int),
            None => parsed_i64(value@) is None,
        },
{
    match value.parse::<i64>() {
        Ok(n) => Some(n),
        Err(_) => None,
    }
}

/// The ASCII digit for `d`, for `d` from 0 to 9.
pub open spec fn digit_char(d: int) -> char {
    (d + 48) as char
}

/// The decimal digits of a natural number, without leading zeros (`0` for
/// zero).
pub open spec fn digits_of(n: nat) -> Seq<char>
    decreases n,
{
    if n < 10 {
        seq![digit_char(n as int)]
    } else {
        digits_of(n / 10).push(digit_char((n % 10) as int))
    }
}

/// A whole number written in decimal, with a `-` in front where it is
/// negative.
pub open spec fn decimal_text(value: int) -> Seq<char> {
    if value < 0 {
        seq!['-'] + digits_of((-value) as nat)
    } else {
        digits_of(value as nat)
    }
}

/// Writes a whole number in decimal.
///
/// Calls `i64::to_string`; the contract states its documented behaviour
/// ([`decimal_text`]): the decimal digits without leading zeros, after a `-`
/// for a negative number.
#[verifier::external_body]
pub(crate) fn decimal_string(value: i64) -> (r: String)
    ensures
        r@ == decimal_text(value as int),
{
    value.to_string()
}

/// The digits of a number are digits, and read back as the number.
proof fn lemma_digits_read_back(n: nat)
    ensures
        digits_of(n).len() > 0,
        forall|i: int| 0 <= i < digits_of(n).len() ==> is_digit(#[trigger] digits_of(n)[i]),
        digits_value(digits_of(n)) == n,
    decreases n,
{
    if n >= 10 {
        let q = n / 10;
        let d = (n % 10) as int;
        lemma_digits_read_back(q);
        let s = digits_of(q);
        let t = s.push(digit_char(d));
        assert(t.drop_last() =~= s);
        assert(digit_char(d) as int == d + 48);
        assert forall|i: int| 0 <= i < t.len() implies is_digit(#[trigger] t[i]) by {
            if i < s.len() {
                assert(t[i] == s[i]);
            }
        }
        vstd::arithmetic::div_mod::lemma_fundamental_div_mod(n as int, 10);
        assert(t.last() == digit_char(d));
        assert('0' as int == 48);
        assert(digits_value(t) == digits_value(s) * 10 + d);
        assert(q * 10 == 10 * q) by (nonlinear_arith);
    } else {
        let c = digit_char(n as int);
        assert(seq![c].drop_last() =~= Seq::<char>::empty());
        assert(digits_value(Seq::<char>::empty()) == 0);
        assert('0' as int == 48);
        assert(digit_char(n as int) as int == n + 48);
    }
}

/// Reading back what [`decimal_string`] writes gives the number written:
/// a whole number written in decimal reads as itself.
pub proof fn lemma_decimal_reads_back(value: i64)
    ensures
        parsed_i64(decimal_text(value as int)) == Some(value as int),
{
    let v = value as int;
    let s = decimal_text(v);
    if v < 0 {
        let m = (-v) as nat;
        lemma_digits_read_back(m);
        assert(s.drop_first() =~= digits_of(m));
        assert(s[0] == '-');
    } else {
        lemma_digits_read_back(v as nat);
        assert(is_digit(s[0]));
    }
}

} // verus!
