//! Numbers as text: parsing with a radix and formatting.

use vstd::prelude::*;
use vstd::string::StringExecFns;

use crate::text;

verus! {

/// The value of a digit, letters counting from ten in either case.
pub open spec fn digit(c: char, radix: int) -> Option<int> {
    let v = if '0' <= c <= '9' {
        c as int - 0x30
    } else if 'a' <= c <= 'z' {
        c as int - 0x61 + 10
    } else if 'A' <= c <= 'Z' {
        c as int - 0x41 + 10
    } else {
        99
    };
    if v < radix {
        Some(v)
    } else {
        None
    }
}

pub fn digit_value(c: char, radix: u64) -> (r: Option<u64>)
    requires
        radix <= 36,
    ensures
        r.is_some() == digit(c, radix as int).is_some(),
        r matches Some(v) ==> digit(c, radix as int) == Some(v as int) && v < radix,
{
    let u: u32 = c as u32;
    let v: u32 = if '0' <= c && c <= '9' {
        u - 0x30
    } else if 'a' <= c && c <= 'z' {
        u - 0x61 + 10
    } else if 'A' <= c && c <= 'Z' {
        u - 0x41 + 10
    } else {
        99
    };
    if (v as u64) < radix {
        Some(v as u64)
    } else {
        None
    }
}

/// The number that the first `n` characters of `s` write.
pub open spec fn value(s: Seq<char>, radix: int, n: int) -> Option<int>
    decreases n,
{
    if n <= 0 {
        Some(0)
    } else {
        match (value(s, radix, n - 1), digit(s[n - 1], radix)) {
            (Some(v), Some(d)) => Some(v * radix + d),
            _ => None,
        }
    }
}

/// The number that a nonempty run of digits writes, when it is at most `max`.
pub open spec fn magnitude(s: Seq<char>, radix: int, max: int) -> Option<int> {
    match value(s, radix, s.len() as int) {
        Some(v) => if s.len() > 0 && v <= max {
            Some(v)
        } else {
            None
        },
        None => None,
    }
}

proof fn value_grows(s: Seq<char>, radix: int, i: int, n: int)
    requires
        0 <= i <= n <= s.len(),
        radix >= 1,
    ensures
        value(s, radix, n) matches Some(v) ==> value(s, radix, i) matches Some(u) && 0 <= u <= v,
    decreases n,
{
    if n > 0 {
        if i < n {
            value_grows(s, radix, i, n - 1);
            if let (Some(v), Some(d)) = (value(s, radix, n - 1), digit(s[n - 1], radix)) {
                assert(v <= v * radix) by (nonlinear_arith)
                    requires
                        0 <= v,
                        radix >= 1,
                ;
            }
        } else {
            value_grows(s, radix, n - 1, n - 1);
            if let (Some(v), Some(d)) = (value(s, radix, n - 1), digit(s[n - 1], radix)) {
                assert(0 <= v * radix) by (nonlinear_arith)
                    requires
                        0 <= v,
                        radix >= 1,
                ;
            }
        }
    }
}

fn parse_magnitude(c: &Vec<char>, from: usize, radix: u64, max: u64) -> (r: Option<u64>)
    requires
        from <= c@.len(),
        2 <= radix <= 36,
    ensures
        r.is_some() == magnitude(c@.skip(from as int), radix as int, max as int).is_some(),
        r matches Some(v) ==> magnitude(c@.skip(from as int), radix as int, max as int) == Some(v as int) && v <= max,
{
    let ghost s = c@.skip(from as int);
    if from == c.len() {
        return None;
    }
    let mut acc: u64 = 0;
    let mut i: usize = from;
    while i < c.len()
        invariant
            s == c@.skip(from as int),
            from <= i <= c@.len(),
            2 <= radix <= 36,
            acc <= max,
            value(s, radix as int, i - from) == Some(acc as int),
        decreases c@.len() - i,
    {
        proof {
            assert(s[i - from] == c@[i as int]);
            value_grows(s, radix as int, i - from + 1, s.len() as int);
        }
        match digit_value(c[i], radix) {
            None => {
                return None;
            },
            Some(d) => {
                assert(0 <= acc * radix <= 0xffff_ffff_ffff_ffff * 36) by (nonlinear_arith)
                    requires
                        0 <= acc <= 0xffff_ffff_ffff_ffff,
                        0 <= radix <= 36,
                ;
                let wide: u128 = acc as u128 * radix as u128 + d as u128;
                if wide > max as u128 {
                    return None;
                }
                acc = wide as u64;
            },
        }
        i += 1;
    }
    Some(acc)
}

/// An unsigned number: an optional plus sign, then digits.
pub open spec fn unsigned(s: Seq<char>, radix: int, max: int) -> Option<int> {
    if s.len() > 0 && s[0] == '+' {
        magnitude(s.skip(1), radix, max)
    } else {
        magnitude(s, radix, max)
    }
}

pub fn parse_unsigned(s: &str, radix: u64, max: u64) -> (r: Option<u64>)
    requires
        2 <= radix <= 36,
    ensures
        r.is_some() == unsigned(s@, radix as int, max as int).is_some(),
        r matches Some(v) ==> unsigned(s@, radix as int, max as int) == Some(v as int) && v <= max,
{
    let c = text::chars_of(s);
    if c.len() > 0 && c[0] == '+' {
        parse_magnitude(&c, 1, radix, max)
    } else {
        assert(c@.skip(0) =~= s@);
        parse_magnitude(&c, 0, radix, max)
    }
}

/// A signed 64-bit number: an optional sign, then digits.
pub open spec fn signed(s: Seq<char>, radix: int) -> Option<int> {
    if s.len() > 0 && s[0] == '-' {
        match magnitude(s.skip(1), radix, 0x8000_0000_0000_0000) {
            Some(v) => Some(-v),
            None => None,
        }
    } else {
        unsigned(s, radix, 0x7fff_ffff_ffff_ffff)
    }
}

pub fn parse_signed(s: &str, radix: u64) -> (r: Option<i64>)
    requires
        2 <= radix <= 36,
    ensures
        r.is_some() == signed(s@, radix as int).is_some(),
        r matches Some(v) ==> signed(s@, radix as int) == Some(v as int),
{
    let c = text::chars_of(s);
    if c.len() > 0 && c[0] == '-' {
        match parse_magnitude(&c, 1, radix, 0x8000_0000_0000_0000) {
            Some(v) => if v == 0x8000_0000_0000_0000 {
                Some(i64::MIN)
            } else {
                Some(-(v as i64))
            },
            None => None,
        }
    } else {
        match parse_unsigned(s, radix, 0x7fff_ffff_ffff_ffff) {
            Some(v) => Some(v as i64),
            None => None,
        }
    }
}

/// The number that `s` writes: hexadecimal behind `0x` or `0X`, else decimal.
pub open spec fn number(s: Seq<char>) -> Option<int> {
    match text::after(s, "0x"@) {
        Some(h) => signed(h, 16),
        None => match text::after(s, "0X"@) {
            Some(h) => signed(h, 16),
            None => signed(s, 10),
        },
    }
}

pub fn parse_num(s: &str) -> (r: Option<i64>)
    ensures
        r.is_some() == number(s@).is_some(),
        r matches Some(v) ==> number(s@) == Some(v as int),
{
    if let Some(h) = text::strip_prefix(s, "0x") {
        return parse_signed(h.as_str(), 16);
    }
    if let Some(h) = text::strip_prefix(s, "0X") {
        return parse_signed(h.as_str(), 16);
    }
    parse_signed(s, 10)
}

/// The character of a digit, lower case.
pub open spec fn digit_char(d: int) -> char {
    if d < 10 {
        (0x30 + d) as char
    } else {
        (0x61 + d - 10) as char
    }
}

fn char_of_digit(d: u64) -> (r: char)
    requires
        d < 16,
    ensures
        r == digit_char(d as int),
{
    if d < 10 {
        (0x30 + d as u8) as char
    } else {
        (0x61 + (d as u8 - 10)) as char
    }
}

/// The digits that write `n`, without leading zeros.
pub open spec fn digits(n: int, radix: int) -> Seq<char>
    decreases n,
{
    if n < 0 || radix < 2 {
        Seq::empty()
    } else if n < radix {
        seq![digit_char(n)]
    } else {
        proof {
            quotient_smaller(n, radix);
        }
        digits(n / radix, radix).push(digit_char(n % radix))
    }
}

pub proof fn quotient_smaller(n: int, radix: int)
    requires
        n >= radix,
        radix >= 2,
    ensures
        0 <= n / radix < n,
{
    assert(0 <= n / radix < n) by (nonlinear_arith)
        requires
            n >= radix,
            radix >= 2,
    ;
}

pub fn format_radix(n: u64, radix: u64) -> (r: String)
    requires
        2 <= radix <= 16,
    ensures
        r@ == digits(n as int, radix as int),
    decreases n,
{
    if n < radix {
        let mut out = String::new();
        out.push(char_of_digit(n));
        assert(out@ =~= seq![digit_char(n as int)]);
        out
    } else {
        proof {
            quotient_smaller(n as int, radix as int);
        }
        let mut out = format_radix(n / radix, radix);
        out.push(char_of_digit(n % radix));
        out
    }
}

/// A number in hexadecimal behind `0x`.
pub open spec fn hex(n: int) -> Seq<char> {
    "0x"@ + digits(n, 16)
}

pub fn format_hex(n: u64) -> (r: String)
    ensures
        r@ == hex(n as int),
{
    let mut out = String::new();
    out.append("0x");
    let d = format_radix(n, 16);
    out.append(d.as_str());
    assert(out@ =~= hex(n as int));
    out
}

/// A number in decimal.
pub open spec fn dec(n: int) -> Seq<char> {
    digits(n, 10)
}

pub fn format_dec(n: u64) -> (r: String)
    ensures
        r@ == dec(n as int),
{
    format_radix(n, 10)
}

/// The digits of a number write that number again.
pub proof fn digits_value(n: int, radix: int)
    requires
        0 <= n,
        2 <= radix <= 16,
    ensures
        digits(n, radix).len() > 0,
        value(digits(n, radix), radix, digits(n, radix).len() as int) == Some(n),
        forall|i: int| 0 <= i < digits(n, radix).len() ==> digit(#[trigger] digits(n, radix)[i], radix) is Some,
    decreases n,
{
    let s = digits(n, radix);
    if n < radix {
        assert(s[0] == digit_char(n));
        assert(value(s, radix, 0) == Some(0int));
        assert(0 * radix == 0) by (nonlinear_arith);
        assert(value(s, radix, 1) == Some(n));
    } else {
        quotient_smaller(n, radix);
        let t = digits(n / radix, radix);
        digits_value(n / radix, radix);
        value_prefix(s, t, radix, t.len() as int);
        assert(s.len() - 1 == t.len());
        let d = n % radix;
        assert(0 <= d < radix) by (nonlinear_arith)
            requires
                d == n % radix,
                2 <= radix,
        ;
        assert(digit(s[s.len() - 1], radix) == Some(d));
        assert((n / radix) * radix + d == n) by (nonlinear_arith)
            requires
                d == n % radix,
                2 <= radix,
        ;
        assert forall|i: int| 0 <= i < s.len() implies digit(#[trigger] s[i], radix) is Some by {
            if i < t.len() {
                assert(s[i] == t[i]);
            }
        }
    }
}

proof fn value_prefix(s: Seq<char>, t: Seq<char>, radix: int, n: int)
    requires
        0 <= n <= t.len(),
        n <= s.len(),
        forall|i: int| 0 <= i < n ==> s[i] == t[i],
    ensures
        value(s, radix, n) == value(t, radix, n),
    decreases n,
{
    if n > 0 {
        value_prefix(s, t, radix, n - 1);
    }
}

} // verus!
