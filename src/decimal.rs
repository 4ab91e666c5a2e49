//! Decimal integers written as text: an optional `+` or `-`, then one or
//! more ASCII digits.
use vstd::prelude::*;

verus! {

pub open spec fn is_digit(c: char) -> bool {
    '0' <= c && c <= '9'
}

pub open spec fn digit_value(c: char) -> nat {
    ((c as u32) - ('0' as u32)) as nat
}

/// The number that a string of ASCII digits spells, most significant first.
pub open spec fn digits_value(s: Seq<char>) -> nat
    decreases s.len(),
{
    if s.len() == 0 {
        0
    } else {
        digits_value(s.drop_last()) * 10 + digit_value(s.last())
    }
}

pub open spec fn is_sign(c: char) -> bool {
    c == '+' || c == '-'
}

/// The digits of an integer: the text without one leading sign.
pub open spec fn digit_body(s: Seq<char>) -> Seq<char> {
    if s.len() > 0 && is_sign(s[0]) {
        s.drop_first()
    } else {
        s
    }
}

/// The value of `s` read as a decimal integer of any size, or `None` where
/// `s` is no such integer (empty, a lone sign, or a character that is no
/// digit).
pub open spec fn integer_value(s: Seq<char>) -> Option<int> {
    let b = digit_body(s);
    if b.len() > 0 && forall|i: int| 0 <= i < b.len() ==> is_digit(#[trigger] b[i]) {
        if s[0] == '-' {
            Some(-digits_value(b))
        } else {
            Some(digits_value(b) as int)
        }
    } else {
        None
    }
}

/// An integer text, read into 64 bits where it fits.
#[derive(Clone, Copy, Debug, PartialEq, Eq, Structural)]
pub enum ParsedInteger {
    /// The text is no decimal integer.
    NotInteger,
    /// The text is an integer that `i64` holds.
    Fits(i64),
    /// The text is an integer beyond the range of `i64`.
    OutOfRange,
}

/// Reads `s` as a decimal integer, as `i64::from_str` does where the value
/// fits, and tells a too large integer apart from text that is no integer.
pub fn parse_integer(s: &str) -> (r: ParsedInteger)
    ensures
        integer_value(s@) is None <==> r == ParsedInteger::NotInteger,
        r matches ParsedInteger::Fits(v) ==> integer_value(s@) == Some(v as int),
        r is OutOfRange <==> (integer_value(s@) matches Some(v) && (v < i64::MIN || v > i64::MAX)),
{
    let n = s.unicode_len();
    let negative = n > 0 && s.get_char(0) == '-';
    let start: usize = if n > 0 && (s.get_char(0) == '+' || s.get_char(0) == '-') {
        1
    } else {
        0
    };
    let ghost b = digit_body(s@);
    assert(b =~= s@.subrange(start as int, n as int));
    if start == n {
        return ParsedInteger::NotInteger;
    }
    let max: u64 = if negative {
        9223372036854775808
    } else {
        9223372036854775807
    };
    let mut acc: u64 = 0;
    let mut over = false;
    let mut i: usize = start;
    while i < n
        invariant
            start <= i <= n,
            n == s@.len(),
            b == s@.subrange(start as int, n as int),
            b == digit_body(s@),
            forall|k: int| start <= k < i ==> is_digit(#[trigger] s@[k]),
            !over ==> acc as nat == digits_value(b.subrange(0, i - start)) && acc <= max,
            over ==> digits_value(b.subrange(0, i - start)) > max,
        decreases n - i,
    {
        let c = s.get_char(i);
        if !('0' <= c && c <= '9') {
            proof {
                assert(b[i - start] == s@[i as int]);
                assert(!is_digit(b[i - start]));
            }
            return ParsedInteger::NotInteger;
        }
        let d: u64 = ((c as u32) - ('0' as u32)) as u64;
        let ghost prev = b.subrange(0, i - start);
        let ghost next = b.subrange(0, i - start + 1);
        assert(next.drop_last() =~= prev);
        assert(next.last() == c);
        assert(digits_value(next) == digits_value(prev) * 10 + d);
        if over {
            assert(digits_value(next) > max) by (nonlinear_arith)
                requires
                    digits_value(next) == digits_value(prev) * 10 + d,
                    digits_value(prev) > max,
            ;
        } else if d > max || acc > (max - d) / 10 {
            assert(digits_value(next) > max) by (nonlinear_arith)
                requires
                    digits_value(next) == acc * 10 + d,
                    d > max || acc > (max - d) / 10,
                    acc >= 0,
            ;
            over = true;
        } else {
            acc = acc * 10 + d;
        }
        i = i + 1;
    }
    assert(b.subrange(0, n - start) =~= b);
    assert forall|k: int| 0 <= k < b.len() implies is_digit(#[trigger] b[k]) by {
        assert(b[k] == s@[start + k]);
    }
    if over {
        ParsedInteger::OutOfRange
    } else if negative {
        if acc == 9223372036854775808 {
            ParsedInteger::Fits(i64::MIN)
        } else {
            ParsedInteger::Fits(-(acc as i64))
        }
    } else {
        ParsedInteger::Fits(acc as i64)
    }
}

} // verus!
