//! Decimal integers as they are written in date and time tokens.
//!
//! A number is an optional sign followed by one or more ASCII digits. Leading
//! zeros are allowed, anything else (spaces, underscores, a lone sign) is not.
//! A number that does not fit the requested width is rejected, it is never
//! truncated: the widths bound how many significant digits a token may carry.

use vstd::prelude::*;

verus! {

/// An ASCII decimal digit.
pub open spec fn is_digit(b: u8) -> bool {
    0x30 <= b <= 0x39
}

/// Every byte of `s` is a decimal digit.
pub open spec fn digits_only(s: Seq<u8>) -> bool {
    forall|i: int| 0 <= i < s.len() ==> is_digit(#[trigger] s[i])
}

/// The number that a run of digits denotes, most significant digit first.
pub open spec fn digits_value(s: Seq<u8>) -> nat
    decreases s.len(),
{
    if s.len() == 0 {
        0
    } else {
        digits_value(s.drop_last()) * 10 + (s.last() - 0x30) as nat
    }
}

/// The integer that `s` denotes, if `s` is a well-formed number. A leading `+`
/// is always accepted, a leading `-` only where `signed` is set.
pub open spec fn decimal(s: Seq<u8>, signed: bool) -> Option<int> {
    if s.len() >= 1 && (s[0] == 0x2b || (signed && s[0] == 0x2d)) {
        let digits = s.skip(1);
        if digits.len() >= 1 && digits_only(digits) {
            if s[0] == 0x2d {
                Some(-(digits_value(digits) as int))
            } else {
                Some(digits_value(digits) as int)
            }
        } else {
            None
        }
    } else if s.len() >= 1 && digits_only(s) {
        Some(digits_value(s) as int)
    } else {
        None
    }
}

/// The integer that `s` denotes, if it is well formed and lies in `min..=max`.
pub open spec fn decimal_within(s: Seq<u8>, signed: bool, min: int, max: int) -> Option<int> {
    match decimal(s, signed) {
        Some(v) => if min <= v <= max {
            Some(v)
        } else {
            None
        },
        None => None,
    }
}

/// What `s` denotes as a signed 8-bit integer.
pub open spec fn i8_of(s: Seq<u8>) -> Option<i8> {
    match decimal_within(s, true, i8::MIN as int, i8::MAX as int) {
        Some(v) => Some(v as i8),
        None => None,
    }
}

/// What `s` denotes as a signed 16-bit integer.
pub open spec fn i16_of(s: Seq<u8>) -> Option<i16> {
    match decimal_within(s, true, i16::MIN as int, i16::MAX as int) {
        Some(v) => Some(v as i16),
        None => None,
    }
}

/// What `s` denotes as an unsigned 8-bit integer.
pub open spec fn u8_of(s: Seq<u8>) -> Option<u8> {
    match decimal_within(s, false, 0, u8::MAX as int) {
        Some(v) => Some(v as u8),
        None => None,
    }
}

/// What `s` denotes as an unsigned 16-bit integer.
pub open spec fn u16_of(s: Seq<u8>) -> Option<u16> {
    match decimal_within(s, false, 0, u16::MAX as int) {
        Some(v) => Some(v as u16),
        None => None,
    }
}

/// Appending digits never makes the denoted number smaller.
pub proof fn lemma_digits_value_prefix(s: Seq<u8>, n: int)
    requires
        0 <= n <= s.len(),
    ensures
        digits_value(s.take(n)) <= digits_value(s),
    decreases s.len() - n,
{
    if n < s.len() {
        lemma_digits_value_prefix(s, n + 1);
        assert(s.take(n + 1).drop_last() =~= s.take(n));
    } else {
        assert(s.take(n) =~= s);
    }
}

/// Reads the magnitude of a run of digits, giving up as soon as it exceeds
/// `limit`.
fn parse_digits(s: &[u8], from: usize, limit: u32) -> (r: Option<u32>)
    requires
        from <= s.len(),
        limit <= 100_000,
    ensures
        r == if from < s.len() && digits_only(s@.skip(from as int)) && digits_value(
            s@.skip(from as int),
        ) <= limit {
            Some(digits_value(s@.skip(from as int)) as u32)
        } else {
            None
        },
{
    let ghost digits = s@.skip(from as int);
    if from >= s.len() {
        return None;
    }
    let mut acc: u32 = 0;
    let mut i: usize = from;
    while i < s.len()
        invariant
            from <= i <= s.len(),
            digits == s@.skip(from as int),
            limit <= 100_000,
            acc <= limit,
            acc == digits_value(digits.take(i - from)),
            digits_only(digits.take(i - from)),
        decreases s.len() - i,
    {
        let b: u8 = s[i];
        proof {
            assert(digits[i - from] == b);
            assert(digits.take(i - from + 1).drop_last() =~= digits.take(i - from));
            assert(digits.take(i - from + 1).last() == b);
        }
        if b < 0x30 || b > 0x39 {
            return None;
        }
        acc = acc * 10 + (b - 0x30) as u32;
        if acc > limit {
            proof {
                lemma_digits_value_prefix(digits, i - from + 1);
            }
            return None;
        }
        proof {
            assert forall|j: int| 0 <= j < i - from + 1 implies is_digit(
                #[trigger] digits.take(i - from + 1)[j],
            ) by {
                if j < i - from {
                    assert(digits.take(i - from)[j] == digits.take(i - from + 1)[j]);
                }
            }
        }
        i = i + 1;
    }
    proof {
        assert(digits.take(i - from) =~= digits);
    }
    Some(acc)
}

/// Reads a number that must lie in `-neg_limit..=pos_limit`.
fn parse_decimal(s: &[u8], signed: bool, neg_limit: u32, pos_limit: u32) -> (r: Option<i32>)
    requires
        neg_limit <= 100_000,
        pos_limit <= 100_000,
    ensures
        r == match decimal_within(s@, signed, -(neg_limit as int), pos_limit as int) {
            Some(v) => Some(v as i32),
            None => None,
        },
{
    if s.len() == 0 {
        return None;
    }
    let first: u8 = s[0];
    if first == 0x2d && signed {
        match parse_digits(s, 1, neg_limit) {
            Some(v) => Some(-(v as i32)),
            None => None,
        }
    } else if first == 0x2b {
        match parse_digits(s, 1, pos_limit) {
            Some(v) => Some(v as i32),
            None => None,
        }
    } else {
        proof {
            assert(s@.skip(0) =~= s@);
        }
        match parse_digits(s, 0, pos_limit) {
            Some(v) => Some(v as i32),
            None => None,
        }
    }
}

/// Reads `s` as a signed 8-bit integer.
pub fn parse_i8(s: &[u8]) -> (r: Option<i8>)
    ensures
        r == i8_of(s@),
{
    match parse_decimal(s, true, 128, 127) {
        Some(v) => Some(v as i8),
        None => None,
    }
}

/// Reads `s` as a signed 16-bit integer.
pub fn parse_i16(s: &[u8]) -> (r: Option<i16>)
    ensures
        r == i16_of(s@),
{
    match parse_decimal(s, true, 32768, 32767) {
        Some(v) => Some(v as i16),
        None => None,
    }
}

/// Reads `s` as an unsigned 8-bit integer.
pub fn parse_u8(s: &[u8]) -> (r: Option<u8>)
    ensures
        r == u8_of(s@),
{
    match parse_decimal(s, false, 0, 255) {
        Some(v) => Some(v as u8),
        None => None,
    }
}

/// Reads `s` as an unsigned 16-bit integer.
pub fn parse_u16(s: &[u8]) -> (r: Option<u16>)
    ensures
        r == u16_of(s@),
{
    match parse_decimal(s, false, 0, 65535) {
        Some(v) => Some(v as u16),
        None => None,
    }
}

} // verus!
