//! Reading a padded number from its text.
use vstd::prelude::*;
use vstd::string::*;
use vstd::utf8::{is_ascii_chars, is_ascii_chars_encode_utf8};

use crate::digits::{
    all_digits, digit_value, digits_value, is_digit, leading_zero_count, lemma_canonical_split,
    lemma_pow10_positive, lemma_value_split, pow10,
};
use crate::error::{InvalidNumberKind, ParsePaddedNumberError};
use crate::padded::PaddedView;

verus! {

/// The outcome of reading `s` as a padded number of length in `[min, max]`.
///
/// Lengths are counted in bytes, and reported modulo 256 in an error. The
/// empty text is accepted when `min == 0`; otherwise the length is checked
/// against both bounds, then the text must be ASCII digits whose value fits
/// in a `u64`. The leading zeros are all the `'0'` characters the text starts
/// with.
pub open spec fn parse_spec(min: u8, max: u8, s: &str) -> Result<PaddedView, ParsePaddedNumberError> {
    let n = s.spec_bytes().len();
    if s@.len() == 0 && min == 0 {
        Ok(PaddedView { leading_zeros: 0, number: 0 })
    } else if n < min {
        Err(ParsePaddedNumberError::TooShort(min, (n % 256) as u8))
    } else if n > max {
        Err(ParsePaddedNumberError::TooLong(max, (n % 256) as u8))
    } else if !all_digits(s@) {
        Err(ParsePaddedNumberError::InvalidNumber(InvalidNumberKind::InvalidDigit))
    } else if digits_value(s@) > u64::MAX {
        Err(ParsePaddedNumberError::InvalidNumber(InvalidNumberKind::PosOverflow))
    } else {
        Ok(PaddedView { leading_zeros: leading_zero_count(s@), number: digits_value(s@) })
    }
}

/// What parsing accepts is a valid value that reads back as the same text.
pub proof fn lemma_parse_valid(min: u8, max: u8, s: &str)
    requires
        parse_spec(min, max, s) is Ok,
    ensures
        parse_spec(min, max, s)->Ok_0.valid(min as nat, max as nat),
        parse_spec(min, max, s)->Ok_0.text() == s@,
{
    let v = parse_spec(min, max, s)->Ok_0;
    if s@.len() == 0 && min == 0 {
        assert(v.text() == s@);
    } else {
        lemma_canonical_split(s@);
        assert(is_ascii_chars(s@));
        is_ascii_chars_encode_utf8(s@);
        assert(v.text() == s@);
    }
}

/// Reads `s` as a padded number of length in `[min, max]`, returning its
/// leading zeros and its magnitude.
pub fn parse(min: u8, max: u8, s: &str) -> (r: Result<(u8, u64), ParsePaddedNumberError>)
    ensures
        match r {
            Ok((leading_zeros, number)) => parse_spec(min, max, s) == Ok::<
                PaddedView,
                ParsePaddedNumberError,
            >(PaddedView { leading_zeros: leading_zeros as nat, number: number as nat }),
            Err(e) => parse_spec(min, max, s) == Err::<PaddedView, ParsePaddedNumberError>(e),
        },
{
    let bytes = s.as_bytes();
    let str_len = bytes.len();
    if s.is_empty() && min == 0 {
        return Ok((0, 0));
    }
    if str_len < min as usize {
        return Err(ParsePaddedNumberError::TooShort(min, (str_len % 256) as u8));
    }
    if str_len > max as usize {
        return Err(ParsePaddedNumberError::TooLong(max, (str_len % 256) as u8));
    }
    if !s.is_ascii() {
        proof {
            assert(!all_digits(s@) || !is_ascii_chars(s@));
        }
        return Err(ParsePaddedNumberError::InvalidNumber(InvalidNumberKind::InvalidDigit));
    }
    proof {
        is_ascii_chars_encode_utf8(s@);
    }
    let ghost text = s@;
    let mut i: usize = 0;
    while i < str_len
        invariant
            i <= str_len == text.len(),
            text == s@,
            str_len == s.spec_bytes().len(),
            min <= str_len <= max,
            !(text.len() == 0 && min == 0),
            forall|j: int| 0 <= j < i ==> is_digit(#[trigger] text[j]),
        decreases str_len - i,
    {
        let c = s.get_char(i);
        if c < '0' || c > '9' {
            proof {
                assert(!is_digit(text[i as int]));
            }
            return Err(ParsePaddedNumberError::InvalidNumber(InvalidNumberKind::InvalidDigit));
        }
        i = i + 1;
    }
    assert(all_digits(text));
    assert(text.skip(0) == text);
    let mut zero_count: usize = 0;
    while zero_count < str_len && s.get_char(zero_count) == '0'
        invariant
            zero_count <= str_len == text.len() <= max,
            text == s@,
            str_len == s.spec_bytes().len(),
            min <= str_len <= max,
            !(text.len() == 0 && min == 0),
            leading_zero_count(text) == zero_count + leading_zero_count(text.skip(zero_count as int)),
        decreases str_len - zero_count,
    {
        proof {
            let rest = text.skip(zero_count as int);
            assert(rest[0] == '0');
            assert(rest.drop_first() == text.skip(zero_count + 1));
        }
        zero_count = zero_count + 1;
    }
    proof {
        let rest = text.skip(zero_count as int);
        if zero_count < str_len {
            assert(rest[0] != '0');
        }
    }
    let mut value: u64 = 0;
    let mut k: usize = 0;
    while k < str_len
        invariant
            k <= str_len == text.len(),
            text == s@,
            str_len == s.spec_bytes().len(),
            min <= str_len <= max,
            !(text.len() == 0 && min == 0),
            all_digits(text),
            value == digits_value(text.take(k as int)),
        decreases str_len - k,
    {
        let c = s.get_char(k);
        let d = (c as u32 - 48) as u64;
        let ghost prefix = text.take(k + 1);
        proof {
            assert(is_digit(text[k as int]));
            assert(prefix.drop_last() == text.take(k as int));
            assert(prefix.last() == text[k as int]);
            lemma_value_split(text, k + 1);
            lemma_pow10_positive((text.len() - (k + 1)) as nat);
            assert(digits_value(prefix) <= digits_value(prefix) * pow10(
                (text.len() - (k + 1)) as nat,
            )) by (nonlinear_arith)
                requires
                    pow10((text.len() - (k + 1)) as nat) >= 1,
            ;
            assert(text.take(text.len() as int) == text);
            assert(d == digit_value(text[k as int]));
            assert(digits_value(prefix) == value * 10 + d);
        }
        let shifted = value.checked_mul(10);
        match shifted {
            None => {
                return Err(ParsePaddedNumberError::InvalidNumber(InvalidNumberKind::PosOverflow));
            },
            Some(shifted) => match shifted.checked_add(d) {
                None => {
                    return Err(
                        ParsePaddedNumberError::InvalidNumber(InvalidNumberKind::PosOverflow),
                    );
                },
                Some(next) => {
                    value = next;
                },
            },
        }
        k = k + 1;
    }
    assert(text.take(str_len as int) == text);
    Ok((zero_count as u8, value))
}

} // verus!
