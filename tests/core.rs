use std::hash::{DefaultHasher, Hash, Hasher};

use padded_number::{InvalidNumberKind, PaddedNumber, ParsePaddedNumberError};

fn mock_from_str<const A: u8, const B: u8>(number_str: &str) -> PaddedNumber<A, B> {
    PaddedNumber::try_new(number_str).unwrap()
}

fn assert_len(expected_length: u8, number_str: &str) {
    let number = mock_from_str::<0, 10>(number_str);
    assert_eq!(expected_length, number.len());
}

#[test]
fn core_new_with_leading_zeros() {
    let number = mock_from_str::<1, 3>("001");
    assert_eq!(2, number.leading_zeros());
}

#[test]
fn core_new_with_leading_zeros_only() {
    let number = mock_from_str::<1, 3>("000");
    let expected = PaddedNumber::<1, 3>::new_unchecked(3, 0);
    assert_eq!(expected, number)
}

#[test]
fn core_new_with_empty_str() {
    let number = mock_from_str::<0, 0>("");
    assert!(number.is_empty());
}

#[test]
fn core_too_long_error() {
    let invalid_number = "123";

    let actual_err = PaddedNumber::<1, 2>::try_new(invalid_number).unwrap_err();

    assert_eq!(ParsePaddedNumberError::TooLong(2, 3), actual_err);
}

#[test]
fn core_too_short_error() {
    let invalid_number = "";

    let actual_err = PaddedNumber::<1, 2>::try_new(invalid_number).unwrap_err();

    assert_eq!(ParsePaddedNumberError::TooShort(1, 0), actual_err);
}

#[test]
fn core_non_ascii_digits_error() {
    let invalid_number = "123abc";

    let actual_err = PaddedNumber::<0, 10>::try_new(invalid_number).unwrap_err();

    assert!(matches!(actual_err, ParsePaddedNumberError::InvalidNumber(_)));
}

#[test]
fn core_is_empty() {
    let number = PaddedNumber::<0, 0>::new_unchecked(0, 0);
    assert!(number.is_empty())
}

#[test]
fn core_length() {
    assert_len(0, "");
    assert_len(1, "0");
    assert_len(3, "000");
    assert_len(3, "467");
    assert_len(5, "00467");
}

#[test]
fn new_with_magnitude_only() {
    let number = mock_from_str::<1, 5>("12345");
    assert_eq!(0, number.leading_zeros());
    assert_eq!(12345, number.number());
    assert!(!number.is_empty());
}

#[test]
fn invalid_digit_kinds() {
    let err = PaddedNumber::<0, 10>::try_new("12a4").unwrap_err();
    assert_eq!(ParsePaddedNumberError::InvalidNumber(InvalidNumberKind::InvalidDigit), err);

    // signs are not digits
    let err = PaddedNumber::<0, 10>::try_new("+5").unwrap_err();
    assert_eq!(ParsePaddedNumberError::InvalidNumber(InvalidNumberKind::InvalidDigit), err);

    let err = PaddedNumber::<0, 10>::try_new("-5").unwrap_err();
    assert_eq!(ParsePaddedNumberError::InvalidNumber(InvalidNumberKind::InvalidDigit), err);

    // non-ASCII text: lengths are counted in bytes
    let err = PaddedNumber::<0, 10>::try_new("\u{e9}1").unwrap_err();
    assert_eq!(ParsePaddedNumberError::InvalidNumber(InvalidNumberKind::InvalidDigit), err);
    let err = PaddedNumber::<0, 2>::try_new("\u{e9}1").unwrap_err();
    assert_eq!(ParsePaddedNumberError::TooLong(2, 3), err);
}

#[test]
fn magnitude_overflow() {
    // u64::MAX has 20 digits
    let largest = PaddedNumber::<0, 25>::try_new("0018446744073709551615").unwrap();
    assert_eq!(2, largest.leading_zeros());
    assert_eq!(u64::MAX, largest.number());

    let err = PaddedNumber::<0, 25>::try_new("18446744073709551616").unwrap_err();
    assert_eq!(ParsePaddedNumberError::InvalidNumber(InvalidNumberKind::PosOverflow), err);

    let err = PaddedNumber::<0, 25>::try_new("99999999999999999999").unwrap_err();
    assert_eq!(ParsePaddedNumberError::InvalidNumber(InvalidNumberKind::PosOverflow), err);
}

#[test]
fn bound_checks_come_first() {
    assert_eq!(Err(ParsePaddedNumberError::TooShort(3, 2)), PaddedNumber::<3, 5>::try_new("ab"));
    assert_eq!(Err(ParsePaddedNumberError::TooLong(2, 4)), PaddedNumber::<1, 2>::try_new("abcd"));
    // a bound pair with min > max admits nothing
    assert_eq!(Err(ParsePaddedNumberError::TooShort(3, 2)), PaddedNumber::<3, 2>::try_new("12"));
    assert_eq!(Err(ParsePaddedNumberError::TooLong(2, 3)), PaddedNumber::<3, 2>::try_new("123"));
    // the length is reported modulo 256
    let long = "1".repeat(300);
    assert_eq!(Err(ParsePaddedNumberError::TooLong(255, 44)), PaddedNumber::<0, 255>::try_new(&long));
}

#[test]
fn free_parse_function() {
    assert_eq!(Ok((2, 1)), padded_number::parse(1, 3, "001"));
    assert_eq!(Ok((3, 0)), padded_number::parse(1, 3, "000"));
    assert_eq!(Ok((0, 0)), padded_number::parse(0, 0, ""));
    assert_eq!(Err(ParsePaddedNumberError::TooShort(1, 0)), padded_number::parse(1, 2, ""));
}

#[test]
fn bound_const() {
    let bounded: PaddedNumber<1, 10> = PaddedNumber::new_unchecked(2, 1);

    assert_eq!(PaddedNumber::try_new("001").unwrap(), bounded);
}

#[test]
fn unbound_const() {
    let from_parts: PaddedNumber<1, 255> = PaddedNumber::new_unchecked(2, 1);

    assert_eq!(PaddedNumber::try_new("001").unwrap(), from_parts);
}

#[test]
fn const_declarations() {
    let from_parts: PaddedNumber<1, 10> = PaddedNumber::new_unchecked(2, 1);
    let from_manual: PaddedNumber<1, 10> = match PaddedNumber::try_new("001") {
        Ok(num) => num,
        Err(_) => panic!("oh no! not a valid padded number"),
    };

    assert_eq!(from_parts, from_manual);
}

fn padded_number_hash(text: &str) -> u64 {
    let padded_number = PaddedNumber::<1, 10>::try_new(text).unwrap();
    let mut hasher = DefaultHasher::default();
    padded_number.hash(&mut hasher);
    hasher.finish()
}

#[test]
fn hash_number() {
    let a_hash = padded_number_hash("123");
    let b_hash = padded_number_hash("321");
    assert_ne!(a_hash, b_hash);
}

#[test]
fn hash_zeros() {
    let a_hash = padded_number_hash("0");
    let b_hash = padded_number_hash("000");
    assert_ne!(a_hash, b_hash);
}

#[test]
fn hash_combined() {
    let a_hash = padded_number_hash("00123");
    let b_hash = padded_number_hash("0321");
    assert_ne!(a_hash, b_hash);

    let c_hash = padded_number_hash("00123");
    assert_eq!(a_hash, c_hash)
}
