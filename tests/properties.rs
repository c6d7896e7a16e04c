use padded_number::{PaddedNumber, ParsePaddedNumberError};

fn number<const A: u8, const B: u8>(text: &str) -> PaddedNumber<A, B> {
    PaddedNumber::try_new(text).unwrap()
}

#[test]
fn text_round_trips() {
    for text in ["1", "01", "0000", "120", "0000000000019"] {
        assert_eq!(text, number::<1, 19>(text).to_string());
    }
}

#[test]
fn length_matches_fields_and_bounds() {
    for text in ["00", "007", "12", "0120"] {
        let value = number::<2, 4>(text);
        let magnitude_digits = if value.number() == 0 { 0 } else { value.number().to_string().len() };
        assert_eq!(value.len() as usize, value.leading_zeros() as usize + magnitude_digits);
        assert_eq!(value.len() as usize, text.len());
        assert!(2 <= value.len() && value.len() <= 4);
    }
}

#[test]
fn adding_or_subtracting_zero_keeps_the_value() {
    for text in ["", "0", "00", "09", "90", "999"] {
        let value = number::<0, 3>(text);
        assert_eq!(value, value.saturating_add(0));
        assert_eq!(value, value.saturating_sub(0));
        assert_eq!(value, value.wrapping_add(0));
        assert_eq!(value, value.wrapping_sub(0));
    }
}

#[test]
fn saturation_clamps() {
    assert_eq!(number::<2, 3>("999"), number::<2, 3>("990").saturating_add(1000));
    assert_eq!(number::<1, 2>("0"), number::<1, 2>("99").saturating_sub(1000));
}

#[test]
fn wrap_boundaries() {
    assert_eq!(number::<2, 3>("01"), number::<2, 3>("999").wrapping_add(2));
}

#[test]
fn digit_promotion() {
    assert_eq!(number::<1, 19>("00"), number::<1, 19>("9").wrapping_add(1));
    assert_eq!(number::<1, 19>("91"), number::<1, 19>("80").wrapping_add(11));
    assert_eq!(number::<1, 19>("9"), number::<1, 19>("00").wrapping_sub(1));
}

#[test]
fn section_correctness() {
    let value = number::<1, 7>("0001234");
    assert_eq!(number::<3, 3>("000"), value.checked_section::<3>(0, 3).unwrap());
    assert_eq!(number::<4, 4>("1234"), value.checked_section::<4>(3, 7).unwrap());
    assert_eq!(number::<3, 3>("012"), value.checked_section::<3>(2, 5).unwrap());
}

#[test]
fn section_overflow() {
    let value = number::<1, 5>("123");
    assert_eq!(None, value.checked_section::<4>(1, 5));
    assert_eq!(None, value.checked_section::<2>(3, 5));
}

#[test]
fn empty_value() {
    let value = number::<0, 0>("");
    assert!(value.is_empty());
    assert_eq!(0, value.len());
    assert_eq!(PaddedNumber::<0, 0>::new_unchecked(0, 0), value);
    assert_eq!(Err(ParsePaddedNumberError::TooLong(0, 1)), PaddedNumber::<0, 0>::try_new("0"));
}
