use padded_number::PaddedNumber;

fn mock_from_str<const A: u8, const B: u8>(number_str: &str) -> PaddedNumber<A, B> {
    PaddedNumber::try_new(number_str).unwrap()
}

#[test]
fn display_debug_print() {
    let expected_dbg_str = "0123";
    let number = mock_from_str::<1, 4>(expected_dbg_str);
    let actual_dbg_str = number.to_string();

    assert_eq!(expected_dbg_str, &actual_dbg_str);
}

#[test]
fn display_display_print() {
    let expected_display_str = "0012";
    let number = mock_from_str::<1, 4>(expected_display_str);
    let actual_display_str = number.to_string();

    assert_eq!(expected_display_str, &actual_display_str);
}

#[test]
fn display_empty() {
    let expected_display_str = "";
    let number = mock_from_str::<0, 0>("");
    let actual_display_str = number.to_string();

    assert_eq!(expected_display_str, &actual_display_str);
}

#[test]
fn display_leading_zeros_only() {
    let expected_display_str = "00";
    let number = mock_from_str::<2, 2>("00");
    let actual_display_str = number.to_string();

    assert_eq!(expected_display_str, &actual_display_str);
}

#[test]
fn round_trip_through_text() {
    for text in ["", "0", "000", "7", "0012", "9876543210", "0018446744073709551615"] {
        let number = mock_from_str::<0, 25>(text);
        assert_eq!(text, number.to_string());
    }
}

#[test]
fn magnitude_digits_are_written() {
    let number = PaddedNumber::<0, 10>::new_unchecked(1, 907);
    assert_eq!("0907", number.to_string());
}
