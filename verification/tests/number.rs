use evm_extractor::number::{
    decimal, hex_to_u64, hexadecimal, padded_decimal, parse_number, NumberError,
};

#[test]
fn hex_numbers_are_read_with_and_without_mark() {
    assert_eq!(hex_to_u64("0x0"), Some(0));
    assert_eq!(hex_to_u64("0x10"), Some(16));
    assert_eq!(hex_to_u64("ff"), Some(255));
    assert_eq!(hex_to_u64("0xDeadBeef"), Some(0xdead_beef));
    assert_eq!(hex_to_u64("0xffffffffffffffff"), Some(u64::MAX));
}

#[test]
fn hex_mark_may_be_repeated_and_a_plus_may_follow() {
    assert_eq!(hex_to_u64("0x0x1f"), Some(31));
    assert_eq!(hex_to_u64("0x+1f"), Some(31));
    assert_eq!(hex_to_u64("+1f"), Some(31));
}

#[test]
fn what_is_no_hex_number_is_refused() {
    for text in ["", "0x", "0x0x", "0X10", "0xg", "-1", "+", " 1", "1 ", "0x10000000000000000", "0x1_0"] {
        assert_eq!(hex_to_u64(text), None, "{text}");
    }
}

#[test]
fn hex_reading_agrees_with_the_standard_library() {
    for text in ["", "0x", "0x0x7", "+0x7", "0x+", "00ff", "0xFf", "x", "0", "0xffffffffffffffff0"] {
        let expected = u64::from_str_radix(text.trim_start_matches("0x"), 16).ok();
        assert_eq!(hex_to_u64(text), expected, "{text}");
    }
}

#[test]
fn decimal_reading_agrees_with_the_standard_library() {
    let texts = [
        "", "0", "7", "+7", "-7", "+", "-", "++7", "18446744073709551615", "18446744073709551616",
        "99999999999999999999999x", "x99999999999999999999999", "1e3", "007", " 7", "\u{0661}",
        "184467440737095516150", "1844674407370955161a",
    ];
    for text in texts {
        let expected = text.parse::<u64>().map_err(|error| error.to_string());
        let found = parse_number(text, 10).map_err(|error| error.message());
        assert_eq!(found, expected, "{text}");
    }
}

#[test]
fn each_number_error_comes_out() {
    assert_eq!(parse_number("", 10), Err(NumberError::Empty));
    assert_eq!(parse_number("12a", 10), Err(NumberError::InvalidDigit));
    assert_eq!(parse_number("+", 10), Err(NumberError::InvalidDigit));
    assert_eq!(parse_number("18446744073709551616", 10), Err(NumberError::Overflow));
    assert_eq!(parse_number("zz", 36), Ok(35 * 36 + 35));
    assert_eq!(parse_number("102", 2), Err(NumberError::InvalidDigit));
}

#[test]
fn written_numbers_agree_with_the_standard_library() {
    for n in [0u64, 1, 9, 10, 15, 16, 99, 100, 255, 4096, 1_000_000, u64::MAX - 1, u64::MAX] {
        assert_eq!(decimal(n), n.to_string());
        assert_eq!(hexadecimal(n), format!("0x{:x}", n));
    }
    for n in [0u32, 1, 9, 10, 99, 100, 999, 1000, u32::MAX] {
        assert_eq!(padded_decimal(n), format!("{:03}", n));
    }
}

#[test]
fn written_numbers_read_back() {
    for n in [0u64, 1, 10, 16, 18_000_000, u64::MAX] {
        assert_eq!(parse_number(&decimal(n), 10), Ok(n));
        assert_eq!(hex_to_u64(&hexadecimal(n)), Some(n));
    }
}
