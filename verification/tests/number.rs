use edge_scan::number::{decimal_chars, hex_chars, parse_decimal, parse_hex_digit, NumberError};
use edge_scan::text::{to_chars, to_text};

fn read(text: &str, max: u32) -> Result<u32, NumberError> {
    parse_decimal(&to_chars(text), max)
}

#[test]
fn decimal_numbers_are_read_as_the_standard_library_reads_them() {
    let samples = [
        "", "+", "-", "0", "00", "+0", "7", "007", "255", "256", "300x", "25x", "30x", "-1", "+255",
        "++1", " 1", "1 ", "99999999999999999999", "65535", "65536", "\u{661}",
    ];
    for sample in samples {
        assert_eq!(read(sample, 255).ok(), sample.parse::<u8>().ok().map(u32::from), "{:?}", sample);
        assert_eq!(
            read(sample, 65535).ok(),
            sample.parse::<u16>().ok().map(u32::from),
            "{:?}",
            sample
        );
    }
}

#[test]
fn errors_say_what_is_wrong_first() {
    assert_eq!(read("", 255), Err(NumberError::Empty));
    assert_eq!(read("+", 255), Err(NumberError::InvalidDigit));
    assert_eq!(read("-", 255), Err(NumberError::InvalidDigit));
    assert_eq!(read("30x", 255), Err(NumberError::InvalidDigit));
    assert_eq!(read("300x", 255), Err(NumberError::TooLarge));
    assert_eq!(read("256", 255), Err(NumberError::TooLarge));
    for sample in ["", "+", "30x", "300x", "256", "a", "2555"] {
        let text = sample.parse::<u8>().unwrap_err().to_string();
        let expected = match read(sample, 255).unwrap_err() {
            NumberError::Empty => "cannot parse integer from empty string",
            NumberError::InvalidDigit => "invalid digit found in string",
            NumberError::TooLarge => "number too large to fit in target type",
        };
        assert_eq!(text, expected);
    }
}

#[test]
fn numbers_are_written_without_leading_zeros() {
    for n in [0u128, 1, 9, 10, 99, 100, 443, 65535, u64::MAX as u128, u128::MAX] {
        assert_eq!(to_text(&decimal_chars(n)), n.to_string());
    }
    for n in 0..=u16::MAX {
        assert_eq!(to_text(&hex_chars(n)), format!("{:x}", n));
    }
}

#[test]
fn a_written_number_reads_back() {
    for n in [0u32, 5, 42, 443, 8080, 65535] {
        assert_eq!(parse_decimal(&decimal_chars(n as u128), 65535), Ok(n));
    }
}

#[test]
fn hexadecimal_digits_have_either_case() {
    assert_eq!(parse_hex_digit('0'), Some(0));
    assert_eq!(parse_hex_digit('f'), Some(15));
    assert_eq!(parse_hex_digit('F'), Some(15));
    assert_eq!(parse_hex_digit('g'), None);
    assert_eq!(parse_hex_digit('-'), None);
}
