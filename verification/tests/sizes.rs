use dupekit::sizes::{parse_size_input, read_size_input, SizeInputError};
use dupekit::text::size_input_value;

#[test]
fn parses_human_sizes() {
    assert_eq!(parse_size_input("1 MB", "Minimum"), Ok(Some(1_048_576)));
    assert_eq!(parse_size_input("2.5 gb", "Minimum"), Ok(Some(2_684_354_560)));
    assert_eq!(parse_size_input("", "Minimum"), Ok(None));
    for bytes in [1, 1_024, 1_310_720, 1_048_576, 2_684_354_560] {
        assert_eq!(parse_size_input(&size_input_value(bytes), "Minimum"), Ok(Some(bytes)));
    }
}

#[test]
fn rejects_malformed_or_out_of_range_size_inputs() {
    assert!(parse_size_input("1 MB extra", "Minimum").is_err());
    assert!(parse_size_input("NaN MB", "Minimum").is_err());
    assert!(parse_size_input("-1 MB", "Minimum").is_err());
    assert!(parse_size_input("1 zebibyte", "Minimum").is_err());
    assert!(parse_size_input("999999999999999999999 TB", "Minimum").is_err());
    let min = parse_size_input("2 MB", "Minimum").unwrap();
    let max = parse_size_input("1 MB", "Maximum").unwrap();
    assert!(min.zip(max).is_some_and(|(min, max)| min > max));
}

#[test]
fn blank_input_means_no_limit() {
    assert_eq!(read_size_input("   \t "), Ok(None));
    assert_eq!(read_size_input("\u{3000}"), Ok(None));
}

#[test]
fn numerals_with_fractions_and_exponents() {
    assert_eq!(read_size_input("1.25 MB"), Ok(Some(1_310_720)));
    assert_eq!(read_size_input(".5 KB"), Ok(Some(512)));
    assert_eq!(read_size_input("1."), Ok(Some(1)));
    assert_eq!(read_size_input("1e3"), Ok(Some(1_000)));
    assert_eq!(read_size_input("2.5E-1 kb"), Ok(Some(256)));
    assert_eq!(read_size_input("+3 B"), Ok(Some(3)));
    assert_eq!(read_size_input("0.0009765625 KB"), Ok(Some(1)));
    assert_eq!(read_size_input("0.9"), Ok(Some(0)));
    assert_eq!(read_size_input("007 bytes"), Ok(Some(7)));
    assert_eq!(read_size_input("1e-30 TB"), Ok(Some(0)));
}

#[test]
fn words_are_separated_by_any_white_space() {
    assert_eq!(read_size_input("  7\t\tkib  "), Ok(Some(7_168)));
    assert_eq!(read_size_input("3\u{a0}K"), Ok(Some(3_072)));
}

#[test]
fn every_unit_and_its_spellings() {
    for (unit, factor) in [
        ("b", 1u64),
        ("Byte", 1),
        ("BYTES", 1),
        ("k", 1 << 10),
        ("KiB", 1 << 10),
        ("m", 1 << 20),
        ("mib", 1 << 20),
        ("G", 1 << 30),
        ("gib", 1 << 30),
        ("t", 1 << 40),
        ("TiB", 1 << 40),
    ] {
        assert_eq!(read_size_input(&format!("2 {unit}")), Ok(Some(2 * factor)));
    }
}

#[test]
fn negative_zero_is_zero() {
    assert_eq!(read_size_input("-0 KB"), Ok(Some(0)));
    assert_eq!(read_size_input("-0.000"), Ok(Some(0)));
}

#[test]
fn each_refusal_has_its_reason() {
    assert_eq!(read_size_input("abc"), Err(SizeInputError::NotANumber));
    assert_eq!(read_size_input("1e"), Err(SizeInputError::NotANumber));
    assert_eq!(read_size_input("."), Err(SizeInputError::NotANumber));
    assert_eq!(read_size_input("1,5 MB"), Err(SizeInputError::NotANumber));
    assert_eq!(read_size_input("inf"), Err(SizeInputError::NotFiniteOrNegative));
    assert_eq!(read_size_input("-Infinity KB"), Err(SizeInputError::NotFiniteOrNegative));
    assert_eq!(read_size_input("nan"), Err(SizeInputError::NotFiniteOrNegative));
    assert_eq!(read_size_input("-2 KB"), Err(SizeInputError::NotFiniteOrNegative));
    assert_eq!(read_size_input("1 MB extra"), Err(SizeInputError::TrailingText));
    assert_eq!(read_size_input("1 parsec"), Err(SizeInputError::UnknownUnit));
    assert_eq!(read_size_input("1 KBs"), Err(SizeInputError::UnknownUnit));
    assert_eq!(read_size_input("16777217 TB"), Err(SizeInputError::TooLarge));
}

#[test]
fn the_number_is_checked_before_the_rest() {
    assert_eq!(read_size_input("x y z"), Err(SizeInputError::NotANumber));
    assert_eq!(read_size_input("-1 parsec extra"), Err(SizeInputError::NotFiniteOrNegative));
    assert_eq!(read_size_input("1 parsec extra"), Err(SizeInputError::TrailingText));
}

#[test]
fn sizes_up_to_two_to_the_sixty_four() {
    assert_eq!(read_size_input("18446744073709551615"), Ok(Some(u64::MAX)));
    assert_eq!(read_size_input("18446744073709551616"), Ok(Some(u64::MAX)));
    assert_eq!(read_size_input("16777216 TB"), Ok(Some(u64::MAX)));
    assert_eq!(read_size_input("18446744073709551617"), Ok(Some(u64::MAX)));
    assert_eq!(read_size_input("16777216.000001 TB"), Err(SizeInputError::TooLarge));
    assert_eq!(read_size_input("1e400"), Err(SizeInputError::NotFiniteOrNegative));
    assert_eq!(read_size_input("0e400"), Ok(Some(0)));
}

#[test]
fn messages_name_the_field() {
    assert_eq!(
        parse_size_input("x", "Minimum file size"),
        Err("Minimum file size must be a number followed by an optional unit (for example, 1 MB)."
            .to_string())
    );
    assert_eq!(
        parse_size_input("-1", "Maximum file size"),
        Err("Maximum file size must be a finite, non-negative size.".to_string())
    );
    assert_eq!(
        parse_size_input("1 B C", "Minimum"),
        Err("Minimum has unexpected trailing text.".to_string())
    );
    assert_eq!(
        parse_size_input("1 PB", "Minimum"),
        Err("Minimum uses an unknown unit. Use B, KB, MB, GB, or TB.".to_string())
    );
    assert_eq!(
        parse_size_input("99999999 TB", "Minimum"),
        Err("Minimum is too large.".to_string())
    );
}

#[test]
fn written_sizes_read_back() {
    for bytes in [0u64, 7, 1_023, 1_152, 1_536, 3 << 30, (5 << 40) + (1 << 37), 123_456_789] {
        assert_eq!(read_size_input(&size_input_value(bytes)), Ok(Some(bytes)));
    }
}

#[test]
fn numbers_are_read_as_the_nearest_float() {
    assert_eq!(read_size_input("0.99999999999999999 B"), Ok(Some(1)));
    assert_eq!(read_size_input("9007199254740993"), Ok(Some(9_007_199_254_740_992)));
    assert_eq!(read_size_input("9007199254740995"), Ok(Some(9_007_199_254_740_996)));
    assert_eq!(read_size_input("0.1 KB"), Ok(Some(102)));
    assert_eq!(read_size_input("18446744073709553664"), Ok(Some(u64::MAX)));
    assert_eq!(read_size_input("18446744073709553665"), Err(SizeInputError::TooLarge));
    assert_eq!(read_size_input("0.49999999999999999 B"), Ok(Some(0)));
}

#[test]
fn the_ends_of_the_float_range() {
    assert_eq!(read_size_input("1.7976931348623158e308"), Err(SizeInputError::TooLarge));
    assert_eq!(read_size_input("1.7976931348623159e308"), Err(SizeInputError::NotFiniteOrNegative));
    assert_eq!(read_size_input("1e400 parsec"), Err(SizeInputError::NotFiniteOrNegative));
    assert_eq!(read_size_input("-1e-400 KB"), Ok(Some(0)));
    assert_eq!(read_size_input("-2.4703282292062327e-324"), Ok(Some(0)));
    assert_eq!(read_size_input("-2.4703282292062328e-324"), Err(SizeInputError::NotFiniteOrNegative));
    assert_eq!(read_size_input("-1e-300"), Err(SizeInputError::NotFiniteOrNegative));
}
