use vidsum::parse::parse_duration_output;
use vidsum::probe::ProbeError;
use vidsum::report::format_total;
use vidsum::report::u64_to_string;

#[test]
fn parses_plain_probe_output() {
    assert_eq!(parse_duration_output("125.346000"), Ok(125_346_000));
}

#[test]
fn parses_trimmed_output() {
    assert_eq!(parse_duration_output(" 61.5\n"), Ok(61_500_000));
    assert_eq!(parse_duration_output("\t120.0\r\n"), Ok(120_000_000));
}

#[test]
fn parses_integer_seconds() {
    assert_eq!(parse_duration_output("0"), Ok(0));
    assert_eq!(parse_duration_output("42"), Ok(42_000_000));
}

#[test]
fn parses_bare_fraction_and_bare_dot_forms() {
    assert_eq!(parse_duration_output(".5"), Ok(500_000));
    assert_eq!(parse_duration_output("5."), Ok(5_000_000));
}

#[test]
fn truncates_beyond_microseconds() {
    assert_eq!(parse_duration_output("0.1234567"), Ok(123_456));
    assert_eq!(parse_duration_output("1.9999999"), Ok(1_999_999));
}

#[test]
fn rejects_empty_output() {
    assert_eq!(parse_duration_output(""), Err(ProbeError::ParseFailure));
    assert_eq!(parse_duration_output("   \n"), Err(ProbeError::ParseFailure));
}

#[test]
fn rejects_non_numeric_output() {
    assert_eq!(parse_duration_output("N/A"), Err(ProbeError::ParseFailure));
    assert_eq!(parse_duration_output("abc"), Err(ProbeError::ParseFailure));
    assert_eq!(parse_duration_output("1e3"), Err(ProbeError::ParseFailure));
    assert_eq!(parse_duration_output("-1"), Err(ProbeError::ParseFailure));
    assert_eq!(parse_duration_output("12.3.4"), Err(ProbeError::ParseFailure));
    assert_eq!(parse_duration_output("."), Err(ProbeError::ParseFailure));
    assert_eq!(parse_duration_output("12 5"), Err(ProbeError::ParseFailure));
}

#[test]
fn rejects_values_too_large_for_microseconds() {
    assert_eq!(
        parse_duration_output("99999999999999999999"),
        Err(ProbeError::ParseFailure)
    );
    assert_eq!(
        parse_duration_output("18446744073709.551616"),
        Err(ProbeError::ParseFailure)
    );
}

#[test]
fn accepts_largest_representable_duration() {
    assert_eq!(
        parse_duration_output("18446744073709.551615"),
        Ok(u64::MAX)
    );
}

#[test]
fn leading_zeros_do_not_change_the_value() {
    assert_eq!(parse_duration_output("000061.5"), Ok(61_500_000));
}

#[test]
fn formats_three_minutes_one_second() {
    assert_eq!(format_total(181_500_000), "0 hours, 3 minutes, 1 seconds");
}

#[test]
fn formats_zero_duration() {
    assert_eq!(format_total(0), "0 hours, 0 minutes, 0 seconds");
}

#[test]
fn formats_hours_minutes_seconds() {
    assert_eq!(format_total(3_661_000_000), "1 hours, 1 minutes, 1 seconds");
    assert_eq!(format_total(7_325_999_999), "2 hours, 2 minutes, 5 seconds");
}

#[test]
fn renders_decimal_digits() {
    assert_eq!(u64_to_string(0), "0");
    assert_eq!(u64_to_string(7), "7");
    assert_eq!(u64_to_string(1234567890), "1234567890");
    assert_eq!(u64_to_string(u64::MAX), "18446744073709551615");
}
