use binast_bench::decimal::{parse_decimal, Decimal, NumberError};
use binast_bench::extract::{extract_value, ExtractError};
use binast_bench::timings::{extract_durations, DurationSample};

fn dec(mantissa: u64, scale: usize) -> Decimal {
    Decimal { mantissa, scale }
}

#[test]
fn single_marker_gives_value() {
    let r = extract_value(b"noise P: 12.50ms more noise", b"P: ", b"ms");
    assert_eq!(r, Ok(dec(1250, 2)));
}

#[test]
fn repeated_prefix_is_ambiguous() {
    let r = extract_value(b"X: 1ms X: 2ms", b"X: ", b"ms");
    assert_eq!(r, Err(ExtractError::AmbiguousMarker));
    let r = extract_value(b"P: 1ms then P: 2.5ms", b"P: ", b"ms");
    assert_eq!(r, Err(ExtractError::AmbiguousMarker));
}

#[test]
fn prefix_right_before_value_is_ambiguous() {
    let r = extract_value(b"P: P: 7ms", b"P: ", b"ms");
    assert_eq!(r, Err(ExtractError::AmbiguousMarker));
}

#[test]
fn trailing_prefix_without_suffix_is_unterminated() {
    let r = extract_value(b"P: 7ms trailing P: ", b"P: ", b"ms");
    assert_eq!(r, Err(ExtractError::MarkerUnterminated));
}

#[test]
fn prefix_after_value_is_ambiguous() {
    let r = extract_value(b"P: 3ms P: 7ms", b"P: ", b"ms");
    assert_eq!(r, Err(ExtractError::AmbiguousMarker));
}

#[test]
fn suffix_before_prefix_is_ignored() {
    let r = extract_value(b"1ms P: 4.25ms 9ms", b"P: ", b"ms");
    assert_eq!(r, Ok(dec(425, 2)));
}

#[test]
fn repeated_prefix_with_bad_number_is_malformed() {
    let r = extract_value(b"P: 1ms P: xms", b"P: ", b"ms");
    assert_eq!(r, Err(ExtractError::MalformedNumber));
}

#[test]
fn absent_prefix_is_not_found() {
    let r = extract_value(b"nothing here 12ms", b"P: ", b"ms");
    assert_eq!(r, Err(ExtractError::MarkerNotFound));
}

#[test]
fn absent_suffix_is_unterminated() {
    let r = extract_value(b"ms P: 12.5", b"P: ", b"ms");
    assert_eq!(r, Err(ExtractError::MarkerUnterminated));
}

#[test]
fn two_dots_are_malformed() {
    let r = extract_value(b"P: 12.3.4ms", b"P: ", b"ms");
    assert_eq!(r, Err(ExtractError::MalformedNumber));
}

#[test]
fn letters_are_malformed() {
    let r = extract_value(b"P: abcms", b"P: ", b"ms");
    assert_eq!(r, Err(ExtractError::MalformedNumber));
}

#[test]
fn empty_payload_is_malformed() {
    let r = extract_value(b"P: ms", b"P: ", b"ms");
    assert_eq!(r, Err(ExtractError::MalformedNumber));
}

#[test]
fn long_payload_is_out_of_range() {
    let r = extract_value(b"P: 18446744073709551616ms", b"P: ", b"ms");
    assert_eq!(r, Err(ExtractError::NumberOutOfRange));
}

#[test]
fn parse_plain_forms() {
    assert_eq!(parse_decimal(b"007"), Ok(dec(7, 0)));
    assert_eq!(parse_decimal(b".5"), Ok(dec(5, 1)));
    assert_eq!(parse_decimal(b"5."), Ok(dec(5, 0)));
    assert_eq!(parse_decimal(b"3.250"), Ok(dec(3250, 3)));
    assert_eq!(parse_decimal(b"18446744073709551615"), Ok(dec(u64::MAX, 0)));
}

#[test]
fn parse_rejects() {
    assert_eq!(parse_decimal(b""), Err(NumberError::Malformed));
    assert_eq!(parse_decimal(b"."), Err(NumberError::Malformed));
    assert_eq!(parse_decimal(b"1.2x"), Err(NumberError::Malformed));
    assert_eq!(parse_decimal(b"-1"), Err(NumberError::Malformed));
    assert_eq!(parse_decimal(b"1..2"), Err(NumberError::Malformed));
    assert_eq!(parse_decimal(b"99999999999999999999"), Err(NumberError::OutOfRange));
    assert_eq!(parse_decimal(b"9999999999999999999x9"), Err(NumberError::Malformed));
}

const ENGINE_OUTPUT: &[u8] = b"start\nParser<>::parse() full duration: 12.50ms\n\
Parser<>::parse() lazy duration: 3.25ms\nReadBinaryAST duration: 1.10ms\nend\n";

#[test]
fn durations_from_engine_output() {
    let r = extract_durations(ENGINE_OUTPUT);
    assert_eq!(
        r,
        Ok(DurationSample { full: dec(1250, 2), lazy: dec(325, 2), encoded: dec(110, 2) })
    );
}

#[test]
fn durations_report_first_missing_marker() {
    let r = extract_durations(b"Parser<>::parse() full duration: 1ms\nReadBinaryAST duration: 2ms");
    assert_eq!(r, Err(ExtractError::MarkerNotFound));
    let r = extract_durations(b"Parser<>::parse() full duration: 1\n");
    assert_eq!(r, Err(ExtractError::MarkerUnterminated));
}

#[test]
fn durations_with_repeated_marker_are_ambiguous() {
    let mut text = ENGINE_OUTPUT.to_vec();
    text.extend_from_slice(b"ReadBinaryAST duration: 9.00ms\n");
    assert_eq!(extract_durations(&text), Err(ExtractError::AmbiguousMarker));
}
