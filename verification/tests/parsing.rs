use xclips::errors::ParseError;
use xclips::span::Span;
use xclips::timestamp::Timestamp;

fn ts(input: &[u8]) -> Timestamp {
    Timestamp::parse(input).expect("expected a valid timestamp")
}

#[test]
fn seconds_only() {
    let t = ts(b"90");
    assert_eq!(t.seconds, 90);
    assert_eq!(t.milliseconds, 0);
}

#[test]
fn minutes_seconds() {
    let t = ts(b"1:30");
    assert_eq!(t.seconds, 90);
    assert_eq!(t.milliseconds, 0);
}

#[test]
fn hours_minutes_seconds() {
    let t = ts(b"1:01:30");
    assert_eq!(t.seconds, 3690);
    assert_eq!(t.milliseconds, 0);
}

#[test]
fn fraction_one_digit_counts_hundreds() {
    let t = ts(b"1.5");
    assert_eq!(t.seconds, 1);
    assert_eq!(t.milliseconds, 500);
}

#[test]
fn fraction_two_digits_count_tens() {
    let t = ts(b"1.05");
    assert_eq!(t.seconds, 1);
    assert_eq!(t.milliseconds, 50);
}

#[test]
fn fraction_three_digits_exact() {
    let t = ts(b"1.005");
    assert_eq!(t.seconds, 1);
    assert_eq!(t.milliseconds, 5);
}

#[test]
fn trailing_separator_is_zero_millis() {
    let t = ts(b"5.");
    assert_eq!(t.seconds, 5);
    assert_eq!(t.milliseconds, 0);
}

#[test]
fn minutes_not_bounded_by_sixty() {
    let t = ts(b"75:00");
    assert_eq!(t.seconds, 4500);
    assert_eq!(t.milliseconds, 0);
}

#[test]
fn fraction_after_colon_form() {
    let t = ts(b"2:15.25");
    assert_eq!(t.seconds, 135);
    assert_eq!(t.milliseconds, 250);
}

#[test]
fn bare_digits_after_two_digit_seconds_are_a_fraction() {
    // "1:234" reads as one minute, 23 seconds, fraction "4".
    let t = ts(b"1:234");
    assert_eq!(t.seconds, 83);
    assert_eq!(t.milliseconds, 400);
}

#[test]
fn rejects_empty() {
    assert_eq!(Timestamp::parse(b""), Err(ParseError::NotATimestamp));
}

#[test]
fn rejects_letters() {
    assert_eq!(Timestamp::parse(b"abc"), Err(ParseError::NotATimestamp));
}

#[test]
fn rejects_sign() {
    assert_eq!(Timestamp::parse(b"+5"), Err(ParseError::NotATimestamp));
    assert_eq!(Timestamp::parse(b"-5"), Err(ParseError::NotATimestamp));
}

#[test]
fn rejects_long_fraction() {
    assert_eq!(Timestamp::parse(b"1.2345"), Err(ParseError::NotATimestamp));
}

#[test]
fn rejects_fraction_without_integer_part() {
    assert_eq!(Timestamp::parse(b".5"), Err(ParseError::NotATimestamp));
}

#[test]
fn rejects_one_digit_seconds_field() {
    assert_eq!(Timestamp::parse(b"1:2"), Err(ParseError::NotATimestamp));
    assert_eq!(Timestamp::parse(b"1:2:34"), Err(ParseError::NotATimestamp));
}

#[test]
fn rejects_too_many_seconds_for_32_bits() {
    assert_eq!(Timestamp::parse(b"4294967296"), Err(ParseError::TooLarge));
    assert_eq!(Timestamp::parse(b"4294967295"), Ok(Timestamp { seconds: u32::MAX, milliseconds: 0 }));
}

#[test]
fn overflow_in_colon_formats() {
    // 1_000_000 hours fit in 32 bits of seconds; 2_000_000 do not.
    let t = Timestamp::parse(b"1000000:00:00").unwrap();
    assert_eq!(t.seconds, 3_600_000_000);
    assert_eq!(Timestamp::parse(b"2000000:00:00"), Err(ParseError::TooLarge));
    assert_eq!(Timestamp::parse(b"100000000:00"), Err(ParseError::TooLarge));
}

#[test]
fn span_of_compound_timestamps() {
    let sp = Span::parse(b"1:30.5-1:40").unwrap();
    assert_eq!(sp.start.seconds, 90);
    assert_eq!(sp.start.milliseconds, 500);
    assert_eq!(sp.end.seconds, 100);
    assert_eq!(sp.end.milliseconds, 0);
}

#[test]
fn span_propagates_overflow() {
    assert_eq!(Span::parse(b"4294967296-4294967297"), Err(ParseError::TooLarge));
}

#[test]
fn leading_zeros_are_harmless() {
    let t = ts(b"000000000000090");
    assert_eq!(t.seconds, 90);
}

#[test]
fn timestamp_ordering_is_lexicographic() {
    let a = Timestamp::new(1, 999).unwrap();
    let b = Timestamp::new(2, 0).unwrap();
    let c = Timestamp::new(2, 1).unwrap();
    assert!(a.lt(&b) && b.lt(&c) && a.lt(&c));
    assert!(a.le(&a) && !b.le(&a));
}

#[test]
fn span_parses_and_orders_sides() {
    let sp = Span::parse(b"3-5").expect("span should parse");
    assert_eq!(sp.start.seconds, 3);
    assert_eq!(sp.end.seconds, 5);
}

#[test]
fn span_rejects_end_before_start() {
    assert_eq!(Span::parse(b"5-3"), Err(ParseError::EndBeforeStart));
}

#[test]
fn span_allows_equal_endpoints() {
    let sp = Span::parse(b"5-5").expect("span should parse");
    assert_eq!(sp.start, sp.end);
}

#[test]
fn span_without_dash() {
    assert_eq!(Span::parse(b"35"), Err(ParseError::NoDash));
    assert_eq!(Span::parse(b""), Err(ParseError::NoDash));
}

#[test]
fn span_with_bad_sides() {
    assert_eq!(Span::parse(b"abc-def"), Err(ParseError::NotATimestamp));
    assert_eq!(Span::parse(b"3-def"), Err(ParseError::NotATimestamp));
    assert_eq!(Span::parse(b"abc-5"), Err(ParseError::NotATimestamp));
}

#[test]
fn span_splits_at_last_dash() {
    // The start side keeps every earlier dash, so it cannot parse.
    assert_eq!(Span::parse(b"1-2-3"), Err(ParseError::NotATimestamp));
}

#[test]
fn span_ordering_compares_start_then_end() {
    let a = Span::parse(b"1-10").unwrap();
    let b = Span::parse(b"1-11").unwrap();
    let c = Span::parse(b"2-3").unwrap();
    assert!(a.le(&b) && b.le(&c) && a.le(&c));
    assert!(!b.le(&a));
}

#[test]
fn error_messages() {
    assert_eq!(ParseError::NotATimestamp.message(), "not a valid timestamp");
    assert_eq!(ParseError::NoDash.message(), "doesn't contain a dash");
    assert_eq!(ParseError::EndBeforeStart.message(), "end is before start");
    assert_eq!(ParseError::TooLarge.message(), "timestamp too large");
}

#[test]
fn format_then_parse_round_trips() {
    let text = xclips::timestamp::format_hms(1, 1, 30, 0);
    assert_eq!(text, b"1:01:30.000".to_vec());
    let t = ts(&text);
    assert_eq!(t.seconds, 3690);
    assert_eq!(t.milliseconds, 0);

    let text = xclips::timestamp::format_hms(12, 34, 56, 789);
    assert_eq!(text, b"12:34:56.789".to_vec());
    let t = ts(&text);
    assert_eq!(t.seconds, 12 * 3600 + 34 * 60 + 56);
    assert_eq!(t.milliseconds, 789);

    let text = xclips::timestamp::format_hms(0, 0, 0, 5);
    assert_eq!(text, b"0:00:00.005".to_vec());
    let t = ts(&text);
    assert_eq!(t.seconds, 0);
    assert_eq!(t.milliseconds, 5);
}
