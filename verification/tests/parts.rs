use depoch::digits::{classify, is_ascii_digit, RunClass};
use depoch::scan::{append_bytes, append_epoch_timestamp, resolve_accumulator};
use depoch::timestamp::{bracket, format_timestamp, parse_digits, MAX_EPOCH_SECONDS};

#[test]
fn classify_by_width() {
    assert_eq!(RunClass::SecondPrecision, classify(10));
    assert_eq!(RunClass::MillisecondPrecision, classify(13));
    for width in [0usize, 1, 9, 11, 12, 14, 20, 100, usize::MAX] {
        assert_eq!(RunClass::NotATimestamp, classify(width));
    }
}

#[test]
fn digits_are_the_ten_ascii_digits() {
    for byte in 0u8..=255 {
        assert_eq!((b'0'..=b'9').contains(&byte), is_ascii_digit(byte));
    }
}

#[test]
fn parse_digits_reads_decimal() {
    assert_eq!(0, parse_digits(b""));
    assert_eq!(7, parse_digits(b"7"));
    assert_eq!(1530216070, parse_digits(b"1530216070"));
    assert_eq!(1530216070317, parse_digits(b"1530216070317"));
    assert_eq!(42, parse_digits(b"0000000042"));
    assert_eq!(999_999_999_999_999_999, parse_digits(b"999999999999999999"));
}

#[test]
fn bracket_wraps_text() {
    assert_eq!(b"[]".to_vec(), bracket(b""));
    assert_eq!(b"[abc]".to_vec(), bracket(b"abc"));
}

#[test]
fn format_second_precision() {
    let text = format_timestamp(1530216070, RunClass::SecondPrecision);
    assert_eq!(b"[2018-06-28 20:01:10 UTC]".to_vec(), text);
}

#[test]
fn format_millisecond_precision() {
    let text = format_timestamp(1530216070317, RunClass::MillisecondPrecision);
    assert_eq!(b"[2018-06-28 20:01:10.317 UTC]".to_vec(), text);

    let whole = format_timestamp(1530216070000, RunClass::MillisecondPrecision);
    assert_eq!(b"[2018-06-28 20:01:10.000 UTC]".to_vec(), whole);
}

#[test]
fn format_follows_the_gregorian_calendar() {
    let leap_day = format_timestamp(951782400, RunClass::SecondPrecision);
    assert_eq!(b"[2000-02-29 00:00:00 UTC]".to_vec(), leap_day);

    let no_leap_day = format_timestamp(4107542399, RunClass::SecondPrecision);
    assert_eq!(b"[2100-02-28 23:59:59 UTC]".to_vec(), no_leap_day);

    let next_day = format_timestamp(4107542400, RunClass::SecondPrecision);
    assert_eq!(b"[2100-03-01 00:00:00 UTC]".to_vec(), next_day);
}

#[test]
fn format_range_ends() {
    let first = format_timestamp(0, RunClass::SecondPrecision);
    assert_eq!(b"[1970-01-01 00:00:00 UTC]".to_vec(), first);

    let last = format_timestamp(MAX_EPOCH_SECONDS, RunClass::SecondPrecision);
    assert_eq!(b"[9999-12-31 23:59:59 UTC]".to_vec(), last);

    let last_millis =
        format_timestamp(MAX_EPOCH_SECONDS * 1000 + 999, RunClass::MillisecondPrecision);
    assert_eq!(b"[9999-12-31 23:59:59.999 UTC]".to_vec(), last_millis);
}

#[test]
fn append_bytes_keeps_what_was_there() {
    let mut output: Vec<u8> = b"ab".to_vec();
    append_bytes(b"cd", &mut output);
    assert_eq!(b"abcd".to_vec(), output);
    append_bytes(b"", &mut output);
    assert_eq!(b"abcd".to_vec(), output);
}

#[test]
fn append_epoch_timestamp_empties_the_accumulator() {
    let mut accumulator: Vec<u8> = b"1530216070".to_vec();
    let mut output: Vec<u8> = b"at ".to_vec();
    append_epoch_timestamp(&mut accumulator, &mut output);
    assert!(accumulator.is_empty());
    assert_eq!(b"at [2018-06-28 20:01:10 UTC]".to_vec(), output);

    let mut millis: Vec<u8> = b"1530216070317".to_vec();
    append_epoch_timestamp(&mut millis, &mut output);
    assert!(millis.is_empty());
    assert_eq!(
        b"at [2018-06-28 20:01:10 UTC][2018-06-28 20:01:10.317 UTC]".to_vec(),
        output
    );
}

#[test]
fn resolve_accumulator_by_width() {
    let mut output: Vec<u8> = Vec::new();

    let mut empty: Vec<u8> = Vec::new();
    resolve_accumulator(&mut empty, &mut output);
    assert!(output.is_empty());

    let mut short: Vec<u8> = b"123".to_vec();
    resolve_accumulator(&mut short, &mut output);
    assert!(short.is_empty());
    assert_eq!(b"123".to_vec(), output);

    let mut seconds: Vec<u8> = b"1530216070".to_vec();
    resolve_accumulator(&mut seconds, &mut output);
    assert!(seconds.is_empty());
    assert_eq!(b"123[2018-06-28 20:01:10 UTC]".to_vec(), output);

    let mut eleven: Vec<u8> = b"15302160701".to_vec();
    resolve_accumulator(&mut eleven, &mut output);
    assert!(eleven.is_empty());
    assert_eq!(b"123[2018-06-28 20:01:10 UTC]15302160701".to_vec(), output);
}
