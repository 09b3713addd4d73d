use rig_embeddings::duration::parse_ratelimit_duration;

fn nanos(s: &str) -> Option<u64> {
    parse_ratelimit_duration(s.as_bytes()).map(|d| d.as_nanos())
}

#[test]
fn milliseconds_take_precedence_over_minutes() {
    assert_eq!(nanos("10ms"), Some(10_000_000));
}

#[test]
fn one_minute_is_sixty_seconds() {
    assert_eq!(nanos("1m"), Some(60_000_000_000));
}

#[test]
fn minutes_and_seconds_accumulate() {
    assert_eq!(nanos("6m10s"), Some(370_000_000_000));
}

#[test]
fn five_hundred_milliseconds_is_half_a_second() {
    assert_eq!(nanos("500ms"), Some(500_000_000));
}

#[test]
fn empty_input_is_undetermined() {
    assert_eq!(nanos(""), None);
}

#[test]
fn letters_alone_are_undetermined() {
    assert_eq!(nanos("xyz"), None);
}

#[test]
fn hours_minutes_seconds_accumulate() {
    assert_eq!(nanos("1h2m3s"), Some(3_723_000_000_000));
}

#[test]
fn plain_hours() {
    assert_eq!(nanos("2h"), Some(7_200_000_000_000));
}

#[test]
fn malformed_unit_keeps_trailing_token() {
    assert_eq!(nanos("5q10s"), Some(10_000_000_000));
}

#[test]
fn malformed_unit_keeps_leading_token() {
    assert_eq!(nanos("10s5q"), Some(10_000_000_000));
}

#[test]
fn zero_seconds_is_undetermined() {
    assert_eq!(nanos("0s"), None);
    assert_eq!(nanos("0m"), None);
    assert_eq!(nanos("0h"), None);
    assert_eq!(nanos("0ms"), None);
}

#[test]
fn fractional_seconds() {
    assert_eq!(nanos("0.5s"), Some(500_000_000));
}

#[test]
fn fractional_hours() {
    assert_eq!(nanos("1.5h"), Some(5_400_000_000_000));
}

#[test]
fn fraction_without_leading_digit() {
    assert_eq!(nanos(".5s"), Some(500_000_000));
}

#[test]
fn bare_decimal_point_fails_the_whole_parse() {
    assert_eq!(nanos(".s"), None);
    assert_eq!(nanos("5s.m"), None);
}

#[test]
fn whitespace_is_ignored() {
    assert_eq!(nanos(" 1m "), Some(60_000_000_000));
    assert_eq!(nanos("1 m"), Some(60_000_000_000));
}

#[test]
fn trailing_number_without_unit_reads_as_seconds() {
    assert_eq!(nanos("90"), Some(90_000_000_000));
}

#[test]
fn unit_without_number_is_undetermined() {
    assert_eq!(nanos("ms"), None);
    assert_eq!(nanos("s"), None);
}

#[test]
fn sub_nanosecond_fraction_truncates_to_undetermined() {
    assert_eq!(nanos("0.0000000001s"), None);
}

#[test]
fn oversized_value_saturates() {
    assert_eq!(nanos("99999999999999999999999999h"), Some(u64::MAX));
}

#[test]
fn non_string_bytes_are_undetermined() {
    assert_eq!(parse_ratelimit_duration(b"1m\x80").map(|d| d.as_nanos()), None);
    assert_eq!(nanos("5\u{e9}10s"), None);
    assert_eq!(parse_ratelimit_duration(b"1m\x07").map(|d| d.as_nanos()), None);
}

#[test]
fn tab_and_space_are_part_of_a_string() {
    assert_eq!(nanos("\t1m"), Some(60_000_000_000));
}

#[test]
fn tiny_fraction_of_an_hour_is_exact() {
    assert_eq!(nanos("0.000000000005h"), Some(18));
}

#[test]
fn milliseconds_then_seconds() {
    assert_eq!(nanos("1ms1s"), Some(1_001_000_000));
}
