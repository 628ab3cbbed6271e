use lanshare::decimal::{parse_u64, u64_to_dec};
use lanshare::range::{parse_range, ByteRange};
use lanshare::stream::{content_disposition_value, plan_stream};

#[test]
fn hundred_byte_prefix_is_partial() {
    let p = plan_stream(500, Some("bytes=0-99"));
    assert!(p.partial);
    assert_eq!(p.status, 206);
    assert_eq!(p.offset, 0);
    assert_eq!(p.length, 100);
    assert_eq!(p.content_range.as_deref(), Some("bytes 0-99/500"));
}

#[test]
fn end_past_size_serves_whole_file() {
    let p = plan_stream(500, Some("bytes=0-500"));
    assert!(!p.partial);
    assert_eq!(p.status, 200);
    assert_eq!(p.offset, 0);
    assert_eq!(p.length, 500);
    assert!(p.content_range.is_none());
}

#[test]
fn inverted_range_serves_whole_file() {
    let p = plan_stream(500, Some("bytes=9-3"));
    assert!(!p.partial);
    assert_eq!(p.status, 200);
    assert_eq!(p.length, 500);
}

#[test]
fn no_header_serves_whole_file() {
    let p = plan_stream(123, None);
    assert!(!p.partial);
    assert_eq!(p.status, 200);
    assert_eq!(p.offset, 0);
    assert_eq!(p.length, 123);
}

#[test]
fn malformed_header_serves_whole_file() {
    let p = plan_stream(42, Some("lines=0-99"));
    assert!(!p.partial);
    assert_eq!(p.length, 42);
    let q = plan_stream(42, Some("bytes=abc-3"));
    assert!(!q.partial);
}

#[test]
fn open_ended_range_runs_to_last_byte() {
    assert_eq!(parse_range("bytes=5-", 10), Some(ByteRange { start: 5, end: 9 }));
    assert_eq!(parse_range("bytes=5", 10), Some(ByteRange { start: 5, end: 9 }));
}

#[test]
fn suffix_form_has_no_start_and_is_ignored() {
    assert_eq!(parse_range("bytes=-5", 10), None);
    assert_eq!(parse_range("bytes=", 10), None);
}

#[test]
fn multi_range_header_degenerates_to_first_segment() {
    // The second field, "1,5-6", does not parse as a number, so the end
    // defaults to the last byte: current behaviour, kept as documented.
    assert_eq!(parse_range("bytes=0-1,5-6", 100), Some(ByteRange { start: 0, end: 99 }));
}

#[test]
fn empty_file_admits_no_range() {
    assert_eq!(parse_range("bytes=0-0", 0), None);
    assert_eq!(parse_range("bytes=0", 0), None);
}

#[test]
fn parse_u64_accepts_digits_only() {
    assert_eq!(parse_u64("0"), Some(0));
    assert_eq!(parse_u64("007"), Some(7));
    assert_eq!(parse_u64("18446744073709551615"), Some(u64::MAX));
    assert_eq!(parse_u64("18446744073709551616"), None);
    assert_eq!(parse_u64(""), None);
    assert_eq!(parse_u64("12a"), None);
    assert_eq!(parse_u64("-3"), None);
}

#[test]
fn u64_renders_canonical_decimals() {
    assert_eq!(u64_to_dec(0), "0");
    assert_eq!(u64_to_dec(9), "9");
    assert_eq!(u64_to_dec(10), "10");
    assert_eq!(u64_to_dec(1234), "1234");
    assert_eq!(u64_to_dec(u64::MAX), "18446744073709551615");
}

#[test]
fn content_disposition_carries_file_name() {
    assert_eq!(
        content_disposition_value("report.pdf"),
        "attachment; filename=\"report.pdf\""
    );
}
