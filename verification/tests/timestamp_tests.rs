use srt_ingest::srt_parser::errors::ParsingError;
use srt_ingest::srt_parser::types::Timestamp;

#[test]
fn format_pads_each_field() {
    assert_eq!(Timestamp::new(0, 0, 1, 0).to_string(), "00:00:01,000");
    assert_eq!(Timestamp::new(1, 2, 3, 4).to_string(), "01:02:03,004");
    assert_eq!(Timestamp::new(12, 34, 56, 789).to_string(), "12:34:56,789");
}

#[test]
fn format_does_not_truncate_large_hours() {
    assert_eq!(Timestamp::new(100, 2, 3, 4).to_string(), "100:02:03,004");
}

#[test]
fn parse_accepts_canonical_form() {
    assert_eq!(
        Timestamp::parse("01:02:03,004").unwrap(),
        Timestamp::new(1, 2, 3, 4)
    );
}

#[test]
fn parse_does_not_normalize_ranges() {
    assert_eq!(
        Timestamp::parse("00:75:00,000").unwrap(),
        Timestamp::new(0, 75, 0, 0)
    );
}

#[test]
fn parse_rejects_wrong_field_count() {
    match Timestamp::parse("12:34:56") {
        Err(ParsingError::InvalidTimestamp) => {}
        other => panic!("expected InvalidTimestamp, got {:?}", other),
    }
    match Timestamp::parse("1:2:3,4,5") {
        Err(ParsingError::InvalidTimestamp) => {}
        other => panic!("expected InvalidTimestamp, got {:?}", other),
    }
}

#[test]
fn parse_rejects_non_numeric_fields() {
    match Timestamp::parse("aa:bb:cc,dd") {
        Err(ParsingError::InvalidTimestamp) => {}
        other => panic!("expected InvalidTimestamp, got {:?}", other),
    }
    match Timestamp::parse("01:02:03,") {
        Err(ParsingError::InvalidTimestamp) => {}
        other => panic!("expected InvalidTimestamp, got {:?}", other),
    }
}

#[test]
fn format_parse_format_round_trips() {
    let cases = [
        Timestamp::new(0, 0, 0, 0),
        Timestamp::new(1, 75, 3, 5),
        Timestamp::new(123, 59, 59, 999),
    ];
    for t in cases {
        let text = t.to_string();
        let back = Timestamp::parse(&text).unwrap();
        assert_eq!(back, t);
        assert_eq!(back.to_string(), text);
    }
}
