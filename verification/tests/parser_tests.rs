use srt_ingest::srt_parser::errors::ParsingError;
use srt_ingest::srt_parser::types::{Subtitle, Subtitles, Timestamp};

#[test]
fn test_parse_from_str() {
    let input = "1\n00:00:01,000 --> 00:00:04,000\nHello, world!\n\n2\n00:00:05,000 --> 00:00:07,000\nThis is a test.";
    let subtitles = Subtitles::parse_from_str(input).unwrap();
    assert_eq!(subtitles.len(), 2);
    assert_eq!(subtitles.0[0].number, 1);
    assert_eq!(subtitles.0[0].text, "Hello, world!");
    assert_eq!(subtitles.0[1].number, 2);
    assert_eq!(subtitles.0[1].text, "This is a test.");
}

#[test]
fn parse_reads_timestamps_exactly() {
    let input = "3\n01:02:03,004 --> 11:22:33,444\nLine one\nLine two\n";
    let subtitles = Subtitles::parse_from_str(input).unwrap();
    assert_eq!(subtitles.len(), 1);
    let s = &subtitles.0[0];
    assert_eq!(s.number, 3);
    assert_eq!(s.start_time, Timestamp::new(1, 2, 3, 4));
    assert_eq!(s.end_time, Timestamp::new(11, 22, 33, 444));
    assert_eq!(s.text, "Line one\nLine two");
}

#[test]
fn parse_strips_bom_and_carriage_returns() {
    let input = "\u{feff}1\r\n00:00:01,000 --> 00:00:02,000\r\nHi there\r\n\r\n2\r\n00:00:03,000 --> 00:00:04,000\r\nBye\r\n";
    let subtitles = Subtitles::parse_from_str(input).unwrap();
    assert_eq!(subtitles.len(), 2);
    assert_eq!(subtitles.0[0].text, "Hi there");
    assert_eq!(subtitles.0[1].text, "Bye");
}

#[test]
fn parse_rejects_empty_input() {
    match Subtitles::parse_from_str("") {
        Err(ParsingError::MalformedSubtitle) => {}
        other => panic!("expected MalformedSubtitle, got {:?}", other),
    }
}

#[test]
fn parse_rejects_nonconforming_text() {
    match Subtitles::parse_from_str("no subtitles here\njust words\n") {
        Err(ParsingError::MalformedSubtitle) => {}
        other => panic!("expected MalformedSubtitle, got {:?}", other),
    }
}

#[test]
fn parse_rejects_oversized_sequence_number() {
    let input = "99999999999999999999999\n00:00:01,000 --> 00:00:02,000\nHi\n";
    match Subtitles::parse_from_str(input) {
        Err(ParsingError::InvalidNumber) => {}
        other => panic!("expected InvalidNumber, got {:?}", other),
    }
}

#[test]
fn parse_skips_garbage_between_blocks() {
    let input = "noise\n1\n00:00:01,000 --> 00:00:02,000\nHello\n\nnot a block\n";
    let subtitles = Subtitles::parse_from_str(input).unwrap();
    assert_eq!(subtitles.len(), 1);
    assert_eq!(subtitles.0[0].text, "Hello");
}

#[test]
fn collection_reserializes_in_source_form() {
    let input = "1\n00:00:01,000 --> 00:00:04,000\nHello, world!\n\n2\n00:00:05,000 --> 00:00:07,000\nThis is a test.";
    let subtitles = Subtitles::parse_from_str(input).unwrap();
    assert_eq!(subtitles.to_string(), input);
    let numbers: Vec<usize> = subtitles.iter().map(|s| s.number).collect();
    assert_eq!(numbers, vec![1, 2]);
}

#[test]
fn collection_push_and_access() {
    let mut subs = Subtitles::new();
    assert!(subs.is_empty());
    subs.push(Subtitle::new(
        1,
        Timestamp::new(0, 0, 1, 0),
        Timestamp::new(0, 0, 2, 0),
        String::from("hi"),
    ));
    assert_eq!(subs.len(), 1);
    assert_eq!(subs.get(0).number, 1);
    assert_eq!(
        subs.to_string(),
        "1\n00:00:01,000 --> 00:00:02,000\nhi"
    );
}

#[test]
fn error_messages_describe_each_failure() {
    assert_eq!(ParsingError::MalformedSubtitle.message(), "Malformed subtitle");
    assert_eq!(ParsingError::InvalidTimestamp.message(), "Invalid timestamp");
    assert_eq!(ParsingError::InvalidNumber.message(), "Invalid subtitle number");
    assert_eq!(ParsingError::IoError.message(), "I/O error");
}
