use engram::errors::EngramError;
use engram::subtitles::{
    decimal_string, keep_valid_segments, segment_fits, format_timestamp, generate_srt, parse_srt_bytes, parse_srt_content, parse_timestamp, Segment,
};

fn seg(start: i64, end: i64, text: &str) -> Segment {
    Segment { start, end, text: text.to_string() }
}

fn views(v: &[Segment]) -> Vec<(i64, i64, String)> {
    v.iter().map(|s| (s.start, s.end, s.text.clone())).collect()
}

#[test]
fn timestamp_to_milliseconds() {
    assert_eq!(parse_timestamp("00:00:01,000").ok(), Some(1000));
    assert_eq!(parse_timestamp("01:02:03,004").ok(), Some(3_723_004));
    assert_eq!(parse_timestamp(" 00:00:02,500 ").ok(), Some(2500));
}

#[test]
fn malformed_timestamp_is_a_parse_error() {
    for bad in ["00:01,000", "00:00:01.000", "aa:00:01,000", "00:00:01,", ""] {
        match parse_timestamp(bad) {
            Err(EngramError::SubtitleParseError(_)) => {}
            _ => panic!("accepted {bad:?}"),
        }
    }
}

#[test]
fn timestamp_formatting_pads_fields() {
    assert_eq!(format_timestamp(0), "00:00:00,000");
    assert_eq!(format_timestamp(1000), "00:00:01,000");
    assert_eq!(format_timestamp(3_723_004), "01:02:03,004");
    assert_eq!(format_timestamp(360_000_000), "100:00:00,000");
}

#[test]
fn single_cue_parses() {
    let segs = parse_srt_content("1\n00:00:01,000 --> 00:00:02,500\nhello world\n");
    assert_eq!(views(&segs), vec![(1000, 2500, "hello world".to_string())]);
}

#[test]
fn crlf_and_multiline_text() {
    let doc = "1\r\n00:00:01,000 --> 00:00:02,000\r\nline one\r\nline two\r\n\r\n2\r\n00:00:03,000 --> 00:00:04,000\r\nbye\r\n";
    let segs = parse_srt_content(doc);
    assert_eq!(
        views(&segs),
        vec![
            (1000, 2000, "line one\nline two".to_string()),
            (3000, 4000, "bye".to_string()),
        ]
    );
}

#[test]
fn nonconforming_blocks_are_skipped() {
    let doc = "1\n00:00:01,000 --> 00:00:02,000\nkept\n\n2\nnot a time line\ndropped\n\n3\n00:00:05,000 --> 00:00:04,000\nends before it starts\n\nonly\ntwo lines\n\n4\n00:00:06,000 --> 00:00:07,000\nalso kept";
    let segs = parse_srt_content(doc);
    assert_eq!(
        views(&segs),
        vec![(1000, 2000, "kept".to_string()), (6000, 7000, "also kept".to_string())]
    );
}

#[test]
fn empty_document_has_no_segments() {
    assert!(parse_srt_content("").is_empty());
    assert!(parse_srt_content("\n\n\n").is_empty());
}

#[test]
fn srt_emission_layout() {
    let out = generate_srt(&[seg(1000, 2500, "hello world"), seg(3000, 4000, "goodbye")]);
    assert_eq!(
        out,
        "1\n00:00:01,000 --> 00:00:02,500\nhello world\n\n2\n00:00:03,000 --> 00:00:04,000\ngoodbye\n"
    );
    assert_eq!(generate_srt(&[]), "");
}

#[test]
fn srt_round_trip() {
    let xs = vec![
        seg(0, 0, "a"),
        seg(1000, 2500, "hello world"),
        seg(61_001, 3_723_004, "two\nlines"),
        seg(5000, 4_000_000, "  leading space kept"),
    ];
    let back = parse_srt_content(&generate_srt(&xs));
    assert_eq!(views(&back), views(&xs));
}

#[test]
fn parsed_segments_are_well_formed() {
    let doc = "1\n00:00:03,000 --> 00:00:01,000\nbackwards\n\n2\n00:00:01,000 --> 00:00:01,000\nzero length\n";
    for s in parse_srt_content(doc) {
        assert!(s.start >= 0 && s.end >= s.start && !s.text.trim().is_empty());
    }
}

#[test]
fn utf8_bytes_decode_as_utf8() {
    let segs = parse_srt_bytes("1\n00:00:01,000 --> 00:00:02,000\ncafé\n".as_bytes()).ok().unwrap();
    assert_eq!(views(&segs), vec![(1000, 2000, "café".to_string())]);
}

#[test]
fn windows_1252_bytes_fall_back() {
    let mut bytes = b"1\n00:00:01,000 --> 00:00:02,000\ncaf".to_vec();
    bytes.push(0xE9);
    bytes.push(b'\n');
    let segs = parse_srt_bytes(&bytes).ok().unwrap();
    assert_eq!(views(&segs), vec![(1000, 2000, "café".to_string())]);
}

#[test]
fn utf16_with_bom_decodes() {
    let text = "1\n00:00:01,000 --> 00:00:02,000\nhi\n";
    let mut bytes = vec![0xFF, 0xFE];
    for u in text.encode_utf16() {
        bytes.extend_from_slice(&u.to_le_bytes());
    }
    let segs = parse_srt_bytes(&bytes).ok().unwrap();
    assert_eq!(views(&segs), vec![(1000, 2000, "hi".to_string())]);
}

#[test]
fn only_valid_segments_are_kept() {
    assert!(segment_fits(0, 0, "x"));
    assert!(!segment_fits(-1, 0, "x"));
    assert!(!segment_fits(5, 4, "x"));
    assert!(!segment_fits(0, 1, " \n\t"));
    let kept = keep_valid_segments(&[seg(0, 10, "a"), seg(-5, 10, "b"), seg(3, 2, "c"), seg(4, 9, " "), seg(7, 7, "d")]);
    assert_eq!(views(&kept), vec![(0, 10, "a".to_string()), (7, 7, "d".to_string())]);
}

#[test]
fn decimal_strings() {
    assert_eq!(decimal_string(0), "0");
    assert_eq!(decimal_string(1200), "1200");
    assert_eq!(decimal_string(u64::MAX), u64::MAX.to_string());
}
