use engram::errors::EngramError;
use engram::search::{format_query, hits_from_fields, segment_docs, StoredFields};
use engram::subtitles::Segment;

#[test]
fn quoted_query_passes_through() {
    assert_eq!(format_query("\"bar baz\""), "\"bar baz\"");
}

#[test]
fn plain_query_becomes_a_phrase() {
    assert_eq!(format_query("bar baz"), "\"bar baz\"");
    assert_eq!(format_query(""), "\"\"");
}

#[test]
fn inner_quotes_are_escaped() {
    assert_eq!(format_query("say \"hi\" now"), "\"say \\\"hi\\\" now\"");
    assert_eq!(format_query("\"open"), "\"\\\"open\"");
}

#[test]
fn docs_number_segments_in_order() {
    let segs = vec![
        Segment { start: 0, end: 10, text: "one".to_string() },
        Segment { start: 20, end: 30, text: "two".to_string() },
    ];
    let docs = segment_docs("/m/a.mp4", &segs).ok().unwrap();
    let got: Vec<(String, u64, u64, String, u64)> = docs
        .iter()
        .map(|d| (d.path.clone(), d.start_ms, d.end_ms, d.text.clone(), d.segment_id))
        .collect();
    assert_eq!(
        got,
        vec![
            ("/m/a.mp4".to_string(), 0, 10, "one".to_string(), 0),
            ("/m/a.mp4".to_string(), 20, 30, "two".to_string(), 1),
        ]
    );
}

#[test]
fn a_file_without_segments_is_refused() {
    assert!(matches!(segment_docs("/m/a.mp4", &[]), Err(EngramError::SubtitleParseError(_))));
}

fn full(p: &str, t: &str, s: u64, e: u64) -> StoredFields {
    StoredFields { path: Some(p.to_string()), text: Some(t.to_string()), start_ms: Some(s), end_ms: Some(e) }
}

#[test]
fn hits_keep_engine_order() {
    let hits = hits_from_fields(vec![full("/m/b.mkv", "foo bar", 5, 9), full("/m/a.mp4", "a foo bar", 1, 2)])
        .ok()
        .unwrap();
    let got: Vec<(String, u64, u64, String)> =
        hits.iter().map(|h| (h.file.clone(), h.start, h.end, h.text.clone())).collect();
    assert_eq!(
        got,
        vec![
            ("/m/b.mkv".to_string(), 5, 9, "foo bar".to_string()),
            ("/m/a.mp4".to_string(), 1, 2, "a foo bar".to_string()),
        ]
    );
}

#[test]
fn missing_stored_field_is_a_search_error() {
    let mut broken = full("/m/a.mp4", "x", 1, 2);
    broken.end_ms = None;
    assert!(matches!(hits_from_fields(vec![full("/m/b.mkv", "y", 0, 1), broken]), Err(EngramError::SearchError(_))));
}
