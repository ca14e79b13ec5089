use engram::catalog::{Catalog, IndexedFile};
use engram::errors::EngramError;
use engram::subtitles::Segment;

fn rec(path: &str, m: i64, z: i64, subs: bool) -> IndexedFile {
    IndexedFile {
        path: path.to_string(),
        modified_at: m,
        file_size: z,
        has_subtitles: subs,
        transcription_model: if subs { None } else { Some("1".to_string()) },
    }
}

fn seg(start: i64, end: i64, text: &str) -> Segment {
    Segment { start, end, text: text.to_string() }
}

#[test]
fn upsert_then_get() {
    let mut c = Catalog::new();
    assert!(c.get_file("/m/a.mp4").is_none());
    c.upsert_file(&rec("/m/a.mp4", 10, 100, true));
    let got = c.get_file("/m/a.mp4").unwrap();
    assert_eq!((got.modified_at, got.file_size, got.has_subtitles), (10, 100, true));
    assert!(got.transcription_model.is_none());
    c.upsert_file(&rec("/m/a.mp4", 11, 120, false));
    let got = c.get_file("/m/a.mp4").unwrap();
    assert_eq!((got.modified_at, got.file_size), (11, 120));
    assert_eq!(got.transcription_model.as_deref(), Some("1"));
    assert_eq!(c.all_paths(), vec!["/m/a.mp4".to_string()]);
}

#[test]
fn up_to_date_needs_both_stats() {
    let mut c = Catalog::new();
    c.upsert_file(&rec("/m/a.mp4", 10, 100, true));
    assert!(c.is_upto_date("/m/a.mp4", 10, 100));
    assert!(!c.is_upto_date("/m/a.mp4", 11, 100));
    assert!(!c.is_upto_date("/m/a.mp4", 10, 101));
    assert!(!c.is_upto_date("/m/b.mp4", 10, 100));
}

#[test]
fn segments_need_a_record() {
    let mut c = Catalog::new();
    match c.store_segments("/m/a.mp4", &[seg(0, 1, "x")]) {
        Err(EngramError::IoError(_)) => {}
        _ => panic!("stored segments without a record"),
    }
    assert!(c.load_segments("/m/a.mp4").is_none());
}

#[test]
fn load_orders_by_start_and_replaces() {
    let mut c = Catalog::new();
    c.upsert_file(&rec("/m/a.mp4", 1, 1, true));
    c.upsert_file(&rec("/m/b.mp4", 1, 1, true));
    assert!(c.store_segments("/m/a.mp4", &[seg(3000, 4000, "c"), seg(1000, 2000, "a"), seg(1000, 1500, "b")]).is_ok());
    assert!(c.store_segments("/m/b.mp4", &[seg(0, 1, "other")]).is_ok());
    let got: Vec<(i64, String)> =
        c.load_segments("/m/a.mp4").unwrap().iter().map(|s| (s.start, s.text.clone())).collect();
    assert_eq!(got, vec![(1000, "a".to_string()), (1000, "b".to_string()), (3000, "c".to_string())]);
    assert!(c.store_segments("/m/a.mp4", &[seg(5, 6, "only")]).is_ok());
    assert_eq!(c.load_segments("/m/a.mp4").unwrap().len(), 1);
    assert_eq!(c.load_segments("/m/b.mp4").unwrap().len(), 1);
}

#[test]
fn remove_cascades_to_transcript() {
    let mut c = Catalog::new();
    c.upsert_file(&rec("/m/a.mp4", 1, 1, true));
    assert!(c.store_segments("/m/a.mp4", &[seg(0, 1, "x")]).is_ok());
    c.remove_file("/m/a.mp4");
    assert!(c.get_file("/m/a.mp4").is_none());
    assert!(c.load_segments("/m/a.mp4").is_none());
    assert!(c.all_paths().is_empty());
}

#[test]
fn prune_removes_missing_files_and_their_rows() {
    let mut c = Catalog::new();
    for p in ["/m/a.mp4", "/m/b.mp4", "/m/c.mp4"] {
        c.upsert_file(&rec(p, 1, 1, true));
        assert!(c.store_segments(p, &[seg(0, 1, p)]).is_ok());
    }
    let paths = c.all_paths();
    let exists: Vec<bool> = paths.iter().map(|p| p != "/m/b.mp4").collect();
    let removed = c.prune_missing(&exists);
    assert_eq!(removed, vec!["/m/b.mp4".to_string()]);
    assert_eq!(c.all_paths(), vec!["/m/a.mp4".to_string(), "/m/c.mp4".to_string()]);
    assert!(c.load_segments("/m/b.mp4").is_none());
    assert!(c.load_segments("/m/a.mp4").is_some());
}
