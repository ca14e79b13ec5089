use engram::index::MediaFile;
use engram::indexer::{
    after_attempt, first_step, record_for, AcquireDecision, AcquireStep, FileStat, Indexer,
    SearchOp, TranscriptSource,
};
use engram::catalog::Catalog;
use engram::errors::EngramError;
use engram::search::segment_docs;
use engram::subtitles::{parse_srt_content, Segment};

fn stat(path: &str, m: i64, z: i64) -> FileStat {
    FileStat { path: path.to_string(), modified_at: m, file_size: z }
}

fn file(path: &str, sidecar: Option<&str>) -> MediaFile {
    MediaFile { media: path.to_string(), subtitles: sidecar.map(|s| s.to_string()) }
}

fn is_use(d: &AcquireDecision, want: &str) -> bool {
    matches!((d, want),
        (AcquireDecision::Use(TranscriptSource::Sidecar), "sidecar")
        | (AcquireDecision::Use(TranscriptSource::Embedded), "embedded")
        | (AcquireDecision::Use(TranscriptSource::Speech), "speech"))
}

fn index_with_sidecar(ix: &mut Indexer, st: &FileStat, srt: &str) -> Vec<Segment> {
    let f = file(&st.path, Some("/m/a.srt"));
    assert!(matches!(first_step(&f), AcquireStep::ParseSidecar));
    let segs = parse_srt_content(srt);
    let outcome: Result<Vec<Segment>, EngramError> = Ok(segs);
    assert!(is_use(&after_attempt(&AcquireStep::ParseSidecar, &outcome), "sidecar"));
    let segs = outcome.ok().unwrap();
    let copy: Vec<Segment> = segs.iter().map(|s| s.copy()).collect();
    match ix.record(f, st.modified_at, st.file_size, segs, &TranscriptSource::Sidecar, "1") {
        SearchOp::Update(m, s) => {
            assert_eq!(m.media, st.path);
            assert_eq!(s.len(), copy.len());
        }
        SearchOp::Remove(_) => panic!("expected an update"),
    }
    copy
}

const ONE_CUE: &str = "1\n00:00:01,000 --> 00:00:02,500\nhello world\n";
const TWO_CUES: &str = "1\n00:00:01,000 --> 00:00:02,500\nhello world\n\n2\n00:00:03,000 --> 00:00:04,000\ngoodbye\n";

#[test]
fn fresh_index_of_a_file_with_sidecar() {
    let mut ix = Indexer::new(Catalog::new());
    let st = stat("/m/a.mp4", 100, 2000);
    assert!(ix.needs_indexing(&st));
    let segs = index_with_sidecar(&mut ix, &st, ONE_CUE);
    let r = ix.catalog.get_file("/m/a.mp4").unwrap();
    assert!(r.has_subtitles);
    assert!(r.transcription_model.is_none());
    let docs = segment_docs("/m/a.mp4", &segs).ok().unwrap();
    assert_eq!(docs.len(), 1);
    assert_eq!((docs[0].start_ms, docs[0].end_ms, docs[0].text.as_str()), (1000, 2500, "hello world"));
    assert_eq!((ix.upserts, ix.search_writes), (1, 1));
}

#[test]
fn second_pass_is_idle() {
    let mut ix = Indexer::new(Catalog::new());
    let st = stat("/m/a.mp4", 100, 2000);
    index_with_sidecar(&mut ix, &st, ONE_CUE);
    let before = (ix.upserts, ix.search_writes);
    assert!(!ix.needs_indexing(&st));
    let exists = vec![true; ix.catalog.all_paths().len()];
    assert!(ix.prune(&exists).is_empty());
    assert_eq!((ix.upserts, ix.search_writes), before);
    assert_eq!(ix.catalog.load_segments("/m/a.mp4").unwrap().len(), 1);
}

#[test]
fn modified_file_is_reindexed_once() {
    let mut ix = Indexer::new(Catalog::new());
    index_with_sidecar(&mut ix, &stat("/m/a.mp4", 100, 2000), ONE_CUE);
    let st = stat("/m/a.mp4", 200, 2000);
    assert!(ix.needs_indexing(&st));
    let segs = index_with_sidecar(&mut ix, &st, TWO_CUES);
    assert_eq!(ix.upserts, 2);
    let stored = ix.catalog.load_segments("/m/a.mp4").unwrap();
    let texts: Vec<&str> = stored.iter().map(|s| s.text.as_str()).collect();
    assert_eq!(texts, vec!["hello world", "goodbye"]);
    assert_eq!(segment_docs("/m/a.mp4", &segs).ok().unwrap().len(), 2);
    assert!(!ix.needs_indexing(&st));
}

#[test]
fn deleted_file_is_pruned() {
    let mut ix = Indexer::new(Catalog::new());
    index_with_sidecar(&mut ix, &stat("/m/a.mp4", 100, 2000), TWO_CUES);
    let ops = ix.prune(&[false]);
    assert_eq!(ops.len(), 1);
    assert!(matches!(&ops[0], SearchOp::Remove(p) if p == "/m/a.mp4"));
    assert!(ix.catalog.all_paths().is_empty());
    assert!(ix.catalog.load_segments("/m/a.mp4").is_none());
}

#[test]
fn fallback_chain_reaches_speech() {
    let f = file("/m/b.mkv", None);
    assert!(matches!(first_step(&f), AcquireStep::ExtractEmbedded));
    let none: Result<Vec<Segment>, EngramError> = Ok(Vec::new());
    assert!(matches!(after_attempt(&AcquireStep::ExtractEmbedded, &none), AcquireDecision::Try(AcquireStep::Transcribe)));
    let failed: Result<Vec<Segment>, EngramError> = Err(EngramError::MediaError("no stream".to_string()));
    assert!(matches!(after_attempt(&AcquireStep::ParseSidecar, &failed), AcquireDecision::Try(AcquireStep::ExtractEmbedded)));
    assert!(matches!(after_attempt(&AcquireStep::Transcribe, &failed), AcquireDecision::Fail));
    let heard: Result<Vec<Segment>, EngramError> =
        Ok(vec![Segment { start: 0, end: 900, text: "spoken words".to_string() }]);
    assert!(is_use(&after_attempt(&AcquireStep::Transcribe, &heard), "speech"));
    let embedded: Result<Vec<Segment>, EngramError> =
        Ok(vec![Segment { start: 0, end: 900, text: "subtitle".to_string() }]);
    assert!(is_use(&after_attempt(&AcquireStep::ExtractEmbedded, &embedded), "embedded"));

    let mut ix = Indexer::new(Catalog::new());
    ix.record(f, 5, 6, heard.ok().unwrap(), &TranscriptSource::Speech, "1");
    let r = ix.catalog.get_file("/m/b.mkv").unwrap();
    assert!(!r.has_subtitles);
    assert_eq!(r.transcription_model.as_deref(), Some("1"));
    assert_eq!(ix.catalog.load_segments("/m/b.mkv").unwrap().len(), 1);
}

#[test]
fn record_names_model_only_for_speech() {
    let a = record_for("/m/a.mp4", 1, 2, &TranscriptSource::Embedded, "3");
    assert!(a.has_subtitles && a.transcription_model.is_none());
    let b = record_for("/m/a.mp4", 1, 2, &TranscriptSource::Speech, "3");
    assert!(!b.has_subtitles);
    assert_eq!(b.transcription_model.as_deref(), Some("3"));
}

#[test]
fn prune_reports_one_removal_per_missing_file_and_counts_writes() {
    let mut ix = Indexer::new(Catalog::new());
    for (p, m) in [("/m/a.mp4", 1), ("/m/b.mp4", 2), ("/m/c.mp4", 3)] {
        let segs = vec![Segment { start: 0, end: 1, text: "x".to_string() }];
        ix.record(file(p, None), m, 10, segs, &TranscriptSource::Embedded, "1");
    }
    assert_eq!((ix.upserts, ix.search_writes), (3, 3));
    let paths = ix.catalog.all_paths();
    let exists: Vec<bool> = paths.iter().map(|p| p != "/m/a.mp4" && p != "/m/c.mp4").collect();
    let ops = ix.prune(&exists);
    let removed: Vec<String> = ops
        .iter()
        .map(|op| match op {
            SearchOp::Remove(p) => p.clone(),
            SearchOp::Update(..) => panic!("prune only removes"),
        })
        .collect();
    assert_eq!(removed, vec!["/m/a.mp4".to_string(), "/m/c.mp4".to_string()]);
    assert_eq!(ix.catalog.all_paths(), vec!["/m/b.mp4".to_string()]);
    assert_eq!((ix.upserts, ix.search_writes), (3, 5));
}
