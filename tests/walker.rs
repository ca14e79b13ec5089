use engram::index::{is_media_path, long_enough, sidecar_path};

fn exts() -> Vec<String> {
    vec!["mp4".to_string(), "mkv".to_string(), "mov".to_string(), "webm".to_string()]
}

#[test]
fn media_extensions_compare_lowercased() {
    assert!(is_media_path("/m/a.mp4", &exts()));
    assert!(is_media_path("/m/Holiday.MKV", &exts()));
    assert!(!is_media_path("/m/a.srt", &exts()));
    assert!(!is_media_path("/m/noext", &exts()));
    assert!(!is_media_path("/m/.mp4", &exts()));
    assert!(!is_media_path("/m.mp4/file", &exts()));
}

#[test]
fn sidecar_replaces_the_extension() {
    assert_eq!(sidecar_path("/m/a.mp4"), "/m/a.srt");
    assert_eq!(sidecar_path("/m/show.s01e02.mkv"), "/m/show.s01e02.srt");
    assert_eq!(sidecar_path("/m/noext"), "/m/noext.srt");
    assert_eq!(sidecar_path("/m.d/noext"), "/m.d/noext.srt");
}

#[test]
fn duration_threshold() {
    assert!(long_enough("30.000000\n", 10));
    assert!(long_enough("10", 10));
    assert!(long_enough("10.", 10));
    assert!(!long_enough("9.999", 10));
    assert!(!long_enough("N/A", 10));
    assert!(!long_enough("", 10));
    assert!(long_enough("123456789012345678901234567890.5", 10));
}
