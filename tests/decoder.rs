use engram::decoder_args::{audio_args, preview_args, thumbnail_args};

#[test]
fn audio_extraction_arguments() {
    assert_eq!(
        audio_args("/m/b.mkv"),
        vec!["-i", "/m/b.mkv", "-ar", "16000", "-ac", "1", "-f", "f32le", "-"]
    );
}

#[test]
fn thumbnail_arguments() {
    let args = thumbnail_args("/m/a.mp4", 42, "/tmp/t.jpg");
    assert_eq!(
        args,
        vec![
            "-hide_banner", "-loglevel", "error", "-ss", "42", "-noaccurate_seek", "-probesize", "32k",
            "-analyzeduration", "0", "-i", "/m/a.mp4", "-an", "-sn", "-dn", "-vf",
            "scale=iw/6:ih/6:flags=fast_bilinear", "-y", "/tmp/t.jpg",
        ]
    );
}

#[test]
fn preview_arguments() {
    let args = preview_args("/m/a.mp4", 3, 5, 12, "/tmp/p.webp");
    assert_eq!(args[4], "3");
    assert_eq!(args[6], "5");
    assert_eq!(args[18], "fps=12,scale=iw/6:ih/6:flags=fast_bilinear");
    assert_eq!(args.len(), 23);
    assert_eq!(args[22], "/tmp/p.webp");
}
