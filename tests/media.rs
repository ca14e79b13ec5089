use engram::media::{
    ass_dialogue, scaled_size, subtitle_segments, ticks_to_ms, FrameChoice, PreviewSampler,
    SubtitlePacket, SubtitleRect,
};

#[test]
fn ticks_convert_with_time_base() {
    assert_eq!(ticks_to_ms(90_000, 1, 90_000), 1000);
    assert_eq!(ticks_to_ms(1500, 1, 1000), 1500);
    assert_eq!(ticks_to_ms(-1500, 1, 1000), -1500);
    assert_eq!(ticks_to_ms(7, 1, 3), 2333);
    assert_eq!(ticks_to_ms(-7, 1, 3), -2333);
}

#[test]
fn tick_products_saturate() {
    assert_eq!(ticks_to_ms(i64::MAX, 1, 1), i64::MAX);
    assert_eq!(ticks_to_ms(i64::MAX / 2, 1000, 1000), i64::MAX / 1000);
}

#[test]
fn ass_dialogue_is_the_tenth_field() {
    assert_eq!(
        ass_dialogue("a,b,c,d,e,f,g,h,i,  Hello, there  ").as_deref(),
        Some("Hello, there")
    );
    assert_eq!(ass_dialogue("Dialogue: 0,0:00:01.00,0:00:02.00,Default,,0,0,0,,Hi").as_deref(), Some("Hi"));
    assert_eq!(ass_dialogue("too,few,fields"), None);
}

#[test]
fn packets_become_segments() {
    let packets = vec![
        SubtitlePacket {
            pts: Some(1000),
            duration: 500,
            rects: vec![
                SubtitleRect::Text("plain".to_string()),
                SubtitleRect::Bitmap,
                SubtitleRect::Ass("Dialogue: 0,0:00:01.00,0:00:02.00,Default,,0,0,0,,styled".to_string()),
                SubtitleRect::Text(String::new()),
            ],
        },
        SubtitlePacket { pts: None, duration: 250, rects: vec![SubtitleRect::Text("no pts".to_string())] },
    ];
    let segs = subtitle_segments(&packets, 1, 1000);
    let got: Vec<(i64, i64, String)> = segs.iter().map(|s| (s.start, s.end, s.text.clone())).collect();
    assert_eq!(
        got,
        vec![
            (1000, 1500, "plain".to_string()),
            (1000, 1500, "styled".to_string()),
            (0, 250, "no pts".to_string()),
        ]
    );
}

#[test]
fn thumbnail_size_shrinks_but_keeps_a_pixel() {
    assert_eq!(scaled_size(1920, 1080, 6), (320, 180));
    assert_eq!(scaled_size(5, 3, 6), (1, 1));
    assert_eq!(scaled_size(12, 7, 1), (12, 7));
}

#[test]
fn preview_keeps_a_frame_every_twelfth_second() {
    // Time base of 1/1200 s: a twelfth of a second is 100 ticks.
    let mut s = PreviewSampler::new(1, 2, 1, 1200);
    let mut kept = Vec::new();
    for ts in (1150..2500).step_by(50) {
        match s.next_frame(Some(ts)) {
            FrameChoice::Keep => kept.push(ts),
            FrameChoice::Skip => {}
            FrameChoice::Stop => break,
        }
    }
    let want: Vec<i64> = (0..12).map(|k| 1200 + 100 * k).collect();
    assert_eq!(kept, want);
}

#[test]
fn preview_without_timestamps_uses_a_virtual_clock() {
    let mut s = PreviewSampler::new(3, 4, 1, 1000);
    let mut n = 0;
    while let FrameChoice::Keep = s.next_frame(None) {
        n += 1;
        assert!(n <= 12);
    }
    assert_eq!(n, 12);
}

#[test]
fn segments_with_bad_times_or_blank_text_are_dropped() {
    let packets = vec![
        SubtitlePacket { pts: Some(-1), duration: 1, rects: vec![SubtitleRect::Text("before zero".to_string())] },
        SubtitlePacket { pts: Some(5), duration: -3, rects: vec![SubtitleRect::Text("ends early".to_string())] },
        SubtitlePacket { pts: Some(2), duration: 1, rects: vec![SubtitleRect::Text("   ".to_string())] },
        SubtitlePacket { pts: Some(2), duration: 1, rects: vec![SubtitleRect::Text("kept".to_string())] },
    ];
    let segs = subtitle_segments(&packets, 1, 1);
    let got: Vec<(i64, i64, String)> = segs.iter().map(|s| (s.start, s.end, s.text.clone())).collect();
    assert_eq!(got, vec![(2000, 3000, "kept".to_string())]);
    let flipped = subtitle_segments(&packets[3..], -1, 1);
    assert!(flipped.is_empty());
}
