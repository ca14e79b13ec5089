//! The argument lists handed to the external decoder binary.
use vstd::prelude::*;
use crate::catalog::string_views;
use crate::subtitles::{chars_of, decimal, decimal_string, push_all, string_of};

verus! {

/// Decoding a file's audio to 16 kHz mono little-endian f32 samples on
/// standard output.
pub open spec fn audio_args_of(input: Seq<char>) -> Seq<Seq<char>> {
    seq!["-i"@, input, "-ar"@, "16000"@, "-ac"@, "1"@, "-f"@, "f32le"@, "-"@]
}

pub fn audio_args(input: &str) -> (r: Vec<String>)
    ensures
        string_views(r@) == audio_args_of(input@),
{
    let r = vec![
        "-i".to_owned(),
        input.to_owned(),
        "-ar".to_owned(),
        "16000".to_owned(),
        "-ac".to_owned(),
        "1".to_owned(),
        "-f".to_owned(),
        "f32le".to_owned(),
        "-".to_owned(),
    ];
    proof {
        assert(string_views(r@) =~= audio_args_of(input@));
    }
    r
}

/// One frame at `ts` seconds, found by an inexact seek on a small probe,
/// scaled to a sixth of each side with fast bilinear filtering.
pub open spec fn thumbnail_args_of(input: Seq<char>, ts: nat, output: Seq<char>) -> Seq<Seq<char>> {
    seq![
        "-hide_banner"@,
        "-loglevel"@,
        "error"@,
        "-ss"@,
        decimal(ts),
        "-noaccurate_seek"@,
        "-probesize"@,
        "32k"@,
        "-analyzeduration"@,
        "0"@,
        "-i"@,
        input,
        "-an"@,
        "-sn"@,
        "-dn"@,
        "-vf"@,
        "scale=iw/6:ih/6:flags=fast_bilinear"@,
        "-y"@,
        output,
    ]
}

pub fn thumbnail_args(input: &str, ts: u64, output: &str) -> (r: Vec<String>)
    ensures
        string_views(r@) == thumbnail_args_of(input@, ts as nat, output@),
{
    let r = vec![
        "-hide_banner".to_owned(),
        "-loglevel".to_owned(),
        "error".to_owned(),
        "-ss".to_owned(),
        decimal_string(ts),
        "-noaccurate_seek".to_owned(),
        "-probesize".to_owned(),
        "32k".to_owned(),
        "-analyzeduration".to_owned(),
        "0".to_owned(),
        "-i".to_owned(),
        input.to_owned(),
        "-an".to_owned(),
        "-sn".to_owned(),
        "-dn".to_owned(),
        "-vf".to_owned(),
        "scale=iw/6:ih/6:flags=fast_bilinear".to_owned(),
        "-y".to_owned(),
        output.to_owned(),
    ];
    proof {
        assert(string_views(r@) =~= thumbnail_args_of(input@, ts as nat, output@));
    }
    r
}

/// The filter of a preview: `fps` frames a second, scaled as a thumbnail.
pub open spec fn preview_filter_of(fps: nat) -> Seq<char> {
    "fps="@ + decimal(fps) + ",scale=iw/6:ih/6:flags=fast_bilinear"@
}

/// The frames from `start` to `end` seconds at `fps` frames a second,
/// scaled as a thumbnail, written as a looping animation.
pub open spec fn preview_args_of(input: Seq<char>, start: nat, end: nat, fps: nat, output: Seq<char>) -> Seq<
    Seq<char>,
> {
    seq![
        "-hide_banner"@,
        "-loglevel"@,
        "error"@,
        "-ss"@,
        decimal(start),
        "-to"@,
        decimal(end),
        "-noaccurate_seek"@,
        "-probesize"@,
        "32k"@,
        "-analyzeduration"@,
        "0"@,
        "-i"@,
        input,
        "-an"@,
        "-sn"@,
        "-dn"@,
        "-vf"@,
        preview_filter_of(fps),
        "-loop"@,
        "0"@,
        "-y"@,
        output,
    ]
}

pub fn preview_args(input: &str, start: u64, end: u64, fps: u32, output: &str) -> (r: Vec<String>)
    ensures
        string_views(r@) == preview_args_of(input@, start as nat, end as nat, fps as nat, output@),
{
    let head = "fps=".to_owned();
    let mut f = chars_of(head.as_str());
    let n = decimal_string(fps as u64);
    let nc = chars_of(n.as_str());
    push_all(&mut f, nc.as_slice());
    let tail = ",scale=iw/6:ih/6:flags=fast_bilinear".to_owned();
    let tc = chars_of(tail.as_str());
    push_all(&mut f, tc.as_slice());
    let filter = string_of(&f);
    let r = vec![
        "-hide_banner".to_owned(),
        "-loglevel".to_owned(),
        "error".to_owned(),
        "-ss".to_owned(),
        decimal_string(start),
        "-to".to_owned(),
        decimal_string(end),
        "-noaccurate_seek".to_owned(),
        "-probesize".to_owned(),
        "32k".to_owned(),
        "-analyzeduration".to_owned(),
        "0".to_owned(),
        "-i".to_owned(),
        input.to_owned(),
        "-an".to_owned(),
        "-sn".to_owned(),
        "-dn".to_owned(),
        "-vf".to_owned(),
        filter,
        "-loop".to_owned(),
        "0".to_owned(),
        "-y".to_owned(),
        output.to_owned(),
    ];
    proof {
        assert(f@ =~= preview_filter_of(fps as nat));
        assert(string_views(r@) =~= preview_args_of(input@, start as nat, end as nat, fps as nat, output@));
    }
    r
}

} // verus!
