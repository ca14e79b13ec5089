//! The segment model and the SRT subtitle codec.
use vstd::prelude::*;
use vstd::utf8::{decode_utf8, encode_utf8, valid_utf8};
use crate::errors::EngramError;
use crate::text::{
    i64_value, join_from, join_with, parse_i64, split_on, split_pat, trim, trimmed,
    views,
};

verus! {

/// A span of a media file, in milliseconds, with the words spoken in it.
#[derive(Debug, Clone)]
pub struct Segment {
    pub start: i64,
    pub end: i64,
    pub text: String,
}

impl View for Segment {
    type V = (i64, i64, Seq<char>);

    open spec fn view(&self) -> (i64, i64, Seq<char>) {
        (self.start, self.end, self.text@)
    }
}

impl Segment {
    pub fn copy(&self) -> (r: Segment)
        ensures
            r@ == self@,
    {
        Segment { start: self.start, end: self.end, text: self.text.clone() }
    }
}

/// The views of a sequence of segments.
pub open spec fn seg_views(s: Seq<Segment>) -> Seq<(i64, i64, Seq<char>)> {
    s.map_values(|x: Segment| x@)
}

/// A segment as the data model allows it: it starts at or after zero, ends
/// at or after its start, and holds some text besides white space.
pub open spec fn segment_ok(v: (i64, i64, Seq<char>)) -> bool {
    0 <= v.0 <= v.1 && trim(v.2).len() > 0
}

/// Whether a segment with these times and text is one the data model allows.
pub fn segment_fits(start: i64, end: i64, text: &str) -> (r: bool)
    ensures
        r == segment_ok((start, end, text@)),
{
    let cs = chars_of(text);
    let t = trimmed(cs.as_slice());
    0 <= start && start <= end && t.len() > 0
}

/// The segments that the data model allows, in order.
pub open spec fn valid_segments(s: Seq<(i64, i64, Seq<char>)>) -> Seq<(i64, i64, Seq<char>)>
    decreases s.len(),
{
    if s.len() == 0 {
        s
    } else if segment_ok(s.last()) {
        valid_segments(s.drop_last()).push(s.last())
    } else {
        valid_segments(s.drop_last())
    }
}

/// Keeps the segments that the data model allows: those that start at or
/// after zero, end at or after their start, and hold text besides white
/// space.
pub fn keep_valid_segments(segs: &[Segment]) -> (r: Vec<Segment>)
    ensures
        seg_views(r@) == valid_segments(seg_views(segs@)),
        forall|i: int| 0 <= i < r@.len() ==> segment_ok(#[trigger] r@[i]@),
{
    let ghost sv = seg_views(segs@);
    let mut out: Vec<Segment> = Vec::new();
    let mut i: usize = 0;
    proof {
        assert(sv.take(0) =~= Seq::<(i64, i64, Seq<char>)>::empty());
        assert(seg_views(out@) =~= Seq::<(i64, i64, Seq<char>)>::empty());
    }
    while i < segs.len()
        invariant
            i <= segs@.len(),
            sv == seg_views(segs@),
            seg_views(out@) == valid_segments(sv.take(i as int)),
            forall|k: int| 0 <= k < out@.len() ==> segment_ok(#[trigger] out@[k]@),
        decreases segs@.len() - i,
    {
        proof {
            assert(sv.take(i + 1).drop_last() =~= sv.take(i as int));
            assert(sv.take(i + 1).last() == segs@[i as int]@);
        }
        let seg = &segs[i];
        if segment_fits(seg.start, seg.end, seg.text.as_str()) {
            let ghost o0 = out@;
            out.push(seg.copy());
            proof {
                assert(seg_views(out@) =~= seg_views(o0).push(out@.last()@));
                assert forall|k: int| 0 <= k < out@.len() implies segment_ok(#[trigger] out@[k]@) by {
                    if k < o0.len() {
                        assert(out@[k] == o0[k]);
                    }
                }
            }
        }
        i = i + 1;
    }
    proof {
        assert(sv.take(segs@.len() as int) =~= sv);
    }
    out
}

/// The characters of a string, in order.
pub(crate) fn chars_of(s: &str) -> (r: Vec<char>)
    ensures
        r@ == s@,
{
    broadcast use vstd::string::axiom_spec_iter;

    let mut out: Vec<char> = Vec::new();
    for c in iter: s.chars()
        invariant
            out@.len() == iter.index(),
            forall|i: int| 0 <= i < out@.len() ==> out@[i] == iter.seq()[i],
            iter.seq() == s@,
    {
        out.push(c);
    }
    proof {
        assert(out@ =~= s@);
    }
    out
}

/// Relies on `String: FromIterator<char>`: the string of these characters.
#[verifier::external_body]
pub(crate) fn string_of(cs: &Vec<char>) -> (r: String)
    ensures
        r@ == cs@,
{
    cs.iter().collect()
}

pub open spec fn in_i64(x: int) -> bool {
    i64::MIN <= x <= i64::MAX
}

/// `h:m:s,ms` in milliseconds, when each step of the sum fits in an `i64`.
pub open spec fn combine_ms(h: i64, m: i64, s: i64, ms: i64) -> Option<i64> {
    let a = h * 3_600_000;
    let b = m * 60_000;
    let c = s * 1000;
    if in_i64(a) && in_i64(b) && in_i64(c) && in_i64(a + b) && in_i64(a + b + c) && in_i64(
        a + b + c + ms,
    ) {
        Some((a + b + c + ms) as i64)
    } else {
        None
    }
}

/// The value of an SRT timestamp `HH:MM:SS,mmm`: three fields on `:`, the
/// last one two fields on `,`, each a decimal integer once trimmed.
pub open spec fn timestamp_value(ts: Seq<char>) -> Option<i64> {
    let parts = split_pat(ts, seq![':']);
    if parts.len() != 3 {
        None
    } else {
        let sec = split_pat(parts[2], seq![',']);
        if sec.len() != 2 {
            None
        } else {
            match (
                i64_value(trim(parts[0])),
                i64_value(trim(parts[1])),
                i64_value(trim(sec[0])),
                i64_value(trim(sec[1])),
            ) {
                (Some(h), Some(m), Some(s), Some(ms)) => combine_ms(h, m, s, ms),
                _ => None,
            }
        }
    }
}

fn combine(h: i64, m: i64, s: i64, ms: i64) -> (r: Option<i64>)
    ensures
        r == combine_ms(h, m, s, ms),
{
    let lo: i128 = -0x8000_0000_0000_0000;
    let hi: i128 = 0x7fff_ffff_ffff_ffff;
    let a = (h as i128) * 3_600_000;
    let b = (m as i128) * 60_000;
    let c = (s as i128) * 1000;
    if a < lo || a > hi || b < lo || b > hi || c < lo || c > hi {
        return None;
    }
    if a + b < lo || a + b > hi || a + b + c < lo || a + b + c > hi {
        return None;
    }
    let v = a + b + c + (ms as i128);
    if v < lo || v > hi {
        return None;
    }
    Some(v as i64)
}

fn field_value(f: &Vec<char>) -> (r: Option<i64>)
    ensures
        r == i64_value(trim(f@)),
{
    let t = trimmed(f.as_slice());
    parse_i64(t.as_slice())
}

/// Reads an SRT timestamp given as characters.
pub fn timestamp_of(ts: &[char]) -> (r: Option<i64>)
    ensures
        r == timestamp_value(ts@),
{
    let colon = vec![':'];
    let parts = split_on(ts, colon.as_slice());
    proof {
        assert(colon@ =~= seq![':']);
    }
    if parts.len() != 3 {
        return None;
    }
    let comma = vec![','];
    let sec = split_on(parts[2].as_slice(), comma.as_slice());
    proof {
        assert(comma@ =~= seq![',']);
        assert(views(parts@)[2] == parts@[2]@);
    }
    if sec.len() != 2 {
        return None;
    }
    proof {
        assert(views(parts@)[0] == parts@[0]@);
        assert(views(parts@)[1] == parts@[1]@);
        assert(views(sec@)[0] == sec@[0]@);
        assert(views(sec@)[1] == sec@[1]@);
    }
    let h = field_value(&parts[0]);
    let m = field_value(&parts[1]);
    let s = field_value(&sec[0]);
    let ms = field_value(&sec[1]);
    match (h, m, s, ms) {
        (Some(h), Some(m), Some(s), Some(ms)) => combine(h, m, s, ms),
        _ => None,
    }
}

/// Reads an SRT timestamp `HH:MM:SS,mmm` into milliseconds.
pub fn parse_timestamp(ts: &str) -> (r: Result<i64, EngramError>)
    ensures
        r is Ok <==> timestamp_value(ts@) is Some,
        r is Ok ==> r->Ok_0 == timestamp_value(ts@)->0,
        r is Err ==> r->Err_0 is SubtitleParseError,
{
    let cs = chars_of(ts);
    match timestamp_of(cs.as_slice()) {
        Some(v) => Ok(v),
        None => Err(EngramError::SubtitleParseError("invalid timestamp".to_owned())),
    }
}

/// `\r\n` and then every remaining `\r` turned into `\n`.
pub open spec fn normalize_newlines(s: Seq<char>) -> Seq<char>
    decreases s.len(),
{
    if s.len() == 0 {
        s
    } else if s[0] == '\r' && s.len() >= 2 && s[1] == '\n' {
        seq!['\n'] + normalize_newlines(s.skip(2))
    } else if s[0] == '\r' {
        seq!['\n'] + normalize_newlines(s.skip(1))
    } else {
        seq![s[0]] + normalize_newlines(s.skip(1))
    }
}

fn normalized(s: &[char]) -> (r: Vec<char>)
    ensures
        r@ == normalize_newlines(s@),
{
    let mut out: Vec<char> = Vec::new();
    let mut i: usize = 0;
    proof {
        assert(s@.skip(0) =~= s@);
    }
    while i < s.len()
        invariant
            i <= s@.len(),
            out@ + normalize_newlines(s@.skip(i as int)) == normalize_newlines(s@),
        decreases s@.len() - i,
    {
        let ghost rest = s@.skip(i as int);
        let ghost o0 = out@;
        if s[i] == '\r' && i + 1 < s.len() && s[i + 1] == '\n' {
            out.push('\n');
            proof {
                assert(rest.skip(2) =~= s@.skip(i + 2));
                assert(out@ + normalize_newlines(s@.skip(i + 2)) =~= o0 + normalize_newlines(rest));
            }
            i = i + 2;
        } else {
            if s[i] == '\r' {
                out.push('\n');
            } else {
                out.push(s[i]);
            }
            proof {
                assert(rest.skip(1) =~= s@.skip(i + 1));
                assert(out@ + normalize_newlines(s@.skip(i + 1)) =~= o0 + normalize_newlines(rest));
            }
            i = i + 1;
        }
    }
    proof {
        assert(s@.skip(i as int) =~= Seq::<char>::empty());
        assert(out@ + Seq::<char>::empty() =~= out@);
    }
    out
}

pub open spec fn arrow() -> Seq<char> {
    seq![' ', '-', '-', '>', ' ']
}

/// The segment that one block of an SRT file gives: once trimmed, an index
/// line, a line `start --> end`, and one or more lines of text. A block of
/// any other shape, or whose times or text the data model refuses, gives none.
pub open spec fn block_segment(b: Seq<char>) -> Option<(i64, i64, Seq<char>)> {
    let t = trim(b);
    let lines = split_pat(t, seq!['\n']);
    if t.len() == 0 || lines.len() < 3 {
        None
    } else {
        let parts = split_pat(lines[1], arrow());
        if parts.len() != 2 {
            None
        } else {
            match (timestamp_value(parts[0]), timestamp_value(parts[1])) {
                (Some(st), Some(en)) => {
                    let text = join_with(lines.skip(2), '\n');
                    if segment_ok((st, en, text)) {
                        Some((st, en, text))
                    } else {
                        None
                    }
                },
                _ => None,
            }
        }
    }
}

/// The segments of the blocks that give one, in order.
pub open spec fn blocks_segments(bs: Seq<Seq<char>>) -> Seq<(i64, i64, Seq<char>)>
    decreases bs.len(),
{
    if bs.len() == 0 {
        Seq::empty()
    } else {
        let init = blocks_segments(bs.drop_last());
        match block_segment(bs.last()) {
            Some(x) => init.push(x),
            None => init,
        }
    }
}

/// The segments of an SRT document: line endings normalized, then blocks
/// separated by blank lines.
pub open spec fn srt_segments(content: Seq<char>) -> Seq<(i64, i64, Seq<char>)> {
    blocks_segments(split_pat(normalize_newlines(content), seq!['\n', '\n']))
}

fn block_of(b: &Vec<char>) -> (r: Option<Segment>)
    ensures
        r is Some <==> block_segment(b@) is Some,
        r is Some ==> r->0@ == block_segment(b@)->0,
{
    let t = trimmed(b.as_slice());
    if t.len() == 0 {
        return None;
    }
    let nl = vec!['\n'];
    let lines = split_on(t.as_slice(), nl.as_slice());
    proof {
        assert(nl@ =~= seq!['\n']);
    }
    if lines.len() < 3 {
        return None;
    }
    let arr = vec![' ', '-', '-', '>', ' '];
    let parts = split_on(lines[1].as_slice(), arr.as_slice());
    proof {
        assert(arr@ =~= arrow());
        assert(views(lines@)[1] == lines@[1]@);
    }
    if parts.len() != 2 {
        return None;
    }
    proof {
        assert(views(parts@)[0] == parts@[0]@);
        assert(views(parts@)[1] == parts@[1]@);
    }
    let st = timestamp_of(parts[0].as_slice());
    let en = timestamp_of(parts[1].as_slice());
    match (st, en) {
        (Some(st), Some(en)) => {
            let text = join_from(&lines, 2, '\n');
            let tt = trimmed(text.as_slice());
            if 0 <= st && st <= en && tt.len() > 0 {
                Some(Segment { start: st, end: en, text: string_of(&text) })
            } else {
                None
            }
        },
        _ => None,
    }
}

/// The segments of an SRT document given as characters.
pub fn parse_srt_chars(content: &[char]) -> (r: Vec<Segment>)
    ensures
        seg_views(r@) == srt_segments(content@),
{
    let norm = normalized(content);
    let sep = vec!['\n', '\n'];
    let blocks = split_on(norm.as_slice(), sep.as_slice());
    proof {
        assert(sep@ =~= seq!['\n', '\n']);
    }
    let ghost bs = views(blocks@);
    let mut out: Vec<Segment> = Vec::new();
    let mut i: usize = 0;
    proof {
        assert(bs.take(0) =~= Seq::<Seq<char>>::empty());
        assert(seg_views(out@) =~= Seq::<(i64, i64, Seq<char>)>::empty());
    }
    while i < blocks.len()
        invariant
            i <= blocks@.len(),
            bs == views(blocks@),
            seg_views(out@) == blocks_segments(bs.take(i as int)),
        decreases blocks@.len() - i,
    {
        proof {
            assert(bs.take(i + 1).drop_last() =~= bs.take(i as int));
            assert(bs.take(i + 1).last() == blocks@[i as int]@);
        }
        let ghost o0 = out@;
        match block_of(&blocks[i]) {
            Some(seg) => {
                out.push(seg);
                proof {
                    assert(seg_views(out@) =~= seg_views(o0).push(out@.last()@));
                }
            },
            None => {},
        }
        i = i + 1;
    }
    proof {
        assert(bs.take(blocks@.len() as int) =~= bs);
    }
    out
}

/// The segments of an SRT document.
pub fn parse_srt_content(content: &str) -> (r: Vec<Segment>)
    ensures
        seg_views(r@) == srt_segments(content@),
        forall|i: int| 0 <= i < r@.len() ==> segment_ok(#[trigger] r@[i]@),
{
    let cs = chars_of(content);
    let r = parse_srt_chars(cs.as_slice());
    proof {
        lemma_srt_segments_ok(content@);
        assert forall|i: int| 0 <= i < r@.len() implies segment_ok(#[trigger] r@[i]@) by {
            assert(seg_views(r@)[i] == r@[i]@);
        }
    }
    r
}

proof fn lemma_blocks_segments_ok(bs: Seq<Seq<char>>)
    ensures
        forall|i: int|
            0 <= i < blocks_segments(bs).len() ==> segment_ok(#[trigger] blocks_segments(bs)[i]),
    decreases bs.len(),
{
    if bs.len() > 0 {
        lemma_blocks_segments_ok(bs.drop_last());
        let init = blocks_segments(bs.drop_last());
        match block_segment(bs.last()) {
            Some(x) => {
                assert(segment_ok(x));
                assert forall|i: int| 0 <= i < blocks_segments(bs).len() implies segment_ok(
                    #[trigger] blocks_segments(bs)[i],
                ) by {
                    if i < init.len() {
                        assert(blocks_segments(bs)[i] == init[i]);
                    }
                }
            },
            None => {},
        }
    }
}

/// Every segment that an SRT document gives is one the data model allows.
pub proof fn lemma_srt_segments_ok(content: Seq<char>)
    ensures
        forall|i: int|
            0 <= i < srt_segments(content).len() ==> segment_ok(
                #[trigger] srt_segments(content)[i],
            ),
{
    lemma_blocks_segments_ok(split_pat(normalize_newlines(content), seq!['\n', '\n']));
}

/// The legacy encodings tried, in this order, on a subtitle file that is
/// not UTF-8.
pub enum SubtitleEncoding {
    Windows1252,
    Iso8859_2,
    Utf16Le,
    Utf16Be,
    Windows1251,
    ShiftJis,
    Gbk,
}

pub open spec fn fallback_order() -> Seq<SubtitleEncoding> {
    seq![
        SubtitleEncoding::Windows1252,
        SubtitleEncoding::Iso8859_2,
        SubtitleEncoding::Utf16Le,
        SubtitleEncoding::Utf16Be,
        SubtitleEncoding::Windows1251,
        SubtitleEncoding::ShiftJis,
        SubtitleEncoding::Gbk,
    ]
}

/// What decoding `bytes` as `enc` gives: the text, and whether malformed
/// sequences had to be replaced.
pub uninterp spec fn decoded(enc: SubtitleEncoding, bytes: Seq<u8>) -> (Seq<char>, bool);

/// Relies on `encoding_rs::Encoding::decode` (with its byte-order-mark
/// sniffing): the decoded text and its had-errors flag, which depend on the
/// encoding and the bytes alone.
#[verifier::external_body]
fn decode_as(enc: &SubtitleEncoding, bytes: &[u8]) -> (r: (Vec<char>, bool))
    ensures
        r.0@ == decoded(*enc, bytes@).0,
        r.1 == decoded(*enc, bytes@).1,
{
    let encoding = match enc {
        SubtitleEncoding::Windows1252 => encoding_rs::WINDOWS_1252,
        SubtitleEncoding::Iso8859_2 => encoding_rs::ISO_8859_2,
        SubtitleEncoding::Utf16Le => encoding_rs::UTF_16LE,
        SubtitleEncoding::Utf16Be => encoding_rs::UTF_16BE,
        SubtitleEncoding::Windows1251 => encoding_rs::WINDOWS_1251,
        SubtitleEncoding::ShiftJis => encoding_rs::SHIFT_JIS,
        SubtitleEncoding::Gbk => encoding_rs::GBK,
    };
    let (text, _, had_errors) = encoding.decode(bytes);
    (text.chars().collect(), had_errors)
}

/// Relies on `std::str::from_utf8`: it accepts exactly the well-formed UTF-8
/// byte sequences, and the text it gives encodes back to those bytes.
#[verifier::external_body]
fn utf8_chars(bytes: &[u8]) -> (r: Option<Vec<char>>)
    ensures
        r is Some <==> valid_utf8(bytes@),
        r is Some ==> encode_utf8(r->0@) == bytes@,
{
    std::str::from_utf8(bytes).ok().map(|t| t.chars().collect())
}

/// The first encoding of `encs` that decodes `bytes` cleanly, with its text.
pub open spec fn first_clean(bytes: Seq<u8>, encs: Seq<SubtitleEncoding>) -> Option<Seq<char>>
    decreases encs.len(),
{
    if encs.len() == 0 {
        None
    } else if !decoded(encs[0], bytes).1 {
        Some(decoded(encs[0], bytes).0)
    } else {
        first_clean(bytes, encs.skip(1))
    }
}

/// The text of a subtitle file: its UTF-8 reading when it is UTF-8, else the
/// first legacy encoding that reads it without replacement.
pub open spec fn srt_text(bytes: Seq<u8>) -> Option<Seq<char>> {
    if valid_utf8(bytes) {
        Some(decode_utf8(bytes))
    } else {
        first_clean(bytes, fallback_order())
    }
}

/// Decodes the bytes of a subtitle file into text.
pub fn decode_subtitle_bytes(bytes: &[u8]) -> (r: Result<Vec<char>, EngramError>)
    ensures
        r is Ok <==> srt_text(bytes@) is Some,
        r is Ok ==> r->Ok_0@ == srt_text(bytes@)->0,
        r is Err ==> r->Err_0 is SubtitleParseError,
{
    match utf8_chars(bytes) {
        Some(cs) => {
            proof {
                vstd::utf8::encode_utf8_decode_utf8(cs@);
            }
            return Ok(cs);
        },
        None => {},
    }
    let encs = vec![
        SubtitleEncoding::Windows1252,
        SubtitleEncoding::Iso8859_2,
        SubtitleEncoding::Utf16Le,
        SubtitleEncoding::Utf16Be,
        SubtitleEncoding::Windows1251,
        SubtitleEncoding::ShiftJis,
        SubtitleEncoding::Gbk,
    ];
    proof {
        assert(encs@ =~= fallback_order());
        assert(encs@.skip(0) =~= encs@);
    }
    let mut i: usize = 0;
    while i < encs.len()
        invariant
            i <= encs@.len(),
            !valid_utf8(bytes@),
            first_clean(bytes@, encs@.skip(i as int)) == srt_text(bytes@),
        decreases encs@.len() - i,
    {
        let (text, had_errors) = decode_as(&encs[i], bytes);
        proof {
            assert(encs@.skip(i as int)[0] == encs@[i as int]);
            assert(encs@.skip(i as int).skip(1) =~= encs@.skip(i + 1));
        }
        if !had_errors {
            return Ok(text);
        }
        i = i + 1;
    }
    Err(EngramError::SubtitleParseError("no known encoding reads the subtitle file".to_owned()))
}

/// The segments of a subtitle file, given its bytes.
pub fn parse_srt_bytes(bytes: &[u8]) -> (r: Result<Vec<Segment>, EngramError>)
    ensures
        r is Ok <==> srt_text(bytes@) is Some,
        r is Ok ==> seg_views(r->Ok_0@) == srt_segments(srt_text(bytes@)->0),
        r is Err ==> r->Err_0 is SubtitleParseError,
{
    let text = decode_subtitle_bytes(bytes)?;
    Ok(parse_srt_chars(text.as_slice()))
}

pub open spec fn digit_char(d: int) -> char {
    seq!['0', '1', '2', '3', '4', '5', '6', '7', '8', '9'][d]
}

/// `n` in decimal, without leading zeros.
pub open spec fn decimal(n: nat) -> Seq<char>
    decreases n,
{
    if n < 10 {
        seq![digit_char(n as int)]
    } else {
        decimal(n / 10).push(digit_char((n % 10) as int))
    }
}

/// `n` in decimal, zero-padded on the left to at least `w` characters.
pub open spec fn padded(n: nat, w: nat) -> Seq<char> {
    let d = decimal(n);
    if d.len() >= w {
        d
    } else {
        Seq::new((w - d.len()) as nat, |i: int| '0') + d
    }
}

/// A timestamp written as `HH:MM:SS,mmm`.
pub open spec fn timestamp_text(ms: nat) -> Seq<char> {
    padded(ms / 3_600_000, 2) + seq![':'] + padded((ms % 3_600_000) / 60_000, 2) + seq![':']
        + padded((ms % 60_000) / 1000, 2) + seq![','] + padded(ms % 1000, 3)
}

fn digit_of(d: u64) -> (c: char)
    requires
        d < 10,
    ensures
        c == digit_char(d as int),
{
    let ds = vec!['0', '1', '2', '3', '4', '5', '6', '7', '8', '9'];
    proof {
        assert(ds@ =~= seq!['0', '1', '2', '3', '4', '5', '6', '7', '8', '9']);
    }
    ds[d as usize]
}

fn decimal_len(n: u64) -> (r: usize)
    ensures
        r == decimal(n as nat).len(),
    decreases n,
{
    if n < 10 {
        1
    } else {
        let k = decimal_len(n / 10);
        proof {
            reveal_with_fuel(pow10, 20);
            assert(pow10(19) == 10_000_000_000_000_000_000);
            lemma_decimal_short(n as nat / 10, 19);
        }
        k + 1
    }
}

pub open spec fn pow10(k: nat) -> nat
    decreases k,
{
    if k == 0 {
        1
    } else {
        10 * pow10((k - 1) as nat)
    }
}

proof fn lemma_decimal_short(n: nat, k: nat)
    requires
        1 <= k,
        n < pow10(k),
    ensures
        1 <= decimal(n).len() <= k,
    decreases n,
{
    if n >= 10 {
        let p = pow10((k - 1) as nat);
        assert(n / 10 < p) by (nonlinear_arith)
            requires
                n < 10 * p,
        ;
        if k == 1 {
            assert(pow10(0) == 1);
        }
        lemma_decimal_short(n / 10, (k - 1) as nat);
    }
}

fn push_decimal(out: &mut Vec<char>, n: u64)
    ensures
        final(out)@ == old(out)@ + decimal(n as nat),
    decreases n,
{
    if n >= 10 {
        push_decimal(out, n / 10);
    }
    out.push(digit_of(n % 10));
    proof {
        if n >= 10 {
            assert(final(out)@ =~= old(out)@ + decimal(n as nat));
        } else {
            assert(final(out)@ =~= old(out)@ + decimal(n as nat));
        }
    }
}

fn push_padded(out: &mut Vec<char>, n: u64, w: usize)
    ensures
        final(out)@ == old(out)@ + padded(n as nat, w as nat),
{
    let k = decimal_len(n);
    let ghost start = out@;
    if k < w {
        let mut z: usize = 0;
        while z < w - k
            invariant
                k < w,
                z <= w - k,
                out@ == start + Seq::new(z as nat, |i: int| '0'),
            decreases w - k - z,
        {
            out.push('0');
            z = z + 1;
            proof {
                assert(out@ =~= start + Seq::new(z as nat, |i: int| '0'));
            }
        }
    }
    let ghost mid = out@;
    push_decimal(out, n);
    proof {
        assert(out@ =~= start + padded(n as nat, w as nat));
    }
}

pub(crate) fn push_all(out: &mut Vec<char>, src: &[char])
    ensures
        final(out)@ == old(out)@ + src@,
{
    let ghost start = out@;
    let mut i: usize = 0;
    while i < src.len()
        invariant
            i <= src@.len(),
            out@ == start + src@.take(i as int),
        decreases src@.len() - i,
    {
        out.push(src[i]);
        i = i + 1;
        proof {
            assert(out@ =~= start + src@.take(i as int));
        }
    }
    proof {
        assert(src@.take(src@.len() as int) =~= src@);
    }
}

fn push_timestamp(out: &mut Vec<char>, ms: i64)
    requires
        ms >= 0,
    ensures
        final(out)@ == old(out)@ + timestamp_text(ms as nat),
{
    let ghost start = out@;
    let m = ms as u64;
    push_padded(out, m / 3_600_000, 2);
    out.push(':');
    push_padded(out, (m % 3_600_000) / 60_000, 2);
    out.push(':');
    push_padded(out, (m % 60_000) / 1000, 2);
    out.push(',');
    push_padded(out, m % 1000, 3);
    proof {
        assert(out@ =~= start + timestamp_text(ms as nat));
    }
}

/// `n` in decimal.
pub fn decimal_string(n: u64) -> (r: String)
    ensures
        r@ == decimal(n as nat),
{
    let mut out: Vec<char> = Vec::new();
    push_decimal(&mut out, n);
    proof {
        assert(out@ =~= decimal(n as nat));
    }
    string_of(&out)
}

/// Writes a time in milliseconds as an SRT timestamp `HH:MM:SS,mmm`.
pub fn format_timestamp(ms: i64) -> (r: String)
    requires
        ms >= 0,
    ensures
        r@ == timestamp_text(ms as nat),
{
    let mut out: Vec<char> = Vec::new();
    push_timestamp(&mut out, ms);
    proof {
        assert(out@ =~= timestamp_text(ms as nat));
    }
    string_of(&out)
}

/// One SRT block: its 1-based index, its times and its text, each line
/// ended by a newline.
pub open spec fn srt_block(index: nat, s: (i64, i64, Seq<char>)) -> Seq<char> {
    decimal(index) + seq!['\n'] + timestamp_text(s.0 as nat) + arrow() + timestamp_text(
        s.1 as nat,
    ) + seq!['\n'] + s.2 + seq!['\n']
}

/// An SRT document: one block per segment, in order, with a blank line
/// between each two.
pub open spec fn srt_document(segs: Seq<(i64, i64, Seq<char>)>) -> Seq<char>
    decreases segs.len(),
{
    if segs.len() == 0 {
        Seq::empty()
    } else if segs.len() == 1 {
        srt_block(1, segs[0])
    } else {
        srt_document(segs.drop_last()) + seq!['\n'] + srt_block(segs.len(), segs.last())
    }
}

fn push_block(out: &mut Vec<char>, index: u64, seg: &Segment)
    requires
        seg.start >= 0,
        seg.end >= 0,
    ensures
        final(out)@ == old(out)@ + srt_block(index as nat, seg@),
{
    let ghost start = out@;
    push_decimal(out, index);
    out.push('\n');
    push_timestamp(out, seg.start);
    let arr = vec![' ', '-', '-', '>', ' '];
    push_all(out, arr.as_slice());
    push_timestamp(out, seg.end);
    out.push('\n');
    let text = chars_of(seg.text.as_str());
    push_all(out, text.as_slice());
    out.push('\n');
    proof {
        assert(arr@ =~= arrow());
        assert(out@ =~= start + srt_block(index as nat, seg@));
    }
}

/// Writes segments as an SRT document.
pub fn generate_srt(segments: &[Segment]) -> (r: String)
    requires
        forall|i: int| 0 <= i < segments@.len() ==> #[trigger] segments@[i].start >= 0
            && segments@[i].end >= 0,
    ensures
        r@ == srt_document(seg_views(segments@)),
{
    let ghost sv = seg_views(segments@);
    let mut out: Vec<char> = Vec::new();
    let mut i: usize = 0;
    proof {
        assert(sv.take(0) =~= Seq::<(i64, i64, Seq<char>)>::empty());
    }
    while i < segments.len()
        invariant
            i <= segments@.len(),
            sv == seg_views(segments@),
            forall|j: int| 0 <= j < segments@.len() ==> #[trigger] segments@[j].start >= 0
                && segments@[j].end >= 0,
            out@ == srt_document(sv.take(i as int)),
        decreases segments@.len() - i,
    {
        let ghost o0 = out@;
        proof {
            assert(sv.take(i + 1).drop_last() =~= sv.take(i as int));
            assert(sv.take(i + 1).last() == segments@[i as int]@);
        }
        if i > 0 {
            out.push('\n');
        }
        push_block(&mut out, (i as u64) + 1, &segments[i]);
        proof {
            if i == 0 {
                assert(o0 =~= Seq::<char>::empty());
                assert(out@ =~= srt_block(1, sv.take(1)[0]));
            }
        }
        i = i + 1;
    }
    proof {
        assert(sv.take(segments@.len() as int) =~= sv);
    }
    string_of(&out)
}

} // verus!
