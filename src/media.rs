//! What the media decoder's output turns into: segments from embedded
//! subtitle packets, thumbnail sizes, and which decoded frames a preview keeps.
use vstd::prelude::*;
use crate::subtitles::{Segment, chars_of, seg_views, segment_fits, segment_ok, string_of};
use crate::text::{join_from, join_with, split_on, split_pat, trim, trimmed};

verus! {

/// A decoded frame as packed RGBA8888 rows.
pub struct RawFrame {
    pub data: Vec<u8>,
    pub width: u32,
    pub height: u32,
}

/// `x` held to the range of an `i64`.
pub open spec fn saturate(x: int) -> i64 {
    if x > i64::MAX {
        i64::MAX
    } else if x < i64::MIN {
        i64::MIN
    } else {
        x as i64
    }
}

/// Division rounding toward zero, as Rust's `/` on integers does.
pub open spec fn div_trunc(a: int, b: int) -> int {
    if a >= 0 {
        a / b
    } else {
        -((-a) / b)
    }
}

/// A count of time-base ticks in milliseconds: the products saturate, the
/// quotient rounds toward zero.
pub open spec fn ticks_ms(ticks: i64, tb_num: i32, tb_den: i32) -> i64 {
    div_trunc(saturate(saturate(ticks * tb_num) * 1000) as int, tb_den as int) as i64
}

fn saturating_mul(a: i64, b: i64) -> (r: i64)
    ensures
        r == saturate(a * b),
{
    proof {
        assert(-0x4000_0000_0000_0000_0000_0000_0000_0000 <= (a as int) * (b as int)
            <= 0x4000_0000_0000_0000_0000_0000_0000_0000) by (nonlinear_arith)
            requires
                -0x8000_0000_0000_0000 <= a < 0x8000_0000_0000_0000,
                -0x8000_0000_0000_0000 <= b < 0x8000_0000_0000_0000,
        ;
    }
    let p = (a as i128) * (b as i128);
    if p > 0x7fff_ffff_ffff_ffff {
        i64::MAX
    } else if p < -0x8000_0000_0000_0000 {
        i64::MIN
    } else {
        p as i64
    }
}

/// Converts a count of ticks of the time base `tb_num / tb_den` seconds
/// into milliseconds.
pub fn ticks_to_ms(ticks: i64, tb_num: i32, tb_den: i32) -> (r: i64)
    requires
        tb_den > 0,
    ensures
        r == ticks_ms(ticks, tb_num, tb_den),
{
    let a = saturating_mul(saturating_mul(ticks, tb_num as i64), 1000);
    let d = tb_den as i64;
    if a >= 0 {
        a / d
    } else {
        let n: i128 = 0 - (a as i128);
        let q: i128 = n / (d as i128);
        proof {
            assert(0 <= (n as int) / (d as int) <= (n as int)) by (nonlinear_arith)
                requires
                    n > 0,
                    d >= 1,
            ;
        }
        (0 - q) as i64
    }
}

/// One rectangle of a decoded subtitle.
pub enum SubtitleRect {
    /// Plain text, kept as it is.
    Text(String),
    /// An ASS event line; only its dialogue field is kept.
    Ass(String),
    /// A picture, which holds no text.
    Bitmap,
}

/// The dialogue of an ASS event: what follows its ninth comma, trimmed.
/// Absent when the line has fewer than nine commas.
pub open spec fn ass_dialogue_of(raw: Seq<char>) -> Option<Seq<char>> {
    let fields = split_pat(raw, seq![',']);
    if fields.len() < 10 {
        None
    } else {
        Some(trim(join_with(fields.skip(9), ',')))
    }
}

/// The dialogue field of an ASS event line.
pub fn ass_dialogue(raw: &str) -> (r: Option<String>)
    ensures
        r is Some <==> ass_dialogue_of(raw@) is Some,
        r is Some ==> r->0@ == ass_dialogue_of(raw@)->0,
{
    let cs = chars_of(raw);
    let comma = vec![','];
    let fields = split_on(cs.as_slice(), comma.as_slice());
    proof {
        assert(comma@ =~= seq![',']);
    }
    if fields.len() < 10 {
        return None;
    }
    let rest = join_from(&fields, 9, ',');
    let t = trimmed(rest.as_slice());
    Some(string_of(&t))
}

/// The text that a rectangle contributes, if any.
pub open spec fn rect_text(r: SubtitleRect) -> Option<Seq<char>> {
    match r {
        SubtitleRect::Text(t) => Some(t@),
        SubtitleRect::Ass(a) => ass_dialogue_of(a@),
        SubtitleRect::Bitmap => None,
    }
}

fn text_of_rect(r: &SubtitleRect) -> (t: Option<String>)
    ensures
        t is Some <==> rect_text(*r) is Some,
        t is Some ==> t->0@ == rect_text(*r)->0,
{
    match r {
        SubtitleRect::Text(t) => Some(t.clone()),
        SubtitleRect::Ass(a) => ass_dialogue(a.as_str()),
        SubtitleRect::Bitmap => None,
    }
}

/// A decoded packet of the subtitle stream.
pub struct SubtitlePacket {
    pub pts: Option<i64>,
    pub duration: i64,
    pub rects: Vec<SubtitleRect>,
}

pub open spec fn packet_start(p: SubtitlePacket, tb_num: i32, tb_den: i32) -> i64 {
    ticks_ms(
        match p.pts {
            Some(t) => t,
            None => 0,
        },
        tb_num,
        tb_den,
    )
}

pub open spec fn packet_end(p: SubtitlePacket, tb_num: i32, tb_den: i32) -> i64 {
    saturate(packet_start(p, tb_num, tb_den) + ticks_ms(p.duration, tb_num, tb_den))
}

/// The segments of the rectangles of one packet that carry text, kept when
/// the data model allows them: times from zero on, in order, and text
/// besides white space.
pub open spec fn rects_segments(rects: Seq<SubtitleRect>, start: i64, end: i64) -> Seq<
    (i64, i64, Seq<char>),
>
    decreases rects.len(),
{
    if rects.len() == 0 {
        Seq::empty()
    } else {
        let init = rects_segments(rects.drop_last(), start, end);
        match rect_text(rects.last()) {
            Some(t) => if segment_ok((start, end, t)) {
                init.push((start, end, t))
            } else {
                init
            },
            None => init,
        }
    }
}

/// The segments of a run of packets, in order.
pub open spec fn packets_segments(ps: Seq<SubtitlePacket>, tb_num: i32, tb_den: i32) -> Seq<
    (i64, i64, Seq<char>),
>
    decreases ps.len(),
{
    if ps.len() == 0 {
        Seq::empty()
    } else {
        packets_segments(ps.drop_last(), tb_num, tb_den) + rects_segments(
            ps.last().rects@,
            packet_start(ps.last(), tb_num, tb_den),
            packet_end(ps.last(), tb_num, tb_den),
        )
    }
}

proof fn lemma_rects_segments_ok(rects: Seq<SubtitleRect>, start: i64, end: i64)
    ensures
        forall|i: int|
            0 <= i < rects_segments(rects, start, end).len() ==> segment_ok(
                #[trigger] rects_segments(rects, start, end)[i],
            ),
    decreases rects.len(),
{
    if rects.len() > 0 {
        lemma_rects_segments_ok(rects.drop_last(), start, end);
        let init = rects_segments(rects.drop_last(), start, end);
        assert forall|i: int|
            0 <= i < rects_segments(rects, start, end).len() implies segment_ok(
            #[trigger] rects_segments(rects, start, end)[i],
        ) by {
            if i < init.len() {
                assert(rects_segments(rects, start, end)[i] == init[i]);
            }
        }
    }
}

/// Every segment that subtitle packets give is one the data model allows.
pub proof fn lemma_packets_segments_ok(ps: Seq<SubtitlePacket>, tb_num: i32, tb_den: i32)
    ensures
        forall|i: int|
            0 <= i < packets_segments(ps, tb_num, tb_den).len() ==> segment_ok(
                #[trigger] packets_segments(ps, tb_num, tb_den)[i],
            ),
    decreases ps.len(),
{
    if ps.len() > 0 {
        lemma_packets_segments_ok(ps.drop_last(), tb_num, tb_den);
        let init = packets_segments(ps.drop_last(), tb_num, tb_den);
        let st = packet_start(ps.last(), tb_num, tb_den);
        let en = packet_end(ps.last(), tb_num, tb_den);
        lemma_rects_segments_ok(ps.last().rects@, st, en);
        let tail = rects_segments(ps.last().rects@, st, en);
        assert forall|i: int|
            0 <= i < packets_segments(ps, tb_num, tb_den).len() implies segment_ok(
            #[trigger] packets_segments(ps, tb_num, tb_den)[i],
        ) by {
            if i < init.len() {
                assert(packets_segments(ps, tb_num, tb_den)[i] == init[i]);
            } else {
                assert(packets_segments(ps, tb_num, tb_den)[i] == tail[i - init.len()]);
            }
        }
    }
}

fn push_packet(out: &mut Vec<Segment>, p: &SubtitlePacket, tb_num: i32, tb_den: i32)
    requires
        tb_den > 0,
    ensures
        seg_views(final(out)@) == seg_views(old(out)@) + rects_segments(
            p.rects@,
            packet_start(*p, tb_num, tb_den),
            packet_end(*p, tb_num, tb_den),
        ),
{
    let pts = match p.pts {
        Some(t) => t,
        None => 0,
    };
    let start = ticks_to_ms(pts, tb_num, tb_den);
    let span = ticks_to_ms(p.duration, tb_num, tb_den);
    let sum = (start as i128) + (span as i128);
    let end: i64 = if sum > 0x7fff_ffff_ffff_ffff {
        i64::MAX
    } else if sum < -0x8000_0000_0000_0000 {
        i64::MIN
    } else {
        sum as i64
    };
    let ghost base = seg_views(out@);
    let ghost rs = p.rects@;
    let mut i: usize = 0;
    proof {
        assert(rs.take(0) =~= Seq::<SubtitleRect>::empty());
        assert(seg_views(out@) =~= base + rects_segments(rs.take(0), start, end));
    }
    while i < p.rects.len()
        invariant
            i <= rs.len(),
            rs == p.rects@,
            seg_views(out@) == base + rects_segments(rs.take(i as int), start, end),
        decreases rs.len() - i,
    {
        proof {
            assert(rs.take(i + 1).drop_last() =~= rs.take(i as int));
            assert(rs.take(i + 1).last() == rs[i as int]);
        }
        let ghost o0 = out@;
        match text_of_rect(&p.rects[i]) {
            Some(t) => {
                if segment_fits(start, end, t.as_str()) {
                    out.push(Segment { start, end, text: t });
                    proof {
                        assert(seg_views(out@) =~= seg_views(o0).push(out@.last()@));
                    }
                }
            },
            None => {},
        }
        i = i + 1;
    }
    proof {
        assert(rs.take(rs.len() as int) =~= rs);
    }
}

/// The segments that the packets of an embedded subtitle stream give, in
/// order: each text rectangle as it is, each ASS rectangle by its dialogue,
/// pictures left out. Times come from the packet's presentation time (zero
/// when it has none) and duration. A segment that starts before zero, ends
/// before it starts, or holds only white space is left out.
pub fn subtitle_segments(packets: &[SubtitlePacket], tb_num: i32, tb_den: i32) -> (r: Vec<
    Segment,
>)
    requires
        tb_den > 0,
    ensures
        seg_views(r@) == packets_segments(packets@, tb_num, tb_den),
        forall|i: int| 0 <= i < r@.len() ==> segment_ok(#[trigger] r@[i]@),
{
    let mut out: Vec<Segment> = Vec::new();
    let mut i: usize = 0;
    proof {
        assert(packets@.take(0) =~= Seq::<SubtitlePacket>::empty());
        assert(seg_views(out@) =~= Seq::<(i64, i64, Seq<char>)>::empty());
    }
    while i < packets.len()
        invariant
            i <= packets@.len(),
            tb_den > 0,
            seg_views(out@) == packets_segments(packets@.take(i as int), tb_num, tb_den),
        decreases packets@.len() - i,
    {
        proof {
            assert(packets@.take(i + 1).drop_last() =~= packets@.take(i as int));
            assert(packets@.take(i + 1).last() == packets@[i as int]);
        }
        push_packet(&mut out, &packets[i], tb_num, tb_den);
        i = i + 1;
    }
    proof {
        assert(packets@.take(packets@.len() as int) =~= packets@);
        lemma_packets_segments_ok(packets@, tb_num, tb_den);
        assert forall|k: int| 0 <= k < out@.len() implies segment_ok(#[trigger] out@[k]@) by {
            assert(seg_views(out@)[k] == out@[k]@);
        }
    }
    out
}

/// The size of a thumbnail: each side divided by the shrink factor, and at
/// least one pixel.
pub fn scaled_size(width: u32, height: u32, shrink_factor: u32) -> (r: (u32, u32))
    requires
        shrink_factor > 0,
    ensures
        r.0 == if width / shrink_factor >= 1 { width / shrink_factor } else { 1 },
        r.1 == if height / shrink_factor >= 1 { height / shrink_factor } else { 1 },
{
    let w = width / shrink_factor;
    let h = height / shrink_factor;
    (if w >= 1 { w } else { 1 }, if h >= 1 { h } else { 1 })
}

/// What a preview does with the next decoded frame.
pub enum FrameChoice {
    /// The frame is kept; the next one is wanted a twelfth of a second later.
    Keep,
    /// The frame comes before the next wanted time.
    Skip,
    /// The frame lies at or past the end of the preview: decoding stops.
    Stop,
}

/// Picks the frames of a preview: one every twelfth of a second of
/// presentation time, from `start_s` (included) to `end_s` (excluded).
/// Frame times are compared exactly, in ticks of the time base
/// `tb_num / tb_den` seconds. A frame without a presentation time is taken
/// to fall at the next wanted time.
pub struct PreviewSampler {
    pub start_s: u64,
    pub end_s: u64,
    pub tb_num: i32,
    pub tb_den: i32,
    /// How many frames were kept so far.
    pub kept: u128,
}

/// Which frame a preview over `[start, end)` seconds, having kept `kept`
/// frames, takes next: the frame at `ts` ticks, or without a time.
pub open spec fn frame_choice(start: nat, end: nat, num: int, den: int, kept: nat, ts: Option<i64>) -> FrameChoice {
    let wanted = 12 * start + kept;
    match ts {
        Some(t) => if t * num >= end * den {
            FrameChoice::Stop
        } else if 12 * (t * num) >= wanted * den {
            FrameChoice::Keep
        } else {
            FrameChoice::Skip
        },
        None => if wanted >= 12 * end {
            FrameChoice::Stop
        } else {
            FrameChoice::Keep
        },
    }
}

impl PreviewSampler {
    pub open spec fn wf(&self) -> bool {
        self.tb_den > 0 && self.kept <= 12 * self.end_s
    }

    pub fn new(start_s: u64, end_s: u64, tb_num: i32, tb_den: i32) -> (r: PreviewSampler)
        requires
            tb_den > 0,
        ensures
            r.wf(),
            r == (PreviewSampler { start_s, end_s, tb_num, tb_den, kept: 0 }),
    {
        PreviewSampler { start_s, end_s, tb_num, tb_den, kept: 0 }
    }

    /// Decides on the next decoded frame, whose presentation time is `ts`
    /// ticks if it has one.
    pub fn next_frame(&mut self, ts: Option<i64>) -> (r: FrameChoice)
        requires
            old(self).wf(),
        ensures
            final(self).wf(),
            r == frame_choice(
                old(self).start_s as nat,
                old(self).end_s as nat,
                old(self).tb_num as int,
                old(self).tb_den as int,
                old(self).kept as nat,
                ts,
            ),
            final(self).kept == old(self).kept + if r is Keep { 1int } else { 0int },
            final(self).start_s == old(self).start_s,
            final(self).end_s == old(self).end_s,
            final(self).tb_num == old(self).tb_num,
            final(self).tb_den == old(self).tb_den,
    {
        let wanted: i128 = 12 * (self.start_s as i128) + (self.kept as i128);
        let num = self.tb_num as i128;
        let den = self.tb_den as i128;
        proof {
            assert(0 <= (wanted as int) * (den as int) <= 0x20_0000_0000_0000_0000_0000_0000)
                by (nonlinear_arith)
                requires
                    0 <= wanted <= 0x20_0000_0000_0000_0000,
                    0 < den < 0x1_0000_0000,
            ;
            assert(0 <= (self.end_s as int) * (den as int) <= 0x1_0000_0000_0000_0000_0000_0000)
                by (nonlinear_arith)
                requires
                    0 <= self.end_s < 0x1_0000_0000_0000_0000,
                    0 < den < 0x1_0000_0000,
            ;
        }
        match ts {
            Some(t) => {
                let t = t as i128;
                proof {
                    assert(-0x1_0000_0000_0000_0000_0000_0000 <= (t as int) * (num as int)
                        <= 0x1_0000_0000_0000_0000_0000_0000) by (nonlinear_arith)
                        requires
                            -0x8000_0000_0000_0000 <= t < 0x8000_0000_0000_0000,
                            -0x1_0000_0000 < num < 0x1_0000_0000,
                    ;
                }
                let at = t * num;
                if at >= (self.end_s as i128) * den {
                    FrameChoice::Stop
                } else if 12 * at >= wanted * den {
                    proof {
                        assert(wanted < 12 * (self.end_s as int)) by (nonlinear_arith)
                            requires
                                at < (self.end_s as int) * den,
                                12 * at >= wanted * den,
                                den > 0,
                        ;
                    }
                    self.kept = self.kept + 1;
                    FrameChoice::Keep
                } else {
                    FrameChoice::Skip
                }
            },
            None => {
                if wanted >= 12 * (self.end_s as i128) {
                    FrameChoice::Stop
                } else {
                    self.kept = self.kept + 1;
                    FrameChoice::Keep
                }
            },
        }
    }
}

} // verus!
