//! The SRT codec's round trip: parsing what `generate_srt` wrote gives back
//! the segments, for every segment whose text survives the format.
use vstd::prelude::*;
use crate::subtitles::{
    arrow, block_segment, blocks_segments, decimal, digit_char, normalize_newlines, padded,
    segment_ok, srt_block, srt_document, srt_segments, timestamp_text, timestamp_value,
};
use crate::text::{
    all_digits, digits_value, i64_value, is_digit, is_ws, join_with, split_pat, trim,
    trim_end, trim_start,
};

verus! {

/// Splitting `a + pat + b` splits `a` and `b` apart, when no occurrence of
/// `pat` starts inside `a` and runs past its end.
proof fn lemma_split_append(a: Seq<char>, pat: Seq<char>, b: Seq<char>)
    requires
        pat.len() > 0,
        forall|i: int|
            0 <= i < a.len() && i + pat.len() > a.len() ==> #[trigger] (a + pat + b).subrange(
                i,
                i + pat.len(),
            ) != pat,
    ensures
        split_pat(a + pat + b, pat) == split_pat(a, pat) + split_pat(b, pat),
    decreases a.len(),
{
    let s = a + pat + b;
    let p = pat.len() as int;
    if a.len() == 0 {
        assert(s.take(p) =~= pat);
        assert(s.skip(p) =~= b);
        assert(a =~= Seq::<char>::empty());
        assert(split_pat(s, pat) == seq![Seq::<char>::empty()] + split_pat(b, pat));
        assert(split_pat(a, pat) == seq![a]);
    } else {
        assert(s.take(p) =~= s.subrange(0, p));
        if a.len() >= p && a.take(p) == pat {
            assert(s.take(p) =~= a.take(p));
            let a2 = a.skip(p);
            assert(s.skip(p) =~= a2 + pat + b);
            assert forall|i: int|
                0 <= i < a2.len() && i + p > a2.len() implies #[trigger] (a2 + pat + b).subrange(
                i,
                i + p,
            ) != pat by {
                assert((a2 + pat + b).subrange(i, i + p) =~= s.subrange(i + p, (i + p) + pat.len()));
            }
            lemma_split_append(a2, pat, b);
            assert(split_pat(s, pat) == seq![Seq::<char>::empty()] + split_pat(s.skip(p), pat));
            assert(split_pat(a, pat) == seq![Seq::<char>::empty()] + split_pat(a2, pat));
            assert(seq![Seq::<char>::empty()] + (split_pat(a2, pat) + split_pat(b, pat)) =~= (seq![
                Seq::<char>::empty(),
            ] + split_pat(a2, pat)) + split_pat(b, pat));
        } else {
            if a.len() >= p {
                assert(s.take(p) =~= a.take(p));
            } else {
                assert((a + pat + b).subrange(0int, 0int + pat.len()) != pat);
                assert(s.subrange(0, p) != pat);
            }
            let a1 = a.skip(1);
            assert(s.skip(1) =~= a1 + pat + b);
            assert forall|i: int|
                0 <= i < a1.len() && i + p > a1.len() implies #[trigger] (a1 + pat + b).subrange(
                i,
                i + p,
            ) != pat by {
                assert((a1 + pat + b).subrange(i, i + p) =~= s.subrange(i + 1, (i + 1) + pat.len()));
            }
            lemma_split_append(a1, pat, b);
            crate::text::lemma_split_nonempty(a1, pat);
            crate::text::lemma_split_nonempty(b, pat);
            let q = split_pat(a1, pat);
            let r = split_pat(b, pat);
            assert(s[0] == a[0]);
            if a.len() < p {
                assert(a1.len() < p);
                assert(q == seq![a1]);
                assert(seq![a[0]] + a1 =~= a);
            }
            assert((q + r).update(0, seq![a[0]] + (q + r)[0]) =~= q.update(0, seq![a[0]] + q[0]) + r);
            assert(split_pat(s, pat) == (q + r).update(0, seq![s[0]] + (q + r)[0]));
            assert(split_pat(a, pat) == q.update(0, seq![a[0]] + q[0]));
        }
    }
}

/// Splitting a sequence where `pat` occurs nowhere gives the sequence back.
proof fn lemma_split_none(a: Seq<char>, pat: Seq<char>)
    requires
        pat.len() > 0,
        forall|i: int| 0 <= i && i + pat.len() <= a.len() ==> #[trigger] a.subrange(i, i + pat.len()) != pat,
    ensures
        split_pat(a, pat) == seq![a],
    decreases a.len(),
{
    let p = pat.len() as int;
    if a.len() >= p {
        assert(a.take(p) =~= a.subrange(0, p));
        assert(a.subrange(0int, 0int + pat.len()) != pat);
        let a1 = a.skip(1);
        assert forall|i: int| 0 <= i && i + p <= a1.len() implies #[trigger] a1.subrange(i, i + p) != pat by {
            assert(a1.subrange(i, i + p) =~= a.subrange(i + 1, (i + 1) + pat.len()));
        }
        lemma_split_none(a1, pat);
        assert(seq![a[0]] + a1 =~= a);
    }
}

/// A sequence without `c` splits on `c` into itself.
proof fn lemma_split_none_char(a: Seq<char>, c: char)
    requires
        forall|i: int| 0 <= i < a.len() ==> a[i] != c,
    ensures
        split_pat(a, seq![c]) == seq![a],
{
    assert forall|i: int| 0 <= i && i + 1 <= a.len() implies #[trigger] a.subrange(i, i + 1) != seq![c] by {
        assert(a.subrange(i, i + 1)[0] == a[i]);
    }
    lemma_split_none(a, seq![c]);
}

/// Around a one-character separator, splitting goes piece by piece.
proof fn lemma_split_around_char(a: Seq<char>, c: char, b: Seq<char>)
    ensures
        split_pat(a + seq![c] + b, seq![c]) == split_pat(a, seq![c]) + split_pat(b, seq![c]),
{
    lemma_split_append(a, seq![c], b);
}

proof fn lemma_last_index(t: Seq<char>, c: char) -> (k: int)
    ensures
        k == -1 ==> forall|i: int| 0 <= i < t.len() ==> t[i] != c,
        k != -1 ==> 0 <= k < t.len() && t[k] == c && forall|j: int| k < j < t.len() ==> t[j] != c,
    decreases t.len(),
{
    if t.len() == 0 {
        -1
    } else if t.last() == c {
        t.len() - 1
    } else {
        let k = lemma_last_index(t.drop_last(), c);
        assert forall|j: int| k < j < t.len() - 1 implies t[j] != c by {
            assert(t[j] == t.drop_last()[j]);
        }
        if k == -1 {
            assert forall|i: int| 0 <= i < t.len() implies t[i] != c by {
                if i < t.len() - 1 {
                    assert(t[i] == t.drop_last()[i]);
                }
            }
        }
        k
    }
}

/// Joining the pieces of a split with the separator gives back the text.
proof fn lemma_join_split(t: Seq<char>, c: char)
    ensures
        join_with(split_pat(t, seq![c]), c) == t,
    decreases t.len(),
{
    let k = lemma_last_index(t, c);
    if k == -1 {
        lemma_split_none_char(t, c);
    } else {
        let a = t.take(k);
        let b = t.skip(k + 1);
        assert(t =~= a + seq![c] + b);
        lemma_split_around_char(a, c, b);
        lemma_split_none_char(b, c);
        lemma_join_split(a, c);
        crate::text::lemma_split_nonempty(a, seq![c]);
        let sa = split_pat(a, seq![c]);
        assert((sa + seq![b]).drop_last() =~= sa);
        assert(join_with(sa + seq![b], c) == join_with(sa, c).push(c) + b);
        assert(a.push(c) + b =~= t);
    }
}

proof fn lemma_digit_char(d: int)
    requires
        0 <= d < 10,
    ensures
        is_digit(digit_char(d)),
        (digit_char(d) as u32) - 48 == d,
{
    let ds = seq!['0', '1', '2', '3', '4', '5', '6', '7', '8', '9'];
    assert(digit_char(d) == ds[d]);
    assert(('0' as u32) == 48 && ('1' as u32) == 49 && ('2' as u32) == 50 && ('3' as u32) == 51);
    assert(('4' as u32) == 52 && ('5' as u32) == 53 && ('6' as u32) == 54 && ('7' as u32) == 55);
    assert(('8' as u32) == 56 && ('9' as u32) == 57);
}

proof fn lemma_decimal(n: nat)
    ensures
        decimal(n).len() > 0,
        forall|i: int| 0 <= i < decimal(n).len() ==> #[trigger] is_digit(decimal(n)[i]),
        digits_value(decimal(n)) == n,
    decreases n,
{
    if n < 10 {
        lemma_digit_char(n as int);
        assert(decimal(n).drop_last() =~= Seq::<char>::empty());
        assert(digits_value(Seq::<char>::empty()) == 0);
        assert(decimal(n).last() == digit_char(n as int));
    } else {
        lemma_decimal(n / 10);
        lemma_digit_char((n % 10) as int);
        let d = decimal(n / 10);
        assert(decimal(n).drop_last() =~= d);
        assert forall|i: int| 0 <= i < decimal(n).len() implies #[trigger] is_digit(decimal(n)[i]) by {
            if i < d.len() {
                assert(decimal(n)[i] == d[i]);
            }
        }
        vstd::arithmetic::div_mod::lemma_fundamental_div_mod(n as int, 10);
        assert(decimal(n).last() == digit_char((n % 10) as int));
        assert(digits_value(decimal(n)) == digits_value(d) * 10 + ((decimal(n).last() as u32) - 48));
        assert((n / 10) * 10 == 10 * (n / 10));
    }
}

proof fn lemma_zeros_value(k: nat)
    ensures
        digits_value(Seq::new(k, |i: int| '0')) == 0,
    decreases k,
{
    if k > 0 {
        assert(Seq::new(k, |i: int| '0').drop_last() =~= Seq::new((k - 1) as nat, |i: int| '0'));
        lemma_zeros_value((k - 1) as nat);
        assert(('0' as u32) == 48);
    }
}

proof fn lemma_zero_prefix(k: nat, t: Seq<char>)
    ensures
        digits_value(Seq::new(k, |i: int| '0') + t) == digits_value(t),
    decreases t.len(),
{
    let z = Seq::new(k, |i: int| '0');
    if t.len() == 0 {
        assert(z + t =~= z);
        lemma_zeros_value(k);
    } else {
        assert((z + t).drop_last() =~= z + t.drop_last());
        lemma_zero_prefix(k, t.drop_last());
    }
}

proof fn lemma_padded(n: nat, w: nat)
    ensures
        all_digits(padded(n, w)),
        digits_value(padded(n, w)) == n,
        padded(n, w).len() > 0,
{
    lemma_decimal(n);
    let d = decimal(n);
    if d.len() < w {
        let k = (w - d.len()) as nat;
        let z = Seq::new(k, |i: int| '0');
        lemma_zero_prefix(k, d);
        assert(('0' as u32) == 48);
        assert forall|i: int| 0 <= i < padded(n, w).len() implies #[trigger] is_digit(padded(n, w)[i]) by {
            if i >= k {
                assert(padded(n, w)[i] == d[i - k]);
            }
        }
    }
}

/// A run of digits reads back, once trimmed, as its value.
proof fn lemma_digits_read(t: Seq<char>)
    requires
        all_digits(t),
        digits_value(t) <= i64::MAX,
    ensures
        trim(t) == t,
        i64_value(trim(t)) == Some(digits_value(t) as i64),
{
    assert(is_digit(t[0]));
    assert(is_digit(t[t.len() - 1]));
    assert(!is_ws(t[0]));
    assert(!is_ws(t.last()));
    assert(trim_start(t) == t);
    assert(trim_end(t) == t);
    assert(t[0] != '+' && t[0] != '-');
    crate::text::lemma_digits_nonneg(t);
}

proof fn lemma_no_char_in_digits(t: Seq<char>, c: char)
    requires
        all_digits(t),
        !is_digit(c),
    ensures
        forall|i: int| 0 <= i < t.len() ==> t[i] != c,
{
    assert forall|i: int| 0 <= i < t.len() implies t[i] != c by {
        assert(is_digit(t[i]));
    }
}

/// An SRT timestamp reads back as the time it was written from.
pub proof fn lemma_timestamp_round_trip(ms: i64)
    requires
        ms >= 0,
    ensures
        timestamp_value(timestamp_text(ms as nat)) == Some(ms),
{
    let n = ms as nat;
    let h = n / 3_600_000;
    let m = (n % 3_600_000) / 60_000;
    let sec = (n % 60_000) / 1000;
    let mil = n % 1000;
    let (ph, pm, ps, pl) = (padded(h, 2), padded(m, 2), padded(sec, 2), padded(mil, 3));
    lemma_padded(h, 2);
    lemma_padded(m, 2);
    lemma_padded(sec, 2);
    lemma_padded(mil, 3);
    assert((':' as u32) == 58 && (',' as u32) == 44);
    lemma_no_char_in_digits(ph, ':');
    lemma_no_char_in_digits(pm, ':');
    lemma_no_char_in_digits(ps, ':');
    lemma_no_char_in_digits(pl, ':');
    lemma_no_char_in_digits(ps, ',');
    lemma_no_char_in_digits(pl, ',');
    let tail = ps + seq![','] + pl;
    assert forall|i: int| 0 <= i < tail.len() implies tail[i] != ':' by {
        if i < ps.len() {
            assert(tail[i] == ps[i]);
        } else if i > ps.len() {
            assert(tail[i] == pl[i - ps.len() - 1]);
        }
    }
    let text = timestamp_text(n);
    assert(text =~= ph + seq![':'] + (pm + seq![':'] + tail));
    lemma_split_around_char(ph, ':', pm + seq![':'] + tail);
    lemma_split_around_char(pm, ':', tail);
    lemma_split_none_char(ph, ':');
    lemma_split_none_char(pm, ':');
    lemma_split_none_char(tail, ':');
    let parts = split_pat(text, seq![':']);
    assert(parts =~= seq![ph, pm, tail]);
    lemma_split_around_char(ps, ',', pl);
    lemma_split_none_char(ps, ',');
    lemma_split_none_char(pl, ',');
    assert(split_pat(tail, seq![',']) =~= seq![ps, pl]);
    vstd::arithmetic::div_mod::lemma_fundamental_div_mod(n as int, 3_600_000);
    vstd::arithmetic::div_mod::lemma_fundamental_div_mod((n % 3_600_000) as int, 60_000);
    vstd::arithmetic::div_mod::lemma_fundamental_div_mod((n % 60_000) as int, 1000);
    vstd::arithmetic::div_mod::lemma_mod_mod(n as int, 60_000, 60);
    vstd::arithmetic::div_mod::lemma_mod_mod(n as int, 1000, 60);
    assert(60_000 * 60 == 3_600_000);
    assert(1000 * 60 == 60_000);
    assert(h * 3_600_000 + m * 60_000 + sec * 1000 + mil == n);
    assert(h * 3_600_000 <= n && m * 60_000 <= n && sec * 1000 <= n);
    lemma_digits_read(ph);
    lemma_digits_read(pm);
    lemma_digits_read(ps);
    lemma_digits_read(pl);
}

/// Text that the SRT format carries unchanged: non-empty, without carriage
/// returns or blank lines, not opening with a line break and not ending
/// with white space.
pub open spec fn text_survives(t: Seq<char>) -> bool {
    &&& t.len() > 0
    &&& t[0] != '\n'
    &&& !is_ws(t.last())
    &&& forall|i: int| 0 <= i < t.len() ==> #[trigger] t[i] != '\r'
    &&& no_blank_line(t)
}

/// No two line breaks in a row.
pub open spec fn no_blank_line(t: Seq<char>) -> bool {
    forall|i: int| 0 <= i < t.len() - 1 ==> !(#[trigger] t[i] == '\n' && t[i + 1] == '\n')
}

/// A segment that an SRT document carries unchanged.
pub open spec fn srt_safe(s: (i64, i64, Seq<char>)) -> bool {
    0 <= s.0 <= s.1 && text_survives(s.2)
}

/// The line of a block that gives its times.
pub open spec fn time_line(s: (i64, i64, Seq<char>)) -> Seq<char> {
    timestamp_text(s.0 as nat) + arrow() + timestamp_text(s.1 as nat)
}

/// A block without its final line break.
pub open spec fn block_core(k: nat, s: (i64, i64, Seq<char>)) -> Seq<char> {
    decimal(k) + seq!['\n'] + time_line(s) + seq!['\n'] + s.2
}

/// The cores of the blocks of a document, numbered from one.
pub open spec fn cores(segs: Seq<(i64, i64, Seq<char>)>) -> Seq<Seq<char>>
    decreases segs.len(),
{
    if segs.len() == 0 {
        Seq::empty()
    } else {
        cores(segs.drop_last()).push(block_core(segs.len(), segs.last()))
    }
}

proof fn lemma_no_blank_concat(a: Seq<char>, b: Seq<char>)
    requires
        no_blank_line(a),
        no_blank_line(b),
        a.len() == 0 || b.len() == 0 || !(a.last() == '\n' && b[0] == '\n'),
    ensures
        no_blank_line(a + b),
{
    assert forall|i: int| 0 <= i < (a + b).len() - 1 implies !(#[trigger] (a + b)[i] == '\n' && (a
        + b)[i + 1] == '\n') by {
        if i < a.len() - 1 {
            assert((a + b)[i] == a[i] && (a + b)[i + 1] == a[i + 1]);
        } else if i == a.len() - 1 {
            assert((a + b)[i] == a.last() && (a + b)[i + 1] == b[0]);
        } else {
            assert((a + b)[i] == b[i - a.len()] && (a + b)[i + 1] == b[i + 1 - a.len()]);
        }
    }
}

proof fn lemma_no_newline_no_blank(a: Seq<char>)
    requires
        forall|i: int| 0 <= i < a.len() ==> a[i] != '\n',
    ensures
        no_blank_line(a),
{
    assert forall|i: int| 0 <= i < a.len() - 1 implies !(#[trigger] a[i] == '\n' && a[i + 1] == '\n') by {
        assert(a[i] != '\n');
    }
}

proof fn lemma_no_blank_split(a: Seq<char>)
    requires
        no_blank_line(a),
    ensures
        split_pat(a, seq!['\n', '\n']) == seq![a],
{
    let pat = seq!['\n', '\n'];
    assert forall|i: int| 0 <= i && i + pat.len() <= a.len() implies #[trigger] a.subrange(i, i + pat.len()) != pat by {
        if a.subrange(i, i + pat.len()) == pat {
            assert(a.subrange(i, i + pat.len())[0] == a[i]);
            assert(a.subrange(i, i + pat.len())[1] == a[i + 1]);
        }
    }
    lemma_split_none(a, pat);
}

/// The characters of a timestamp: digits, `:` and `,`.
proof fn lemma_timestamp_chars(ms: nat)
    ensures
        forall|i: int|
            0 <= i < timestamp_text(ms).len() ==> {
                let c = #[trigger] timestamp_text(ms)[i];
                is_digit(c) || c == ':' || c == ','
            },
        timestamp_text(ms).len() > 0,
        is_digit(timestamp_text(ms)[0]),
        is_digit(timestamp_text(ms).last()),
{
    let (ph, pm, ps, pl) = (
        padded(ms / 3_600_000, 2),
        padded((ms % 3_600_000) / 60_000, 2),
        padded((ms % 60_000) / 1000, 2),
        padded(ms % 1000, 3),
    );
    lemma_padded(ms / 3_600_000, 2);
    lemma_padded((ms % 3_600_000) / 60_000, 2);
    lemma_padded((ms % 60_000) / 1000, 2);
    lemma_padded(ms % 1000, 3);
    let t = timestamp_text(ms);
    assert forall|i: int| 0 <= i < t.len() implies {
        let c = #[trigger] t[i];
        is_digit(c) || c == ':' || c == ','
    } by {
        let a = ph.len() as int;
        let b = a + 1 + pm.len();
        let d = b + 1 + ps.len();
        if i < a {
            assert(t[i] == ph[i]);
        } else if i == a {
        } else if i < b {
            assert(t[i] == pm[i - a - 1]);
        } else if i == b {
        } else if i < d {
            assert(t[i] == ps[i - b - 1]);
        } else if i == d {
        } else {
            assert(t[i] == pl[i - d - 1]);
        }
    }
    assert(t[0] == ph[0]);
    assert(t.last() == pl.last());
}

proof fn lemma_trim_text(t: Seq<char>)
    requires
        t.len() > 0,
        !is_ws(t.last()),
    ensures
        trim_start(t).len() > 0,
        trim_start(t).last() == t.last(),
    decreases t.len(),
{
    if is_ws(t[0]) {
        assert(t.len() > 1);
        assert(t.skip(1).last() == t.last());
        lemma_trim_text(t.skip(1));
    }
}

proof fn lemma_line_chars(k: nat, s: (i64, i64, Seq<char>))
    ensures
        forall|i: int|
            0 <= i < decimal(k).len() ==> #[trigger] decimal(k)[i] != '\n' && decimal(k)[i] != '\r',
        forall|i: int|
            0 <= i < time_line(s).len() ==> #[trigger] time_line(s)[i] != '\n' && time_line(s)[i]
                != '\r',
        decimal(k).len() > 0,
        is_digit(decimal(k)[0]),
{
    let dk = decimal(k);
    let t0 = timestamp_text(s.0 as nat);
    let t1 = timestamp_text(s.1 as nat);
    let line = t0 + arrow() + t1;
    lemma_decimal(k);
    lemma_timestamp_chars(s.0 as nat);
    lemma_timestamp_chars(s.1 as nat);
    assert(('\n' as u32) == 10 && ('\r' as u32) == 13);
    assert((':' as u32) == 58 && (',' as u32) == 44);
    assert forall|i: int| 0 <= i < dk.len() implies dk[i] != '\n' && dk[i] != '\r' by {
        assert(is_digit(dk[i]));
    }
    assert forall|i: int| 0 <= i < line.len() implies line[i] != '\n' && line[i] != '\r' by {
        if i < t0.len() {
            assert(line[i] == t0[i]);
        } else if i < t0.len() + 5 {
            assert(line[i] == arrow()[i - t0.len()]);
        } else {
            assert(line[i] == t1[i - t0.len() - 5]);
        }
    }
    assert(is_digit(dk[0]));
}

proof fn lemma_block_trim(k: nat, s: (i64, i64, Seq<char>))
    requires
        srt_safe(s),
    ensures
        trim(block_core(k, s)) == block_core(k, s),
        trim(block_core(k, s).push('\n')) == block_core(k, s),
        block_core(k, s).last() == s.2.last(),
        trim(s.2).len() > 0,
{
    let c = block_core(k, s);
    lemma_line_chars(k, s);
    assert(c[0] == decimal(k)[0]);
    assert(c.last() == s.2.last());
    assert(!is_ws(c[0]));
    assert(trim_start(c) == c);
    assert(trim_end(c) == c);
    let cn = c.push('\n');
    assert(cn[0] == c[0]);
    assert(trim_start(cn) == cn);
    assert(cn.drop_last() =~= c);
    assert(is_ws(cn.last()));
    assert(trim_end(cn) == trim_end(c));
    lemma_trim_text(s.2);
}

proof fn lemma_time_line(s: (i64, i64, Seq<char>))
    requires
        srt_safe(s),
    ensures
        split_pat(time_line(s), arrow()) == seq![timestamp_text(s.0 as nat), timestamp_text(s.1 as nat)],
{
    let t0 = timestamp_text(s.0 as nat);
    let t1 = timestamp_text(s.1 as nat);
    let ar = arrow();
    lemma_timestamp_chars(s.0 as nat);
    lemma_timestamp_chars(s.1 as nat);
    assert((':' as u32) == 58 && (',' as u32) == 44 && (' ' as u32) == 32);
    assert forall|i: int|
        0 <= i < t0.len() && i + ar.len() > t0.len() implies #[trigger] (t0 + ar + t1).subrange(
        i,
        i + ar.len(),
    ) != ar by {
        assert((t0 + ar + t1).subrange(i, i + ar.len())[0] == t0[i]);
    }
    lemma_split_append(t0, ar, t1);
    assert forall|i: int| 0 <= i && i + ar.len() <= t0.len() implies #[trigger] t0.subrange(i, i + ar.len()) != ar by {
        assert(t0.subrange(i, i + ar.len())[0] == t0[i]);
    }
    assert forall|i: int| 0 <= i && i + ar.len() <= t1.len() implies #[trigger] t1.subrange(i, i + ar.len()) != ar by {
        assert(t1.subrange(i, i + ar.len())[0] == t1[i]);
    }
    lemma_split_none(t0, ar);
    lemma_split_none(t1, ar);
    assert(seq![t0] + seq![t1] =~= seq![t0, t1]);
}

proof fn lemma_block_lines(k: nat, s: (i64, i64, Seq<char>))
    requires
        srt_safe(s),
    ensures
        split_pat(block_core(k, s), seq!['\n']).len() >= 3,
        split_pat(block_core(k, s), seq!['\n'])[1] == time_line(s),
        split_pat(block_core(k, s), seq!['\n']).skip(2) == split_pat(s.2, seq!['\n']),
{
    let dk = decimal(k);
    let line = time_line(s);
    let text = s.2;
    lemma_line_chars(k, s);
    assert(block_core(k, s) =~= dk + seq!['\n'] + (line + seq!['\n'] + text));
    lemma_split_around_char(dk, '\n', line + seq!['\n'] + text);
    lemma_split_around_char(line, '\n', text);
    lemma_split_none_char(dk, '\n');
    lemma_split_none_char(line, '\n');
    let tl = split_pat(text, seq!['\n']);
    crate::text::lemma_split_nonempty(text, seq!['\n']);
    let lines = split_pat(block_core(k, s), seq!['\n']);
    assert(lines =~= seq![dk, line] + tl);
    assert(lines.skip(2) =~= tl);
}

proof fn lemma_block_clean(k: nat, s: (i64, i64, Seq<char>))
    requires
        srt_safe(s),
    ensures
        no_blank_line(block_core(k, s)),
        forall|i: int| 0 <= i < block_core(k, s).len() ==> #[trigger] block_core(k, s)[i] != '\r',
{
    let dk = decimal(k);
    let line = time_line(s);
    let text = s.2;
    let c = block_core(k, s);
    lemma_line_chars(k, s);
    lemma_no_newline_no_blank(dk);
    lemma_no_newline_no_blank(line);
    assert(no_blank_line(seq!['\n']));
    lemma_no_blank_concat(dk, seq!['\n']);
    lemma_no_blank_concat(dk + seq!['\n'], line);
    lemma_no_blank_concat(dk + seq!['\n'] + line, seq!['\n']);
    lemma_no_blank_concat(dk + seq!['\n'] + line + seq!['\n'], text);
    assert(c =~= dk + seq!['\n'] + line + seq!['\n'] + text);
    assert forall|i: int| 0 <= i < c.len() implies #[trigger] c[i] != '\r' by {
        let a = dk.len() as int;
        let b = a + 1 + line.len();
        if i < a {
            assert(c[i] == dk[i]);
        } else if i == a {
        } else if i < b {
            assert(c[i] == line[i - a - 1]);
        } else if i == b {
        } else {
            assert(c[i] == text[i - b - 1]);
        }
    }
}

/// Each block core, with or without its final line break, parses back to
/// its segment.
proof fn lemma_block_round_trip(k: nat, s: (i64, i64, Seq<char>))
    requires
        srt_safe(s),
    ensures
        block_segment(block_core(k, s)) == Some(s),
        block_segment(block_core(k, s).push('\n')) == Some(s),
{
    lemma_block_trim(k, s);
    lemma_block_lines(k, s);
    lemma_time_line(s);
    lemma_timestamp_round_trip(s.0);
    lemma_timestamp_round_trip(s.1);
    lemma_join_split(s.2, '\n');
    assert(segment_ok(s));
}

proof fn lemma_safe_drop_last(segs: Seq<(i64, i64, Seq<char>)>)
    requires
        segs.len() > 0,
        forall|i: int| 0 <= i < segs.len() ==> srt_safe(#[trigger] segs[i]),
    ensures
        forall|i: int| 0 <= i < segs.drop_last().len() ==> srt_safe(#[trigger] segs.drop_last()[i]),
        srt_safe(segs.last()),
{
    assert forall|i: int| 0 <= i < segs.drop_last().len() implies srt_safe(#[trigger] segs.drop_last()[i]) by {
        assert(segs.drop_last()[i] == segs[i]);
    }
    assert(srt_safe(segs[segs.len() - 1]));
}

proof fn lemma_newline_not_ws_free(t: Seq<char>)
    requires
        t.len() > 0,
        !is_ws(t.last()),
    ensures
        t.last() != '\n',
{
    assert(('\n' as u32) == 10);
}

/// The document ends with a line break, just after the last text.
proof fn lemma_doc_shape(segs: Seq<(i64, i64, Seq<char>)>)
    requires
        segs.len() > 0,
        forall|i: int| 0 <= i < segs.len() ==> srt_safe(#[trigger] segs[i]),
    ensures
        srt_document(segs).len() > 1,
        srt_document(segs).last() == '\n',
        srt_document(segs).drop_last().last() == segs.last().2.last(),
        forall|i: int| 0 <= i < srt_document(segs).len() ==> #[trigger] srt_document(segs)[i] != '\r',
    decreases segs.len(),
{
    let n = segs.len();
    let last = segs.last();
    lemma_safe_drop_last(segs);
    lemma_block_trim(n, last);
    lemma_block_clean(n, last);
    let c = block_core(n, last);
    assert(srt_block(n, last) =~= c.push('\n'));
    let doc = srt_document(segs);
    assert(('\n' as u32) == 10 && ('\r' as u32) == 13);
    if n == 1 {
        assert(doc.drop_last() =~= c);
        assert forall|i: int| 0 <= i < doc.len() implies #[trigger] doc[i] != '\r' by {
            if i < c.len() {
                assert(doc[i] == c[i]);
            }
        }
    } else {
        let d = segs.drop_last();
        lemma_doc_shape(d);
        let prev = srt_document(d);
        assert(doc =~= prev + seq!['\n'] + c.push('\n'));
        assert(doc.drop_last() =~= prev + seq!['\n'] + c);
        assert forall|i: int| 0 <= i < doc.len() implies #[trigger] doc[i] != '\r' by {
            if i < prev.len() {
                assert(doc[i] == prev[i]);
            } else if i == prev.len() {
            } else if i < prev.len() + 1 + c.len() {
                assert(doc[i] == c[i - prev.len() - 1]);
            }
        }
    }
}

/// The document splits on blank lines into the cores of its blocks; the
/// last one keeps its final line break.
#[verifier::rlimit(60)]
proof fn lemma_doc_split(segs: Seq<(i64, i64, Seq<char>)>)
    requires
        segs.len() > 0,
        forall|i: int| 0 <= i < segs.len() ==> srt_safe(#[trigger] segs[i]),
    ensures
        split_pat(srt_document(segs).drop_last(), seq!['\n', '\n']) == cores(segs),
        split_pat(srt_document(segs), seq!['\n', '\n']) == cores(segs.drop_last()).push(
            block_core(segs.len(), segs.last()).push('\n'),
        ),
    decreases segs.len(),
{
    let nn = seq!['\n', '\n'];
    let n = segs.len();
    let last = segs.last();
    let d = segs.drop_last();
    lemma_safe_drop_last(segs);
    lemma_block_trim(n, last);
    lemma_block_clean(n, last);
    let c = block_core(n, last);
    lemma_newline_not_ws_free(last.2);
    assert(srt_block(n, last) =~= c.push('\n'));
    assert(no_blank_line(seq!['\n']));
    lemma_no_blank_concat(c, seq!['\n']);
    assert(c + seq!['\n'] =~= c.push('\n'));
    lemma_no_blank_split(c);
    lemma_no_blank_split(c.push('\n'));
    assert(cores(segs) == cores(d).push(c));
    if n == 1 {
        assert(d =~= Seq::<(i64, i64, Seq<char>)>::empty());
        assert(cores(d) =~= Seq::<Seq<char>>::empty());
        assert(srt_document(segs).drop_last() =~= c);
        assert(cores(segs) =~= seq![c]);
        assert(cores(d).push(c.push('\n')) =~= seq![c.push('\n')]);
    } else {
        lemma_doc_split(d);
        lemma_doc_shape(d);
        let prev = srt_document(d);
        let x = prev.drop_last();
        assert(prev =~= x.push('\n'));
        lemma_newline_not_ws_free(d.last().2);
        assert(x.last() != '\n');
        assert(srt_document(segs) =~= x + nn + c.push('\n'));
        assert(srt_document(segs).drop_last() =~= x + nn + c);
        assert forall|i: int|
            0 <= i < x.len() && i + nn.len() > x.len() implies #[trigger] (x + nn + c).subrange(
            i,
            i + nn.len(),
        ) != nn by {
            assert((x + nn + c).subrange(i, i + nn.len())[0] == x[i]);
        }
        assert forall|i: int|
            0 <= i < x.len() && i + nn.len() > x.len() implies #[trigger] (x + nn + c.push(
            '\n',
        )).subrange(i, i + nn.len()) != nn by {
            assert((x + nn + c.push('\n')).subrange(i, i + nn.len())[0] == x[i]);
        }
        lemma_split_append(x, nn, c);
        lemma_split_append(x, nn, c.push('\n'));
        assert(cores(d) + seq![c] =~= cores(d).push(c));
        assert(cores(d) + seq![c.push('\n')] =~= cores(d).push(c.push('\n')));
    }
}

proof fn lemma_normalize_plain(s: Seq<char>)
    requires
        forall|i: int| 0 <= i < s.len() ==> #[trigger] s[i] != '\r',
    ensures
        normalize_newlines(s) == s,
    decreases s.len(),
{
    if s.len() > 0 {
        assert forall|i: int| 0 <= i < s.skip(1).len() implies #[trigger] s.skip(1)[i] != '\r' by {
            assert(s.skip(1)[i] == s[i + 1]);
        }
        lemma_normalize_plain(s.skip(1));
        assert(s[0] != '\r');
        assert(seq![s[0]] + s.skip(1) =~= s);
    }
}

proof fn lemma_blocks_cores(segs: Seq<(i64, i64, Seq<char>)>)
    requires
        forall|i: int| 0 <= i < segs.len() ==> srt_safe(#[trigger] segs[i]),
    ensures
        blocks_segments(cores(segs)) == segs,
    decreases segs.len(),
{
    if segs.len() > 0 {
        let d = segs.drop_last();
        lemma_safe_drop_last(segs);
        lemma_blocks_cores(d);
        lemma_block_round_trip(segs.len(), segs.last());
        let cs = cores(segs);
        assert(cs.drop_last() =~= cores(d));
        assert(cs.last() == block_core(segs.len(), segs.last()));
        assert(d.push(segs.last()) =~= segs);
    }
}

/// Parsing an SRT document written from segments gives back the same
/// segments, in order, for segments that start at or after zero, end at or
/// after their start, and whose text is non-empty, holds no carriage return
/// and no blank line, does not open with a line break and does not end with
/// white space.
#[verifier::rlimit(60)]
pub proof fn lemma_srt_round_trip(segs: Seq<(i64, i64, Seq<char>)>)
    requires
        forall|i: int| 0 <= i < segs.len() ==> srt_safe(#[trigger] segs[i]),
    ensures
        srt_segments(srt_document(segs)) == segs,
{
    let nn = seq!['\n', '\n'];
    if segs.len() == 0 {
        let e = Seq::<char>::empty();
        assert(srt_document(segs) == e);
        assert(normalize_newlines(e) == e);
        assert(split_pat(e, nn) == seq![e]);
        assert(seq![e].drop_last() =~= Seq::<Seq<char>>::empty());
        assert(trim_start(e) == e);
        assert(trim_end(e) == e);
        assert(block_segment(e) is None);
        assert(seq![e].last() == e);
        assert(blocks_segments(Seq::<Seq<char>>::empty()) == Seq::<(i64, i64, Seq<char>)>::empty());
        assert(blocks_segments(seq![e]) == blocks_segments(seq![e].drop_last()));
        assert(blocks_segments(seq![e]) =~= segs);
    } else {
        let d = segs.drop_last();
        let n = segs.len();
        lemma_doc_shape(segs);
        lemma_normalize_plain(srt_document(segs));
        lemma_doc_split(segs);
        lemma_safe_drop_last(segs);
        lemma_blocks_cores(d);
        lemma_block_round_trip(n, segs.last());
        let ps = cores(d).push(block_core(n, segs.last()).push('\n'));
        assert(ps.drop_last() =~= cores(d));
        assert(d.push(segs.last()) =~= segs);
    }
}

} // verus!
