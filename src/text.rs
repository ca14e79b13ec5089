//! Character-sequence helpers shared by the subtitle codec and the query
//! builder: splitting on a pattern, trimming white space, reading integers.
use vstd::prelude::*;

verus! {

/// The views of a sequence of character vectors.
pub open spec fn views(v: Seq<Vec<char>>) -> Seq<Seq<char>> {
    v.map_values(|p: Vec<char>| p@)
}

/// `s` split on every non-overlapping occurrence of `pat`, scanning from the
/// left, as `str::split` does with a string pattern.
pub open spec fn split_pat(s: Seq<char>, pat: Seq<char>) -> Seq<Seq<char>>
    decreases s.len(),
{
    if pat.len() == 0 || s.len() < pat.len() {
        seq![s]
    } else if s.take(pat.len() as int) == pat {
        seq![Seq::<char>::empty()] + split_pat(s.skip(pat.len() as int), pat)
    } else {
        let r = split_pat(s.skip(1), pat);
        r.update(0, seq![s[0]] + r[0])
    }
}

/// `cur` put in front of the first piece of `r`.
pub open spec fn prepend_first(cur: Seq<char>, r: Seq<Seq<char>>) -> Seq<Seq<char>> {
    r.update(0, cur + r[0])
}

pub proof fn lemma_split_nonempty(s: Seq<char>, pat: Seq<char>)
    ensures
        split_pat(s, pat).len() >= 1,
    decreases s.len(),
{
    if pat.len() == 0 || s.len() < pat.len() {
    } else if s.take(pat.len() as int) == pat {
        lemma_split_nonempty(s.skip(pat.len() as int), pat);
    } else {
        lemma_split_nonempty(s.skip(1), pat);
    }
}

/// Whether `pat` occurs in `s` at position `i`.
fn matches_at(s: &[char], i: usize, pat: &[char]) -> (r: bool)
    requires
        i + pat@.len() <= s@.len(),
    ensures
        r == (s@.subrange(i as int, i + pat@.len()) == pat@),
{
    let n = s.len();
    let mut k: usize = 0;
    while k < pat.len()
        invariant
            i + pat@.len() <= s@.len() == n,
            k <= pat@.len(),
            forall|j: int| 0 <= j < k ==> s@[i + j] == pat@[j],
        decreases pat@.len() - k,
    {
        if s[i + k] != pat[k] {
            assert(s@.subrange(i as int, i + pat@.len())[k as int] != pat@[k as int]);
            return false;
        }
        k = k + 1;
    }
    assert(s@.subrange(i as int, i + pat@.len()) =~= pat@);
    true
}

/// Splits `s` on every non-overlapping occurrence of `pat`.
pub fn split_on(s: &[char], pat: &[char]) -> (r: Vec<Vec<char>>)
    requires
        pat@.len() > 0,
    ensures
        views(r@) == split_pat(s@, pat@),
{
    let mut out: Vec<Vec<char>> = Vec::new();
    let mut cur: Vec<char> = Vec::new();
    let mut i: usize = 0;
    proof {
        lemma_split_nonempty(s@, pat@);
        assert(s@.skip(0) =~= s@);
        assert(prepend_first(cur@, split_pat(s@, pat@)) =~= split_pat(s@, pat@));
    }
    while pat.len() <= s.len() - i
        invariant
            pat@.len() > 0,
            i <= s@.len(),
            views(out@) + prepend_first(cur@, split_pat(s@.skip(i as int), pat@))
                == split_pat(s@, pat@),
        decreases s@.len() - i,
    {
        let ghost rest = s@.skip(i as int);
        proof {
            assert(rest.take(pat@.len() as int) =~= s@.subrange(i as int, i + pat@.len()));
        }
        if matches_at(s, i, pat) {
            let ghost tail = split_pat(s@.skip(i + pat@.len()), pat@);
            proof {
                assert(rest.skip(pat@.len() as int) =~= s@.skip(i + pat@.len()));
                lemma_split_nonempty(s@.skip(i + pat@.len()), pat@);
                assert(split_pat(rest, pat@) == seq![Seq::<char>::empty()] + tail);
                assert(prepend_first(cur@, split_pat(rest, pat@)) =~= seq![cur@] + tail);
                assert(prepend_first(Seq::<char>::empty(), tail) =~= tail);
            }
            let ghost out0 = out@;
            let ghost cur0 = cur@;
            out.push(cur);
            proof {
                assert(views(out@) =~= views(out0).push(cur0));
            }
            cur = Vec::new();
            i = i + pat.len();
            proof {
                assert(views(out@) + prepend_first(cur@, split_pat(s@.skip(i as int), pat@))
                    =~= split_pat(s@, pat@));
            }
        } else {
            let ghost tail = split_pat(s@.skip(i + 1), pat@);
            proof {
                assert(rest.skip(1) =~= s@.skip(i + 1));
                lemma_split_nonempty(s@.skip(i + 1), pat@);
                assert(rest[0] == s@[i as int]);
                assert(split_pat(rest, pat@) == tail.update(0, seq![rest[0]] + tail[0]));
            }
            let ghost old_cur = cur@;
            cur.push(s[i]);
            i = i + 1;
            proof {
                assert(old_cur + (seq![rest[0]] + tail[0]) =~= cur@ + tail[0]);
                assert(prepend_first(old_cur, split_pat(rest, pat@)) =~= prepend_first(cur@, tail));
            }
        }
    }
    let ghost rest = s@.skip(i as int);
    let ghost cur_start = cur@;
    let ghost start: int = i as int;
    while i < s.len()
        invariant
            pat@.len() > 0,
            0 <= start <= i <= s@.len(),
            rest.len() < pat@.len(),
            rest == s@.skip(start),
            cur@ == cur_start + s@.subrange(start, i as int),
        decreases s@.len() - i,
    {
        let ghost a = start;
        let ghost c0 = cur@;
        cur.push(s[i]);
        proof {
            assert(cur_start + s@.subrange(a, i + 1) =~= c0.push(s@[i as int]));
        }
        i = i + 1;
    }
    proof {
        assert(split_pat(rest, pat@) == seq![rest]);
        assert(cur@ =~= cur_start + rest);
    }
    let ghost out0 = out@;
    let ghost cur0 = cur@;
    out.push(cur);
    proof {
        assert(views(out@) =~= views(out0).push(cur0));
    }
    out
}

/// Characters with the Unicode `White_Space` property, as `char::is_whitespace`
/// and `str::trim` use them.
pub open spec fn is_ws(c: char) -> bool {
    let u = c as u32;
    (0x9 <= u <= 0xd) || u == 0x20 || u == 0x85 || u == 0xa0 || u == 0x1680 || (0x2000 <= u
        <= 0x200a) || u == 0x2028 || u == 0x2029 || u == 0x202f || u == 0x205f || u == 0x3000
}

pub fn char_is_ws(c: char) -> (r: bool)
    ensures
        r == is_ws(c),
{
    let u = c as u32;
    (0x9 <= u && u <= 0xd) || u == 0x20 || u == 0x85 || u == 0xa0 || u == 0x1680 || (0x2000 <= u
        && u <= 0x200a) || u == 0x2028 || u == 0x2029 || u == 0x202f || u == 0x205f || u == 0x3000
}

pub open spec fn trim_start(s: Seq<char>) -> Seq<char>
    decreases s.len(),
{
    if s.len() > 0 && is_ws(s[0]) {
        trim_start(s.skip(1))
    } else {
        s
    }
}

pub open spec fn trim_end(s: Seq<char>) -> Seq<char>
    decreases s.len(),
{
    if s.len() > 0 && is_ws(s.last()) {
        trim_end(s.drop_last())
    } else {
        s
    }
}

/// `s` without leading and trailing white space.
pub open spec fn trim(s: Seq<char>) -> Seq<char> {
    trim_end(trim_start(s))
}

/// The characters of `s` from `lo` to `hi`.
pub fn copy_range(s: &[char], lo: usize, hi: usize) -> (r: Vec<char>)
    requires
        lo <= hi <= s@.len(),
    ensures
        r@ == s@.subrange(lo as int, hi as int),
{
    let mut r: Vec<char> = Vec::new();
    let mut i: usize = lo;
    while i < hi
        invariant
            lo <= i <= hi <= s@.len(),
            r@ == s@.subrange(lo as int, i as int),
        decreases hi - i,
    {
        r.push(s[i]);
        i = i + 1;
        proof {
            assert(r@ =~= s@.subrange(lo as int, i as int));
        }
    }
    r
}

/// `s` without leading and trailing white space.
pub fn trimmed(s: &[char]) -> (r: Vec<char>)
    ensures
        r@ == trim(s@),
{
    let mut lo: usize = 0;
    proof {
        assert(s@.skip(0) =~= s@);
    }
    while lo < s.len() && char_is_ws(s[lo])
        invariant
            lo <= s@.len(),
            trim_start(s@.skip(lo as int)) == trim_start(s@),
        decreases s@.len() - lo,
    {
        proof {
            assert(s@.skip(lo as int).skip(1) =~= s@.skip(lo + 1));
        }
        lo = lo + 1;
    }
    let mut hi: usize = s.len();
    proof {
        assert(s@.subrange(lo as int, hi as int) =~= s@.skip(lo as int));
        assert(trim_start(s@) == s@.subrange(lo as int, hi as int));
    }
    while hi > lo && char_is_ws(s[hi - 1])
        invariant
            lo <= hi <= s@.len(),
            trim_end(s@.subrange(lo as int, hi as int)) == trim(s@),
        decreases hi,
    {
        proof {
            assert(s@.subrange(lo as int, hi as int).drop_last() =~= s@.subrange(
                lo as int,
                hi - 1,
            ));
        }
        hi = hi - 1;
    }
    copy_range(s, lo, hi)
}

pub open spec fn is_digit(c: char) -> bool {
    48 <= (c as u32) <= 57
}

pub open spec fn all_digits(s: Seq<char>) -> bool {
    s.len() > 0 && forall|i: int| 0 <= i < s.len() ==> #[trigger] is_digit(s[i])
}

/// The number that a run of decimal digits writes.
pub open spec fn digits_value(s: Seq<char>) -> int
    decreases s.len(),
{
    if s.len() == 0 {
        0
    } else {
        digits_value(s.drop_last()) * 10 + ((s.last() as u32) - 48)
    }
}

/// The integer that `s` writes in decimal, with an optional `+` or `-`
/// sign and at least one digit, as `str::parse` reads it.
pub open spec fn int_value(s: Seq<char>) -> Option<int> {
    if s.len() > 0 && (s[0] == '+' || s[0] == '-') && all_digits(s.skip(1)) {
        let m = digits_value(s.skip(1));
        Some(if s[0] == '-' { -m } else { m })
    } else if all_digits(s) {
        Some(digits_value(s))
    } else {
        None
    }
}

/// `s` read as an `i64`: absent when it is no decimal integer or lies out
/// of range.
pub open spec fn i64_value(s: Seq<char>) -> Option<i64> {
    match int_value(s) {
        Some(v) => if i64::MIN <= v <= i64::MAX {
            Some(v as i64)
        } else {
            None
        },
        None => None,
    }
}

proof fn lemma_digits_monotone(t: Seq<char>, j: int)
    requires
        0 <= j <= t.len(),
        forall|i: int| 0 <= i < t.len() ==> #[trigger] is_digit(t[i]),
    ensures
        0 <= digits_value(t.take(j)) <= digits_value(t),
    decreases t.len(),
{
    if j == t.len() {
        assert(t.take(j) =~= t);
        lemma_digits_nonneg(t);
    } else {
        assert(t.drop_last().take(j) =~= t.take(j));
        assert(is_digit(t[t.len() - 1]));
        assert forall|i: int| 0 <= i < t.drop_last().len() implies #[trigger] is_digit(
            t.drop_last()[i],
        ) by {
            assert(is_digit(t[i]));
        }
        lemma_digits_monotone(t.drop_last(), j);
        lemma_digits_nonneg(t.drop_last());
    }
}

pub(crate) proof fn lemma_digits_nonneg(t: Seq<char>)
    requires
        forall|i: int| 0 <= i < t.len() ==> #[trigger] is_digit(t[i]),
    ensures
        digits_value(t) >= 0,
    decreases t.len(),
{
    if t.len() > 0 {
        assert(is_digit(t[t.len() - 1]));
        assert forall|i: int| 0 <= i < t.drop_last().len() implies #[trigger] is_digit(
            t.drop_last()[i],
        ) by {
            assert(is_digit(t[i]));
        }
        lemma_digits_nonneg(t.drop_last());
    }
}

/// Reads `s` as a decimal `i64`, as `str::parse::<i64>` does.
pub fn parse_i64(s: &[char]) -> (r: Option<i64>)
    ensures
        r == i64_value(s@),
{
    let n = s.len();
    let mut k: usize = 0;
    let mut neg = false;
    proof {
        assert(('+' as u32) == 43 && ('-' as u32) == 45);
    }
    if n > 0 && (s[0] == '+' || s[0] == '-') {
        neg = s[0] == '-';
        k = 1;
        proof {
            assert(!is_digit(s@[0]));
        }
    }
    let ghost t = s@.skip(k as int);
    proof {
        if k == 0 {
            assert(t =~= s@);
        }
        // With a sign, `s` itself is no run of digits; without one, only `t` can be.
        assert(k == 1 ==> !all_digits(s@));
        assert(int_value(s@) == if all_digits(t) {
            Some(if neg { -digits_value(t) } else { digits_value(t) })
        } else {
            None::<int>
        });
    }
    if k >= n {
        return None;
    }
    let mut acc: i128 = 0;
    let mut j: usize = k;
    while j < n
        invariant
            n == s@.len(),
            k <= j <= n,
            k < n,
            t == s@.skip(k as int),
            forall|i: int| k <= i < j ==> #[trigger] is_digit(s@[i]),
            acc == digits_value(s@.subrange(k as int, j as int)),
            0 <= acc <= 0x8000_0000_0000_0000,
            int_value(s@) == if all_digits(t) {
                Some(if neg { -digits_value(t) } else { digits_value(t) })
            } else {
                None::<int>
            },
        decreases n - j,
    {
        let c = s[j];
        let u = c as u32;
        if u < 48 || u > 57 {
            proof {
                assert(t[j - k] == s@[j as int]);
                assert(!is_digit(t[j - k]));
                assert(!all_digits(t));
            }
            return None;
        }
        proof {
            assert(s@.subrange(k as int, j + 1).drop_last() =~= s@.subrange(k as int, j as int));
        }
        acc = acc * 10 + ((u - 48) as i128);
        j = j + 1;
        proof {
            assert(acc == digits_value(s@.subrange(k as int, j as int)));
        }
        if acc > 0x8000_0000_0000_0000 {
            proof {
                if all_digits(t) {
                    assert(t.take(j - k) =~= s@.subrange(k as int, j as int));
                    lemma_digits_monotone(t, j - k);
                }
            }
            return None;
        }
    }
    proof {
        assert(s@.subrange(k as int, n as int) =~= t);
        assert(all_digits(t));
    }
    if neg {
        Some((0 - acc) as i64)
    } else if acc <= 0x7fff_ffff_ffff_ffff {
        Some(acc as i64)
    } else {
        None
    }
}

/// The pieces joined, with `sep` between each two.
pub open spec fn join_with(parts: Seq<Seq<char>>, sep: char) -> Seq<char>
    decreases parts.len(),
{
    if parts.len() == 0 {
        Seq::empty()
    } else if parts.len() == 1 {
        parts[0]
    } else {
        join_with(parts.drop_last(), sep).push(sep) + parts.last()
    }
}

/// The pieces of `parts` from `from` on, joined with `sep`.
pub fn join_from(parts: &Vec<Vec<char>>, from: usize, sep: char) -> (r: Vec<char>)
    requires
        from <= parts@.len(),
    ensures
        r@ == join_with(views(parts@).skip(from as int), sep),
{
    let mut r: Vec<char> = Vec::new();
    let mut i: usize = from;
    proof {
        assert(views(parts@).subrange(from as int, from as int) =~= Seq::<Seq<char>>::empty());
    }
    while i < parts.len()
        invariant
            from <= i <= parts@.len(),
            r@ == join_with(views(parts@).subrange(from as int, i as int), sep),
        decreases parts@.len() - i,
    {
        let ghost prev = views(parts@).subrange(from as int, i as int);
        let ghost next = views(parts@).subrange(from as int, i + 1);
        proof {
            assert(next.drop_last() =~= prev);
            assert(next.last() == parts@[i as int]@);
        }
        if i > from {
            r.push(sep);
        }
        let p = &parts[i];
        let mut k: usize = 0;
        let ghost base = r@;
        while k < p.len()
            invariant
                k <= p@.len(),
                r@ == base + p@.take(k as int),
            decreases p@.len() - k,
        {
            r.push(p[k]);
            k = k + 1;
            proof {
                assert(r@ =~= base + p@.take(k as int));
            }
        }
        proof {
            assert(p@.take(p@.len() as int) =~= p@);
            if i == from {
                assert(base =~= Seq::<char>::empty());
                assert(r@ =~= next[0]);
            }
        }
        i = i + 1;
    }
    proof {
        assert(views(parts@).subrange(from as int, parts@.len() as int) =~= views(parts@).skip(
            from as int,
        ));
    }
    r
}

} // verus!
