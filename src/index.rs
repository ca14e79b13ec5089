//! What the directory walker decides for each path it meets: whether the
//! path is a media file, where its sidecar subtitle file would be, and
//! whether the media lasts long enough to index.
use vstd::prelude::*;
use crate::subtitles::{chars_of, string_of};
use crate::text::{all_digits, copy_range, digits_value, trim, trimmed};

verus! {

/// A media file found by the walker, with its sidecar subtitle file when
/// one exists.
#[derive(Debug, Clone)]
pub struct MediaFile {
    pub media: String,
    pub subtitles: Option<String>,
}

/// The position of the last `c` in `s`, or -1.
pub open spec fn last_index_of(s: Seq<char>, c: char) -> int
    decreases s.len(),
{
    if s.len() == 0 {
        -1
    } else if s.last() == c {
        s.len() - 1
    } else {
        last_index_of(s.drop_last(), c)
    }
}

/// The position of the dot that starts the extension of the path's file
/// name, or -1 when the name has none: a dot that opens the name does not
/// count.
pub open spec fn extension_dot(p: Seq<char>) -> int {
    let start = last_index_of(p, '/') + 1;
    let d = last_index_of(p, '.');
    if d > start {
        d
    } else {
        -1
    }
}

/// The extension of the path's file name, if it has one.
pub open spec fn extension_of(p: Seq<char>) -> Option<Seq<char>> {
    if extension_dot(p) >= 0 {
        Some(p.skip(extension_dot(p) + 1))
    } else {
        None
    }
}

fn last_index(s: &[char], c: char) -> (r: Option<usize>)
    ensures
        r is None <==> last_index_of(s@, c) == -1,
        r is Some ==> r->0 == last_index_of(s@, c) && r->0 < s@.len(),
{
    let mut i: usize = s.len();
    proof {
        assert(s@.take(i as int) =~= s@);
    }
    while i > 0
        invariant
            i <= s@.len(),
            last_index_of(s@.take(i as int), c) == last_index_of(s@, c),
        decreases i,
    {
        if s[i - 1] == c {
            proof {
                assert(s@.take(i as int).last() == c);
            }
            return Some(i - 1);
        }
        proof {
            assert(s@.take(i as int).drop_last() =~= s@.take(i - 1));
        }
        i = i - 1;
    }
    None
}

fn extension_start(p: &[char]) -> (r: Option<usize>)
    ensures
        r is None <==> extension_dot(p@) < 0,
        r is Some ==> r->0 == extension_dot(p@) && r->0 < p@.len(),
{
    let n = p.len();
    let slash = last_index(p, '/');
    let d = last_index(p, '.');
    match d {
        Some(d) => {
            let start: usize = match slash {
                Some(k) => k + 1,
                None => 0,
            };
            if d > start {
                Some(d)
            } else {
                None
            }
        },
        None => None,
    }
}

/// What `str::to_lowercase` makes of a string.
pub uninterp spec fn lowercase_of(s: Seq<char>) -> Seq<char>;

/// Relies on `str::to_lowercase`: the lowercase mapping of each character,
/// which depends on the string alone.
#[verifier::external_body]
fn lowercase(s: &[char]) -> (r: Vec<char>)
    ensures
        r@ == lowercase_of(s@),
{
    s.iter().collect::<String>().to_lowercase().chars().collect()
}

/// Whether `ext` is one of `exts`.
pub fn extension_allowed(ext: &[char], exts: &[String]) -> (r: bool)
    ensures
        r == exists|i: int| 0 <= i < exts@.len() && #[trigger] exts@[i]@ == ext@,
{
    let mut i: usize = 0;
    while i < exts.len()
        invariant
            i <= exts@.len(),
            forall|j: int| 0 <= j < i ==> exts@[j]@ != ext@,
        decreases exts@.len() - i,
    {
        let e = chars_of(exts[i].as_str());
        if e.len() == ext.len() {
            let mut k: usize = 0;
            while k < e.len() && e[k] == ext[k]
                invariant
                    e@.len() == ext@.len(),
                    k <= e@.len(),
                    forall|j: int| 0 <= j < k ==> e@[j] == ext@[j],
                decreases e@.len() - k,
            {
                k = k + 1;
            }
            if k == e.len() {
                proof {
                    assert(e@ =~= ext@);
                }
                return true;
            }
        }
        i = i + 1;
    }
    false
}

/// Whether the walker keeps `path`: its file name has an extension whose
/// lowercase form is one of `exts` (given in lowercase).
pub fn is_media_path(path: &str, exts: &[String]) -> (r: bool)
    ensures
        r == (extension_of(path@) is Some && exists|i: int|
            0 <= i < exts@.len() && #[trigger] exts@[i]@ == lowercase_of(
                extension_of(path@)->0,
            )),
{
    let p = chars_of(path);
    let n = p.len();
    let d = match extension_start(p.as_slice()) {
        Some(d) => d,
        None => {
            return false;
        },
    };
    let ext = copy_range(p.as_slice(), d + 1, p.len());
    proof {
        assert(ext@ =~= path@.skip(d + 1));
    }
    let low = lowercase(ext.as_slice());
    extension_allowed(low.as_slice(), exts)
}

/// The sidecar subtitle path of a media path: its extension replaced by
/// `srt`, or `.srt` added when it has none.
pub open spec fn sidecar_of(p: Seq<char>) -> Seq<char> {
    if extension_dot(p) >= 0 {
        p.take(extension_dot(p) + 1) + seq!['s', 'r', 't']
    } else {
        p + seq!['.', 's', 'r', 't']
    }
}

pub fn sidecar_path(path: &str) -> (r: String)
    ensures
        r@ == sidecar_of(path@),
{
    let p = chars_of(path);
    let n = p.len();
    let mut out: Vec<char> = match extension_start(p.as_slice()) {
        Some(d) => copy_range(p.as_slice(), 0, d + 1),
        None => {
            let mut o = copy_range(p.as_slice(), 0, p.len());
            o.push('.');
            proof {
                assert(o@ =~= path@ + seq!['.']);
            }
            o
        },
    };
    out.push('s');
    out.push('r');
    out.push('t');
    proof {
        assert(out@ =~= sidecar_of(path@));
    }
    string_of(&out)
}

/// Whether a duration written in seconds as the prober prints it
/// (`digits`, or `digits.digits`, around white space) is at least
/// `min_s` seconds. Any other text counts as too short.
pub open spec fn lasts_at_least(text: Seq<char>, min_s: u64) -> bool {
    let t = trim(text);
    let d = last_index_of(t, '.');
    let whole = if d >= 0 { t.take(d) } else { t };
    let frac_ok = d < 0 || (t.len() == d + 1 || all_digits(t.skip(d + 1)));
    all_digits(whole) && frac_ok && digits_value(whole) >= min_s
}

fn digits_at_least(s: &[char], min_s: u64) -> (r: bool)
    ensures
        r == (all_digits(s@) && digits_value(s@) >= min_s),
{
    if s.len() == 0 {
        return false;
    }
    let mut acc: u64 = 0;
    let mut capped = false;
    let mut i: usize = 0;
    while i < s.len()
        invariant
            i <= s@.len(),
            s@.len() > 0,
            forall|j: int| 0 <= j < i ==> #[trigger] crate::text::is_digit(s@[j]),
            !capped ==> acc == digits_value(s@.take(i as int)),
            capped ==> digits_value(s@.take(i as int)) >= min_s,
            acc <= min_s || capped,
        decreases s@.len() - i,
    {
        let u = s[i] as u32;
        if u < 48 || u > 57 {
            proof {
                assert(!crate::text::is_digit(s@[i as int]));
            }
            return false;
        }
        proof {
            assert(s@.take(i + 1).drop_last() =~= s@.take(i as int));
            lemma_digits_grow(s@.take(i + 1));
        }
        if !capped {
            let next = (acc as u128) * 10 + ((u - 48) as u128);
            if next >= min_s as u128 {
                capped = true;
            } else {
                acc = next as u64;
            }
        }
        i = i + 1;
    }
    proof {
        assert(s@.take(s@.len() as int) =~= s@);
    }
    capped || acc >= min_s
}

proof fn lemma_digits_grow(t: Seq<char>)
    requires
        t.len() > 0,
        forall|j: int| 0 <= j < t.len() ==> #[trigger] crate::text::is_digit(t[j]),
    ensures
        digits_value(t) >= digits_value(t.drop_last()),
{
    assert(crate::text::is_digit(t[t.len() - 1]));
    crate::text::lemma_digits_nonneg(t.drop_last());
}

/// Whether the prober's duration text says the media lasts at least
/// `min_s` seconds.
pub fn long_enough(duration: &str, min_s: u64) -> (r: bool)
    ensures
        r == lasts_at_least(duration@, min_s),
{
    let raw = chars_of(duration);
    let t = trimmed(raw.as_slice());
    let (whole, frac_ok) = match last_index(t.as_slice(), '.') {
        Some(d) => {
            let w = copy_range(t.as_slice(), 0, d);
            let mut ok = true;
            if d < t.len() - 1 {
                let frac = copy_range(t.as_slice(), d + 1, t.len());
                proof {
                    assert(frac@ =~= t@.skip(d + 1));
                }
                ok = digits_at_least(frac.as_slice(), 0);
                proof {
                    if all_digits(frac@) {
                        crate::text::lemma_digits_nonneg(frac@);
                    }
                }
            }
            proof {
                assert(w@ =~= t@.take(d as int));
            }
            (w, ok)
        },
        None => {
            let w = copy_range(t.as_slice(), 0, t.len());
            proof {
                assert(w@ =~= t@);
            }
            (w, true)
        },
    };
    frac_ok && digits_at_least(whole.as_slice(), min_s)
}

} // verus!
