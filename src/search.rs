//! The search index's own rules: how a user query becomes a phrase query,
//! which documents a file's segments become, and how retrieved documents
//! become hits. The inverted-index engine stores and scores them.
use vstd::prelude::*;
use crate::errors::EngramError;
use crate::subtitles::{Segment, chars_of, seg_views, string_of};

verus! {

/// `q` with every `"` preceded by a backslash.
pub open spec fn escape_quotes(q: Seq<char>) -> Seq<char>
    decreases q.len(),
{
    if q.len() == 0 {
        q
    } else if q.last() == '"' {
        escape_quotes(q.drop_last()) + seq!['\\', '"']
    } else {
        escape_quotes(q.drop_last()).push(q.last())
    }
}

/// The query text handed to the engine: the user's text as it is when it
/// already starts and ends with `"`, else its quotes escaped and the whole
/// wrapped in quotes, so that it is searched as one phrase.
pub open spec fn phrase_query(q: Seq<char>) -> Seq<char> {
    if q.len() > 0 && q[0] == '"' && q.last() == '"' {
        q
    } else {
        seq!['"'] + escape_quotes(q) + seq!['"']
    }
}

/// The phrase query for a user's search text.
pub fn format_query(query: &str) -> (r: String)
    ensures
        r@ == phrase_query(query@),
{
    let q = chars_of(query);
    if q.len() > 0 && q[0] == '"' && q[q.len() - 1] == '"' {
        return query.to_owned();
    }
    let mut out: Vec<char> = vec!['"'];
    let mut i: usize = 0;
    proof {
        assert(q@.take(0) =~= Seq::<char>::empty());
        assert(out@ =~= seq!['"'] + escape_quotes(q@.take(0)));
    }
    while i < q.len()
        invariant
            i <= q@.len(),
            out@ == seq!['"'] + escape_quotes(q@.take(i as int)),
        decreases q@.len() - i,
    {
        proof {
            assert(q@.take(i + 1).drop_last() =~= q@.take(i as int));
            assert(q@.take(i + 1).last() == q@[i as int]);
        }
        let ghost o0 = out@;
        if q[i] == '"' {
            out.push('\\');
            out.push('"');
        } else {
            out.push(q[i]);
        }
        proof {
            assert(out@ =~= seq!['"'] + escape_quotes(q@.take(i + 1)));
        }
        i = i + 1;
    }
    out.push('"');
    proof {
        assert(q@.take(q@.len() as int) =~= q@);
    }
    string_of(&out)
}

/// One indexed segment: the media path as a single term, the text, the
/// times, and the segment's place in its file.
pub struct SearchDoc {
    pub path: String,
    pub text: String,
    pub start_ms: u64,
    pub end_ms: u64,
    pub segment_id: u64,
}

/// The documents of a file, one per segment, numbered from zero.
pub open spec fn docs_match(path: Seq<char>, segs: Seq<(i64, i64, Seq<char>)>, docs: Seq<SearchDoc>) -> bool {
    &&& docs.len() == segs.len()
    &&& forall|i: int|
        0 <= i < docs.len() ==> {
            &&& (#[trigger] docs[i]).path@ == path
            &&& docs[i].text@ == segs[i].2
            &&& docs[i].start_ms == segs[i].0
            &&& docs[i].end_ms == segs[i].1
            &&& docs[i].segment_id == i
        }
}

/// The documents that stand for the segments of the file at `media_path`.
/// A file without segments cannot be indexed.
pub fn segment_docs(media_path: &str, segments: &[Segment]) -> (r: Result<Vec<SearchDoc>, EngramError>)
    requires
        forall|i: int| 0 <= i < segments@.len() ==> 0 <= #[trigger] segments@[i].start && 0
            <= segments@[i].end,
    ensures
        r is Err <==> segments@.len() == 0,
        r is Err ==> r->Err_0 is SubtitleParseError,
        r is Ok ==> docs_match(media_path@, seg_views(segments@), r->Ok_0@),
{
    if segments.len() == 0 {
        return Err(EngramError::SubtitleParseError("no segments to index".to_owned()));
    }
    let mut docs: Vec<SearchDoc> = Vec::new();
    let mut i: usize = 0;
    while i < segments.len()
        invariant
            i <= segments@.len(),
            forall|k: int| 0 <= k < segments@.len() ==> 0 <= #[trigger] segments@[k].start && 0
                <= segments@[k].end,
            docs_match(media_path@, seg_views(segments@).take(i as int), docs@),
        decreases segments@.len() - i,
    {
        let seg = &segments[i];
        let ghost d0 = docs@;
        docs.push(
            SearchDoc {
                path: media_path.to_owned(),
                text: seg.text.clone(),
                start_ms: seg.start as u64,
                end_ms: seg.end as u64,
                segment_id: i as u64,
            },
        );
        proof {
            let sv = seg_views(segments@);
            assert forall|k: int| 0 <= k < docs@.len() implies {
                &&& (#[trigger] docs@[k]).path@ == media_path@
                &&& docs@[k].text@ == sv.take(i + 1)[k].2
                &&& docs@[k].start_ms == sv.take(i + 1)[k].0
                &&& docs@[k].end_ms == sv.take(i + 1)[k].1
                &&& docs@[k].segment_id == k
            } by {
                if k < i {
                    assert(docs@[k] == d0[k]);
                    assert(sv.take(i + 1)[k] == sv.take(i as int)[k]);
                }
            }
        }
        i = i + 1;
    }
    proof {
        assert(seg_views(segments@).take(segments@.len() as int) =~= seg_views(segments@));
    }
    Ok(docs)
}

/// The stored fields of a retrieved document, each absent when the
/// document lacks it.
pub struct StoredFields {
    pub path: Option<String>,
    pub text: Option<String>,
    pub start_ms: Option<u64>,
    pub end_ms: Option<u64>,
}

/// A search hit: where in which file the phrase was said.
pub struct SearchHit {
    pub file: String,
    pub start: u64,
    pub end: u64,
    pub text: String,
}

pub open spec fn fields_complete(f: StoredFields) -> bool {
    f.path is Some && f.text is Some && f.start_ms is Some && f.end_ms is Some
}

/// The hits of retrieved documents, in the engine's order (best first).
/// Fails when any document lacks a stored field.
pub fn hits_from_fields(docs: Vec<StoredFields>) -> (r: Result<Vec<SearchHit>, EngramError>)
    ensures
        r is Ok <==> forall|i: int| 0 <= i < docs@.len() ==> fields_complete(#[trigger] docs@[i]),
        r is Err ==> r->Err_0 is SearchError,
        r is Ok ==> r->Ok_0@.len() == docs@.len() && forall|i: int|
            0 <= i < docs@.len() ==> {
                &&& (#[trigger] r->Ok_0@[i]).file@ == docs@[i].path->0@
                &&& r->Ok_0@[i].text@ == docs@[i].text->0@
                &&& r->Ok_0@[i].start == docs@[i].start_ms->0
                &&& r->Ok_0@[i].end == docs@[i].end_ms->0
            },
{
    let mut hits: Vec<SearchHit> = Vec::new();
    let mut i: usize = 0;
    while i < docs.len()
        invariant
            i <= docs@.len(),
            hits@.len() == i,
            forall|k: int| 0 <= k < i ==> fields_complete(#[trigger] docs@[k]),
            forall|k: int|
                0 <= k < i ==> {
                    &&& (#[trigger] hits@[k]).file@ == docs@[k].path->0@
                    &&& hits@[k].text@ == docs@[k].text->0@
                    &&& hits@[k].start == docs@[k].start_ms->0
                    &&& hits@[k].end == docs@[k].end_ms->0
                },
        decreases docs@.len() - i,
    {
        let d = &docs[i];
        match (&d.path, &d.text, d.start_ms, d.end_ms) {
            (Some(p), Some(t), Some(s), Some(e)) => {
                hits.push(SearchHit { file: p.clone(), start: s, end: e, text: t.clone() });
            },
            _ => {
                return Err(EngramError::SearchError("a retrieved document lacks a stored field".to_owned()));
            },
        }
        i = i + 1;
    }
    Ok(hits)
}

} // verus!
