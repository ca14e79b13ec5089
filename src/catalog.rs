//! The catalog: which media files are indexed, with the stat they were
//! indexed at and the transcript of each. Transcript rows belong to their
//! file's record and go with it.
use vstd::prelude::*;
use crate::errors::EngramError;
use crate::subtitles::{Segment, seg_views};

verus! {

/// A catalog record of one media file.
#[derive(Debug)]
pub struct IndexedFile {
    pub path: String,
    /// Seconds since the epoch of the media file's modification.
    pub modified_at: i64,
    pub file_size: i64,
    /// Whether the transcript came from subtitles rather than recognition.
    pub has_subtitles: bool,
    /// The speech model that made the transcript, when one did.
    pub transcription_model: Option<String>,
}

/// What the catalog holds of a file, besides its path.
pub struct FileRecord {
    pub modified_at: i64,
    pub file_size: i64,
    pub has_subtitles: bool,
    pub transcription_model: Option<Seq<char>>,
}

pub open spec fn opt_view(m: Option<String>) -> Option<Seq<char>> {
    match m {
        Some(s) => Some(s@),
        None => None,
    }
}

impl IndexedFile {
    pub open spec fn record(&self) -> FileRecord {
        FileRecord {
            modified_at: self.modified_at,
            file_size: self.file_size,
            has_subtitles: self.has_subtitles,
            transcription_model: opt_view(self.transcription_model),
        }
    }

    pub fn copy(&self) -> (r: IndexedFile)
        ensures
            r.path@ == self.path@,
            r.record() == self.record(),
    {
        IndexedFile {
            path: self.path.clone(),
            modified_at: self.modified_at,
            file_size: self.file_size,
            has_subtitles: self.has_subtitles,
            transcription_model: match &self.transcription_model {
                Some(m) => Some(m.clone()),
                None => None,
            },
        }
    }
}

/// A record names a speech model exactly when its transcript did not come
/// from subtitles.
pub open spec fn source_consistent(r: FileRecord) -> bool {
    r.has_subtitles <==> r.transcription_model is None
}

/// The records by path. Paths are unique, so the order does not matter.
pub open spec fn files_of(rs: Seq<IndexedFile>) -> Map<Seq<char>, FileRecord>
    decreases rs.len(),
{
    if rs.len() == 0 {
        Map::empty()
    } else {
        files_of(rs.drop_last()).insert(rs.last().path@, rs.last().record())
    }
}

pub open spec fn unique_paths(rs: Seq<IndexedFile>) -> bool {
    forall|i: int, j: int|
        0 <= i < rs.len() && 0 <= j < rs.len() && i != j ==> rs[i].path@ != rs[j].path@
}

/// One line of a file's transcript.
pub struct TranscriptRow {
    pub file_path: String,
    pub segment: Segment,
}

pub open spec fn rows_view(rs: Seq<TranscriptRow>) -> Seq<(Seq<char>, (i64, i64, Seq<char>))> {
    rs.map_values(|r: TranscriptRow| (r.file_path@, r.segment@))
}

/// Every transcript row belongs to a file of the catalog, and every record
/// says consistently where its transcript came from.
pub open spec fn catalog_consistent(
    files: Map<Seq<char>, FileRecord>,
    rows: Seq<(Seq<char>, (i64, i64, Seq<char>))>,
) -> bool {
    &&& forall|i: int| 0 <= i < rows.len() ==> files.contains_key(#[trigger] rows[i].0)
    &&& forall|p: Seq<char>| #[trigger] files.contains_key(p) ==> source_consistent(files[p])
}

proof fn lemma_files_index(rs: Seq<IndexedFile>, i: int)
    requires
        unique_paths(rs),
        0 <= i < rs.len(),
    ensures
        files_of(rs).contains_key(rs[i].path@),
        files_of(rs)[rs[i].path@] == rs[i].record(),
    decreases rs.len(),
{
    if i < rs.len() - 1 {
        assert(rs.drop_last()[i] == rs[i]);
        lemma_files_index(rs.drop_last(), i);
    }
}

proof fn lemma_files_dom(rs: Seq<IndexedFile>, p: Seq<char>)
    ensures
        files_of(rs).contains_key(p) <==> exists|i: int| 0 <= i < rs.len() && rs[i].path@ == p,
    decreases rs.len(),
{
    if rs.len() > 0 {
        lemma_files_dom(rs.drop_last(), p);
        if files_of(rs.drop_last()).contains_key(p) {
            let i = choose|i: int| 0 <= i < rs.drop_last().len() && rs.drop_last()[i].path@ == p;
            assert(rs[i] == rs.drop_last()[i]);
        }
        if exists|i: int| 0 <= i < rs.len() && rs[i].path@ == p {
            let i = choose|i: int| 0 <= i < rs.len() && rs[i].path@ == p;
            if i < rs.len() - 1 {
                assert(rs.drop_last()[i] == rs[i]);
            }
        }
    }
}

proof fn lemma_files_update(rs: Seq<IndexedFile>, i: int, e: IndexedFile)
    requires
        unique_paths(rs),
        0 <= i < rs.len(),
        e.path@ == rs[i].path@,
    ensures
        files_of(rs.update(i, e)) == files_of(rs).insert(e.path@, e.record()),
    decreases rs.len(),
{
    let ru = rs.update(i, e);
    if i == rs.len() - 1 {
        assert(ru.drop_last() =~= rs.drop_last());
        lemma_files_dom(rs.drop_last(), e.path@);
        if files_of(rs.drop_last()).contains_key(e.path@) {
            let j = choose|j: int|
                0 <= j < rs.drop_last().len() && rs.drop_last()[j].path@ == e.path@;
            assert(rs[j] == rs.drop_last()[j]);
        }
        assert(files_of(ru) =~= files_of(rs).insert(e.path@, e.record()));
    } else {
        assert(ru.drop_last() =~= rs.drop_last().update(i, e));
        assert(rs.drop_last()[i] == rs[i]);
        lemma_files_update(rs.drop_last(), i, e);
        assert(rs.last().path@ != e.path@);
        assert(files_of(ru) =~= files_of(rs).insert(e.path@, e.record()));
    }
}

proof fn lemma_files_remove(rs: Seq<IndexedFile>, i: int)
    requires
        unique_paths(rs),
        0 <= i < rs.len(),
    ensures
        files_of(rs.remove(i)) == files_of(rs).remove(rs[i].path@),
    decreases rs.len(),
{
    let p = rs[i].path@;
    let rr = rs.remove(i);
    if i == rs.len() - 1 {
        assert(rr =~= rs.drop_last());
        lemma_files_dom(rs.drop_last(), p);
        if files_of(rs.drop_last()).contains_key(p) {
            let j = choose|j: int| 0 <= j < rs.drop_last().len() && rs.drop_last()[j].path@ == p;
            assert(rs[j] == rs.drop_last()[j]);
        }
        assert(files_of(rr) =~= files_of(rs).remove(p));
    } else {
        assert(rr.drop_last() =~= rs.drop_last().remove(i));
        assert(rr.last() == rs.last());
        assert(rs.drop_last()[i] == rs[i]);
        lemma_files_remove(rs.drop_last(), i);
        assert(rs.last().path@ != p);
        assert(files_of(rr) =~= files_of(rs).remove(p));
    }
}

/// The rows whose file is among `files`, in order.
pub open spec fn rows_in(
    rows: Seq<(Seq<char>, (i64, i64, Seq<char>))>,
    files: Map<Seq<char>, FileRecord>,
) -> Seq<(Seq<char>, (i64, i64, Seq<char>))>
    decreases rows.len(),
{
    if rows.len() == 0 {
        rows
    } else {
        let sub = rows_in(rows.drop_last(), files);
        if files.contains_key(rows.last().0) {
            sub.push(rows.last())
        } else {
            sub
        }
    }
}

/// The segments of the rows of `path`, in row order.
pub open spec fn segments_of(rows: Seq<(Seq<char>, (i64, i64, Seq<char>))>, path: Seq<char>) -> Seq<
    (i64, i64, Seq<char>),
>
    decreases rows.len(),
{
    if rows.len() == 0 {
        Seq::empty()
    } else {
        let sub = segments_of(rows.drop_last(), path);
        if rows.last().0 == path {
            sub.push(rows.last().1)
        } else {
            sub
        }
    }
}

/// Rows of `path` for each segment, in order.
pub open spec fn tagged(path: Seq<char>, segs: Seq<(i64, i64, Seq<char>)>) -> Seq<
    (Seq<char>, (i64, i64, Seq<char>)),
> {
    segs.map_values(|s: (i64, i64, Seq<char>)| (path, s))
}

/// `x` put into `sorted` after every segment that starts no later.
pub open spec fn insert_by_start(sorted: Seq<(i64, i64, Seq<char>)>, x: (i64, i64, Seq<char>)) -> Seq<
    (i64, i64, Seq<char>),
>
    decreases sorted.len(),
{
    if sorted.len() == 0 || sorted.last().0 <= x.0 {
        sorted.push(x)
    } else {
        insert_by_start(sorted.drop_last(), x).push(sorted.last())
    }
}

/// The segments ordered by start time; segments that start together keep
/// their order.
pub open spec fn sort_by_start(s: Seq<(i64, i64, Seq<char>)>) -> Seq<(i64, i64, Seq<char>)>
    decreases s.len(),
{
    if s.len() == 0 {
        s
    } else {
        insert_by_start(sort_by_start(s.drop_last()), s.last())
    }
}

/// The paths whose flag is false, in order.
pub open spec fn missing_paths(paths: Seq<Seq<char>>, exists: Seq<bool>) -> Seq<Seq<char>>
    decreases paths.len(),
{
    if paths.len() == 0 || exists.len() == 0 {
        Seq::empty()
    } else {
        let g = missing_paths(paths.drop_last(), exists.drop_last());
        if !exists.last() {
            g.push(paths.last())
        } else {
            g
        }
    }
}

proof fn lemma_insert_at(s: Seq<(i64, i64, Seq<char>)>, x: (i64, i64, Seq<char>), j: int)
    requires
        0 <= j <= s.len(),
        j == 0 || s[j - 1].0 <= x.0,
        forall|k: int| j <= k < s.len() ==> #[trigger] s[k].0 > x.0,
    ensures
        insert_by_start(s, x) == s.take(j).push(x) + s.skip(j),
    decreases s.len(),
{
    if j == s.len() {
        assert(s.skip(j) =~= Seq::<(i64, i64, Seq<char>)>::empty());
        assert(s.take(j) =~= s);
        assert(s.take(j).push(x) + s.skip(j) =~= s.push(x));
    } else {
        assert(s.last().0 > x.0);
        assert forall|k: int| j <= k < s.drop_last().len() implies #[trigger] s.drop_last()[k].0
            > x.0 by {
            assert(s.drop_last()[k] == s[k]);
        }
        if j > 0 {
            assert(s.drop_last()[j - 1] == s[j - 1]);
        }
        lemma_insert_at(s.drop_last(), x, j);
        assert(insert_by_start(s, x) =~= s.take(j).push(x) + s.skip(j));
    }
}

proof fn lemma_to_set_push(s: Seq<Seq<char>>, x: Seq<char>)
    ensures
        s.push(x).to_set() == s.to_set().insert(x),
{
    assert forall|a: Seq<char>| s.push(x).to_set().contains(a) <==> s.to_set().insert(x).contains(
        a,
    ) by {
        if s.contains(a) {
            let k = choose|k: int| 0 <= k < s.len() && s[k] == a;
            assert(s.push(x)[k] == a);
        }
        if s.push(x).contains(a) {
            let k = choose|k: int| 0 <= k < s.push(x).len() && s.push(x)[k] == a;
            if k < s.len() {
                assert(s[k] == a);
            }
        }
        if a == x {
            assert(s.push(x)[s.len() as int] == x);
        }
    }
    assert(s.push(x).to_set() =~= s.to_set().insert(x));
}

proof fn lemma_rows_in_keys(rows: Seq<(Seq<char>, (i64, i64, Seq<char>))>, files: Map<Seq<char>, FileRecord>)
    ensures
        forall|i: int|
            0 <= i < rows_in(rows, files).len() ==> files.contains_key(
                #[trigger] rows_in(rows, files)[i].0,
            ),
    decreases rows.len(),
{
    if rows.len() > 0 {
        lemma_rows_in_keys(rows.drop_last(), files);
        let sub = rows_in(rows.drop_last(), files);
        assert forall|i: int| 0 <= i < rows_in(rows, files).len() implies files.contains_key(
            #[trigger] rows_in(rows, files)[i].0,
        ) by {
            if i < sub.len() {
                assert(rows_in(rows, files)[i] == sub[i]);
            }
        }
    }
}

proof fn lemma_rows_in_all(rows: Seq<(Seq<char>, (i64, i64, Seq<char>))>, files: Map<Seq<char>, FileRecord>)
    requires
        forall|i: int| 0 <= i < rows.len() ==> files.contains_key(#[trigger] rows[i].0),
    ensures
        rows_in(rows, files) == rows,
    decreases rows.len(),
{
    if rows.len() > 0 {
        assert forall|i: int| 0 <= i < rows.drop_last().len() implies files.contains_key(
            #[trigger] rows.drop_last()[i].0,
        ) by {
            assert(rows.drop_last()[i] == rows[i]);
        }
        lemma_rows_in_all(rows.drop_last(), files);
        assert(files.contains_key(rows[rows.len() - 1].0));
        assert(rows.drop_last().push(rows.last()) =~= rows);
    }
}

proof fn lemma_rows_in_twice(
    rows: Seq<(Seq<char>, (i64, i64, Seq<char>))>,
    f1: Map<Seq<char>, FileRecord>,
    f2: Map<Seq<char>, FileRecord>,
)
    requires
        forall|k: Seq<char>| #[trigger] f2.contains_key(k) ==> f1.contains_key(k),
    ensures
        rows_in(rows_in(rows, f1), f2) == rows_in(rows, f2),
    decreases rows.len(),
{
    if rows.len() > 0 {
        lemma_rows_in_twice(rows.drop_last(), f1, f2);
        let sub = rows_in(rows.drop_last(), f1);
        if f1.contains_key(rows.last().0) {
            assert(rows_in(rows, f1).drop_last() =~= sub);
        }
    }
}

pub open spec fn string_views(s: Seq<String>) -> Seq<Seq<char>> {
    s.map_values(|x: String| x@)
}

/// The store of indexed files and their transcripts.
pub struct Catalog {
    records: Vec<IndexedFile>,
    rows: Vec<TranscriptRow>,
}

impl Catalog {
    /// The records, by path.
    pub closed spec fn files(&self) -> Map<Seq<char>, FileRecord> {
        files_of(self.records@)
    }

    /// The paths of the records, in the order `all_paths` gives them.
    pub closed spec fn path_seq(&self) -> Seq<Seq<char>> {
        self.records@.map_values(|r: IndexedFile| r.path@)
    }

    /// Every transcript row, as (file path, segment), in the order stored.
    pub closed spec fn transcripts(&self) -> Seq<(Seq<char>, (i64, i64, Seq<char>))> {
        rows_view(self.rows@)
    }

    pub closed spec fn paths_unique(&self) -> bool {
        unique_paths(self.records@)
    }

    pub open spec fn wf(&self) -> bool {
        self.paths_unique() && catalog_consistent(self.files(), self.transcripts())
    }

    /// An empty catalog.
    pub fn new() -> (r: Catalog)
        ensures
            r.wf(),
            r.files() == Map::<Seq<char>, FileRecord>::empty(),
            r.transcripts() == Seq::<(Seq<char>, (i64, i64, Seq<char>))>::empty(),
    {
        let r = Catalog { records: Vec::new(), rows: Vec::new() };
        proof {
            assert(r.transcripts() =~= Seq::<(Seq<char>, (i64, i64, Seq<char>))>::empty());
        }
        r
    }

    fn find(&self, path: &String) -> (r: Option<usize>)
        requires
            self.paths_unique(),
        ensures
            r is Some ==> r->0 < self.records@.len() && self.records@[r->0 as int].path@
                == path@,
            r is None <==> !self.files().contains_key(path@),
    {
        let mut i: usize = 0;
        while i < self.records.len()
            invariant
                i <= self.records@.len(),
                forall|j: int| 0 <= j < i ==> self.records@[j].path@ != path@,
            decreases self.records@.len() - i,
        {
            if self.records[i].path == *path {
                proof {
                    lemma_files_dom(self.records@, path@);
                }
                return Some(i);
            }
            i = i + 1;
        }
        proof {
            lemma_files_dom(self.records@, path@);
        }
        None
    }

    /// The record of `path`, if the catalog has one.
    pub fn get_file(&self, path: &str) -> (r: Option<IndexedFile>)
        requires
            self.wf(),
        ensures
            r is Some <==> self.files().contains_key(path@),
            r is Some ==> r->0.path@ == path@ && r->0.record() == self.files()[path@],
    {
        let p = path.to_owned();
        match self.find(&p) {
            Some(i) => {
                proof {
                    lemma_files_index(self.records@, i as int);
                }
                Some(self.records[i].copy())
            },
            None => None,
        }
    }

    /// Whether the catalog holds `path` with exactly this modification time
    /// and size.
    pub fn is_upto_date(&self, path: &str, modified_at: i64, file_size: i64) -> (r: bool)
        requires
            self.wf(),
        ensures
            r == (self.files().contains_key(path@) && self.files()[path@].modified_at
                == modified_at && self.files()[path@].file_size == file_size),
    {
        match self.get_file(path) {
            Some(entry) => entry.modified_at == modified_at && entry.file_size == file_size,
            None => false,
        }
    }

    /// Every path of the catalog, once each.
    pub fn all_paths(&self) -> (r: Vec<String>)
        requires
            self.wf(),
        ensures
            string_views(r@) == self.path_seq(),
            forall|i: int, j: int|
                0 <= i < r@.len() && 0 <= j < r@.len() && i != j ==> r@[i]@ != r@[j]@,
            forall|p: Seq<char>|
                self.files().contains_key(p) <==> exists|i: int|
                    0 <= i < r@.len() && #[trigger] r@[i]@ == p,
    {
        let mut out: Vec<String> = Vec::new();
        let mut i: usize = 0;
        while i < self.records.len()
            invariant
                i <= self.records@.len(),
                out@.len() == i,
                string_views(out@) == self.path_seq().take(i as int),
            decreases self.records@.len() - i,
        {
            let ghost o0 = out@;
            out.push(self.records[i].path.clone());
            proof {
                assert forall|k: int| 0 <= k < out@.len() implies #[trigger] string_views(out@)[k] == self.path_seq().take(i + 1)[k] by {
                    if k < i {
                        assert(out@[k] == o0[k]);
                        assert(string_views(o0)[k] == o0[k]@);
                    }
                }
                assert(string_views(out@) =~= self.path_seq().take(i + 1));
            }
            i = i + 1;
        }
        proof {
            assert(self.path_seq().take(i as int) =~= self.path_seq());
            assert forall|a: int, b: int|
                0 <= a < out@.len() && 0 <= b < out@.len() && a != b implies out@[a]@
                != out@[b]@ by {
                assert(string_views(out@)[a] == out@[a]@);
                assert(string_views(out@)[b] == out@[b]@);
            }
            assert forall|p: Seq<char>|
                self.files().contains_key(p) <==> exists|k: int|
                    0 <= k < out@.len() && #[trigger] out@[k]@ == p by {
                lemma_files_dom(self.records@, p);
                if self.files().contains_key(p) {
                    let k = choose|k: int| 0 <= k < self.records@.len() && self.records@[k].path@ == p;
                    assert(string_views(out@)[k] == out@[k]@);
                }
                if exists|k: int| 0 <= k < out@.len() && #[trigger] out@[k]@ == p {
                    let k = choose|k: int| 0 <= k < out@.len() && #[trigger] out@[k]@ == p;
                    assert(string_views(out@)[k] == out@[k]@);
                }
            }
        }
        out
    }

    /// Keeps the rows whose file the catalog holds.
    fn drop_orphan_rows(&mut self)
        requires
            old(self).paths_unique(),
        ensures
            final(self).records == old(self).records,
            final(self).transcripts() == rows_in(old(self).transcripts(), old(self).files()),
    {
        let ghost rv = rows_view(self.rows@);
        let mut kept: Vec<TranscriptRow> = Vec::new();
        let mut i: usize = 0;
        proof {
            assert(rv.take(0) =~= Seq::<(Seq<char>, (i64, i64, Seq<char>))>::empty());
            assert(rows_view(kept@) =~= rows_in(rv.take(0), self.files()));
        }
        while i < self.rows.len()
            invariant
                i <= self.rows@.len(),
                rv == rows_view(self.rows@),
                self.paths_unique(),
                rows_view(kept@) == rows_in(rv.take(i as int), self.files()),
            decreases self.rows@.len() - i,
        {
            proof {
                assert(rv.take(i + 1).drop_last() =~= rv.take(i as int));
                assert(rv.take(i + 1).last() == rv[i as int]);
            }
            let row = &self.rows[i];
            if self.find(&row.file_path).is_some() {
                let ghost k0 = kept@;
                kept.push(TranscriptRow { file_path: row.file_path.clone(), segment: row.segment.copy() });
                proof {
                    assert(rows_view(kept@) =~= rows_view(k0).push(rv[i as int]));
                }
            }
            i = i + 1;
        }
        proof {
            assert(rv.take(self.rows@.len() as int) =~= rv);
        }
        self.rows = kept;
    }

    /// Inserts the record, or replaces the one with the same path. The
    /// transcripts stay as they are.
    pub fn upsert_file(&mut self, entry: &IndexedFile)
        requires
            old(self).wf(),
            source_consistent(entry.record()),
        ensures
            final(self).wf(),
            final(self).files() == old(self).files().insert(entry.path@, entry.record()),
            final(self).transcripts() == old(self).transcripts(),
    {
        let e = entry.copy();
        match self.find(&entry.path) {
            Some(i) => {
                proof {
                    lemma_files_update(self.records@, i as int, e);
                }
                self.records.set(i, e);
            },
            None => {
                proof {
                    lemma_files_dom(self.records@, entry.path@);
                    assert(self.records@.push(e).drop_last() =~= self.records@);
                }
                self.records.push(e);
            },
        }
    }

    /// Removes the record of `path`; its transcript rows go with it.
    pub fn remove_file(&mut self, path: &str)
        requires
            old(self).wf(),
        ensures
            final(self).wf(),
            final(self).files() == old(self).files().remove(path@),
            final(self).transcripts() == rows_in(old(self).transcripts(), final(self).files()),
    {
        let p = path.to_owned();
        let ghost old_rows = self.transcripts();
        match self.find(&p) {
            Some(i) => {
                proof {
                    lemma_files_remove(self.records@, i as int);
                }
                self.records.remove(i);
            },
            None => {
                proof {
                    assert(self.files().remove(path@) =~= self.files());
                }
            },
        }
        self.drop_orphan_rows();
        proof {
            lemma_rows_in_keys(old_rows, self.files());
        }
    }

    /// Replaces the transcript of `path` with `segments`, in order. Fails,
    /// changing nothing, when the catalog has no record of `path`.
    pub fn store_segments(&mut self, path: &str, segments: &[Segment]) -> (r: Result<(), EngramError>)
        requires
            old(self).wf(),
        ensures
            final(self).wf(),
            r is Err <==> !old(self).files().contains_key(path@),
            final(self).files() == old(self).files(),
            r is Err ==> final(self).transcripts() == old(self).transcripts(),
            r is Ok ==> final(self).transcripts() == rows_in(
                old(self).transcripts(),
                old(self).files().remove(path@),
            ) + tagged(path@, seg_views(segments@)),
    {
        let p = path.to_owned();
        if self.find(&p).is_none() {
            return Err(EngramError::IoError("no catalog record for this path".to_owned()));
        }
        let ghost rv = self.transcripts();
        let ghost fr = self.files().remove(path@);
        let mut kept: Vec<TranscriptRow> = Vec::new();
        let mut i: usize = 0;
        proof {
            assert(rv.take(0) =~= Seq::<(Seq<char>, (i64, i64, Seq<char>))>::empty());
            assert(rows_view(kept@) =~= rows_in(rv.take(0), fr));
        }
        while i < self.rows.len()
            invariant
                i <= self.rows@.len(),
                rv == rows_view(self.rows@),
                p@ == path@,
                fr == self.files().remove(path@),
                catalog_consistent(self.files(), rv),
                rows_view(kept@) == rows_in(rv.take(i as int), fr),
            decreases self.rows@.len() - i,
        {
            proof {
                assert(rv.take(i + 1).drop_last() =~= rv.take(i as int));
                assert(rv.take(i + 1).last() == rv[i as int]);
                assert(self.files().contains_key(rv[i as int].0));
            }
            let row = &self.rows[i];
            if row.file_path != p {
                let ghost k0 = kept@;
                kept.push(TranscriptRow { file_path: row.file_path.clone(), segment: row.segment.copy() });
                proof {
                    assert(rows_view(kept@) =~= rows_view(k0).push(rv[i as int]));
                }
            }
            i = i + 1;
        }
        proof {
            assert(rv.take(self.rows@.len() as int) =~= rv);
        }
        let ghost base = rows_view(kept@);
        let mut k: usize = 0;
        while k < segments.len()
            invariant
                k <= segments@.len(),
                p@ == path@,
                rows_view(kept@) == base + tagged(path@, seg_views(segments@).take(k as int)),
            decreases segments@.len() - k,
        {
            let ghost k0 = kept@;
            kept.push(TranscriptRow { file_path: p.clone(), segment: segments[k].copy() });
            proof {
                assert(rows_view(kept@) =~= rows_view(k0).push((path@, segments@[k as int]@)));
                assert(tagged(path@, seg_views(segments@).take(k + 1)) =~= tagged(
                    path@,
                    seg_views(segments@).take(k as int),
                ).push((path@, segments@[k as int]@)));
            }
            k = k + 1;
        }
        proof {
            assert(seg_views(segments@).take(segments@.len() as int) =~= seg_views(segments@));
        }
        self.rows = kept;
        proof {
            lemma_rows_in_keys(rv, fr);
            let t = self.transcripts();
            assert forall|j: int| 0 <= j < t.len() implies self.files().contains_key(
                #[trigger] t[j].0,
            ) by {
                let n = rows_in(rv, fr).len();
                if j < n {
                    assert(t[j] == rows_in(rv, fr)[j]);
                } else {
                    assert(t[j].0 == path@);
                }
            }
        }
        Ok(())
    }

    /// The transcript of `path`, ordered by start time, or nothing when it
    /// has no rows.
    pub fn load_segments(&self, path: &str) -> (r: Option<Vec<Segment>>)
        requires
            self.wf(),
        ensures
            r is None <==> segments_of(self.transcripts(), path@).len() == 0,
            r is Some ==> seg_views(r->0@) == sort_by_start(segments_of(self.transcripts(), path@)),
    {
        let p = path.to_owned();
        let ghost rv = self.transcripts();
        let mut out: Vec<Segment> = Vec::new();
        let mut count: usize = 0;
        let mut i: usize = 0;
        proof {
            assert(rv.take(0) =~= Seq::<(Seq<char>, (i64, i64, Seq<char>))>::empty());
            assert(seg_views(out@) =~= Seq::<(i64, i64, Seq<char>)>::empty());
        }
        while i < self.rows.len()
            invariant
                i <= self.rows@.len(),
                rv == rows_view(self.rows@),
                p@ == path@,
                seg_views(out@) == sort_by_start(segments_of(rv.take(i as int), path@)),
                count == segments_of(rv.take(i as int), path@).len(),
                count <= i,
            decreases self.rows@.len() - i,
        {
            proof {
                assert(rv.take(i + 1).drop_last() =~= rv.take(i as int));
                assert(rv.take(i + 1).last() == rv[i as int]);
            }
            let row = &self.rows[i];
            if row.file_path == p {
                let x = row.segment.copy();
                proof {
                    let sg = segments_of(rv.take(i as int), path@);
                    assert(segments_of(rv.take(i + 1), path@) == sg.push(x@));
                    assert(sg.push(x@).drop_last() =~= sg);
                }
                let ghost s0 = seg_views(out@);
                let mut j: usize = out.len();
                while j > 0 && out[j - 1].start > x.start
                    invariant
                        j <= out@.len(),
                        s0 == seg_views(out@),
                        forall|k: int| j <= k < out@.len() ==> #[trigger] s0[k].0 > x@.0,
                    decreases j,
                {
                    proof {
                        assert(s0[j - 1] == out@[j - 1]@);
                    }
                    j = j - 1;
                }
                proof {
                    if j > 0 {
                        assert(s0[j - 1] == out@[j - 1]@);
                    }
                    lemma_insert_at(s0, x@, j as int);
                }
                out.insert(j, x);
                proof {
                    assert(seg_views(out@) =~= s0.take(j as int).push(x@) + s0.skip(j as int));
                }
                count = count + 1;
            }
            i = i + 1;
        }
        proof {
            assert(rv.take(self.rows@.len() as int) =~= rv);
        }
        if count == 0 {
            None
        } else {
            Some(out)
        }
    }

    /// Removes every file whose flag in `exists` is false; `exists` holds
    /// one flag per path, in the order `all_paths` gives them. Returns the
    /// paths removed, in that order.
    pub fn prune_missing(&mut self, exists: &[bool]) -> (r: Vec<String>)
        requires
            old(self).wf(),
            exists@.len() == old(self).path_seq().len(),
        ensures
            final(self).wf(),
            string_views(r@) == missing_paths(old(self).path_seq(), exists@),
            final(self).files() == old(self).files().remove_keys(string_views(r@).to_set()),
            final(self).transcripts() == rows_in(old(self).transcripts(), final(self).files()),
            forall|i: int|
                0 <= i < final(self).transcripts().len() ==> final(self).files().contains_key(
                    #[trigger] final(self).transcripts()[i].0,
                ),
    {
        let paths = self.all_paths();
        let ghost ps = old(self).path_seq();
        let ghost f0 = old(self).files();
        let ghost t0 = old(self).transcripts();
        let mut removed: Vec<String> = Vec::new();
        let mut i: usize = 0;
        proof {
            assert(ps.take(0) =~= Seq::<Seq<char>>::empty());
            assert(exists@.take(0) =~= Seq::<bool>::empty());
            assert(string_views(removed@) =~= Seq::<Seq<char>>::empty());
            assert(f0.remove_keys(Set::<Seq<char>>::empty()) =~= f0);
            assert(string_views(removed@).to_set() =~= Set::<Seq<char>>::empty());
            lemma_rows_in_all(t0, f0);
        }
        while i < paths.len()
            invariant
                i <= paths@.len(),
                paths@.len() == ps.len() == exists@.len(),
                string_views(paths@) == ps,
                self.wf(),
                string_views(removed@) == missing_paths(ps.take(i as int), exists@.take(i as int)),
                self.files() == f0.remove_keys(string_views(removed@).to_set()),
                self.transcripts() == rows_in(t0, self.files()),
            decreases paths@.len() - i,
        {
            proof {
                assert(ps.take(i + 1).drop_last() =~= ps.take(i as int));
                assert(exists@.take(i + 1).drop_last() =~= exists@.take(i as int));
                assert(ps.take(i + 1).last() == paths@[i as int]@);
            }
            if !exists[i] {
                let ghost f1 = self.files();
                let ghost r0 = removed@;
                self.remove_file(paths[i].as_str());
                removed.push(paths[i].clone());
                proof {
                    assert(string_views(removed@) =~= string_views(r0).push(paths@[i as int]@));
                    lemma_to_set_push(string_views(r0), paths@[i as int]@);
                    assert(self.files() =~= f0.remove_keys(string_views(removed@).to_set()));
                    lemma_rows_in_twice(t0, f1, self.files());
                }
            }
            i = i + 1;
        }
        proof {
            assert(ps.take(paths@.len() as int) =~= ps);
            assert(exists@.take(paths@.len() as int) =~= exists@);
        }
        removed
    }

    /// The catalog holds exactly the paths of `path_seq`.
    pub proof fn lemma_path_seq_dom(&self, p: Seq<char>)
        ensures
            self.files().contains_key(p) <==> self.path_seq().contains(p),
    {
        lemma_files_dom(self.records@, p);
        if self.files().contains_key(p) {
            let i = choose|i: int| 0 <= i < self.records@.len() && self.records@[i].path@ == p;
            assert(self.path_seq()[i] == p);
        }
        if self.path_seq().contains(p) {
            let i = choose|i: int| 0 <= i < self.path_seq().len() && self.path_seq()[i] == p;
            assert(self.records@[i].path@ == p);
        }
    }
}

/// A path whose flag is false is among the missing paths.
pub proof fn lemma_missing_contains(paths: Seq<Seq<char>>, exists: Seq<bool>, i: int)
    requires
        paths.len() == exists.len(),
        0 <= i < paths.len(),
        !exists[i],
    ensures
        missing_paths(paths, exists).contains(paths[i]),
    decreases paths.len(),
{
    let g = missing_paths(paths.drop_last(), exists.drop_last());
    if i == paths.len() - 1 {
        assert(missing_paths(paths, exists) == g.push(paths.last()));
        assert(missing_paths(paths, exists)[g.len() as int] == paths[i]);
    } else {
        assert(paths.drop_last()[i] == paths[i]);
        assert(exists.drop_last()[i] == exists[i]);
        lemma_missing_contains(paths.drop_last(), exists.drop_last(), i);
        let k = choose|k: int| 0 <= k < g.len() && g[k] == paths[i];
        if !exists.last() {
            assert(missing_paths(paths, exists)[k] == paths[i]);
        }
    }
}

} // verus!
