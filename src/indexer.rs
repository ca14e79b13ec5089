//! The decisions of an index pass: which files need work, which transcript
//! source to try next, what record to write, and which search-index writes
//! follow. The pass itself (walking, decoding, recognizing, writing the
//! search index) runs these decisions around the outside work.
use vstd::prelude::*;
use crate::catalog::{
    Catalog, FileRecord, IndexedFile, lemma_missing_contains, missing_paths, opt_view, rows_in,
    source_consistent, string_views, tagged,
};
use crate::errors::EngramError;
use crate::index::MediaFile;
use crate::subtitles::{Segment, seg_views};

verus! {

/// Where a transcript came from.
pub enum TranscriptSource {
    Sidecar,
    Embedded,
    Speech,
}

/// A way of getting a file's transcript, in order of preference.
pub enum AcquireStep {
    ParseSidecar,
    ExtractEmbedded,
    Transcribe,
}

/// What to do once a step has run.
pub enum AcquireDecision {
    /// Keep the segments the step gave.
    Use(TranscriptSource),
    /// Try the next way.
    Try(AcquireStep),
    /// Give up on this file for this pass.
    Fail,
}

/// The first way to try: the sidecar when there is one, else the embedded
/// subtitle stream.
pub fn first_step(file: &MediaFile) -> (r: AcquireStep)
    ensures
        r == if file.subtitles is Some {
            AcquireStep::ParseSidecar
        } else {
            AcquireStep::ExtractEmbedded
        },
{
    match file.subtitles {
        Some(_) => AcquireStep::ParseSidecar,
        None => AcquireStep::ExtractEmbedded,
    }
}

/// After a step: its segments are used when it gave at least one; a failed
/// or empty sidecar falls through to the embedded stream, that to speech
/// recognition, and a failed recognition fails the file.
pub open spec fn decision_after(step: AcquireStep, gave_segments: bool) -> AcquireDecision {
    match step {
        AcquireStep::ParseSidecar => if gave_segments {
            AcquireDecision::Use(TranscriptSource::Sidecar)
        } else {
            AcquireDecision::Try(AcquireStep::ExtractEmbedded)
        },
        AcquireStep::ExtractEmbedded => if gave_segments {
            AcquireDecision::Use(TranscriptSource::Embedded)
        } else {
            AcquireDecision::Try(AcquireStep::Transcribe)
        },
        AcquireStep::Transcribe => if gave_segments {
            AcquireDecision::Use(TranscriptSource::Speech)
        } else {
            AcquireDecision::Fail
        },
    }
}

pub fn after_attempt(step: &AcquireStep, outcome: &Result<Vec<Segment>, EngramError>) -> (r:
    AcquireDecision)
    ensures
        r == decision_after(*step, outcome is Ok && outcome->Ok_0@.len() > 0),
{
    let gave = match outcome {
        Ok(segs) => segs.len() > 0,
        Err(_) => false,
    };
    match step {
        AcquireStep::ParseSidecar => if gave {
            AcquireDecision::Use(TranscriptSource::Sidecar)
        } else {
            AcquireDecision::Try(AcquireStep::ExtractEmbedded)
        },
        AcquireStep::ExtractEmbedded => if gave {
            AcquireDecision::Use(TranscriptSource::Embedded)
        } else {
            AcquireDecision::Try(AcquireStep::Transcribe)
        },
        AcquireStep::Transcribe => if gave {
            AcquireDecision::Use(TranscriptSource::Speech)
        } else {
            AcquireDecision::Fail
        },
    }
}

/// The record of a file whose transcript came from `source`: it names the
/// speech model only when recognition made the transcript.
pub fn record_for(path: &str, modified_at: i64, file_size: i64, source: &TranscriptSource, model_id: &str) -> (r: IndexedFile)
    ensures
        r.path@ == path@,
        r.modified_at == modified_at,
        r.file_size == file_size,
        r.has_subtitles == !(*source is Speech),
        opt_view(r.transcription_model) == if *source is Speech {
            Some(model_id@)
        } else {
            None::<Seq<char>>
        },
        source_consistent(r.record()),
{
    let speech = match source {
        TranscriptSource::Speech => true,
        _ => false,
    };
    IndexedFile {
        path: path.to_owned(),
        modified_at,
        file_size,
        has_subtitles: !speech,
        transcription_model: if speech {
            Some(model_id.to_owned())
        } else {
            None
        },
    }
}

/// A media file's path with the modification time and size it had when
/// the walker met it.
pub struct FileStat {
    pub path: String,
    pub modified_at: i64,
    pub file_size: i64,
}

/// A write to the search index that follows a catalog change.
pub enum SearchOp {
    /// Delete every document of this path.
    Remove(String),
    /// Replace the documents of this file with one per segment.
    Update(MediaFile, Vec<Segment>),
}

/// Whether `op` deletes the documents of `path`.
pub open spec fn removes_path(op: SearchOp, path: Seq<char>) -> bool {
    match op {
        SearchOp::Remove(p) => p@ == path,
        _ => false,
    }
}

/// `n` writes added to a count that stops at the largest `u64`.
pub open spec fn count_after(count: u64, n: int) -> u64 {
    if count + n > u64::MAX {
        u64::MAX
    } else {
        (count + n) as u64
    }
}

/// The paths of the search index after a write.
pub open spec fn apply_op(paths: Set<Seq<char>>, op: SearchOp) -> Set<Seq<char>> {
    match op {
        SearchOp::Remove(p) => paths.remove(p@),
        SearchOp::Update(f, _) => paths.insert(f.media@),
    }
}

/// The paths of the search index after a run of writes.
pub open spec fn apply_ops(paths: Set<Seq<char>>, ops: Seq<SearchOp>) -> Set<Seq<char>>
    decreases ops.len(),
{
    if ops.len() == 0 {
        paths
    } else {
        apply_op(apply_ops(paths, ops.drop_last()), ops.last())
    }
}

/// Whether the catalog holds `path` with this modification time and size.
pub open spec fn up_to_date(files: Map<Seq<char>, FileRecord>, path: Seq<char>, modified_at: i64, file_size: i64) -> bool {
    files.contains_key(path) && files[path].modified_at == modified_at && files[path].file_size
        == file_size
}

/// The driver of index passes over a catalog, with counts of the writes
/// it asked for.
pub struct Indexer {
    pub catalog: Catalog,
    /// Records written to the catalog.
    pub upserts: u64,
    /// Writes handed to the search index.
    pub search_writes: u64,
}

impl Indexer {
    pub fn new(catalog: Catalog) -> (r: Indexer)
        ensures
            r.catalog == catalog,
            r.upserts == 0,
            r.search_writes == 0,
    {
        Indexer { catalog, upserts: 0, search_writes: 0 }
    }

    /// Whether the file needs work: the catalog does not hold it with this
    /// modification time and size.
    pub fn needs_indexing(&self, stat: &FileStat) -> (r: bool)
        requires
            self.catalog.wf(),
        ensures
            r == !up_to_date(self.catalog.files(), stat.path@, stat.modified_at, stat.file_size),
    {
        !self.catalog.is_upto_date(stat.path.as_str(), stat.modified_at, stat.file_size)
    }

    /// Drops from the catalog every file that no longer exists (`exists`
    /// holds one flag per path, in the order of `all_paths`) and returns
    /// the search-index deletions that follow.
    pub fn prune(&mut self, exists: &[bool]) -> (r: Vec<SearchOp>)
        requires
            old(self).catalog.wf(),
            exists@.len() == old(self).catalog.path_seq().len(),
        ensures
            final(self).catalog.wf(),
            final(self).catalog.files() == old(self).catalog.files().remove_keys(
                missing_paths(old(self).catalog.path_seq(), exists@).to_set(),
            ),
            final(self).catalog.transcripts() == rows_in(
                old(self).catalog.transcripts(),
                final(self).catalog.files(),
            ),
            r@.len() == missing_paths(old(self).catalog.path_seq(), exists@).len(),
            forall|k: int|
                0 <= k < r@.len() ==> removes_path(
                    #[trigger] r@[k],
                    missing_paths(old(self).catalog.path_seq(), exists@)[k],
                ),
            final(self).upserts == old(self).upserts,
            final(self).search_writes == count_after(old(self).search_writes, r@.len() as int),
            forall|p: Seq<char>| #[trigger]
                final(self).catalog.files().contains_key(p) ==> exists|i: int|
                    0 <= i < exists@.len() && old(self).catalog.path_seq()[i] == p && exists@[i],
            forall|p: Seq<char>| #[trigger]
                final(self).catalog.files().contains_key(p) ==> old(self).catalog.files().contains_key(p),
            forall|s: Set<Seq<char>>|
                s.subset_of(old(self).catalog.files().dom()) ==> #[trigger] apply_ops(s, r@).subset_of(
                    final(self).catalog.files().dom(),
                ),
    {
        let ghost c0 = self.catalog;
        let removed = self.catalog.prune_missing(exists);
        let ghost gone = string_views(removed@);
        proof {
            assert forall|p: Seq<char>| #[trigger] self.catalog.files().contains_key(p) implies exists|i: int|
                0 <= i < exists@.len() && c0.path_seq()[i] == p && exists@[i] by {
                assert(self.catalog.files() == c0.files().remove_keys(gone.to_set()));
                assert(c0.files().contains_key(p) && !gone.to_set().contains(p));
                c0.lemma_path_seq_dom(p);
                let i = choose|i: int| 0 <= i < c0.path_seq().len() && c0.path_seq()[i] == p;
                if !exists@[i] {
                    lemma_missing_contains(c0.path_seq(), exists@, i);
                }
            }
        }
        let mut ops: Vec<SearchOp> = Vec::new();
        let mut i: usize = 0;
        while i < removed.len()
            invariant
                i <= removed@.len(),
                gone == string_views(removed@),
                self.catalog.files() == c0.files().remove_keys(gone.to_set()),
                ops@.len() == i,
                forall|k: int| 0 <= k < i ==> #[trigger] ops@[k] == SearchOp::Remove(removed@[k]),
            decreases removed@.len() - i,
        {
            ops.push(SearchOp::Remove(removed[i].clone()));
            i = i + 1;
        }
        proof {
            assert forall|s: Set<Seq<char>>|
                s.subset_of(c0.files().dom()) implies #[trigger] apply_ops(s, ops@).subset_of(
                self.catalog.files().dom(),
            ) by {
                lemma_removes(s, ops@, removed@);
                assert forall|p: Seq<char>| apply_ops(s, ops@).contains(p) implies self.catalog.files().dom().contains(p) by {
                    assert(s.contains(p));
                    if gone.to_set().contains(p) {
                        let k = choose|k: int| 0 <= k < gone.len() && gone[k] == p;
                        assert(removed@[k]@ == p);
                    }
                }
            }
        }
        proof {
            assert forall|k: int| 0 <= k < ops@.len() implies removes_path(#[trigger] ops@[k], gone[k]) by {
                assert(ops@[k] == SearchOp::Remove(removed@[k]));
                assert(gone[k] == removed@[k]@);
            }
        }
        self.search_writes = if self.search_writes as u128 + removed.len() as u128 > u64::MAX as u128 {
            u64::MAX
        } else {
            self.search_writes + removed.len() as u64
        };
        ops
    }

    /// Writes the record and transcript of a file whose transcript came from
    /// `source`, and returns the search-index update that follows.
    pub fn record(
        &mut self,
        file: MediaFile,
        modified_at: i64,
        file_size: i64,
        segments: Vec<Segment>,
        source: &TranscriptSource,
        model_id: &str,
    ) -> (r: SearchOp)
        requires
            old(self).catalog.wf(),
        ensures
            final(self).catalog.wf(),
            final(self).catalog.files() == old(self).catalog.files().insert(
                file.media@,
                record_for_spec(modified_at, file_size, *source, model_id@),
            ),
            up_to_date(final(self).catalog.files(), file.media@, modified_at, file_size),
            final(self).catalog.transcripts() == rows_in(
                old(self).catalog.transcripts(),
                old(self).catalog.files().remove(file.media@),
            ) + tagged(file.media@, seg_views(segments@)),
            r == SearchOp::Update(file, segments),
            final(self).upserts == count_after(old(self).upserts, 1),
            final(self).search_writes == count_after(old(self).search_writes, 1),
            forall|s: Set<Seq<char>>|
                s.subset_of(old(self).catalog.files().dom()) ==> #[trigger] apply_op(s, r).subset_of(
                    final(self).catalog.files().dom(),
                ),
    {
        let rec = record_for(file.media.as_str(), modified_at, file_size, source, model_id);
        self.catalog.upsert_file(&rec);
        let stored = self.catalog.store_segments(file.media.as_str(), segments.as_slice());
        proof {
            assert(rec.record() == record_for_spec(modified_at, file_size, *source, model_id@));
            assert(self.catalog.files().contains_key(file.media@));
            assert(old(self).catalog.files().insert(file.media@, rec.record()).remove(file.media@)
                =~= old(self).catalog.files().remove(file.media@));
        }
        if self.upserts < u64::MAX {
            self.upserts = self.upserts + 1;
        }
        if self.search_writes < u64::MAX {
            self.search_writes = self.search_writes + 1;
        }
        SearchOp::Update(file, segments)
    }
}

/// The record that `record` writes for a file.
pub open spec fn record_for_spec(modified_at: i64, file_size: i64, source: TranscriptSource, model_id: Seq<char>) -> FileRecord {
    FileRecord {
        modified_at,
        file_size,
        has_subtitles: !(source is Speech),
        transcription_model: if source is Speech {
            Some(model_id)
        } else {
            None
        },
    }
}

proof fn lemma_removes(s: Set<Seq<char>>, ops: Seq<SearchOp>, removed: Seq<String>)
    requires
        ops.len() == removed.len(),
        forall|k: int| 0 <= k < ops.len() ==> #[trigger] ops[k] == SearchOp::Remove(removed[k]),
    ensures
        forall|p: Seq<char>| #[trigger] apply_ops(s, ops).contains(p) <==> (s.contains(p)
            && !string_views(removed).to_set().contains(p)),
    decreases ops.len(),
{
    if ops.len() > 0 {
        assert forall|k: int| 0 <= k < ops.drop_last().len() implies #[trigger] ops.drop_last()[k]
            == SearchOp::Remove(removed.drop_last()[k]) by {
            assert(ops.drop_last()[k] == ops[k]);
        }
        lemma_removes(s, ops.drop_last(), removed.drop_last());
        let last = removed.last();
        assert(ops.last() == SearchOp::Remove(last));
        assert forall|p: Seq<char>| #[trigger] apply_ops(s, ops).contains(p) <==> (s.contains(p)
            && !string_views(removed).to_set().contains(p)) by {
            let g = string_views(removed);
            let g0 = string_views(removed.drop_last());
            assert(g0 =~= g.drop_last());
            assert(apply_ops(s, ops) == apply_ops(s, ops.drop_last()).remove(last@));
            assert(apply_ops(s, ops.drop_last()).contains(p) <==> (s.contains(p)
                && !g0.to_set().contains(p)));
            if g.contains(p) {
                let k = choose|k: int| 0 <= k < g.len() && g[k] == p;
                if k < g.len() - 1 {
                    assert(g0[k] == p);
                }
            }
            if g0.contains(p) {
                let k = choose|k: int| 0 <= k < g0.len() && g0[k] == p;
                assert(g[k] == p);
            }
            assert(g[g.len() - 1] == last@);
        }
    }
}

/// The catalog after a pass over `stats` (path, modification time, size):
/// each file that was not up to date gets the record in `recs` at its place.
pub open spec fn pass_result(
    files: Map<Seq<char>, FileRecord>,
    stats: Seq<(Seq<char>, i64, i64)>,
    recs: Seq<FileRecord>,
) -> Map<Seq<char>, FileRecord>
    decreases stats.len(),
{
    if stats.len() == 0 || recs.len() == 0 {
        files
    } else {
        let f = pass_result(files, stats.drop_last(), recs.drop_last());
        let (p, m, z) = stats.last();
        if up_to_date(f, p, m, z) {
            f
        } else {
            f.insert(p, recs.last())
        }
    }
}

/// How many catalog writes a pass over `stats` makes.
pub open spec fn pass_writes(
    files: Map<Seq<char>, FileRecord>,
    stats: Seq<(Seq<char>, i64, i64)>,
    recs: Seq<FileRecord>,
) -> nat
    decreases stats.len(),
{
    if stats.len() == 0 || recs.len() == 0 {
        0
    } else {
        let f = pass_result(files, stats.drop_last(), recs.drop_last());
        let (p, m, z) = stats.last();
        pass_writes(files, stats.drop_last(), recs.drop_last()) + if up_to_date(f, p, m, z) {
            0nat
        } else {
            1nat
        }
    }
}

proof fn lemma_pass_leaves_up_to_date(
    files: Map<Seq<char>, FileRecord>,
    stats: Seq<(Seq<char>, i64, i64)>,
    recs: Seq<FileRecord>,
)
    requires
        stats.len() == recs.len(),
        forall|i: int, j: int|
            0 <= i < stats.len() && 0 <= j < stats.len() && i != j ==> stats[i].0 != stats[j].0,
        forall|i: int|
            0 <= i < stats.len() ==> #[trigger] recs[i].modified_at == stats[i].1
                && recs[i].file_size == stats[i].2,
    ensures
        forall|i: int|
            0 <= i < stats.len() ==> up_to_date(
                pass_result(files, stats, recs),
                #[trigger] stats[i].0,
                stats[i].1,
                stats[i].2,
            ),
    decreases stats.len(),
{
    if stats.len() > 0 {
        let s0 = stats.drop_last();
        let r0 = recs.drop_last();
        assert forall|i: int| 0 <= i < s0.len() implies #[trigger] r0[i].modified_at == s0[i].1
            && r0[i].file_size == s0[i].2 by {
            assert(r0[i] == recs[i] && s0[i] == stats[i]);
        }
        lemma_pass_leaves_up_to_date(files, s0, r0);
        let f = pass_result(files, s0, r0);
        let n = stats.len() - 1;
        assert(recs[n].modified_at == stats[n].1);
        assert forall|i: int| 0 <= i < stats.len() implies up_to_date(
            pass_result(files, stats, recs),
            #[trigger] stats[i].0,
            stats[i].1,
            stats[i].2,
        ) by {
            if i < n {
                assert(s0[i] == stats[i]);
                assert(up_to_date(f, s0[i].0, s0[i].1, s0[i].2));
                assert(stats[i].0 != stats[n].0);
            }
        }
    }
}

proof fn lemma_pass_over_up_to_date(
    files: Map<Seq<char>, FileRecord>,
    stats: Seq<(Seq<char>, i64, i64)>,
    recs: Seq<FileRecord>,
)
    requires
        forall|i: int|
            0 <= i < stats.len() ==> up_to_date(files, #[trigger] stats[i].0, stats[i].1, stats[i].2),
    ensures
        pass_result(files, stats, recs) == files,
        pass_writes(files, stats, recs) == 0,
    decreases stats.len(),
{
    if stats.len() > 0 && recs.len() > 0 {
        let s0 = stats.drop_last();
        assert forall|i: int| 0 <= i < s0.len() implies up_to_date(
            files,
            #[trigger] s0[i].0,
            s0[i].1,
            s0[i].2,
        ) by {
            assert(s0[i] == stats[i]);
        }
        lemma_pass_over_up_to_date(files, s0, recs.drop_last());
        assert(up_to_date(files, stats[stats.len() - 1].0, stats[stats.len() - 1].1, stats[stats.len() - 1].2));
    }
}

/// Index passes are idempotent: once a pass has given every file of a tree
/// a record with the modification time and size it was seen with, a second
/// pass over the same, unchanged tree finds every file up to date, writes
/// nothing, and leaves the catalog as it was. The paths of a tree are
/// distinct.
pub proof fn lemma_second_pass_writes_nothing(
    files: Map<Seq<char>, FileRecord>,
    stats: Seq<(Seq<char>, i64, i64)>,
    recs: Seq<FileRecord>,
    recs_again: Seq<FileRecord>,
)
    requires
        stats.len() == recs.len(),
        forall|i: int, j: int|
            0 <= i < stats.len() && 0 <= j < stats.len() && i != j ==> stats[i].0 != stats[j].0,
        forall|i: int|
            0 <= i < stats.len() ==> #[trigger] recs[i].modified_at == stats[i].1
                && recs[i].file_size == stats[i].2,
    ensures
        pass_writes(pass_result(files, stats, recs), stats, recs_again) == 0,
        pass_result(pass_result(files, stats, recs), stats, recs_again) == pass_result(
            files,
            stats,
            recs,
        ),
{
    lemma_pass_leaves_up_to_date(files, stats, recs);
    lemma_pass_over_up_to_date(pass_result(files, stats, recs), stats, recs_again);
}

/// The catalog after recording each (path, record) in turn.
pub open spec fn record_all(
    files: Map<Seq<char>, FileRecord>,
    recs: Seq<(Seq<char>, FileRecord)>,
) -> Map<Seq<char>, FileRecord>
    decreases recs.len(),
{
    if recs.len() == 0 {
        files
    } else {
        record_all(files, recs.drop_last()).insert(recs.last().0, recs.last().1)
    }
}

/// Whether `op` replaces the documents of `path`.
pub open spec fn updates_path(op: SearchOp, path: Seq<char>) -> bool {
    match op {
        SearchOp::Update(f, _) => f.media@ == path,
        _ => false,
    }
}

proof fn lemma_apply_ops_append(s: Set<Seq<char>>, a: Seq<SearchOp>, b: Seq<SearchOp>)
    ensures
        apply_ops(s, a + b) == apply_ops(apply_ops(s, a), b),
    decreases b.len(),
{
    if b.len() == 0 {
        assert(a + b =~= a);
    } else {
        lemma_apply_ops_append(s, a, b.drop_last());
        assert((a + b).drop_last() =~= a + b.drop_last());
        assert((a + b).last() == b.last());
    }
}

proof fn lemma_apply_removes(s: Set<Seq<char>>, removes: Seq<SearchOp>, missing: Seq<Seq<char>>)
    requires
        removes.len() == missing.len(),
        forall|k: int| 0 <= k < removes.len() ==> removes_path(#[trigger] removes[k], missing[k]),
    ensures
        forall|p: Seq<char>| #[trigger]
            apply_ops(s, removes).contains(p) ==> s.contains(p) && !missing.contains(p),
    decreases removes.len(),
{
    if removes.len() > 0 {
        let r0 = removes.drop_last();
        let m0 = missing.drop_last();
        assert forall|k: int| 0 <= k < r0.len() implies removes_path(#[trigger] r0[k], m0[k]) by {
            assert(r0[k] == removes[k] && m0[k] == missing[k]);
        }
        lemma_apply_removes(s, r0, m0);
        let last = missing.last();
        assert(removes_path(removes[removes.len() - 1], last));
        assert forall|p: Seq<char>| #[trigger]
            apply_ops(s, removes).contains(p) implies s.contains(p) && !missing.contains(p) by {
            assert(apply_ops(s, removes) == apply_op(apply_ops(s, r0), removes.last()));
            assert(apply_ops(s, r0).contains(p));
            if missing.contains(p) {
                let k = choose|k: int| 0 <= k < missing.len() && missing[k] == p;
                if k < missing.len() - 1 {
                    assert(m0[k] == p);
                }
            }
        }
    }
}

proof fn lemma_apply_updates(
    t: Set<Seq<char>>,
    files: Map<Seq<char>, FileRecord>,
    updates: Seq<SearchOp>,
    recs: Seq<(Seq<char>, FileRecord)>,
)
    requires
        t.subset_of(files.dom()),
        updates.len() == recs.len(),
        forall|j: int| 0 <= j < updates.len() ==> updates_path(#[trigger] updates[j], recs[j].0),
    ensures
        apply_ops(t, updates).subset_of(record_all(files, recs).dom()),
    decreases updates.len(),
{
    if updates.len() > 0 {
        let u0 = updates.drop_last();
        let r0 = recs.drop_last();
        assert forall|j: int| 0 <= j < u0.len() implies updates_path(#[trigger] u0[j], r0[j].0) by {
            assert(u0[j] == updates[j] && r0[j] == recs[j]);
        }
        lemma_apply_updates(t, files, u0, r0);
        assert(updates_path(updates[updates.len() - 1], recs[recs.len() - 1].0));
    }
}

/// Reconciliation over a pass: when the search index held only catalog
/// paths before it, the pass's pruning deletions followed by the updates of
/// the files it recorded leave the search index holding only paths of the
/// catalog the pass leaves behind. That catalog holds no path the pruning
/// found missing, unless the pass recorded it again.
pub proof fn lemma_pass_reconciles(
    search: Set<Seq<char>>,
    files: Map<Seq<char>, FileRecord>,
    missing: Seq<Seq<char>>,
    removes: Seq<SearchOp>,
    recs: Seq<(Seq<char>, FileRecord)>,
    updates: Seq<SearchOp>,
)
    requires
        search.subset_of(files.dom()),
        removes.len() == missing.len(),
        forall|k: int| 0 <= k < removes.len() ==> removes_path(#[trigger] removes[k], missing[k]),
        updates.len() == recs.len(),
        forall|j: int| 0 <= j < updates.len() ==> updates_path(#[trigger] updates[j], recs[j].0),
    ensures
        apply_ops(search, removes + updates).subset_of(
            record_all(files.remove_keys(missing.to_set()), recs).dom(),
        ),
{
    let pruned = files.remove_keys(missing.to_set());
    lemma_apply_ops_append(search, removes, updates);
    lemma_apply_removes(search, removes, missing);
    let t = apply_ops(search, removes);
    assert forall|p: Seq<char>| t.contains(p) implies pruned.dom().contains(p) by {
        assert(search.contains(p) && !missing.contains(p));
    }
    lemma_apply_updates(t, pruned, updates, recs);
}

} // verus!
