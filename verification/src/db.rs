//! The fragment store.
//!
//! Fragments (chunks) are owned exclusively by [`Database`]: they are
//! created in bulk when a conversation is (re-)processed, replaced
//! atomically, and never mutated. A lexical token index is kept in lockstep
//! with the fragment texts, and a processed-marker table records the file
//! fingerprint each conversation was last processed under.

use vstd::prelude::*;
use crate::vector::valid_vector;
use crate::text::{tokens_of, str_to_chars, clean_tokens, str_eq};
use crate::session::{TextChunk, opt_str_view, clone_opt_string};
use crate::query::sanitize_fts_query;

verus! {

/// A fragment as stored: its sequence position (`rowid`), opaque key (`id`),
/// owning conversation, half-open turn range, text and embedding.
pub struct StoredChunk {
    /// Sequence position, unique across the store's lifetime.
    pub rowid: i64,
    /// Opaque stable key assigned at storage time.
    pub id: String,
    pub session_id: String,
    pub turn_start: usize,
    pub turn_end: usize,
    pub timestamp: Option<String>,
    pub text: String,
    pub embedding: Vec<i64>,
}

/// The mathematical content of a stored fragment.
pub ghost struct ChunkView {
    pub rowid: int,
    pub id: Seq<char>,
    pub session_id: Seq<char>,
    pub turn_start: int,
    pub turn_end: int,
    pub timestamp: Option<Seq<char>>,
    pub text: Seq<char>,
    pub embedding: Seq<i64>,
}

impl DeepView for StoredChunk {
    type V = ChunkView;

    open spec fn deep_view(&self) -> ChunkView {
        self.view()
    }
}

impl View for StoredChunk {
    type V = ChunkView;

    open spec fn view(&self) -> ChunkView {
        ChunkView {
            rowid: self.rowid as int,
            id: self.id@,
            session_id: self.session_id@,
            turn_start: self.turn_start as int,
            turn_end: self.turn_end as int,
            timestamp: opt_str_view(self.timestamp),
            text: self.text@,
            embedding: self.embedding@,
        }
    }
}

impl Clone for StoredChunk {
    /// Clones preserve the fragment's content exactly.
    fn clone(&self) -> (r: Self)
        ensures
            r@ == self@,
    {
        StoredChunk {
            rowid: self.rowid,
            id: self.id.clone(),
            session_id: self.session_id.clone(),
            turn_start: self.turn_start,
            turn_end: self.turn_end,
            timestamp: clone_opt_string(&self.timestamp),
            text: self.text.clone(),
            embedding: clone_embedding(&self.embedding),
        }
    }
}

/// Clone an embedding, preserving its coordinates.
fn clone_embedding(v: &Vec<i64>) -> (r: Vec<i64>)
    ensures
        r@ == v@,
{
    let mut r: Vec<i64> = Vec::new();
    let n = v.len();
    for i in 0..n
        invariant
            n == v@.len(),
            r@ == v@.take(i as int),
    {
        r.push(v[i]);
        proof {
            assert(r@ =~= v@.take(i + 1));
        }
    }
    proof {
        assert(v@.take(n as int) =~= v@);
    }
    r
}

/// The fingerprint a conversation's fragments were last generated under.
struct Marker {
    session_id: String,
    file_path: String,
    file_size: u64,
    file_mtime: i64,
    chunks_count: usize,
    processed_at: String,
}

/// The mathematical content of a processed marker.
pub ghost struct MarkerView {
    pub session_id: Seq<char>,
    pub file_path: Seq<char>,
    pub file_size: u64,
    pub file_mtime: i64,
    pub chunks_count: int,
    pub processed_at: Seq<char>,
}

impl DeepView for Marker {
    type V = MarkerView;

    closed spec fn deep_view(&self) -> MarkerView {
        self.view()
    }
}

impl View for Marker {
    type V = MarkerView;

    closed spec fn view(&self) -> MarkerView {
        MarkerView {
            session_id: self.session_id@,
            file_path: self.file_path@,
            file_size: self.file_size,
            file_mtime: self.file_mtime,
            chunks_count: self.chunks_count as int,
            processed_at: self.processed_at@,
        }
    }
}

/// One lexical index entry: a fragment's normalized tokens.
struct FtsEntry {
    rowid: i64,
    tokens: Vec<Vec<char>>,
}

/// The fragment store: fragments, the lexical index kept in lockstep with
/// their texts, and the processed markers.
pub struct Database {
    chunks: Vec<StoredChunk>,
    fts: Vec<FtsEntry>,
    markers: Vec<Marker>,
    next_rowid: i64,
}

/// The mathematical content of the store.
pub ghost struct DbView {
    pub chunks: Seq<ChunkView>,
    pub markers: Seq<MarkerView>,
    pub next_rowid: int,
}

impl View for Database {
    type V = DbView;

    closed spec fn view(&self) -> DbView {
        DbView {
            chunks: Seq::new(self.chunks@.len(), |i: int| self.chunks@[i]@),
            markers: Seq::new(self.markers@.len(), |i: int| self.markers@[i]@),
            next_rowid: self.next_rowid as int,
        }
    }
}

/// Largest number of fragments the store accepts; keeps every rank a small
/// machine integer.
pub const MAX_CHUNKS: usize = 0xFFFF_FFFF;

impl Database {
    /// The store's invariant: fragments carry valid turn ranges and
    /// vectors, rowids strictly increase (so they are unique), marker
    /// conversations are unique, and the lexical index mirrors the
    /// fragment texts entry by entry.
    pub closed spec fn wf(self) -> bool {
        &&& self.fts@.len() == self.chunks@.len()
        &&& forall|i: int| 0 <= i < self.chunks@.len()
            ==> (#[trigger] self.fts@[i]).rowid == self.chunks@[i].rowid
                && self.fts@[i].tokens.deep_view() == tokens_of(self.chunks@[i].text@)
        &&& forall|i: int| 0 <= i < self.chunks@.len()
            ==> 0 <= (#[trigger] self.chunks@[i])@.rowid < self.next_rowid
        &&& forall|i: int, j: int| 0 <= i < j < self.chunks@.len()
            ==> (#[trigger] self.chunks@[i])@.rowid < (#[trigger] self.chunks@[j])@.rowid
        &&& forall|i: int| 0 <= i < self.chunks@.len()
            ==> (#[trigger] self.chunks@[i])@.turn_start < self.chunks@[i]@.turn_end
                && valid_vector(self.chunks@[i]@.embedding)
        &&& forall|i: int, j: int| 0 <= i < j < self.markers@.len()
            ==> (#[trigger] self.markers@[i])@.session_id != (#[trigger] self.markers@[j])@.session_id
        &&& self.chunks@.len() <= MAX_CHUNKS
        &&& 0 <= self.next_rowid
    }

    /// Invariant facts a caller may rely on, stated over the view.
    pub proof fn lemma_wf_view(self)
        requires
            self.wf(),
        ensures
            self@.chunks.len() <= MAX_CHUNKS,
            forall|i: int, j: int| 0 <= i < j < self@.chunks.len()
                ==> (#[trigger] self@.chunks[i]).rowid < (#[trigger] self@.chunks[j]).rowid,
            forall|i: int| 0 <= i < self@.chunks.len()
                ==> (#[trigger] self@.chunks[i]).turn_start < self@.chunks[i].turn_end
                    && valid_vector(self@.chunks[i].embedding),
            forall|i: int| 0 <= i < self@.chunks.len()
                ==> 0 <= (#[trigger] self@.chunks[i]).rowid <= i64::MAX,
    {
        assert forall|i: int| 0 <= i < self@.chunks.len()
            implies 0 <= (#[trigger] self@.chunks[i]).rowid <= i64::MAX by {
            assert(self@.chunks[i] == self.chunks@[i]@);
        }
    }

    /// An empty store.
    pub fn new() -> (db: Database)
        ensures
            db.wf(),
            db@.chunks == Seq::<ChunkView>::empty(),
            db@.markers == Seq::<MarkerView>::empty(),
    {
        let db = Database {
            chunks: Vec::new(),
            fts: Vec::new(),
            markers: Vec::new(),
            next_rowid: 0,
        };
        proof {
            assert(db@.chunks =~= Seq::<ChunkView>::empty());
            assert(db@.markers =~= Seq::<MarkerView>::empty());
        }
        db
    }

    /// True exactly when a marker exists for the conversation and both
    /// fingerprint fields match it; any mismatch or absence means the
    /// conversation must be reprocessed.
    pub fn is_session_processed(&self, session_id: &str, file_size: u64, file_mtime: i64) -> (r: bool)
        requires
            self.wf(),
        ensures
            r == exists|i: int| 0 <= i < self@.markers.len()
                && (#[trigger] self@.markers[i]).session_id == session_id@
                && self@.markers[i].file_size == file_size
                && self@.markers[i].file_mtime == file_mtime,
    {
        let n = self.markers.len();
        for i in 0..n
            invariant
                n == self.markers@.len(),
                n == self@.markers.len(),
                forall|k: int| 0 <= k < i ==> !((#[trigger] self@.markers[k]).session_id == session_id@
                    && self@.markers[k].file_size == file_size
                    && self@.markers[k].file_mtime == file_mtime),
        {
            let m = &self.markers[i];
            proof {
                assert(self@.markers[i as int] == self.markers@[i as int]@);
            }
            if str_eq(m.session_id.as_str(), session_id)
                && m.file_size == file_size
                && m.file_mtime == file_mtime {
                return true;
            }
        }
        false
    }

    /// Load every fragment, in store order. The full-corpus fallback path.
    pub fn load_all_chunks(&self) -> (r: Vec<StoredChunk>)
        requires
            self.wf(),
        ensures
            r.deep_view() == self@.chunks,
    {
        let n = self.chunks.len();
        let mut r: Vec<StoredChunk> = Vec::new();
        for i in 0..n
            invariant
                n == self.chunks@.len(),
                r.deep_view() =~= self@.chunks.take(i as int),
        {
            let ghost before = r.deep_view();
            r.push(self.chunks[i].clone());
            proof {
                assert(r.deep_view() =~= before.push(self.chunks@[i as int]@));
                assert(self@.chunks.take(i + 1) =~= self@.chunks.take(i as int).push(self@.chunks[i as int]));
            }
        }
        proof {
            assert(self@.chunks.take(n as int) =~= self@.chunks);
        }
        r
    }

    /// Load exactly the fragments whose rowid is listed, in store order.
    /// An empty key list loads nothing.
    pub fn load_chunks_by_rowids(&self, rowids: &Vec<i64>) -> (r: Vec<StoredChunk>)
        requires
            self.wf(),
        ensures
            r.deep_view() == self@.chunks.filter(|c: ChunkView| rowids@.contains(c.rowid as i64)),
    {
        let n = self.chunks.len();
        let mut r: Vec<StoredChunk> = Vec::new();
        proof {
            reveal(Seq::filter);
            assert(self@.chunks.take(0int) =~= Seq::<ChunkView>::empty());
        }
        for i in 0..n
            invariant
                n == self.chunks@.len(),
                r.deep_view() =~= self@.chunks.take(i as int).filter(
                    |c: ChunkView| rowids@.contains(c.rowid as i64)),
        {
            let ghost pred = |c: ChunkView| rowids@.contains(c.rowid as i64);
            let ghost before = r.deep_view();
            let mut found = false;
            let m = rowids.len();
            let rid = self.chunks[i].rowid;
            for j in 0..m
                invariant
                    m == rowids@.len(),
                    found == exists|k: int| 0 <= k < j && rowids@[k] == rid,
            {
                if rowids[j] == rid {
                    found = true;
                }
            }
            proof {
                assert(found == rowids@.contains(rid));
                assert(self@.chunks.take(i + 1) =~= self@.chunks.take(i as int).push(self@.chunks[i as int]));
                assert(self@.chunks[i as int].rowid as i64 == rid);
            }
            if found {
                r.push(self.chunks[i].clone());
            }
            proof {
                self@.chunks.take(i as int).lemma_filter_push(self@.chunks[i as int], pred);
                if pred(self@.chunks[i as int]) {
                    assert(r.deep_view() =~= before.push(self@.chunks[i as int]));
                }
            }
        }
        proof {
            assert(self@.chunks.take(n as int) =~= self@.chunks);
        }
        r
    }

    /// Counts of stored fragments and processed conversations, and the
    /// latest processing timestamp (the lexicographically greatest, which
    /// for the stored timestamp format is the most recent).
    pub fn stats(&self) -> (r: DbStats)
        requires
            self.wf(),
        ensures
            r.chunks_count == self@.chunks.len(),
            r.sessions_count == self@.markers.len(),
            self@.markers.len() == 0 <==> opt_str_view(r.last_processed) is None,
    {
        let mut last: Option<String> = None;
        let n = self.markers.len();
        for i in 0..n
            invariant
                n == self.markers@.len(),
                i > 0 ==> last is Some,
                i == 0 ==> last is None,
        {
            let m = &self.markers[i];
            let replace = match &last {
                Option::Some(cur) => str_lt(cur.as_str(), m.processed_at.as_str()),
                Option::None => true,
            };
            if replace {
                last = Some(m.processed_at.clone());
            }
        }
        DbStats {
            chunks_count: self.chunks.len(),
            sessions_count: self.markers.len(),
            last_processed: last,
        }
    }
}

/// Why a replacement batch was rejected. A rejected batch leaves the store
/// unchanged.
#[derive(Clone, Copy, PartialEq, Eq, Structural, Debug)]
pub enum StoreError {
    /// A chunk's turn range is not a half-open nonempty range.
    InvalidTurnRange,
    /// A chunk's vector has out-of-range coordinates or too many of them.
    InvalidEmbedding,
    /// A chunk names a conversation other than the one being replaced.
    SessionMismatch,
    /// The store's fragment capacity or key space would be exceeded.
    StoreFull,
}

/// One batch entry is acceptable for the given conversation.
pub open spec fn chunk_entry_ok(sid: Seq<char>, entry: (TextChunk, Vec<i64>)) -> bool {
    &&& entry.0.turn_start < entry.0.turn_end
    &&& entry.0.session_id@ == sid
    &&& valid_vector(entry.1@)
}

/// The first invalid entry's error, scanning from position `i`.
pub open spec fn first_chunk_error_from(
    sid: Seq<char>,
    batch: Seq<(TextChunk, Vec<i64>)>,
    i: int,
) -> Option<StoreError>
    decreases batch.len() - i,
{
    if i < 0 || i >= batch.len() {
        None
    } else if !(batch[i].0.turn_start < batch[i].0.turn_end) {
        Some(StoreError::InvalidTurnRange)
    } else if batch[i].0.session_id@ != sid {
        Some(StoreError::SessionMismatch)
    } else if !valid_vector(batch[i].1@) {
        Some(StoreError::InvalidEmbedding)
    } else {
        first_chunk_error_from(sid, batch, i + 1)
    }
}

/// Keeping every fragment of other conversations.
pub open spec fn other_session(sid: Seq<char>) -> spec_fn(ChunkView) -> bool {
    |c: ChunkView| c.session_id != sid
}

/// Keeping every marker of other conversations.
pub open spec fn other_marker(sid: Seq<char>) -> spec_fn(MarkerView) -> bool {
    |m: MarkerView| m.session_id != sid
}

/// A batch with no validation error is entry-wise acceptable.
proof fn lemma_no_error_all_ok(sid: Seq<char>, batch: Seq<(TextChunk, Vec<i64>)>, i: int)
    requires
        0 <= i,
        first_chunk_error_from(sid, batch, i) is None,
    ensures
        forall|k: int| i <= k < batch.len() ==> chunk_entry_ok(sid, #[trigger] batch[k]),
    decreases batch.len() - i,
{
    if i < batch.len() {
        lemma_no_error_all_ok(sid, batch, i + 1);
    }
}

/// The outcome `store_chunks` owes: the batch's first validation error, or
/// capacity exhaustion, or acceptance.
pub open spec fn store_outcome(
    db: DbView,
    sid: Seq<char>,
    batch: Seq<(TextChunk, Vec<i64>)>,
) -> Option<StoreError> {
    match first_chunk_error_from(sid, batch, 0) {
        Option::Some(e) => Option::Some(e),
        Option::None => {
            let kept = db.chunks.filter(other_session(sid)).len();
            if kept + batch.len() > MAX_CHUNKS {
                Option::Some(StoreError::StoreFull)
            } else if db.next_rowid + batch.len() > i64::MAX {
                Option::Some(StoreError::StoreFull)
            } else {
                Option::None
            }
        },
    }
}

/// A stored fragment as `store_chunks` writes it: all fields taken from the
/// batch entry, the rowid assigned in sequence. Only the opaque key is left
/// open, beyond its length.
pub open spec fn chunk_placed(c: ChunkView, rowid: int, entry: (TextChunk, Vec<i64>)) -> bool {
    &&& c.rowid == rowid
    &&& c.id.len() == 36
    &&& c.session_id == entry.0.session_id@
    &&& c.turn_start == entry.0.turn_start
    &&& c.turn_end == entry.0.turn_end
    &&& c.timestamp == opt_str_view(entry.0.timestamp)
    &&& c.text == entry.0.text@
    &&& c.embedding == entry.1@
}

/// Relies on `uuid::Uuid::new_v4` and its hyphenated `Display` form: a
/// fresh random key rendered as exactly 36 characters. Nothing more is
/// assumed of the value.
#[verifier::external_body]
fn new_chunk_id() -> (r: String)
    ensures
        r@.len() == 36,
{
    uuid::Uuid::new_v4().to_string()
}

/// Clone a token list, preserving its content.
fn clone_tokens(v: &Vec<Vec<char>>) -> (r: Vec<Vec<char>>)
    ensures
        r.deep_view() == v.deep_view(),
{
    let mut r: Vec<Vec<char>> = Vec::new();
    let n = v.len();
    for i in 0..n
        invariant
            n == v@.len(),
            r.deep_view() =~= v.deep_view().take(i as int),
    {
        let mut t: Vec<char> = Vec::new();
        let m = v[i].len();
        for j in 0..m
            invariant
                n == v@.len(),
                i < n,
                m == v@[i as int]@.len(),
                t@ == v@[i as int]@.take(j as int),
        {
            t.push(v[i][j]);
            proof {
                assert(t@ =~= v@[i as int]@.take(j + 1));
            }
        }
        let ghost before = r.deep_view();
        proof {
            assert(t@ =~= v@[i as int]@);
        }
        r.push(t);
        proof {
            assert(r.deep_view() =~~= before.push(v@[i as int]@));
            assert(r.deep_view() =~~= v.deep_view().take(i + 1));
        }
    }
    proof {
        assert(v.deep_view().take(n as int) =~= v.deep_view());
    }
    r
}

impl Database {
    /// Atomically replace a conversation's fragments and record its
    /// fingerprint marker.
    ///
    /// Either everything happens — the conversation's old fragments are
    /// gone, the batch is appended with fresh keys and sequence positions,
    /// the old marker is replaced — or nothing does: on any error the store
    /// is exactly as it was. The lexical index is updated in the same step
    /// (its synchronization is part of the store invariant).
    pub fn store_chunks(
        &mut self,
        session_id: &str,
        file_path: &str,
        file_size: u64,
        file_mtime: i64,
        processed_at: &str,
        batch: &Vec<(TextChunk, Vec<i64>)>,
    ) -> (r: Result<(), StoreError>)
        requires
            old(self).wf(),
        ensures
            final(self).wf(),
            r is Err <==> store_outcome(old(self)@, session_id@, batch@) is Some,
            r is Err ==> final(self)@ == old(self)@
                && Some(r->Err_0) == store_outcome(old(self)@, session_id@, batch@),
            r is Ok ==> ({
                let kept = old(self)@.chunks.filter(other_session(session_id@));
                let keptm = old(self)@.markers.filter(other_marker(session_id@));
                &&& final(self)@.chunks.len() == kept.len() + batch@.len()
                &&& final(self)@.chunks.take(kept.len() as int) == kept
                &&& forall|i: int| 0 <= i < batch@.len()
                    ==> chunk_placed(#[trigger] final(self)@.chunks[kept.len() + i],
                        old(self)@.next_rowid + i, batch@[i])
                &&& final(self)@.markers.len() == keptm.len() + 1
                &&& final(self)@.markers.take(keptm.len() as int) == keptm
                &&& final(self)@.markers.last() == (MarkerView {
                    session_id: session_id@,
                    file_path: file_path@,
                    file_size: file_size,
                    file_mtime: file_mtime,
                    chunks_count: batch@.len() as int,
                    processed_at: processed_at@,
                })
                &&& final(self)@.next_rowid == old(self)@.next_rowid + batch@.len()
            }),
    {
        proof {
            reveal(Seq::filter);
        }
        let ghost sid = session_id@;
        // Validate the whole batch before touching anything.
        let bn = batch.len();
        for i in 0..bn
            invariant
                *self == *old(self),
                old(self).wf(),
                sid == session_id@,
                bn == batch@.len(),
                first_chunk_error_from(sid, batch@, 0) == first_chunk_error_from(sid, batch@, i as int),
        {
            let entry = &batch[i];
            proof {
                assert(*entry == batch@[i as int]);
            }
            if !(entry.0.turn_start < entry.0.turn_end) {
                proof {
                    assert(first_chunk_error_from(sid, batch@, i as int)
                        == Some(StoreError::InvalidTurnRange));
                }
                return Err(StoreError::InvalidTurnRange);
            }
            if !str_eq(entry.0.session_id.as_str(), session_id) {
                proof {
                    assert(first_chunk_error_from(sid, batch@, i as int)
                        == Some(StoreError::SessionMismatch));
                }
                return Err(StoreError::SessionMismatch);
            }
            if !valid_embedding(&entry.1) {
                proof {
                    assert(first_chunk_error_from(sid, batch@, i as int)
                        == Some(StoreError::InvalidEmbedding));
                }
                return Err(StoreError::InvalidEmbedding);
            }
            proof {
                assert(first_chunk_error_from(sid, batch@, i as int)
                    == first_chunk_error_from(sid, batch@, i + 1));
            }
        }
        proof {
            lemma_no_error_all_ok(sid, batch@, 0);
        }
        // Build the kept fragment list (and its index entries) untouched.
        let ghost keep = other_session(sid);
        let n = self.chunks.len();
        let mut new_chunks: Vec<StoredChunk> = Vec::new();
        let mut new_fts: Vec<FtsEntry> = Vec::new();
        proof {
            assert(self@.chunks.take(0int) =~= Seq::<ChunkView>::empty());
        }
        for i in 0..n
            invariant
                *self == *old(self),
                old(self).wf(),
                sid == session_id@,
                n == self.chunks@.len(),
                self.wf(),
                new_chunks.deep_view() =~= self@.chunks.take(i as int).filter(keep),
                keep == other_session(sid),
                new_fts@.len() == new_chunks@.len(),
                forall|a: int| 0 <= a < new_chunks@.len()
                    ==> (#[trigger] new_fts@[a]).rowid == new_chunks@[a].rowid
                        && new_fts@[a].tokens.deep_view() == tokens_of(new_chunks@[a].text@),
        {
            let ghost before = new_chunks.deep_view();
            let c = &self.chunks[i];
            proof {
                assert(self@.chunks[i as int] == self.chunks@[i as int]@);
                assert(self@.chunks.take(i + 1) =~=
                    self@.chunks.take(i as int).push(self@.chunks[i as int]));
                self@.chunks.take(i as int).lemma_filter_push(self@.chunks[i as int], keep);
            }
            if !str_eq(c.session_id.as_str(), session_id) {
                new_chunks.push(c.clone());
                let f = &self.fts[i];
                new_fts.push(FtsEntry { rowid: f.rowid, tokens: clone_tokens(&f.tokens) });
                proof {
                    assert(new_chunks.deep_view() =~= before.push(self@.chunks[i as int]));
                }
            }
        }
        proof {
            assert(self@.chunks.take(n as int) =~= self@.chunks);
        }
        // Capacity checks, still before any mutation.
        let kept_len = new_chunks.len();
        if bn > MAX_CHUNKS - kept_len {
            return Err(StoreError::StoreFull);
        }
        if (self.next_rowid as u64) > (i64::MAX as u64) - (bn as u64) {
            proof {
                assert(self@.next_rowid + batch@.len() > i64::MAX);
            }
            return Err(StoreError::StoreFull);
        }
        // Append the new fragments with fresh keys and sequence positions.
        let base = self.next_rowid;
        let ghost kept_view = new_chunks.deep_view();
        for i in 0..bn
            invariant
                *self == *old(self),
                old(self).wf(),
                sid == session_id@,
                bn == batch@.len(),
                kept_len == kept_view.len(),
                kept_len + bn <= MAX_CHUNKS,
                base + bn <= i64::MAX,
                0 <= base,
                new_chunks.deep_view().take(kept_len as int) =~= kept_view,
                new_chunks@.len() == kept_len + i,
                new_fts@.len() == new_chunks@.len(),
                forall|a: int| 0 <= a < new_chunks@.len()
                    ==> (#[trigger] new_fts@[a]).rowid == new_chunks@[a].rowid
                        && new_fts@[a].tokens.deep_view() == tokens_of(new_chunks@[a].text@),
                forall|a: int| 0 <= a < i
                    ==> chunk_placed((#[trigger] new_chunks@[kept_len + a])@, base + a, batch@[a]),
                forall|a: int| 0 <= a < kept_len
                    ==> (#[trigger] new_chunks@[a])@ == kept_view[a],
                first_chunk_error_from(sid, batch@, 0) is None,
                forall|k: int| 0 <= k < batch@.len() ==> chunk_entry_ok(sid, #[trigger] batch@[k]),
        {
            let entry = &batch[i];
            let id = new_chunk_id();
            let text_chars = str_to_chars(entry.0.text.as_str());
            let tokens = clean_tokens(&text_chars, true);
            let rowid = base + (i as i64);
            let c = StoredChunk {
                rowid,
                id,
                session_id: entry.0.session_id.clone(),
                turn_start: entry.0.turn_start,
                turn_end: entry.0.turn_end,
                timestamp: clone_opt_string(&entry.0.timestamp),
                text: entry.0.text.clone(),
                embedding: clone_embedding(&entry.1),
            };
            proof {
                assert(chunk_entry_ok(sid, batch@[i as int]));
                assert(chunk_placed(c@, base + i, batch@[i as int]));
            }
            new_chunks.push(c);
            new_fts.push(FtsEntry { rowid, tokens });
            proof {
                assert(new_chunks.deep_view().take(kept_len as int) =~= kept_view);
            }
        }
        // Replace the marker for this conversation.
        let ghost keepm = other_marker(sid);
        let mn = self.markers.len();
        let mut new_markers: Vec<Marker> = Vec::new();
        proof {
            assert(self@.markers.take(0int) =~= Seq::<MarkerView>::empty());
        }
        for i in 0..mn
            invariant
                *self == *old(self),
                old(self).wf(),
                sid == session_id@,
                mn == self.markers@.len(),
                self.wf(),
                keepm == other_marker(sid),
                new_markers.deep_view() =~= self@.markers.take(i as int).filter(keepm),
                forall|a: int| 0 <= a < new_markers@.len()
                    ==> (#[trigger] new_markers@[a])@.session_id != sid,
                forall|a: int, b: int| 0 <= a < b < new_markers@.len()
                    ==> (#[trigger] new_markers@[a])@.session_id
                        != (#[trigger] new_markers@[b])@.session_id,
        {
            let ghost before = new_markers.deep_view();
            let m = &self.markers[i];
            proof {
                assert(self@.markers[i as int] == self.markers@[i as int]@);
                assert(self@.markers.take(i + 1) =~=
                    self@.markers.take(i as int).push(self@.markers[i as int]));
                self@.markers.take(i as int).lemma_filter_push(self@.markers[i as int], keepm);
            }
            if !str_eq(m.session_id.as_str(), session_id) {
                let mc = Marker {
                    session_id: m.session_id.clone(),
                    file_path: m.file_path.clone(),
                    file_size: m.file_size,
                    file_mtime: m.file_mtime,
                    chunks_count: m.chunks_count,
                    processed_at: m.processed_at.clone(),
                };
                proof {
                    assert(mc@ == self@.markers[i as int]);
                }
                let ghost prevlen = new_markers@.len();
                new_markers.push(mc);
                proof {
                    assert(new_markers.deep_view() =~= before.push(self@.markers[i as int]));
                    assert forall|a: int, b: int| 0 <= a < b < new_markers@.len()
                        implies (#[trigger] new_markers@[a])@.session_id
                            != (#[trigger] new_markers@[b])@.session_id by {
                        if b == prevlen {
                            // each kept marker comes from the original prefix,
                            // where marker conversations are unique
                            assert(before[a] ==
                                self@.markers.take(i as int).filter(keepm)[a]);
                            lemma_filter_sub(self@.markers.take(i as int), keepm, a);
                            let k = choose|k: int| 0 <= k < self@.markers.take(i as int).len()
                                && self@.markers.take(i as int)[k]
                                    == self@.markers.take(i as int).filter(keepm)[a];
                            assert(self@.markers[k] == new_markers@[a]@);
                            assert(self.markers@[k]@.session_id != self.markers@[i as int]@.session_id);
                        }
                    }
                }
            }
        }
        proof {
            assert(self@.markers.take(mn as int) =~= self@.markers);
        }
        let ghost keptm_view = new_markers.deep_view();
        new_markers.push(Marker {
            session_id: string_of(session_id),
            file_path: string_of(file_path),
            file_size,
            file_mtime,
            chunks_count: bn,
            processed_at: string_of(processed_at),
        });
        let ghost placed = new_chunks.deep_view();
        let ghost new_markers_view = new_markers.deep_view();
        proof {
            assert(kept_view == old(self)@.chunks.filter(keep));
            assert forall|a: int| 0 <= a < bn
                implies chunk_placed(#[trigger] placed[kept_len + a], base + a, batch@[a]) by {
                assert(placed[kept_len + a] == (new_chunks@[kept_len + a])@);
            }
            assert forall|a: int| 0 <= a < kept_len
                implies #[trigger] placed[a] == kept_view[a] by {
                assert(placed[a] == (new_chunks@[a])@);
            }
            assert(new_markers_view.take(keptm_view.len() as int) =~= keptm_view);
            assert(new_markers_view.last().session_id == sid);
            assert(new_markers_view.last() == (MarkerView {
                session_id: sid,
                file_path: file_path@,
                file_size: file_size,
                file_mtime: file_mtime,
                chunks_count: bn as int,
                processed_at: processed_at@,
            }));
        }
        // Commit: one assignment per field, after all the work above.
        self.chunks = new_chunks;
        self.fts = new_fts;
        self.markers = new_markers;
        self.next_rowid = base + (bn as i64);
        proof {
            assert(self@.chunks =~= placed);
            assert(self@.markers =~= new_markers_view);
            assert(self@.chunks.take(kept_view.len() as int) =~= kept_view);
            assert(self@.markers.take(keptm_view.len() as int) =~= keptm_view);
            // each kept fragment sits somewhere in the old store
            assert forall|a: int| 0 <= a < kept_len
                implies exists|k: int| 0 <= k < old(self)@.chunks.len()
                    && old(self)@.chunks[k] == #[trigger] placed[a] by {
                lemma_filter_sub(old(self)@.chunks, keep, a);
            }
            old(self).lemma_wf_view();
            // rowids stay strictly increasing across the splice point
            assert forall|a: int, b: int| 0 <= a < b < placed.len()
                implies (#[trigger] placed[a]).rowid < (#[trigger] placed[b]).rowid by {
                if b < kept_len as int {
                    lemma_filter_keeps_order(old(self)@.chunks, keep, a, b);
                } else if a < kept_len as int {
                    let kb = b - kept_len;
                    assert(chunk_placed(placed[kept_len + kb], base + kb, batch@[kb]));
                    let k = choose|k: int| 0 <= k < old(self)@.chunks.len()
                        && old(self)@.chunks[k] == placed[a];
                    assert(placed[a].rowid < base);
                } else {
                    let ka = a - kept_len;
                    let kb = b - kept_len;
                    assert(chunk_placed(placed[kept_len + ka], base + ka, batch@[ka]));
                    assert(chunk_placed(placed[kept_len + kb], base + kb, batch@[kb]));
                }
            }
            // every fragment's rowid is in range, ranges and vectors are valid
            assert forall|a: int| 0 <= a < placed.len()
                implies 0 <= (#[trigger] placed[a]).rowid < base + bn
                    && placed[a].turn_start < placed[a].turn_end
                    && valid_vector(placed[a].embedding) by {
                if a < kept_len as int {
                    let k = choose|k: int| 0 <= k < old(self)@.chunks.len()
                        && old(self)@.chunks[k] == placed[a];
                    assert(placed[a].rowid < base);
                } else {
                    let ka = a - kept_len;
                    assert(chunk_placed(placed[kept_len + ka], base + ka, batch@[ka]));
                    assert(chunk_entry_ok(sid, batch@[ka]));
                }
            }
            // rebuilt markers stay pairwise distinct
            assert forall|a: int, b: int| 0 <= a < b < new_markers_view.len()
                implies (#[trigger] new_markers_view[a]).session_id
                    != (#[trigger] new_markers_view[b]).session_id by {
                if b == new_markers_view.len() - 1 {
                    assert(new_markers_view[a] == keptm_view[a]);
                    assert(new_markers_view[a].session_id != sid);
                }
            }
            assert forall|i: int| 0 <= i < self.chunks@.len()
                implies (#[trigger] self.chunks@[i])@ == placed[i] by {
                assert(self@.chunks[i] == placed[i]);
            }
            assert forall|i: int| 0 <= i < self.markers@.len()
                implies (#[trigger] self.markers@[i])@ == new_markers_view[i] by {
                assert(self@.markers[i] == new_markers_view[i]);
            }
            assert(self.fts@.len() == self.chunks@.len());
            assert(forall|i: int| 0 <= i < self.chunks@.len()
                ==> (#[trigger] self.fts@[i]).rowid == self.chunks@[i].rowid
                    && self.fts@[i].tokens.deep_view() == tokens_of(self.chunks@[i].text@));
            assert(forall|i: int| 0 <= i < self.chunks@.len()
                ==> 0 <= (#[trigger] self.chunks@[i])@.rowid < self.next_rowid);
            assert(forall|i: int, j: int| 0 <= i < j < self.chunks@.len()
                ==> (#[trigger] self.chunks@[i])@.rowid < (#[trigger] self.chunks@[j])@.rowid);
            assert(forall|i: int| 0 <= i < self.chunks@.len()
                ==> (#[trigger] self.chunks@[i])@.turn_start < self.chunks@[i]@.turn_end
                    && valid_vector(self.chunks@[i]@.embedding));
            assert(forall|i: int, j: int| 0 <= i < j < self.markers@.len()
                ==> (#[trigger] self.markers@[i])@.session_id != (#[trigger] self.markers@[j])@.session_id);
            assert(self.chunks@.len() <= MAX_CHUNKS);
            assert(0 <= self.next_rowid);
            assert(self.wf());
        }
        Ok(())
    }
}

/// Number of query tokens (with multiplicity, over the first `n`) present in
/// a fragment's token list.
pub open spec fn match_count(qts: Seq<Seq<char>>, toks: Seq<Seq<char>>, n: int) -> int
    decreases n,
{
    if n <= 0 {
        0
    } else {
        match_count(qts, toks, n - 1) + if toks.contains(qts[n - 1]) {
            1int
        } else {
            0int
        }
    }
}

/// The match count is between zero and the number of query tokens.
pub proof fn lemma_match_count_bound(qts: Seq<Seq<char>>, toks: Seq<Seq<char>>, n: int)
    requires
        0 <= n,
    ensures
        0 <= match_count(qts, toks, n) <= n,
    decreases n,
{
    if n > 0 {
        lemma_match_count_bound(qts, toks, n - 1);
    }
}

/// A fragment's lexical rank score for a token list: minus the match count,
/// so lower means a better match and only matching fragments score below
/// zero.
pub open spec fn lex_score(qts: Seq<Seq<char>>, text: Seq<char>) -> int {
    -match_count(qts, tokens_of(text), qts.len() as int)
}

/// One lexical ranking entry: a fragment key and its rank score.
#[derive(Clone, Copy, PartialEq, Eq, Structural, Debug)]
pub struct LexKey {
    pub rowid: i64,
    pub score: i64,
}

/// The lexical result order: ascending rank score, ties by ascending key.
pub open spec fn lex_lt(a: LexKey, b: LexKey) -> bool {
    a.score < b.score || (a.score == b.score && a.rowid < b.rowid)
}

impl crate::order::TotalOrd for LexKey {
    open spec fn ord_wf(self) -> bool {
        true
    }

    open spec fn ord_le(self, other: Self) -> bool {
        lex_lt(self, other) || self == other
    }

    proof fn lemma_ord_total(a: Self, b: Self) {
    }

    proof fn lemma_ord_trans(a: Self, b: Self, c: Self) {
    }

    fn le(&self, other: &Self) -> (r: bool) {
        self.score < other.score || (self.score == other.score && self.rowid <= other.rowid)
    }
}

/// The `(key, rank score)` pairs of the fragments that match the token
/// list, in store order.
pub open spec fn matched_pairs(cs: Seq<ChunkView>, qts: Seq<Seq<char>>) -> Seq<LexKey>
    decreases cs.len(),
{
    if cs.len() == 0 {
        Seq::empty()
    } else {
        let rest = matched_pairs(cs.drop_last(), qts);
        let c = cs.last();
        if lex_score(qts, c.text) < 0 {
            rest.push(LexKey { rowid: c.rowid as i64, score: lex_score(qts, c.text) as i64 })
        } else {
            rest
        }
    }
}

/// Each matched pair comes from a matching fragment.
pub proof fn lemma_matched_sub(cs: Seq<ChunkView>, qts: Seq<Seq<char>>, a: int)
    requires
        0 <= a < matched_pairs(cs, qts).len(),
    ensures
        exists|j: int| 0 <= j < cs.len()
            && (#[trigger] cs[j]).rowid as i64 == matched_pairs(cs, qts)[a].rowid
            && lex_score(qts, cs[j].text) as i64 == matched_pairs(cs, qts)[a].score
            && lex_score(qts, cs[j].text) < 0,
    decreases cs.len(),
{
    if cs.len() > 0 {
        let rest = matched_pairs(cs.drop_last(), qts);
        if lex_score(qts, cs.last().text) < 0 && a == matched_pairs(cs, qts).len() - 1 {
            assert((cs[cs.len() - 1]).rowid as i64 == matched_pairs(cs, qts)[a].rowid);
        } else {
            lemma_matched_sub(cs.drop_last(), qts, a);
            let j = choose|j: int| 0 <= j < cs.drop_last().len()
                && (#[trigger] cs.drop_last()[j]).rowid as i64 == rest[a].rowid
                && lex_score(qts, cs.drop_last()[j].text) as i64 == rest[a].score
                && lex_score(qts, cs.drop_last()[j].text) < 0;
            assert((cs[j]).rowid as i64 == matched_pairs(cs, qts)[a].rowid);
        }
    }
}

/// Every matching fragment appears among the matched pairs.
pub proof fn lemma_matched_complete(cs: Seq<ChunkView>, qts: Seq<Seq<char>>, j: int)
    requires
        0 <= j < cs.len(),
        lex_score(qts, cs[j].text) < 0,
    ensures
        matched_pairs(cs, qts).contains(LexKey {
            rowid: cs[j].rowid as i64,
            score: lex_score(qts, cs[j].text) as i64,
        }),
    decreases cs.len(),
{
    if cs.len() > 0 {
        let m = matched_pairs(cs, qts);
        if j == cs.len() - 1 {
            assert(m[m.len() - 1] == (LexKey {
                rowid: cs[j].rowid as i64,
                score: lex_score(qts, cs[j].text) as i64,
            }));
        } else {
            lemma_matched_complete(cs.drop_last(), qts, j);
            let rest = matched_pairs(cs.drop_last(), qts);
            let k = choose|k: int| 0 <= k < rest.len()
                && rest[k] == (LexKey {
                    rowid: cs.drop_last()[j].rowid as i64,
                    score: lex_score(qts, cs.drop_last()[j].text) as i64,
                });
            assert(m[k] == (LexKey {
                rowid: cs[j].rowid as i64,
                score: lex_score(qts, cs[j].text) as i64,
            }));
        }
    }
}

/// With strictly increasing fragment keys, matched pairs keep strictly
/// increasing keys (hence are pairwise distinct).
pub proof fn lemma_matched_increasing(cs: Seq<ChunkView>, qts: Seq<Seq<char>>)
    requires
        forall|i: int, j: int| 0 <= i < j < cs.len()
            ==> (#[trigger] cs[i]).rowid < (#[trigger] cs[j]).rowid,
        forall|i: int| 0 <= i < cs.len() ==> 0 <= (#[trigger] cs[i]).rowid <= i64::MAX,
    ensures
        forall|a: int, b: int| 0 <= a < b < matched_pairs(cs, qts).len()
            ==> (#[trigger] matched_pairs(cs, qts)[a]).rowid
                < (#[trigger] matched_pairs(cs, qts)[b]).rowid,
    decreases cs.len(),
{
    if cs.len() > 0 {
        let m = matched_pairs(cs, qts);
        let rest = matched_pairs(cs.drop_last(), qts);
        assert(forall|i: int, j: int| 0 <= i < j < cs.drop_last().len()
            ==> (#[trigger] cs.drop_last()[i]).rowid < (#[trigger] cs.drop_last()[j]).rowid);
        assert(forall|i: int| 0 <= i < cs.drop_last().len()
            ==> 0 <= (#[trigger] cs.drop_last()[i]).rowid <= i64::MAX);
        lemma_matched_increasing(cs.drop_last(), qts);
        assert forall|a: int, b: int| 0 <= a < b < m.len()
            implies (#[trigger] m[a]).rowid < (#[trigger] m[b]).rowid by {
            if lex_score(qts, cs.last().text) < 0 && b == m.len() - 1 {
                assert(m[a] == rest[a]);
                lemma_matched_sub(cs.drop_last(), qts, a);
                let j = choose|j: int| 0 <= j < cs.drop_last().len()
                    && (#[trigger] cs.drop_last()[j]).rowid as i64 == rest[a].rowid
                    && lex_score(qts, cs.drop_last()[j].text) as i64 == rest[a].score
                    && lex_score(qts, cs.drop_last()[j].text) < 0;
                assert(cs[j].rowid < cs[cs.len() - 1].rowid);
            } else {
                assert(m[a] == rest[a] && m[b] == rest[b]);
            }
        }
    }
}

/// Character-vector equality.
fn chars_eq(a: &Vec<char>, b: &Vec<char>) -> (r: bool)
    ensures
        r == (a@ == b@),
{
    if a.len() != b.len() {
        return false;
    }
    let n = a.len();
    for i in 0..n
        invariant
            n == a@.len(),
            n == b@.len(),
            forall|k: int| 0 <= k < i ==> a@[k] == b@[k],
    {
        if a[i] != b[i] {
            return false;
        }
    }
    proof {
        assert(a@ =~= b@);
    }
    true
}

/// Membership of a token in a token list.
fn tokens_contain(toks: &Vec<Vec<char>>, t: &Vec<char>) -> (r: bool)
    ensures
        r == toks.deep_view().contains(t@),
{
    let n = toks.len();
    for i in 0..n
        invariant
            n == toks@.len(),
            forall|k: int| 0 <= k < i ==> toks.deep_view()[k] != t@,
    {
        proof {
            assert(toks.deep_view()[i as int] == toks@[i as int]@);
        }
        if chars_eq(&toks[i], t) {
            proof {
                assert(toks.deep_view()[i as int] == t@);
            }
            return true;
        }
    }
    proof {
        assert forall|k: int| 0 <= k < toks.deep_view().len()
            implies toks.deep_view()[k] != t@ by {
        }
    }
    false
}

/// Count how many query tokens occur in a fragment's token list.
fn count_matches(qts: &Vec<Vec<char>>, toks: &Vec<Vec<char>>) -> (c: usize)
    ensures
        c == match_count(qts.deep_view(), toks.deep_view(), qts@.len() as int),
        c <= qts@.len(),
{
    let n = qts.len();
    let mut c: usize = 0;
    for i in 0..n
        invariant
            n == qts@.len(),
            c == match_count(qts.deep_view(), toks.deep_view(), i as int),
            c <= i,
    {
        proof {
            assert(qts.deep_view()[i as int] == qts@[i as int]@);
        }
        if tokens_contain(toks, &qts[i]) {
            c += 1;
        }
    }
    c
}

/// What one lexical search owes: the pool holds exactly the best-ranked
/// matching fragments, `min(limit, matches)` of them, in strictly ascending
/// `(score, key)` order, and every matching fragment left out ranks no
/// better than every one returned.
pub open spec fn bm25_result_ok(
    cs: Seq<ChunkView>,
    qts: Seq<Seq<char>>,
    limit: int,
    pool: Seq<LexKey>,
) -> bool {
    let matched = matched_pairs(cs, qts);
    &&& pool.len() == if limit <= matched.len() { limit } else { matched.len() as int }
    &&& forall|a: int, b: int| 0 <= a < b < pool.len() ==> lex_lt(#[trigger] pool[a], #[trigger] pool[b])
    &&& forall|a: int| 0 <= a < pool.len() ==> matched.contains(#[trigger] pool[a])
    &&& forall|p: LexKey| #[trigger] matched.contains(p)
        ==> (exists|a: int| 0 <= a < pool.len() && pool[a] == p)
            || (pool.len() == limit && forall|a: int| 0 <= a < pool.len()
                ==> lex_lt(#[trigger] pool[a], p))
}

impl Database {
    /// Lexical search: rank the fragments whose text shares tokens with the
    /// (sanitized) query, best first.
    ///
    /// The rank score is the negated token match count ([`lex_score`]) — a
    /// plain token-based ranking standing in for the weighted scoring a
    /// full-text engine would give; lower still means a better match. The
    /// result holds at most `limit` entries `(key, rank score)`: exactly
    /// the best-ranked matching fragments, in strictly ascending
    /// `(score, key)` order, every matching fragment left out ranking no
    /// better than every one returned. A query that sanitizes to nothing
    /// matches nothing.
    pub fn bm25_search(&self, query: &str, limit: usize) -> (r: Vec<LexKey>)
        requires
            self.wf(),
            query@.len() < i64::MAX,
        ensures
            bm25_result_ok(self@.chunks, tokens_of(query@), limit as int, r@),
    {
        broadcast use vstd::seq_lib::to_multiset_contains, vstd::seq_lib::to_multiset_len;

        let ghost qtsv = tokens_of(query@);
        let sanitized = sanitize_fts_query(query);
        let parsed = crate::query::parse_query(sanitized.as_str());
        proof {
            crate::query::lemma_sanitized_parses(query@);
        }
        let qts = match parsed {
            Option::Some(v) => v,
            Option::None => {
                proof {
                    assert(false);
                }
                Vec::new()
            },
        };
        proof {
            assert(qts.deep_view() == qtsv);
            crate::text::lemma_ctokens_count(query@, 0, true);
        }
        let n = self.chunks.len();
        let mut cand: Vec<LexKey> = Vec::new();
        proof {
            assert(self@.chunks.take(0int) =~= Seq::<ChunkView>::empty());
        }
        for j in 0..n
            invariant
                self.wf(),
                n == self.chunks@.len(),
                qts.deep_view() == qtsv,
                qtsv.len() < i64::MAX,
                cand@ == matched_pairs(self@.chunks.take(j as int), qtsv),
        {
            proof {
                lemma_match_count_bound(qtsv, tokens_of(self@.chunks[j as int].text), qtsv.len() as int);
                assert(self.fts@[j as int].tokens.deep_view() == tokens_of(self@.chunks[j as int].text));
                assert(self@.chunks[j as int] == self.chunks@[j as int]@);
                assert(self@.chunks.take(j + 1).drop_last() =~= self@.chunks.take(j as int));
                assert(self@.chunks.take(j + 1).last() == self@.chunks[j as int]);
            }
            let c = count_matches(&qts, &self.fts[j].tokens);
            if c > 0 {
                let score: i64 = -(c as i64);
                proof {
                    assert(score as int == lex_score(qtsv, self@.chunks[j as int].text));
                    assert(0 <= self@.chunks[j as int].rowid <= i64::MAX);
                }
                cand.push(LexKey { rowid: self.chunks[j].rowid, score });
            }
        }
        proof {
            assert(self@.chunks.take(n as int) =~= self@.chunks);
        }
        let ghost matched = matched_pairs(self@.chunks, qtsv);
        proof {
            self.lemma_wf_view();
            assert forall|i: int| 0 <= i < self@.chunks.len()
                implies 0 <= (#[trigger] self@.chunks[i]).rowid <= i64::MAX by {
            }
            lemma_matched_increasing(self@.chunks, qtsv);
            assert(matched.no_duplicates()) by {
                assert forall|a: int, b: int| 0 <= a < matched.len() && 0 <= b < matched.len()
                    && a != b implies matched[a] != matched[b] by {
                    if a < b {
                        assert(matched[a].rowid < matched[b].rowid);
                    } else {
                        assert(matched[b].rowid < matched[a].rowid);
                    }
                }
            }
        }
        let sorted = crate::order::sort_by_ord(&cand);
        proof {
            matched.lemma_multiset_has_no_duplicates();
            sorted@.lemma_multiset_has_no_duplicates_conv();
            assert(sorted@.no_duplicates());
        }
        let mut r = sorted;
        if limit < r.len() {
            r.truncate(limit);
        }
        proof {
            let sor = if limit < matched.len() { matched.len() as int } else { matched.len() as int };
            assert forall|a: int, b: int| 0 <= a < b < r@.len()
                implies lex_lt(#[trigger] r@[a], #[trigger] r@[b]) by {
                assert(r@[a] == sorted@[a] && r@[b] == sorted@[b]);
                assert(crate::order::TotalOrd::ord_le(sorted@[a], sorted@[b]));
                assert(sorted@[a] != sorted@[b]);
            }
            assert forall|a: int| 0 <= a < r@.len()
                implies matched.contains(#[trigger] r@[a]) by {
                assert(r@[a] == sorted@[a]);
                assert(sorted@.contains(sorted@[a]));
                assert(cand@.contains(sorted@[a]));
            }
            assert forall|p: LexKey| #[trigger] matched.contains(p)
                implies (exists|a: int| 0 <= a < r@.len() && r@[a] == p)
                    || (r@.len() == limit && forall|a: int| 0 <= a < r@.len()
                        ==> lex_lt(#[trigger] r@[a], p)) by {
                assert(sorted@.contains(p));
                let k = choose|k: int| 0 <= k < sorted@.len() && sorted@[k] == p;
                if k < r@.len() {
                    assert(r@[k] == p);
                } else {
                    assert(r@.len() == limit);
                    assert forall|a: int| 0 <= a < r@.len()
                        implies lex_lt(#[trigger] r@[a], p) by {
                        assert(crate::order::TotalOrd::ord_le(sorted@[a], sorted@[k]));
                        assert(sorted@[a] != sorted@[k]);
                    }
                }
            }
        }
        r
    }
}

/// Coordinate-wise validity check for one embedding.
fn valid_embedding(v: &Vec<i64>) -> (r: bool)
    ensures
        r == valid_vector(v@),
{
    if v.len() > crate::vector::MAX_DIM {
        return false;
    }
    let n = v.len();
    for i in 0..n
        invariant
            n == v@.len(),
            forall|k: int| 0 <= k < i ==> -crate::vector::VAL_LIMIT <= #[trigger] v@[k] <= crate::vector::VAL_LIMIT,
    {
        let x = v[i];
        if x < -crate::vector::VAL_LIMIT || x > crate::vector::VAL_LIMIT {
            return false;
        }
    }
    true
}

/// Copy a borrowed string slice into an owned string.
fn string_of(s: &str) -> (r: String)
    ensures
        r@ == s@,
{
    s.to_owned()
}

/// Every element of a filtered sequence comes from the original sequence.
pub proof fn lemma_filter_sub<A>(cs: Seq<A>, pred: spec_fn(A) -> bool, a: int)
    requires
        0 <= a < cs.filter(pred).len(),
    ensures
        exists|k: int| 0 <= k < cs.len() && cs[k] == cs.filter(pred)[a],
    decreases cs.len(),
{
    reveal(Seq::filter);
    if cs.len() > 0 {
        let rest = cs.drop_last();
        if pred(cs.last()) && a == cs.filter(pred).len() - 1 {
            assert(cs[cs.len() - 1] == cs.filter(pred)[a]);
        } else {
            lemma_filter_sub(rest, pred, a);
            let k = choose|k: int| 0 <= k < rest.len() && rest[k] == rest.filter(pred)[a];
            assert(cs[k] == cs.filter(pred)[a]);
        }
    }
}

/// Elements kept by a filter keep their relative order; in particular a
/// strictly sorted key stays strictly sorted.
pub proof fn lemma_filter_keeps_order(
    cs: Seq<ChunkView>,
    pred: spec_fn(ChunkView) -> bool,
    a: int,
    b: int,
)
    requires
        forall|i: int, j: int| 0 <= i < j < cs.len()
            ==> (#[trigger] cs[i]).rowid < (#[trigger] cs[j]).rowid,
        0 <= a < b < cs.filter(pred).len(),
    ensures
        cs.filter(pred)[a].rowid < cs.filter(pred)[b].rowid,
    decreases cs.len(),
{
    reveal(Seq::filter);
    if cs.len() > 0 {
        let rest = cs.drop_last();
        assert(forall|i: int, j: int| 0 <= i < j < rest.len()
            ==> (#[trigger] rest[i]).rowid < (#[trigger] rest[j]).rowid);
        if pred(cs.last()) && b == cs.filter(pred).len() - 1 {
            // the last filtered element is the original last element; every
            // earlier filtered element comes from an earlier original index
            lemma_filter_from_earlier(cs, pred, a);
        } else {
            lemma_filter_keeps_order(rest, pred, a, b);
        }
    }
}

/// Every element of a filtered prefix-but-last sits somewhere in the
/// original sequence before the last position, so its rowid is smaller.
proof fn lemma_filter_from_earlier(
    cs: Seq<ChunkView>,
    pred: spec_fn(ChunkView) -> bool,
    a: int,
)
    requires
        forall|i: int, j: int| 0 <= i < j < cs.len()
            ==> (#[trigger] cs[i]).rowid < (#[trigger] cs[j]).rowid,
        cs.len() > 0,
        pred(cs.last()),
        0 <= a < cs.filter(pred).len() - 1,
    ensures
        cs.filter(pred)[a].rowid < cs.last().rowid,
    decreases cs.len(),
{
    reveal(Seq::filter);
    let rest = cs.drop_last();
    assert(cs.filter(pred)[a] == rest.filter(pred)[a]);
    lemma_filter_sub(rest, pred, a);
    let k = choose|k: int| 0 <= k < rest.len() && rest[k] == rest.filter(pred)[a];
    assert(cs[k] == rest.filter(pred)[a]);
    assert(cs[k].rowid < cs[cs.len() - 1].rowid);
}

/// Lexicographic (by character code) strict comparison of strings.
fn str_lt(a: &str, b: &str) -> (r: bool)
{
    let na = a.unicode_len();
    let nb = b.unicode_len();
    let n = if na < nb { na } else { nb };
    let mut i: usize = 0;
    while i < n
        invariant
            n <= a@.len(),
            n <= b@.len(),
            i <= n,
        decreases n - i,
    {
        let ca = a.get_char(i);
        let cb = b.get_char(i);
        if (ca as u32) < (cb as u32) {
            return true;
        }
        if (ca as u32) > (cb as u32) {
            return false;
        }
        i += 1;
    }
    na < nb
}

/// Store-level statistics.
pub struct DbStats {
    pub chunks_count: usize,
    pub sessions_count: usize,
    pub last_processed: Option<String>,
}

} // verus!
