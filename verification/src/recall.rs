//! The hybrid retriever.
//!
//! A query runs in stages: the lexical index proposes a bounded candidate
//! pool (per query variant, merged keeping each key's best rank), only those
//! candidates' vectors are loaded and scored by cosine similarity, and the
//! two rankings are fused by reciprocal rank fusion. A pure-semantic path
//! scans the whole corpus instead; the hybrid path falls back to it when
//! the lexical pool is empty.

use vstd::prelude::*;
use crate::db::{Database, StoredChunk, ChunkView, LexKey, lex_lt, matched_pairs};
use crate::vector::{cosine_milli, cosine_similarity, valid_vector};
use crate::order::{TotalOrd, sort_by_ord};


verus! {

/// A retrieved fragment with its raw cosine similarity (in thousandths;
/// zero when the fragment never passed semantic scoring).
pub struct SearchResult {
    pub chunk: StoredChunk,
    pub similarity: i64,
}

/// Configuration for a search. Similarity values are in thousandths, so a
/// threshold of 300 means 0.3.
pub struct RecallConfig {
    /// Number of results to return.
    pub top_k: usize,
    /// Minimum similarity (thousandths) for semantic ranking.
    pub threshold: i64,
    /// Skip the lexical stage and scan the whole corpus semantically.
    pub semantic_only: bool,
    /// Display option: show full fragment text.
    pub show_full: bool,
    /// Display option: context turns around each match.
    pub context_turns: Option<usize>,
    /// Widen lexical recall with paraphrase variants of the query.
    pub expand: bool,
    /// Reciprocal-rank-fusion constant (the classic choice is 60).
    pub rrf_k: i64,
    /// Rank assigned in a ranking an item is absent from.
    pub fallback_rank: i64,
}

impl RecallConfig {
    /// Bounds that keep fused-score arithmetic inside machine integers.
    pub open spec fn wf(self) -> bool {
        &&& 1 <= self.rrf_k <= 1_000_000
        &&& 1 <= self.fallback_rank <= 1_000_000_000
    }
}

impl Default for RecallConfig {
    /// The default search: five results, similarity floor 0.3, hybrid
    /// ranking with the classic fusion constants.
    fn default() -> (r: Self)
        ensures
            r.top_k == 5,
            r.threshold == 300,
            !r.semantic_only,
            !r.show_full,
            r.context_turns is None,
            !r.expand,
            r.rrf_k == 60,
            r.fallback_rank == 10000,
            r.wf(),
    {
        RecallConfig {
            top_k: 5,
            threshold: 300,
            semantic_only: false,
            show_full: false,
            context_turns: None,
            expand: false,
            rrf_k: 60,
            fallback_rank: 10000,
        }
    }
}

/// One semantic ranking entry: a fragment key and its similarity.
#[derive(Clone, Copy, PartialEq, Eq, Structural, Debug)]
pub struct SimKey {
    pub rowid: i64,
    pub sim: i64,
}

/// The semantic result order: descending similarity, ties by ascending key.
pub open spec fn sim_lt(a: SimKey, b: SimKey) -> bool {
    a.sim > b.sim || (a.sim == b.sim && a.rowid < b.rowid)
}

impl TotalOrd for SimKey {
    open spec fn ord_wf(self) -> bool {
        true
    }

    open spec fn ord_le(self, other: Self) -> bool {
        sim_lt(self, other) || self == other
    }

    proof fn lemma_ord_total(a: Self, b: Self) {
    }

    proof fn lemma_ord_trans(a: Self, b: Self, c: Self) {
    }

    fn le(&self, other: &Self) -> (r: bool) {
        self.sim > other.sim || (self.sim == other.sim && self.rowid <= other.rowid)
    }
}

/// The semantic ranking entries of the fragments scoring at or above the
/// threshold, in input order.
pub open spec fn sem_keys(cs: Seq<ChunkView>, qvec: Seq<i64>, threshold: i64) -> Seq<SimKey>
    decreases cs.len(),
{
    if cs.len() == 0 {
        Seq::empty()
    } else {
        let rest = sem_keys(cs.drop_last(), qvec, threshold);
        let c = cs.last();
        if cosine_milli(qvec, c.embedding) >= threshold {
            rest.push(SimKey { rowid: c.rowid as i64, sim: cosine_milli(qvec, c.embedding) as i64 })
        } else {
            rest
        }
    }
}

/// Fragments with distinct, machine-representable keys and valid vectors.
pub open spec fn distinct_valid_chunks(cs: Seq<ChunkView>) -> bool {
    &&& forall|i: int, j: int| 0 <= i < j < cs.len()
        ==> (#[trigger] cs[i]).rowid != (#[trigger] cs[j]).rowid
    &&& forall|i: int| 0 <= i < cs.len()
        ==> 0 <= (#[trigger] cs[i]).rowid <= i64::MAX && valid_vector(cs[i].embedding)
}

/// Each semantic entry comes from a fragment scoring at or above the
/// threshold.
pub proof fn lemma_sem_sub(cs: Seq<ChunkView>, qvec: Seq<i64>, threshold: i64, a: int)
    requires
        0 <= a < sem_keys(cs, qvec, threshold).len(),
    ensures
        exists|j: int| 0 <= j < cs.len()
            && (#[trigger] cs[j]).rowid as i64 == sem_keys(cs, qvec, threshold)[a].rowid
            && cosine_milli(qvec, cs[j].embedding) as i64 == sem_keys(cs, qvec, threshold)[a].sim
            && cosine_milli(qvec, cs[j].embedding) >= threshold,
    decreases cs.len(),
{
    if cs.len() > 0 {
        let rest = sem_keys(cs.drop_last(), qvec, threshold);
        if cosine_milli(qvec, cs.last().embedding) >= threshold
            && a == sem_keys(cs, qvec, threshold).len() - 1 {
            assert((cs[cs.len() - 1]).rowid as i64 == sem_keys(cs, qvec, threshold)[a].rowid);
        } else {
            lemma_sem_sub(cs.drop_last(), qvec, threshold, a);
            let j = choose|j: int| 0 <= j < cs.drop_last().len()
                && (#[trigger] cs.drop_last()[j]).rowid as i64 == rest[a].rowid
                && cosine_milli(qvec, cs.drop_last()[j].embedding) as i64 == rest[a].sim
                && cosine_milli(qvec, cs.drop_last()[j].embedding) >= threshold;
            assert((cs[j]).rowid as i64 == sem_keys(cs, qvec, threshold)[a].rowid);
        }
    }
}

/// Every fragment scoring at or above the threshold appears among the
/// semantic entries.
pub proof fn lemma_sem_complete(cs: Seq<ChunkView>, qvec: Seq<i64>, threshold: i64, j: int)
    requires
        0 <= j < cs.len(),
        cosine_milli(qvec, cs[j].embedding) >= threshold,
    ensures
        sem_keys(cs, qvec, threshold).contains(SimKey {
            rowid: cs[j].rowid as i64,
            sim: cosine_milli(qvec, cs[j].embedding) as i64,
        }),
    decreases cs.len(),
{
    if cs.len() > 0 {
        let m = sem_keys(cs, qvec, threshold);
        if j == cs.len() - 1 {
            assert(m[m.len() - 1] == (SimKey {
                rowid: cs[j].rowid as i64,
                sim: cosine_milli(qvec, cs[j].embedding) as i64,
            }));
        } else {
            lemma_sem_complete(cs.drop_last(), qvec, threshold, j);
            let rest = sem_keys(cs.drop_last(), qvec, threshold);
            let k = choose|k: int| 0 <= k < rest.len()
                && rest[k] == (SimKey {
                    rowid: cs.drop_last()[j].rowid as i64,
                    sim: cosine_milli(qvec, cs.drop_last()[j].embedding) as i64,
                });
            assert(m[k] == (SimKey {
                rowid: cs[j].rowid as i64,
                sim: cosine_milli(qvec, cs[j].embedding) as i64,
            }));
        }
    }
}

/// With distinct fragment keys the semantic entries carry distinct keys.
pub proof fn lemma_sem_distinct(cs: Seq<ChunkView>, qvec: Seq<i64>, threshold: i64)
    requires
        distinct_valid_chunks(cs),
    ensures
        forall|a: int, b: int| 0 <= a < b < sem_keys(cs, qvec, threshold).len()
            ==> (#[trigger] sem_keys(cs, qvec, threshold)[a]).rowid
                != (#[trigger] sem_keys(cs, qvec, threshold)[b]).rowid,
    decreases cs.len(),
{
    if cs.len() > 0 {
        let m = sem_keys(cs, qvec, threshold);
        let rest = sem_keys(cs.drop_last(), qvec, threshold);
        assert(distinct_valid_chunks(cs.drop_last())) by {
            assert(forall|i: int| 0 <= i < cs.drop_last().len()
                ==> #[trigger] cs.drop_last()[i] == cs[i]);
        }
        lemma_sem_distinct(cs.drop_last(), qvec, threshold);
        assert forall|a: int, b: int| 0 <= a < b < m.len()
            implies (#[trigger] m[a]).rowid != (#[trigger] m[b]).rowid by {
            if cosine_milli(qvec, cs.last().embedding) >= threshold && b == m.len() - 1 {
                assert(m[a] == rest[a]);
                lemma_sem_sub(cs.drop_last(), qvec, threshold, a);
                let j = choose|j: int| 0 <= j < cs.drop_last().len()
                    && (#[trigger] cs.drop_last()[j]).rowid as i64 == rest[a].rowid
                    && cosine_milli(qvec, cs.drop_last()[j].embedding) as i64 == rest[a].sim
                    && cosine_milli(qvec, cs.drop_last()[j].embedding) >= threshold;
                assert(cs[j].rowid != cs[cs.len() - 1].rowid);
            } else {
                assert(m[a] == rest[a] && m[b] == rest[b]);
            }
        }
    }
}

/// Look a fragment up by key.
fn chunk_by_rowid(chunks: &Vec<StoredChunk>, rowid: i64) -> (r: Option<StoredChunk>)
    ensures
        r is Some <==> exists|j: int| 0 <= j < chunks.deep_view().len()
            && (#[trigger] chunks.deep_view()[j]).rowid == rowid as int,
        r is Some ==> exists|j: int| 0 <= j < chunks.deep_view().len()
            && #[trigger] chunks.deep_view()[j] == r->Some_0@
            && r->Some_0@.rowid == rowid as int,
{
    let n = chunks.len();
    for j in 0..n
        invariant
            n == chunks@.len(),
            forall|k: int| 0 <= k < j ==> (#[trigger] chunks.deep_view()[k]).rowid != rowid as int,
    {
        proof {
            assert(chunks.deep_view()[j as int] == chunks@[j as int]@);
        }
        if chunks[j].rowid == rowid {
            return Some(chunks[j].clone());
        }
    }
    None
}

/// The exact top-k semantic scan: results are drawn from the given
/// fragments, scored against the query vector, thresholded, ordered by
/// descending similarity (ties by ascending key), and cut to `top_k`; every
/// qualifying fragment left out ranks no better than every result.
pub open spec fn semantic_topk_ok(
    cs: Seq<ChunkView>,
    qvec: Seq<i64>,
    threshold: i64,
    top_k: int,
    results: Seq<SearchResult>,
) -> bool {
    let scored = sem_keys(cs, qvec, threshold);
    &&& results.len() == if top_k <= scored.len() { top_k } else { scored.len() as int }
    &&& forall|a: int| 0 <= a < results.len()
        ==> from_store(cs, (#[trigger] results[a]).chunk@)
    &&& forall|a: int| 0 <= a < results.len()
        ==> (#[trigger] results[a]).similarity == cosine_milli(qvec, results[a].chunk@.embedding)
            && results[a].similarity >= threshold
    &&& forall|a: int, b: int| 0 <= a < b < results.len()
        ==> sim_lt(key_of(#[trigger] results[a]), key_of(#[trigger] results[b]))
    &&& forall|p: SimKey| #[trigger] scored.contains(p)
        ==> (exists|a: int| 0 <= a < results.len() && key_of(results[a]) == p)
            || (results.len() == top_k && forall|a: int| 0 <= a < results.len()
                ==> sim_lt(key_of(#[trigger] results[a]), p))
    &&& forall|a: int, b: int| 0 <= a < b < results.len()
        ==> (#[trigger] results[a]).chunk@.rowid != (#[trigger] results[b]).chunk@.rowid
}

/// The ranking key of a result.
pub open spec fn key_of(r: SearchResult) -> SimKey {
    SimKey { rowid: r.chunk@.rowid as i64, sim: r.similarity }
}

/// The fragment is one of the given stored fragments.
pub open spec fn from_store(cs: Seq<ChunkView>, c: ChunkView) -> bool {
    exists|j: int| 0 <= j < cs.len() && #[trigger] cs[j] == c
}

/// Exhaustive semantic search: score every given fragment against the query
/// vector and return the best `top_k` at or above the threshold.
pub fn semantic_only_search(
    chunks: &Vec<StoredChunk>,
    query_embedding: &Vec<i64>,
    config: &RecallConfig,
) -> (r: Vec<SearchResult>)
    requires
        valid_vector(query_embedding@),
        distinct_valid_chunks(chunks.deep_view()),
    ensures
        semantic_topk_ok(chunks.deep_view(), query_embedding@, config.threshold,
            config.top_k as int, r@),
{
    broadcast use vstd::seq_lib::to_multiset_contains, vstd::seq_lib::to_multiset_len;

    let ghost cs = chunks.deep_view();
    let ghost scored = sem_keys(cs, query_embedding@, config.threshold);
    let n = chunks.len();
    let mut keys: Vec<SimKey> = Vec::new();
    proof {
        assert(cs.take(0int) =~= Seq::<ChunkView>::empty());
    }
    for j in 0..n
        invariant
            n == chunks@.len(),
            cs == chunks.deep_view(),
            valid_vector(query_embedding@),
            distinct_valid_chunks(cs),
            keys@ == sem_keys(cs.take(j as int), query_embedding@, config.threshold),
    {
        proof {
            assert(cs[j as int] == chunks@[j as int]@);
            assert(cs.take(j + 1).drop_last() =~= cs.take(j as int));
            assert(cs.take(j + 1).last() == cs[j as int]);
        }
        let sim = cosine_similarity(query_embedding, &chunks[j].embedding);
        if sim >= config.threshold {
            keys.push(SimKey { rowid: chunks[j].rowid, sim });
        }
    }
    proof {
        assert(cs.take(n as int) =~= cs);
        lemma_sem_distinct(cs, query_embedding@, config.threshold);
        assert(scored.no_duplicates()) by {
            assert forall|a: int, b: int| 0 <= a < scored.len() && 0 <= b < scored.len()
                && a != b implies scored[a] != scored[b] by {
                if a < b {
                    assert(scored[a].rowid != scored[b].rowid);
                } else {
                    assert(scored[b].rowid != scored[a].rowid);
                }
            }
        }
    }
    let sorted = sort_by_ord(&keys);
    proof {
        scored.lemma_multiset_has_no_duplicates();
        sorted@.lemma_multiset_has_no_duplicates_conv();
    }
    let cut = if config.top_k < sorted.len() { config.top_k } else { sorted.len() };
    let mut picked: Vec<SimKey> = Vec::new();
    for a in 0..cut
        invariant
            cut <= sorted@.len(),
            picked@ == sorted@.take(a as int),
    {
        picked.push(sorted[a]);
        proof {
            assert(picked@ =~= sorted@.take(a + 1));
        }
    }
    let mut out: Vec<SearchResult> = Vec::new();
    let m = picked.len();
    proof {
        assert forall|k: int| 0 <= k < m implies scored.contains(#[trigger] picked@[k]) by {
            assert(picked@[k] == sorted@[k]);
            assert(sorted@.contains(sorted@[k]));
            assert(keys@.contains(sorted@[k]));
        }
    }
    for a in 0..m
        invariant
            m == picked@.len(),
            cs == chunks.deep_view(),
            valid_vector(query_embedding@),
            distinct_valid_chunks(cs),
            scored == sem_keys(cs, query_embedding@, config.threshold),
            out@.len() == a,
            forall|k: int| 0 <= k < m ==> scored.contains(#[trigger] picked@[k]),
            forall|k: int| 0 <= k < a
                ==> key_of(#[trigger] out@[k]) == picked@[k],
            forall|k: int| 0 <= k < a ==> from_store(cs, (#[trigger] out@[k]).chunk@),
            forall|k: int| 0 <= k < a
                ==> (#[trigger] out@[k]).similarity
                        == cosine_milli(query_embedding@, out@[k].chunk@.embedding)
                    && out@[k].similarity >= config.threshold,
    {
        let key = picked[a];
        proof {
            assert(scored.contains(picked@[a as int]));
            let kk = choose|kk: int| 0 <= kk < scored.len() && scored[kk] == picked@[a as int];
            lemma_sem_sub(cs, query_embedding@, config.threshold, kk);
            let j2 = choose|j2: int| 0 <= j2 < cs.len()
                && (#[trigger] cs[j2]).rowid as i64 == picked@[a as int].rowid
                && cosine_milli(query_embedding@, cs[j2].embedding) as i64
                    == picked@[a as int].sim
                && cosine_milli(query_embedding@, cs[j2].embedding) >= config.threshold;
            assert(0 <= cs[j2].rowid <= i64::MAX);
            assert(cs[j2].rowid == key.rowid as int);
        }
        let found = chunk_by_rowid(chunks, key.rowid);
        match found {
            Option::Some(c) => {
                let ghost cv = c@;
                out.push(SearchResult { chunk: c, similarity: key.sim });
                proof {
                    // the fragment with this key is unique, so its similarity
                    // is the one recorded in the key
                    let j = choose|j: int| 0 <= j < cs.len() && #[trigger] cs[j] == cv
                        && cv.rowid == key.rowid as int;
                    assert(from_store(cs, cv));
                    let kk = choose|kk: int| 0 <= kk < scored.len()
                        && scored[kk] == picked@[a as int];
                    lemma_sem_sub(cs, query_embedding@, config.threshold, kk);
                    let j2 = choose|j2: int| 0 <= j2 < cs.len()
                        && (#[trigger] cs[j2]).rowid as i64 == picked@[a as int].rowid
                        && cosine_milli(query_embedding@, cs[j2].embedding) as i64
                            == picked@[a as int].sim
                        && cosine_milli(query_embedding@, cs[j2].embedding) >= config.threshold;
                    assert(0 <= cs[j2].rowid <= i64::MAX);
                    assert(cs[j2].rowid == key.rowid as int);
                    if j != j2 {
                        assert(cs[j].rowid != cs[j2].rowid);
                        assert(false);
                    }
                    crate::vector::lemma_cosine_milli_bounded(query_embedding@, cs[j].embedding);
                    assert(out@[a as int].similarity as int
                        == cosine_milli(query_embedding@, out@[a as int].chunk@.embedding));
                    assert(key_of(out@[a as int]) == picked@[a as int]);
                }
            },
            Option::None => {
                proof {
                    assert(false);
                }
            },
        }
    }
    proof {
        assert forall|a: int, b: int| 0 <= a < b < out@.len()
            implies sim_lt(key_of(#[trigger] out@[a]), key_of(#[trigger] out@[b])) by {
            assert(key_of(out@[a]) == picked@[a] && key_of(out@[b]) == picked@[b]);
            assert(picked@[a] == sorted@[a] && picked@[b] == sorted@[b]);
            assert(TotalOrd::ord_le(sorted@[a], sorted@[b]));
            assert(sorted@[a] != sorted@[b]);
        }
        assert forall|a: int, b: int| 0 <= a < b < out@.len()
            implies (#[trigger] out@[a]).chunk@.rowid != (#[trigger] out@[b]).chunk@.rowid by {
            if out@[a].chunk@.rowid == out@[b].chunk@.rowid {
                assert(key_of(out@[a]) == picked@[a] && key_of(out@[b]) == picked@[b]);
                assert(scored.contains(picked@[a]) && scored.contains(picked@[b]));
                let ka = choose|ka: int| 0 <= ka < scored.len() && scored[ka] == picked@[a];
                let kb = choose|kb: int| 0 <= kb < scored.len() && scored[kb] == picked@[b];
                lemma_sem_distinct(cs, query_embedding@, config.threshold);
                if ka < kb {
                    assert(scored[ka].rowid != scored[kb].rowid);
                } else if kb < ka {
                    assert(scored[kb].rowid != scored[ka].rowid);
                }
                assert(picked@[a] == picked@[b]);
                assert(sorted@[a] != sorted@[b]);
                assert(false);
            }
        }
        assert forall|p: SimKey| #[trigger] scored.contains(p)
            implies (exists|a: int| 0 <= a < out@.len() && key_of(out@[a]) == p)
                || (out@.len() == config.top_k && forall|a: int| 0 <= a < out@.len()
                    ==> sim_lt(key_of(#[trigger] out@[a]), p)) by {
            assert(keys@.contains(p));
            assert(sorted@.contains(p));
            let k = choose|k: int| 0 <= k < sorted@.len() && sorted@[k] == p;
            if k < cut {
                assert(picked@[k] == p);
                assert(key_of(out@[k]) == p);
            } else {
                assert(out@.len() == config.top_k);
                assert forall|a: int| 0 <= a < out@.len()
                    implies sim_lt(key_of(#[trigger] out@[a]), p) by {
                    assert(key_of(out@[a]) == picked@[a]);
                    assert(picked@[a] == sorted@[a]);
                    assert(TotalOrd::ord_le(sorted@[a], sorted@[k]));
                    assert(sorted@[a] != sorted@[k]);
                }
            }
        }
    }
    out
}

/// No two entries share a fragment key.
pub open spec fn distinct_keys(s: Seq<LexKey>) -> bool {
    forall|a: int, b: int| 0 <= a < b < s.len()
        ==> (#[trigger] s[a]).rowid != (#[trigger] s[b]).rowid
}

/// The rank score recorded for a key, if the key is present.
pub open spec fn score_of(s: Seq<LexKey>, rowid: i64) -> Option<i64> {
    if exists|a: int| 0 <= a < s.len() && (#[trigger] s[a]).rowid == rowid {
        Some(s[choose|a: int| 0 <= a < s.len() && (#[trigger] s[a]).rowid == rowid].score)
    } else {
        None
    }
}

/// The better (lower) of two optional rank scores.
pub open spec fn min_opt(a: Option<i64>, b: Option<i64>) -> Option<i64> {
    match (a, b) {
        (Option::Some(x), Option::Some(y)) => Option::Some(if x <= y { x } else { y }),
        (Option::Some(x), Option::None) => Option::Some(x),
        (Option::None, Option::Some(y)) => Option::Some(y),
        (Option::None, Option::None) => Option::None,
    }
}

/// A merged pool holds, for every key, the better (lower) of its scores in
/// the two inputs, and carries distinct keys.
pub open spec fn merge_ok(prev: Seq<LexKey>, pool: Seq<LexKey>, merged: Seq<LexKey>) -> bool {
    &&& distinct_keys(merged)
    &&& forall|rid: i64| #[trigger] score_of(merged, rid)
        == min_opt(score_of(prev, rid), score_of(pool, rid))
}

/// The lexical candidate pool size for one query variant:
/// `max(top_k * 40, 200)` (held to the machine's integer range).
pub open spec fn pool_limit(top_k: usize) -> int {
    if top_k > usize::MAX / 40 {
        usize::MAX as int
    } else if top_k * 40 < 200 {
        200
    } else {
        top_k * 40
    }
}

/// The merged candidate pool of all query variants: each variant
/// contributes its own bounded lexical pool, and the merge keeps each key's
/// best (lowest) rank score across variants.
pub open spec fn merged_pool_ok(
    cs: Seq<ChunkView>,
    qs: Seq<Seq<char>>,
    limit: int,
    merged: Seq<LexKey>,
) -> bool
    decreases qs.len(),
{
    if qs.len() == 0 {
        merged.len() == 0
    } else {
        exists|prev: Seq<LexKey>, pool: Seq<LexKey>|
            #[trigger] merge_ok(prev, pool, merged)
            && merged_pool_ok(cs, qs.drop_last(), limit, prev)
            && crate::db::bm25_result_ok(cs, crate::text::tokens_of(qs.last()), limit, pool)
    }
}

/// One variant's pool merged in extends the merged-pool characterization by
/// that variant.
pub proof fn lemma_merged_pool_step(
    cs: Seq<ChunkView>,
    qs: Seq<Seq<char>>,
    limit: int,
    prev: Seq<LexKey>,
    pool: Seq<LexKey>,
    merged: Seq<LexKey>,
)
    requires
        qs.len() > 0,
        merged_pool_ok(cs, qs.drop_last(), limit, prev),
        crate::db::bm25_result_ok(cs, crate::text::tokens_of(qs.last()), limit, pool),
        merge_ok(prev, pool, merged),
    ensures
        merged_pool_ok(cs, qs, limit, merged),
{
    assert(merge_ok(prev, pool, merged));
}

/// A ranking of the merged pool: the same keys with the same scores, in
/// strictly ascending `(score, key)` order. Rank positions are 1-based
/// positions in this list.
pub open spec fn lex_ranking_ok(merged: Seq<LexKey>, lexr: Seq<LexKey>) -> bool {
    &&& distinct_keys(lexr)
    &&& forall|a: int, b: int| 0 <= a < b < lexr.len() ==> lex_lt(#[trigger] lexr[a], #[trigger] lexr[b])
    &&& forall|rid: i64| #[trigger] score_of(lexr, rid) == score_of(merged, rid)
}

/// The fragments whose keys sit in the lexical ranking: the only ones whose
/// vectors the retriever loads and scores.
pub open spec fn candidate_set(cs: Seq<ChunkView>, lexr: Seq<LexKey>) -> Seq<ChunkView> {
    cs.filter(|c: ChunkView| score_of(lexr, c.rowid as i64) is Some)
}

/// A semantic ranking of a candidate set: exactly the candidates scoring at
/// or above the threshold, in strictly descending `(similarity, key)`
/// order. Rank positions are 1-based positions in this list.
pub open spec fn sem_ranking_ok(
    cands: Seq<ChunkView>,
    qvec: Seq<i64>,
    threshold: i64,
    sem: Seq<SimKey>,
) -> bool {
    &&& sem.len() == sem_keys(cands, qvec, threshold).len()
    &&& forall|p: SimKey| sem.contains(p) <==> sem_keys(cands, qvec, threshold).contains(p)
    &&& forall|a: int, b: int| 0 <= a < b < sem.len() ==> sim_lt(#[trigger] sem[a], #[trigger] sem[b])
    &&& distinct_sim_keys(sem)
}

/// With distinct keys, `score_of` reads exactly the entry at each index.
pub proof fn lemma_score_of(s: Seq<LexKey>, a: int)
    requires
        distinct_keys(s),
        0 <= a < s.len(),
    ensures
        score_of(s, s[a].rowid) == Some(s[a].score),
{
    let b = choose|b: int| 0 <= b < s.len() && (#[trigger] s[b]).rowid == s[a].rowid;
    if a != b {
        assert(s[a].rowid != s[b].rowid);
    }
}

/// A key none of the entries carry has no score.
pub proof fn lemma_score_of_absent(s: Seq<LexKey>, rowid: i64)
    requires
        forall|a: int| 0 <= a < s.len() ==> (#[trigger] s[a]).rowid != rowid,
    ensures
        score_of(s, rowid) == Option::<i64>::None,
{
}

/// Merge one lexical candidate pool into the accumulated pool, keeping each
/// key's best (lowest) rank score across the two.
pub fn merge_pool(acc: &Vec<LexKey>, pool: &Vec<LexKey>) -> (r: Vec<LexKey>)
    requires
        distinct_keys(acc@),
        distinct_keys(pool@),
    ensures
        merge_ok(acc@, pool@, r@),
        r@.len() <= acc@.len() + pool@.len(),
        r@.len() == 0 ==> acc@.len() == 0 && pool@.len() == 0,
{
    let mut r: Vec<LexKey> = Vec::new();
    let n = acc.len();
    for i in 0..n
        invariant
            n == acc@.len(),
            r@ == acc@.take(i as int),
    {
        r.push(acc[i]);
        proof {
            assert(r@ =~= acc@.take(i + 1));
        }
    }
    proof {
        assert(acc@.take(n as int) =~= acc@);
    }
    let m = pool.len();
    for j in 0..m
        invariant
            m == pool@.len(),
            distinct_keys(acc@),
            distinct_keys(pool@),
            distinct_keys(r@),
            forall|rid: i64| #[trigger] score_of(r@, rid)
                == min_opt(score_of(acc@, rid), score_of(pool@.take(j as int), rid)),
            r@.len() <= acc@.len() + j,
            r@.len() >= acc@.len(),
            j > 0 ==> r@.len() > 0,
    {
        let e = pool[j];
        let ghost prev = r@;
        let ghost pj = pool@.take(j as int);
        proof {
            assert(pool@.take(j + 1) =~= pj.push(e));
            // the pool's remaining entries never repeat an earlier key
            assert forall|a: int| 0 <= a < pj.len() implies (#[trigger] pj[a]).rowid != e.rowid by {
                assert(pj[a] == pool@[a]);
            }
            lemma_score_of_absent(pj, e.rowid);
        }
        // locate the key in the accumulated pool
        let rl = r.len();
        let mut idx: usize = 0;
        let mut found = false;
        while idx < rl && !found
            invariant
                rl == r@.len(),
                idx <= rl,
                !found ==> forall|a: int| 0 <= a < idx ==> (#[trigger] r@[a]).rowid != e.rowid,
                found ==> idx < rl && r@[idx as int].rowid == e.rowid,
            decreases rl - idx + if found { 0int } else { 1int },
        {
            if r[idx].rowid == e.rowid {
                found = true;
            } else {
                idx += 1;
            }
        }
        if found {
            proof {
                lemma_score_of(prev, idx as int);
            }
            if e.score < r[idx].score {
                let better = LexKey { rowid: e.rowid, score: e.score };
                r[idx] = better;
                proof {
                    assert(r@ == prev.update(idx as int, better));
                }
            }
            proof {
                let cur = r@;
                assert(forall|a: int| 0 <= a < cur.len()
                    ==> (#[trigger] cur[a]).rowid == prev[a].rowid);
                assert(distinct_keys(cur));
                assert forall|rid: i64| #[trigger] score_of(cur, rid)
                    == min_opt(score_of(acc@, rid), score_of(pool@.take(j + 1), rid)) by {
                    if rid == e.rowid {
                        lemma_score_of(cur, idx as int);
                        lemma_score_of(pool@.take(j + 1), j as int);
                        assert(pool@.take(j + 1)[j as int] == e);
                    } else {
                        // entries with other keys are untouched
                        if exists|a: int| 0 <= a < prev.len() && (#[trigger] prev[a]).rowid == rid {
                            let a = choose|a: int| 0 <= a < prev.len()
                                && (#[trigger] prev[a]).rowid == rid;
                            lemma_score_of(prev, a);
                            lemma_score_of(cur, a);
                            assert(cur[a] == prev[a]);
                        } else {
                            lemma_score_of_absent(prev, rid);
                            lemma_score_of_absent(cur, rid);
                        }
                        // and the extended pool prefix has no new entry for them
                        if exists|a: int| 0 <= a < pool@.take(j + 1).len()
                            && (#[trigger] pool@.take(j + 1)[a]).rowid == rid {
                            let a = choose|a: int| 0 <= a < pool@.take(j + 1).len()
                                && (#[trigger] pool@.take(j + 1)[a]).rowid == rid;
                            assert(a < j);
                            assert(pj[a] == pool@.take(j + 1)[a]);
                            lemma_score_of(pool@.take(j + 1), a);
                            lemma_score_of(pj, a);
                        } else {
                            lemma_score_of_absent(pool@.take(j + 1), rid);
                            assert(forall|a: int| 0 <= a < pj.len()
                                ==> (#[trigger] pj[a]).rowid != rid);
                            lemma_score_of_absent(pj, rid);
                        }
                    }
                }
            }
        } else {
            r.push(e);
            proof {
                let cur = r@;
                assert(cur =~= prev.push(e));
                assert forall|a: int, b: int| 0 <= a < b < cur.len()
                    implies (#[trigger] cur[a]).rowid != (#[trigger] cur[b]).rowid by {
                    if b == cur.len() - 1 {
                        assert(cur[a] == prev[a]);
                    }
                }
                assert forall|rid: i64| #[trigger] score_of(cur, rid)
                    == min_opt(score_of(acc@, rid), score_of(pool@.take(j + 1), rid)) by {
                    if rid == e.rowid {
                        lemma_score_of(cur, cur.len() - 1);
                        lemma_score_of(pool@.take(j + 1), j as int);
                        assert(pool@.take(j + 1)[j as int] == e);
                        lemma_score_of_absent(prev, rid);
                        lemma_score_of_absent(acc@, rid);
                    } else {
                        if exists|a: int| 0 <= a < prev.len() && (#[trigger] prev[a]).rowid == rid {
                            let a = choose|a: int| 0 <= a < prev.len()
                                && (#[trigger] prev[a]).rowid == rid;
                            lemma_score_of(prev, a);
                            assert(cur[a] == prev[a]);
                            lemma_score_of(cur, a);
                        } else {
                            lemma_score_of_absent(prev, rid);
                            assert(forall|a: int| 0 <= a < cur.len()
                                ==> (#[trigger] cur[a]).rowid != rid);
                            lemma_score_of_absent(cur, rid);
                        }
                        if exists|a: int| 0 <= a < pool@.take(j + 1).len()
                            && (#[trigger] pool@.take(j + 1)[a]).rowid == rid {
                            let a = choose|a: int| 0 <= a < pool@.take(j + 1).len()
                                && (#[trigger] pool@.take(j + 1)[a]).rowid == rid;
                            assert(a < j);
                            assert(pj[a] == pool@.take(j + 1)[a]);
                            lemma_score_of(pool@.take(j + 1), a);
                            lemma_score_of(pj, a);
                        } else {
                            lemma_score_of_absent(pool@.take(j + 1), rid);
                            assert(forall|a: int| 0 <= a < pj.len()
                                ==> (#[trigger] pj[a]).rowid != rid);
                            lemma_score_of_absent(pj, rid);
                        }
                    }
                }
            }
        }
    }
    proof {
        assert(pool@.take(m as int) =~= pool@);
    }
    r
}

/// One fused ranking entry: a fragment key, its 1-based rank in each signal
/// (or the fallback rank where absent), and the fusion constant. Its fused
/// score is `1/(k + sem_rank) + 1/(k + lex_rank)`, compared exactly.
#[derive(Clone, Copy, PartialEq, Eq, Structural, Debug)]
pub struct FusedKey {
    pub rowid: i64,
    pub sem_rank: i64,
    pub lex_rank: i64,
    pub k: i64,
}

impl FusedKey {
    /// Field bounds under which the exact score comparison stays within
    /// machine arithmetic.
    pub open spec fn bounded(self) -> bool {
        &&& 1 <= self.k <= 1_000_000
        &&& 1 <= self.sem_rank <= 8_000_000_000
        &&& 1 <= self.lex_rank <= 8_000_000_000
    }
}

/// Numerator of the fused score `1/(k+s) + 1/(k+l)` over the common
/// denominator.
pub open spec fn rrf_num(a: FusedKey) -> int {
    (a.k + a.sem_rank) + (a.k + a.lex_rank)
}

/// The common denominator of the fused score.
pub open spec fn rrf_den(a: FusedKey) -> int {
    (a.k + a.sem_rank) * (a.k + a.lex_rank)
}

/// Equal fused scores, compared exactly by cross-multiplication.
pub open spec fn rrf_score_eq(a: FusedKey, b: FusedKey) -> bool {
    rrf_num(a) * rrf_den(b) == rrf_num(b) * rrf_den(a)
}

/// Tie-breaking among equal fused scores: ascending key, then the remaining
/// fields (so the order is total on all keys).
pub open spec fn fused_tie_lt(a: FusedKey, b: FusedKey) -> bool {
    ||| a.rowid < b.rowid
    ||| (a.rowid == b.rowid && a.sem_rank < b.sem_rank)
    ||| (a.rowid == b.rowid && a.sem_rank == b.sem_rank && a.lex_rank < b.lex_rank)
    ||| (a.rowid == b.rowid && a.sem_rank == b.sem_rank && a.lex_rank == b.lex_rank && a.k < b.k)
}

/// The fused result order: descending fused score (compared exactly by
/// cross-multiplication), ties by ascending key.
pub open spec fn fused_lt(a: FusedKey, b: FusedKey) -> bool {
    ||| rrf_num(a) * rrf_den(b) > rrf_num(b) * rrf_den(a)
    ||| (rrf_score_eq(a, b) && fused_tie_lt(a, b))
}

/// Fraction comparison with positive denominators is transitive.
proof fn lemma_frac_trans(na: int, da: int, nb: int, db: int, nc: int, dc: int)
    requires
        da > 0,
        db > 0,
        dc > 0,
        na * db >= nb * da,
        nb * dc >= nc * db,
    ensures
        na * dc >= nc * da,
        na * db > nb * da || nb * dc > nc * db ==> na * dc > nc * da,
{
    if na * db > nb * da || nb * dc > nc * db {
        assert(na * dc > nc * da) by (nonlinear_arith)
            requires
                da > 0 && db > 0 && dc > 0,
                na * db >= nb * da,
                nb * dc >= nc * db,
                na * db > nb * da || nb * dc > nc * db,
        ;
    } else {
        assert(na * dc >= nc * da) by (nonlinear_arith)
            requires
                da > 0 && db > 0 && dc > 0,
                na * db >= nb * da,
                nb * dc >= nc * db,
        ;
    }
}

impl TotalOrd for FusedKey {
    open spec fn ord_wf(self) -> bool {
        self.bounded()
    }

    open spec fn ord_le(self, other: Self) -> bool {
        fused_lt(self, other) || self == other
    }

    proof fn lemma_ord_total(a: Self, b: Self) {
    }

    proof fn lemma_ord_trans(a: Self, b: Self, c: Self) {
        if a == b || b == c {
        } else {
            assert(rrf_den(a) > 0) by (nonlinear_arith)
                requires a.bounded();
            assert(rrf_den(b) > 0) by (nonlinear_arith)
                requires b.bounded();
            assert(rrf_den(c) > 0) by (nonlinear_arith)
                requires c.bounded();
            lemma_frac_trans(rrf_num(a), rrf_den(a), rrf_num(b), rrf_den(b),
                rrf_num(c), rrf_den(c));
            if rrf_score_eq(a, b) && rrf_score_eq(b, c) {
                let na = rrf_num(a);
                let da = rrf_den(a);
                let nb = rrf_num(b);
                let db = rrf_den(b);
                let nc = rrf_num(c);
                let dc = rrf_den(c);
                assert(db * (na * dc) == db * (nc * da)) by (nonlinear_arith)
                    requires
                        na * db == nb * da,
                        nb * dc == nc * db,
                ;
                assert(na * dc == nc * da) by (nonlinear_arith)
                    requires db > 0 && db * (na * dc) == db * (nc * da);
            }
        }
    }

    fn le(&self, other: &Self) -> (r: bool) {
        let ka: i128 = self.k as i128 + self.sem_rank as i128;
        let la: i128 = self.k as i128 + self.lex_rank as i128;
        let kb: i128 = other.k as i128 + other.sem_rank as i128;
        let lb: i128 = other.k as i128 + other.lex_rank as i128;
        proof {
            assert(1 <= ka * la <= 100_000_000_000_000_000_000i128) by (nonlinear_arith)
                requires 1 <= ka <= 10_000_000_000i128 && 1 <= la <= 10_000_000_000i128;
            assert(1 <= kb * lb <= 100_000_000_000_000_000_000i128) by (nonlinear_arith)
                requires 1 <= kb <= 10_000_000_000i128 && 1 <= lb <= 10_000_000_000i128;
        }
        let sa: i128 = ka + la;
        let da: i128 = ka * la;
        let sb: i128 = kb + lb;
        let db: i128 = kb * lb;
        proof {
            assert(sa * db <= 2_100_000_000_000_000_000_000_000_000_000i128
                && sa * db >= 1) by (nonlinear_arith)
                requires 1 <= sa <= 20_000_000_000i128 && 1 <= db <= 100_000_000_000_000_000_000i128;
            assert(sb * da <= 2_100_000_000_000_000_000_000_000_000_000i128
                && sb * da >= 1) by (nonlinear_arith)
                requires 1 <= sb <= 20_000_000_000i128 && 1 <= da <= 100_000_000_000_000_000_000i128;
        }
        let left: i128 = sa * db;
        let right: i128 = sb * da;
        if left != right {
            return left > right;
        }
        if self.rowid != other.rowid {
            return self.rowid < other.rowid;
        }
        if self.sem_rank != other.sem_rank {
            return self.sem_rank < other.sem_rank;
        }
        if self.lex_rank != other.lex_rank {
            return self.lex_rank < other.lex_rank;
        }
        self.k <= other.k
    }
}

/// A better rank in one signal never lowers the fused score: with the
/// other signal's rank equal, the key with the better (smaller) rank in
/// this signal is fused strictly higher. In particular a key ranked in a
/// signal always beats one holding the fallback rank there, whenever the
/// fallback is larger.
pub proof fn lemma_rrf_rank_monotone(a: FusedKey, b: FusedKey)
    requires
        a.bounded(),
        b.bounded(),
        a.k == b.k,
        a.sem_rank == b.sem_rank,
        a.lex_rank < b.lex_rank,
    ensures
        fused_lt(a, b),
{
    let s = a.k + a.sem_rank;
    let la = a.k + a.lex_rank;
    let lb = b.k + b.lex_rank;
    assert(rrf_num(a) * rrf_den(b) > rrf_num(b) * rrf_den(a)) by (nonlinear_arith)
        requires
            s >= 2,
            2 <= la < lb,
            rrf_num(a) == s + la,
            rrf_num(b) == s + lb,
            rrf_den(a) == s * la,
            rrf_den(b) == s * lb,
    ;
}

/// The same, for the semantic signal.
pub proof fn lemma_rrf_sem_rank_monotone(a: FusedKey, b: FusedKey)
    requires
        a.bounded(),
        b.bounded(),
        a.k == b.k,
        a.lex_rank == b.lex_rank,
        a.sem_rank < b.sem_rank,
    ensures
        fused_lt(a, b),
{
    let l = a.k + a.lex_rank;
    let sa = a.k + a.sem_rank;
    let sb = b.k + b.sem_rank;
    assert(rrf_num(a) * rrf_den(b) > rrf_num(b) * rrf_den(a)) by (nonlinear_arith)
        requires
            l >= 2,
            2 <= sa < sb,
            rrf_num(a) == sa + l,
            rrf_num(b) == sb + l,
            rrf_den(a) == sa * l,
            rrf_den(b) == sb * l,
    ;
}

/// The 1-based semantic rank of a key, if present.
pub open spec fn sim_rank_of(sem: Seq<SimKey>, rowid: i64) -> Option<int> {
    if exists|a: int| 0 <= a < sem.len() && (#[trigger] sem[a]).rowid == rowid {
        Some(1 + choose|a: int| 0 <= a < sem.len() && (#[trigger] sem[a]).rowid == rowid)
    } else {
        None
    }
}

/// The 1-based lexical rank of a key, if present.
pub open spec fn lex_rank_of(lex: Seq<LexKey>, rowid: i64) -> Option<int> {
    if exists|a: int| 0 <= a < lex.len() && (#[trigger] lex[a]).rowid == rowid {
        Some(1 + choose|a: int| 0 <= a < lex.len() && (#[trigger] lex[a]).rowid == rowid)
    } else {
        None
    }
}

/// Semantic entries with pairwise distinct keys.
pub open spec fn distinct_sim_keys(s: Seq<SimKey>) -> bool {
    forall|a: int, b: int| 0 <= a < b < s.len()
        ==> (#[trigger] s[a]).rowid != (#[trigger] s[b]).rowid
}

/// With distinct keys, the rank of the entry at index `a` is `a + 1`.
pub proof fn lemma_sim_rank_of(sem: Seq<SimKey>, a: int)
    requires
        distinct_sim_keys(sem),
        0 <= a < sem.len(),
    ensures
        sim_rank_of(sem, sem[a].rowid) == Some(a + 1),
{
    let b = choose|b: int| 0 <= b < sem.len() && (#[trigger] sem[b]).rowid == sem[a].rowid;
    if a != b {
        assert(sem[a].rowid != sem[b].rowid);
    }
}

/// With distinct keys, the rank of the entry at index `a` is `a + 1`.
pub proof fn lemma_lex_rank_of(lex: Seq<LexKey>, a: int)
    requires
        distinct_keys(lex),
        0 <= a < lex.len(),
    ensures
        lex_rank_of(lex, lex[a].rowid) == Some(a + 1),
{
    let b = choose|b: int| 0 <= b < lex.len() && (#[trigger] lex[b]).rowid == lex[a].rowid;
    if a != b {
        assert(lex[a].rowid != lex[b].rowid);
    }
}

/// Some fused entry carries the key.
pub open spec fn has_rowid(s: Seq<FusedKey>, rowid: i64) -> bool {
    exists|e: int| 0 <= e < s.len() && (#[trigger] s[e]).rowid == rowid
}

/// The ranks a fused entry must carry for a key: its rank in each ranking,
/// or the fallback rank where the key is absent.
pub open spec fn fused_entry_ok(
    e: FusedKey,
    sem: Seq<SimKey>,
    lex: Seq<LexKey>,
    rrf_k: i64,
    fallback: i64,
) -> bool {
    &&& e.k == rrf_k
    &&& e.sem_rank as int == match sim_rank_of(sem, e.rowid) {
        Option::Some(p) => p,
        Option::None => fallback as int,
    }
    &&& e.lex_rank as int == match lex_rank_of(lex, e.rowid) {
        Option::Some(p) => p,
        Option::None => fallback as int,
    }
    &&& sim_rank_of(sem, e.rowid) is Some || lex_rank_of(lex, e.rowid) is Some
}

/// Find a key's 1-based position in the semantic ranking.
fn find_sim_rank(sem: &Vec<SimKey>, rowid: i64) -> (r: Option<usize>)
    requires
        distinct_sim_keys(sem@),
    ensures
        match r {
            Option::Some(p) => sim_rank_of(sem@, rowid) == Some(p as int) && 1 <= p <= sem@.len(),
            Option::None => sim_rank_of(sem@, rowid) is None,
        },
{
    let n = sem.len();
    for a in 0..n
        invariant
            n == sem@.len(),
            distinct_sim_keys(sem@),
            forall|k: int| 0 <= k < a ==> (#[trigger] sem@[k]).rowid != rowid,
    {
        if sem[a].rowid == rowid {
            proof {
                lemma_sim_rank_of(sem@, a as int);
            }
            return Some(a + 1);
        }
    }
    None
}

/// Find a key's 1-based position in the lexical ranking.
fn find_lex_rank(lex: &Vec<LexKey>, rowid: i64) -> (r: Option<usize>)
    requires
        distinct_keys(lex@),
    ensures
        match r {
            Option::Some(p) => lex_rank_of(lex@, rowid) == Some(p as int) && 1 <= p <= lex@.len(),
            Option::None => lex_rank_of(lex@, rowid) is None,
        },
{
    let n = lex.len();
    for a in 0..n
        invariant
            n == lex@.len(),
            distinct_keys(lex@),
            forall|k: int| 0 <= k < a ==> (#[trigger] lex@[k]).rowid != rowid,
    {
        if lex[a].rowid == rowid {
            proof {
                lemma_lex_rank_of(lex@, a as int);
            }
            return Some(a + 1);
        }
    }
    None
}

/// The fused ranking of two rankings: every key of either appears exactly
/// once, carrying its 1-based rank in each (or the fallback rank where
/// absent), in strictly descending fused-score order (ties by ascending
/// key).
pub open spec fn fused_ok(
    sem: Seq<SimKey>,
    lex: Seq<LexKey>,
    rrf_k: i64,
    fallback: i64,
    fused: Seq<FusedKey>,
) -> bool {
    &&& forall|a: int, b: int| 0 <= a < b < fused.len()
        ==> fused_lt(#[trigger] fused[a], #[trigger] fused[b])
    &&& forall|a: int| 0 <= a < fused.len()
        ==> fused_entry_ok(#[trigger] fused[a], sem, lex, rrf_k, fallback)
    &&& forall|a: int| 0 <= a < sem.len() ==> has_rowid(fused, (#[trigger] sem[a]).rowid)
    &&& forall|a: int| 0 <= a < lex.len() ==> has_rowid(fused, (#[trigger] lex[a]).rowid)
    &&& forall|a: int, b: int| 0 <= a < b < fused.len()
        ==> (#[trigger] fused[a]).rowid != (#[trigger] fused[b]).rowid
}

/// Reciprocal rank fusion: every key appearing in either ranking gets the
/// fused score `1/(k + semantic rank) + 1/(k + lexical rank)`, with the
/// fallback rank standing in for a missing ranking, and the fused list
/// comes back sorted by descending score (ties by ascending key).
#[verifier::rlimit(80)]
pub fn rrf_fuse(
    sem: &Vec<SimKey>,
    lex: &Vec<LexKey>,
    rrf_k: i64,
    fallback: i64,
) -> (r: Vec<FusedKey>)
    requires
        distinct_sim_keys(sem@),
        distinct_keys(lex@),
        1 <= rrf_k <= 1_000_000,
        1 <= fallback <= 1_000_000_000,
        sem@.len() <= 4_300_000_000,
        lex@.len() <= 4_300_000_000,
    ensures
        fused_ok(sem@, lex@, rrf_k, fallback, r@),
{
    broadcast use vstd::seq_lib::to_multiset_contains, vstd::seq_lib::to_multiset_len;

    let mut keys: Vec<FusedKey> = Vec::new();
    let ns = sem.len();
    for a in 0..ns
        invariant
            ns == sem@.len(),
            distinct_sim_keys(sem@),
            distinct_keys(lex@),
            1 <= rrf_k <= 1_000_000,
            1 <= fallback <= 1_000_000_000,
            sem@.len() <= 4_300_000_000,
            lex@.len() <= 4_300_000_000,
            keys@.len() == a,
            forall|k: int| 0 <= k < a
                ==> (#[trigger] keys@[k]).rowid == sem@[k].rowid
                    && fused_entry_ok(keys@[k], sem@, lex@, rrf_k, fallback)
                    && keys@[k].bounded(),
    {
        let lr = match find_lex_rank(lex, sem[a].rowid) {
            Option::Some(p) => p as i64,
            Option::None => fallback,
        };
        proof {
            lemma_sim_rank_of(sem@, a as int);
        }
        keys.push(FusedKey { rowid: sem[a].rowid, sem_rank: (a as i64) + 1, lex_rank: lr, k: rrf_k });
    }
    let nl = lex.len();
    for b in 0..nl
        invariant
            nl == lex@.len(),
            ns == sem@.len(),
            distinct_sim_keys(sem@),
            distinct_keys(lex@),
            1 <= rrf_k <= 1_000_000,
            1 <= fallback <= 1_000_000_000,
            sem@.len() <= 4_300_000_000,
            lex@.len() <= 4_300_000_000,
            keys@.len() >= ns,
            forall|k: int| 0 <= k < ns ==> (#[trigger] keys@[k]).rowid == sem@[k].rowid,
            forall|k: int| 0 <= k < keys@.len()
                ==> fused_entry_ok(#[trigger] keys@[k], sem@, lex@, rrf_k, fallback)
                    && keys@[k].bounded(),
            forall|k: int| ns <= k < keys@.len()
                ==> sim_rank_of(sem@, (#[trigger] keys@[k]).rowid) is None
                    && exists|p: int| 0 <= p < b && keys@[k].rowid == (#[trigger] lex@[p]).rowid,
            forall|k1: int, k2: int| 0 <= k1 < k2 < keys@.len()
                ==> (#[trigger] keys@[k1]).rowid != (#[trigger] keys@[k2]).rowid,
            forall|k: int| 0 <= k < b
                ==> (sim_rank_of(sem@, (#[trigger] lex@[k]).rowid) is Some)
                    || exists|e: int| 0 <= e < keys@.len()
                        && (#[trigger] keys@[e]).rowid == lex@[k].rowid,
    {
        let rid = lex[b].rowid;
        let in_sem = find_sim_rank(sem, rid);
        match in_sem {
            Option::Some(_) => {
            },
            Option::None => {
                proof {
                    lemma_lex_rank_of(lex@, b as int);
                }
                let ghost before = keys@;
                keys.push(FusedKey {
                    rowid: rid,
                    sem_rank: fallback,
                    lex_rank: (b as i64) + 1,
                    k: rrf_k,
                });
                proof {
                    assert(forall|k: int| 0 <= k < before.len()
                        ==> #[trigger] keys@[k] == before[k]);
                    let last = keys@.len() - 1;
                    assert(keys@[last].rowid == lex@[b as int].rowid);
                    // the new key differs from every earlier one
                    assert forall|k1: int, k2: int| 0 <= k1 < k2 < keys@.len()
                        implies (#[trigger] keys@[k1]).rowid != (#[trigger] keys@[k2]).rowid by {
                        if k2 == last {
                            if k1 < ns {
                                if keys@[k1].rowid == rid {
                                    lemma_sim_rank_of(sem@, k1);
                                }
                            } else {
                                let p = choose|p: int| 0 <= p < b
                                    && before[k1].rowid == (#[trigger] lex@[p]).rowid;
                                assert(lex@[p].rowid != lex@[b as int].rowid);
                            }
                        }
                    }
                    // earlier lexical keys are still covered
                    assert forall|k: int| 0 <= k < b + 1
                        implies (sim_rank_of(sem@, (#[trigger] lex@[k]).rowid) is Some)
                            || exists|e: int| 0 <= e < keys@.len()
                                && (#[trigger] keys@[e]).rowid == lex@[k].rowid by {
                        if k == b {
                            assert(keys@[last].rowid == lex@[k].rowid);
                        } else if !(sim_rank_of(sem@, lex@[k].rowid) is Some) {
                            let e = choose|e: int| 0 <= e < before.len()
                                && (#[trigger] before[e]).rowid == lex@[k].rowid;
                            assert(keys@[e].rowid == lex@[k].rowid);
                        }
                    }
                }
            },
        }
    }
    proof {
        assert(all_fused_wf(keys@));
        assert(keys@.no_duplicates()) by {
            assert forall|a: int, b: int| 0 <= a < keys@.len() && 0 <= b < keys@.len() && a != b
                implies keys@[a] != keys@[b] by {
                if a < b {
                    assert(keys@[a].rowid != keys@[b].rowid);
                } else {
                    assert(keys@[b].rowid != keys@[a].rowid);
                }
            }
        }
    }
    let sorted = sort_by_ord(&keys);
    proof {
        keys@.lemma_multiset_has_no_duplicates();
        sorted@.lemma_multiset_has_no_duplicates_conv();
        assert forall|a: int, b: int| 0 <= a < b < sorted@.len()
            implies fused_lt(#[trigger] sorted@[a], #[trigger] sorted@[b]) by {
            assert(TotalOrd::ord_le(sorted@[a], sorted@[b]));
            assert(sorted@[a] != sorted@[b]);
        }
        assert forall|a: int| 0 <= a < sorted@.len()
            implies fused_entry_ok(#[trigger] sorted@[a], sem@, lex@, rrf_k, fallback) by {
            assert(sorted@.contains(sorted@[a]));
            assert(keys@.contains(sorted@[a]));
            let k = choose|k: int| 0 <= k < keys@.len() && keys@[k] == sorted@[a];
            assert(fused_entry_ok(keys@[k], sem@, lex@, rrf_k, fallback));
        }
        assert forall|a: int, b: int| 0 <= a < b < sorted@.len()
            implies (#[trigger] sorted@[a]).rowid != (#[trigger] sorted@[b]).rowid by {
            assert(sorted@[a] != sorted@[b]);
            if sorted@[a].rowid == sorted@[b].rowid {
                assert(keys@.contains(sorted@[a]));
                assert(keys@.contains(sorted@[b]));
                let ka = choose|ka: int| 0 <= ka < keys@.len() && keys@[ka] == sorted@[a];
                let kb = choose|kb: int| 0 <= kb < keys@.len() && keys@[kb] == sorted@[b];
                if ka < kb {
                    assert(keys@[ka].rowid != keys@[kb].rowid);
                } else if kb < ka {
                    assert(keys@[kb].rowid != keys@[ka].rowid);
                }
                assert(false);
            }
        }
        assert forall|a: int| 0 <= a < sem@.len()
            implies has_rowid(sorted@, (#[trigger] sem@[a]).rowid) by {
            assert(keys@[a].rowid == sem@[a].rowid);
            assert(keys@.contains(keys@[a]));
            assert(sorted@.contains(keys@[a]));
            let e = choose|e: int| 0 <= e < sorted@.len() && sorted@[e] == keys@[a];
            assert(sorted@[e].rowid == sem@[a].rowid);
        }
        assert forall|a: int| 0 <= a < lex@.len()
            implies has_rowid(sorted@, (#[trigger] lex@[a]).rowid) by {
            if sim_rank_of(sem@, lex@[a].rowid) is Some {
                let p = choose|p: int| 0 <= p < sem@.len()
                    && (#[trigger] sem@[p]).rowid == lex@[a].rowid;
                assert(keys@[p].rowid == lex@[a].rowid);
                assert(keys@.contains(keys@[p]));
                assert(sorted@.contains(keys@[p]));
                let e = choose|e: int| 0 <= e < sorted@.len() && sorted@[e] == keys@[p];
                assert(sorted@[e].rowid == lex@[a].rowid);
            } else {
                let e0 = choose|e0: int| 0 <= e0 < keys@.len()
                    && (#[trigger] keys@[e0]).rowid == lex@[a].rowid;
                assert(keys@.contains(keys@[e0]));
                assert(sorted@.contains(keys@[e0]));
                let e = choose|e: int| 0 <= e < sorted@.len() && sorted@[e] == keys@[e0];
                assert(sorted@[e].rowid == lex@[a].rowid);
            }
        }
    }
    sorted
}

/// Every fused key in the list is bounded (so the sort may compare them).
pub open spec fn all_fused_wf(s: Seq<FusedKey>) -> bool {
    forall|i: int| 0 <= i < s.len() ==> (#[trigger] s[i]).bounded()
}

/// The full semantic ranking of a candidate set: every fragment scoring at
/// or above the threshold, ordered by descending similarity (ties by
/// ascending key).
pub fn rank_semantic(
    chunks: &Vec<StoredChunk>,
    query_embedding: &Vec<i64>,
    threshold: i64,
) -> (r: Vec<SimKey>)
    requires
        valid_vector(query_embedding@),
        distinct_valid_chunks(chunks.deep_view()),
    ensures
        sem_ranking_ok(chunks.deep_view(), query_embedding@, threshold, r@),
{
    broadcast use vstd::seq_lib::to_multiset_contains, vstd::seq_lib::to_multiset_len;

    let ghost cs = chunks.deep_view();
    let ghost scored = sem_keys(cs, query_embedding@, threshold);
    let n = chunks.len();
    let mut keys: Vec<SimKey> = Vec::new();
    proof {
        assert(cs.take(0int) =~= Seq::<ChunkView>::empty());
    }
    for j in 0..n
        invariant
            n == chunks@.len(),
            cs == chunks.deep_view(),
            valid_vector(query_embedding@),
            distinct_valid_chunks(cs),
            keys@ == sem_keys(cs.take(j as int), query_embedding@, threshold),
    {
        proof {
            assert(cs[j as int] == chunks@[j as int]@);
            assert(cs.take(j + 1).drop_last() =~= cs.take(j as int));
            assert(cs.take(j + 1).last() == cs[j as int]);
        }
        let sim = cosine_similarity(query_embedding, &chunks[j].embedding);
        if sim >= threshold {
            keys.push(SimKey { rowid: chunks[j].rowid, sim });
        }
    }
    proof {
        assert(cs.take(n as int) =~= cs);
        lemma_sem_distinct(cs, query_embedding@, threshold);
        assert(scored.no_duplicates()) by {
            assert forall|a: int, b: int| 0 <= a < scored.len() && 0 <= b < scored.len()
                && a != b implies scored[a] != scored[b] by {
                if a < b {
                    assert(scored[a].rowid != scored[b].rowid);
                } else {
                    assert(scored[b].rowid != scored[a].rowid);
                }
            }
        }
    }
    let sorted = sort_by_ord(&keys);
    proof {
        scored.lemma_multiset_has_no_duplicates();
        sorted@.lemma_multiset_has_no_duplicates_conv();
        assert forall|a: int, b: int| 0 <= a < b < sorted@.len()
            implies sim_lt(#[trigger] sorted@[a], #[trigger] sorted@[b]) by {
            assert(TotalOrd::ord_le(sorted@[a], sorted@[b]));
            assert(sorted@[a] != sorted@[b]);
        }
        assert forall|a: int, b: int| 0 <= a < b < sorted@.len()
            implies (#[trigger] sorted@[a]).rowid != (#[trigger] sorted@[b]).rowid by {
            assert(sorted@[a] != sorted@[b]);
            if sorted@[a].rowid == sorted@[b].rowid {
                assert(scored.contains(sorted@[a]));
                assert(scored.contains(sorted@[b]));
                let ka = choose|ka: int| 0 <= ka < scored.len() && scored[ka] == sorted@[a];
                let kb = choose|kb: int| 0 <= kb < scored.len() && scored[kb] == sorted@[b];
                if ka < kb {
                    assert(scored[ka].rowid != scored[kb].rowid);
                } else if kb < ka {
                    assert(scored[kb].rowid != scored[ka].rowid);
                }
                assert(false);
            }
        }
    }
    sorted
}

/// The similarity recorded for a key in the semantic ranking, if present.
fn find_sim(sem: &Vec<SimKey>, rowid: i64) -> (r: Option<i64>)
    ensures
        match r {
            Option::Some(s) => exists|a: int| 0 <= a < sem@.len()
                && (#[trigger] sem@[a]).rowid == rowid && sem@[a].sim == s,
            Option::None => forall|a: int| 0 <= a < sem@.len()
                ==> (#[trigger] sem@[a]).rowid != rowid,
        },
{
    let n = sem.len();
    for a in 0..n
        invariant
            n == sem@.len(),
            forall|k: int| 0 <= k < a ==> (#[trigger] sem@[k]).rowid != rowid,
    {
        if sem[a].rowid == rowid {
            return Some(sem[a].sim);
        }
    }
    None
}

/// One result per fused key, in fused order: the result list is exactly the
/// first `min(top_k, fused length)` fused keys, each paired with its stored
/// fragment.
pub open spec fn results_ok(
    cs: Seq<ChunkView>,
    fused: Seq<FusedKey>,
    top_k: int,
    rs: Seq<SearchResult>,
) -> bool {
    &&& rs.len() == if top_k <= fused.len() { top_k } else { fused.len() as int }
    &&& forall|a: int| 0 <= a < rs.len()
        ==> (#[trigger] rs[a]).chunk@.rowid == fused[a].rowid as int
    &&& forall|a: int| 0 <= a < rs.len() ==> from_store(cs, (#[trigger] rs[a]).chunk@)
}

/// The whole hybrid pipeline, stage by stage: a merged per-variant lexical
/// pool of size [`pool_limit`] keeping each key's best rank, its ranking,
/// the semantic ranking of exactly the pooled candidates, their reciprocal
/// rank fusion, and the result list following the fused order. Each stage's
/// characterization determines it uniquely, so together they pin the result.
pub open spec fn hybrid_pipeline_ok(
    cs: Seq<ChunkView>,
    qs: Seq<Seq<char>>,
    qvec: Seq<i64>,
    config: RecallConfig,
    rs: Seq<SearchResult>,
) -> bool {
    exists|merged: Seq<LexKey>, lexr: Seq<LexKey>, sem: Seq<SimKey>, fused: Seq<FusedKey>|
        #[trigger] merged_pool_ok(cs, qs, pool_limit(config.top_k), merged)
        && lex_ranking_ok(merged, lexr)
        && #[trigger] sem_ranking_ok(candidate_set(cs, lexr), qvec, config.threshold, sem)
        && #[trigger] fused_ok(sem, lexr, config.rrf_k, config.fallback_rank, fused)
        && results_ok(cs, fused, config.top_k as int, rs)
}

/// The key belongs to some stored fragment.
pub open spec fn key_in_store(cs: Seq<ChunkView>, rid: i64) -> bool {
    exists|j: int| 0 <= j < cs.len() && (#[trigger] cs[j]).rowid as i64 == rid
}

/// Every pool key belongs to some stored fragment.
pub open spec fn keys_from_store(cs: Seq<ChunkView>, m: Seq<LexKey>) -> bool {
    forall|a: int| 0 <= a < m.len() ==> key_in_store(cs, (#[trigger] m[a]).rowid)
}

/// A pool of distinct keys drawn from the store cannot outgrow the store.
proof fn lemma_pool_len_bounded(cs: Seq<ChunkView>, m: Seq<LexKey>)
    requires
        distinct_keys(m),
        keys_from_store(cs, m),
        forall|i: int, j: int| 0 <= i < j < cs.len()
            ==> (#[trigger] cs[i]).rowid != (#[trigger] cs[j]).rowid,
        forall|i: int| 0 <= i < cs.len() ==> 0 <= (#[trigger] cs[i]).rowid <= i64::MAX,
    ensures
        m.len() <= cs.len(),
{
    broadcast use vstd::seq_lib::seq_to_set_is_finite;

    let mk = Seq::new(m.len(), |a: int| m[a].rowid);
    let ck = Seq::new(cs.len(), |j: int| cs[j].rowid as i64);
    assert(mk.no_duplicates()) by {
        assert forall|a: int, b: int| 0 <= a < mk.len() && 0 <= b < mk.len() && a != b
            implies mk[a] != mk[b] by {
            if a < b {
                assert(m[a].rowid != m[b].rowid);
            } else {
                assert(m[b].rowid != m[a].rowid);
            }
        }
    }
    assert(ck.no_duplicates()) by {
        assert forall|a: int, b: int| 0 <= a < ck.len() && 0 <= b < ck.len() && a != b
            implies ck[a] != ck[b] by {
            if a < b {
                assert(cs[a].rowid != cs[b].rowid);
            } else {
                assert(cs[b].rowid != cs[a].rowid);
            }
        }
    }
    mk.unique_seq_to_set();
    ck.unique_seq_to_set();
    assert forall|x: i64| mk.to_set().contains(x) implies ck.to_set().contains(x) by {
        assert(mk.contains(x));
        let a = choose|a: int| 0 <= a < mk.len() && mk[a] == x;
        assert(key_in_store(cs, m[a].rowid));
        let j = choose|j: int| 0 <= j < cs.len() && (#[trigger] cs[j]).rowid as i64 == x;
        assert(ck[j] == x);
        assert(ck.contains(x));
    }
    assert(mk.to_set().subset_of(ck.to_set()));
    vstd::set_lib::lemma_len_subset(mk.to_set(), ck.to_set());
}

/// Filtering with pointwise-equal predicates gives the same sequence.
proof fn lemma_filter_congruent<A>(s: Seq<A>, p: spec_fn(A) -> bool, q: spec_fn(A) -> bool)
    requires
        forall|i: int| 0 <= i < s.len() ==> p(#[trigger] s[i]) == q(s[i]),
    ensures
        s.filter(p) == s.filter(q),
    decreases s.len(),
{
    reveal(Seq::filter);
    if s.len() > 0 {
        assert(forall|i: int| 0 <= i < s.drop_last().len()
            ==> p(#[trigger] s.drop_last()[i]) == q(s.drop_last()[i]));
        lemma_filter_congruent(s.drop_last(), p, q);
        assert(p(s.last()) == q(s.last()));
    }
}

/// Lexical-first hybrid search over several query variants.
///
/// Each variant contributes a lexical candidate pool of size
/// `max(top_k * 40, 200)`; the pools are merged keeping each key's best
/// (lowest) rank. Only the merged candidates are loaded and scored
/// semantically, the two rankings are fused by reciprocal rank, and the
/// results are exactly the best `top_k` fused keys in descending
/// fused-score order ([`hybrid_pipeline_ok`]). Each result carries its raw
/// cosine similarity when that clears the threshold and zero otherwise (the
/// fragment then surfaced purely through the lexical signal); the value is
/// for display and never reorders results. When no variant matches anything
/// lexically, the search degrades to the exhaustive semantic scan over the
/// whole corpus.
#[verifier::rlimit(60)]
pub fn hybrid_search_expanded(
    db: &Database,
    query_embedding: &Vec<i64>,
    queries: &Vec<String>,
    config: &RecallConfig,
) -> (r: Vec<SearchResult>)
    requires
        db.wf(),
        valid_vector(query_embedding@),
        config.wf(),
        forall|qi: int| 0 <= qi < queries@.len() ==> (#[trigger] queries@[qi])@.len() < i64::MAX,
    ensures
        r@.len() <= config.top_k,
        forall|a: int| 0 <= a < r@.len()
            ==> from_store(db@.chunks, (#[trigger] r@[a]).chunk@),
        forall|a: int| 0 <= a < r@.len()
            ==> ((#[trigger] r@[a]).similarity
                    == cosine_milli(query_embedding@, r@[a].chunk@.embedding)
                    && r@[a].similarity >= config.threshold)
                || (r@[a].similarity == 0
                    && cosine_milli(query_embedding@, r@[a].chunk@.embedding) < config.threshold),
        forall|a: int, b: int| 0 <= a < b < r@.len()
            ==> (#[trigger] r@[a]).chunk@.rowid != (#[trigger] r@[b]).chunk@.rowid,
        (forall|qi: int| 0 <= qi < queries@.len()
            ==> matched_pairs(db@.chunks, crate::text::tokens_of((#[trigger] queries@[qi])@)).len() == 0)
            ==> semantic_topk_ok(db@.chunks, query_embedding@, config.threshold,
                config.top_k as int, r@),
        (exists|qi: int| 0 <= qi < queries@.len()
            && matched_pairs(db@.chunks, crate::text::tokens_of((#[trigger] queries@[qi])@)).len() > 0)
            ==> hybrid_pipeline_ok(db@.chunks, queries.deep_view(), query_embedding@, *config, r@),
{
    let ghost qs = queries.deep_view();
    // lexical candidate pool size per query variant
    let pool_size: usize = if config.top_k > usize::MAX / 40 {
        usize::MAX
    } else if config.top_k * 40 < 200 {
        200
    } else {
        config.top_k * 40
    };
    proof {
        assert(pool_size as int == pool_limit(config.top_k));
        assert(qs.take(0int) =~= Seq::<Seq<char>>::empty());
    }
    let nq = queries.len();
    let mut merged: Vec<LexKey> = Vec::new();
    for qi in 0..nq
        invariant
            nq == queries@.len(),
            qs == queries.deep_view(),
            db.wf(),
            pool_size >= 200,
            pool_size as int == pool_limit(config.top_k),
            forall|k: int| 0 <= k < queries@.len() ==> (#[trigger] queries@[k])@.len() < i64::MAX,
            distinct_keys(merged@),
            merged_pool_ok(db@.chunks, qs.take(qi as int), pool_size as int, merged@),
            keys_from_store(db@.chunks, merged@),
            merged@.len() > 0 ==> exists|k: int| 0 <= k < qi
                && matched_pairs(db@.chunks, crate::text::tokens_of((#[trigger] queries@[k])@)).len() > 0,
            merged@.len() == 0 ==> forall|k: int| 0 <= k < qi
                ==> matched_pairs(db@.chunks, crate::text::tokens_of((#[trigger] queries@[k])@)).len() == 0,
    {
        let pool = db.bm25_search(queries[qi].as_str(), pool_size);
        let ghost qts = crate::text::tokens_of(queries@[qi as int]@);
        let ghost mp = matched_pairs(db@.chunks, qts);
        proof {
            // the pool's entries carry distinct keys, since matched pairs do
            db.lemma_wf_view();
            crate::db::lemma_matched_increasing(db@.chunks, qts);
            assert forall|a: int, b: int| 0 <= a < b < pool@.len()
                implies (#[trigger] pool@[a]).rowid != (#[trigger] pool@[b]).rowid by {
                assert(crate::db::lex_lt(pool@[a], pool@[b]));
                if pool@[a].rowid == pool@[b].rowid {
                    assert(mp.contains(pool@[a]));
                    assert(mp.contains(pool@[b]));
                    let ka = choose|ka: int| 0 <= ka < mp.len() && mp[ka] == pool@[a];
                    let kb = choose|kb: int| 0 <= kb < mp.len() && mp[kb] == pool@[b];
                    if ka < kb {
                        assert(mp[ka].rowid < mp[kb].rowid);
                    } else if kb < ka {
                        assert(mp[kb].rowid < mp[ka].rowid);
                    }
                    assert(pool@[a] == pool@[b]);
                    assert(false);
                }
            }
            // every pool key belongs to a stored fragment
            assert forall|a: int| 0 <= a < pool@.len()
                implies key_in_store(db@.chunks, (#[trigger] pool@[a]).rowid) by {
                assert(mp.contains(pool@[a]));
                let ka = choose|ka: int| 0 <= ka < mp.len() && mp[ka] == pool@[a];
                crate::db::lemma_matched_sub(db@.chunks, qts, ka);
            }
        }
        let ghost prev = merged@;
        let next = merge_pool(&merged, &pool);
        proof {
            if next@.len() > 0 && merged@.len() == 0 {
                // the new entries came from this query's pool
                assert(pool@.len() > 0);
                assert(mp.len() > 0);
            }
            // the merged pool after this variant
            assert(qs.take(qi + 1).drop_last() =~= qs.take(qi as int));
            assert(qs.take(qi + 1).last() == queries@[qi as int]@);
            assert(crate::db::bm25_result_ok(db@.chunks, crate::text::tokens_of(qs.take(qi + 1).last()),
                pool_size as int, pool@));
            assert(merged_pool_ok(db@.chunks, qs.take(qi + 1).drop_last(), pool_size as int, prev));
            assert(merge_ok(prev, pool@, next@));
            lemma_merged_pool_step(db@.chunks, qs.take(qi + 1), pool_size as int, prev, pool@, next@);
            // its keys still come from the store
            assert forall|a: int| 0 <= a < next@.len()
                implies key_in_store(db@.chunks, (#[trigger] next@[a]).rowid) by {
                lemma_score_of(next@, a);
                assert(score_of(next@, next@[a].rowid)
                    == min_opt(score_of(prev, next@[a].rowid), score_of(pool@, next@[a].rowid)));
                if score_of(prev, next@[a].rowid) is Some {
                    if exists|k: int| 0 <= k < prev.len() && (#[trigger] prev[k]).rowid == next@[a].rowid {
                        let k = choose|k: int| 0 <= k < prev.len()
                            && (#[trigger] prev[k]).rowid == next@[a].rowid;
                        assert(key_in_store(db@.chunks, prev[k].rowid));
                    } else {
                        lemma_score_of_absent(prev, next@[a].rowid);
                    }
                } else {
                    if exists|k: int| 0 <= k < pool@.len()
                        && (#[trigger] pool@[k]).rowid == next@[a].rowid {
                        let k = choose|k: int| 0 <= k < pool@.len()
                            && (#[trigger] pool@[k]).rowid == next@[a].rowid;
                        assert(key_in_store(db@.chunks, pool@[k].rowid));
                    } else {
                        lemma_score_of_absent(pool@, next@[a].rowid);
                        assert(false);
                    }
                }
            }
            // a variant that matched nothing leaves an empty pool empty
            if next@.len() == 0 {
                assert(pool@.len() == 0);
                assert(mp.len() == 0);
            }
        }
        merged = next;
    }
    proof {
        assert(qs.take(nq as int) =~= qs);
    }
    if merged.len() == 0 {
        // no variant matched anything lexically: full-scan fallback
        let all = db.load_all_chunks();
        proof {
            db.lemma_wf_view();
            assert(all.deep_view() == db@.chunks);
            assert forall|i: int, j: int| 0 <= i < j < db@.chunks.len()
                implies (#[trigger] db@.chunks[i]).rowid != (#[trigger] db@.chunks[j]).rowid by {
            }
            assert forall|i: int| 0 <= i < db@.chunks.len()
                implies 0 <= (#[trigger] db@.chunks[i]).rowid <= i64::MAX
                    && valid_vector(db@.chunks[i].embedding) by {
            }
        }
        let out = semantic_only_search(&all, query_embedding, config);
        proof {
            lemma_topk_gives_hybrid_clauses(db@.chunks, query_embedding@, config.threshold,
                config.top_k as int, out@);
            // nothing matched, so the pipeline clause asks nothing here
            assert(forall|k: int| 0 <= k < queries@.len()
                ==> matched_pairs(db@.chunks, crate::text::tokens_of((#[trigger] queries@[k])@)).len() == 0);
        }
        return out;
    }
    // ranks in the merged pool come from its sorted order
    proof {
        broadcast use vstd::seq_lib::to_multiset_contains, vstd::seq_lib::to_multiset_len;

        assert(merged@.no_duplicates()) by {
            assert forall|a: int, b: int| 0 <= a < merged@.len() && 0 <= b < merged@.len()
                && a != b implies merged@[a] != merged@[b] by {
                if a < b {
                    assert(merged@[a].rowid != merged@[b].rowid);
                } else {
                    assert(merged@[b].rowid != merged@[a].rowid);
                }
            }
        }
    }
    let sorted_lex = crate::order::sort_by_ord(&merged);
    proof {
        broadcast use vstd::seq_lib::to_multiset_contains, vstd::seq_lib::to_multiset_len;

        merged@.lemma_multiset_has_no_duplicates();
        sorted_lex@.lemma_multiset_has_no_duplicates_conv();
        assert forall|a: int, b: int| 0 <= a < b < sorted_lex@.len()
            implies (#[trigger] sorted_lex@[a]).rowid != (#[trigger] sorted_lex@[b]).rowid by {
            assert(sorted_lex@[a] != sorted_lex@[b]);
            if sorted_lex@[a].rowid == sorted_lex@[b].rowid {
                assert(merged@.contains(sorted_lex@[a]));
                assert(merged@.contains(sorted_lex@[b]));
                let ka = choose|ka: int| 0 <= ka < merged@.len() && merged@[ka] == sorted_lex@[a];
                let kb = choose|kb: int| 0 <= kb < merged@.len() && merged@[kb] == sorted_lex@[b];
                if ka < kb {
                    assert(merged@[ka].rowid != merged@[kb].rowid);
                } else if kb < ka {
                    assert(merged@[kb].rowid != merged@[ka].rowid);
                }
                assert(false);
            }
        }
        // the sorted pool is the merged pool's ranking
        assert forall|a: int, b: int| 0 <= a < b < sorted_lex@.len()
            implies lex_lt(#[trigger] sorted_lex@[a], #[trigger] sorted_lex@[b]) by {
            assert(TotalOrd::ord_le(sorted_lex@[a], sorted_lex@[b]));
            assert(sorted_lex@[a] != sorted_lex@[b]);
        }
        assert forall|rid: i64| #[trigger] score_of(sorted_lex@, rid) == score_of(merged@, rid) by {
            if exists|a: int| 0 <= a < sorted_lex@.len() && (#[trigger] sorted_lex@[a]).rowid == rid {
                let a = choose|a: int| 0 <= a < sorted_lex@.len()
                    && (#[trigger] sorted_lex@[a]).rowid == rid;
                lemma_score_of(sorted_lex@, a);
                assert(merged@.contains(sorted_lex@[a]));
                let k = choose|k: int| 0 <= k < merged@.len() && merged@[k] == sorted_lex@[a];
                lemma_score_of(merged@, k);
            } else {
                lemma_score_of_absent(sorted_lex@, rid);
                if exists|k: int| 0 <= k < merged@.len() && (#[trigger] merged@[k]).rowid == rid {
                    let k = choose|k: int| 0 <= k < merged@.len()
                        && (#[trigger] merged@[k]).rowid == rid;
                    assert(sorted_lex@.contains(merged@[k]));
                    let a = choose|a: int| 0 <= a < sorted_lex@.len()
                        && sorted_lex@[a] == merged@[k];
                    assert(false);
                } else {
                    lemma_score_of_absent(merged@, rid);
                }
            }
        }
        assert(lex_ranking_ok(merged@, sorted_lex@));
        // its keys still come from the store
        assert forall|a: int| 0 <= a < sorted_lex@.len()
            implies key_in_store(db@.chunks, (#[trigger] sorted_lex@[a]).rowid) by {
            assert(merged@.contains(sorted_lex@[a]));
            let k = choose|k: int| 0 <= k < merged@.len() && merged@[k] == sorted_lex@[a];
            assert(key_in_store(db@.chunks, merged@[k].rowid));
        }
        // distinct keys drawn from the store: the pool fits the rank bounds
        db.lemma_wf_view();
        lemma_pool_len_bounded(db@.chunks, sorted_lex@);
    }
    let mut rowids: Vec<i64> = Vec::new();
    let nl = sorted_lex.len();
    for a in 0..nl
        invariant
            nl == sorted_lex@.len(),
            rowids@.len() == a,
            forall|k: int| 0 <= k < a ==> #[trigger] rowids@[k] == sorted_lex@[k].rowid,
    {
        rowids.push(sorted_lex[a].rowid);
    }
    let candidates = db.load_chunks_by_rowids(&rowids);
    let ghost cs = candidates.deep_view();
    proof {
        db.lemma_wf_view();
        let pred = |c: ChunkView| rowids@.contains(c.rowid as i64);
        let cpred = |c: ChunkView| score_of(sorted_lex@, c.rowid as i64) is Some;
        // membership in the key list and presence in the ranking coincide
        assert forall|i: int| 0 <= i < db@.chunks.len()
            implies pred(#[trigger] db@.chunks[i]) == cpred(db@.chunks[i]) by {
            let rid = db@.chunks[i].rowid as i64;
            if rowids@.contains(rid) {
                let k = choose|k: int| 0 <= k < rowids@.len() && rowids@[k] == rid;
                lemma_score_of(sorted_lex@, k);
            } else {
                if exists|k: int| 0 <= k < sorted_lex@.len()
                    && (#[trigger] sorted_lex@[k]).rowid == rid {
                    let k = choose|k: int| 0 <= k < sorted_lex@.len()
                        && (#[trigger] sorted_lex@[k]).rowid == rid;
                    assert(rowids@[k] == rid);
                    assert(false);
                }
                lemma_score_of_absent(sorted_lex@, rid);
            }
        }
        lemma_filter_congruent(db@.chunks, pred, cpred);
        assert(cs == candidate_set(db@.chunks, sorted_lex@));
        db@.chunks.lemma_filter_len(pred);
        assert(cs.len() <= db@.chunks.len());
        assert forall|i: int, j: int| 0 <= i < j < cs.len()
            implies (#[trigger] cs[i]).rowid != (#[trigger] cs[j]).rowid by {
            crate::db::lemma_filter_keeps_order(db@.chunks, pred, i, j);
        }
        assert forall|i: int| 0 <= i < cs.len()
            implies 0 <= (#[trigger] cs[i]).rowid <= i64::MAX && valid_vector(cs[i].embedding) by {
            crate::db::lemma_filter_sub(db@.chunks, pred, i);
            let k = choose|k: int| 0 <= k < db@.chunks.len() && db@.chunks[k] == cs[i];
        }
        assert(distinct_valid_chunks(cs));
        assert forall|a: int| 0 <= a < cs.len()
            implies from_store(db@.chunks, #[trigger] cs[a]) by {
            crate::db::lemma_filter_sub(db@.chunks, pred, a);
        }
    }
    let sem = rank_semantic(&candidates, query_embedding, config.threshold);
    proof {
        lemma_sem_keys_len(cs, query_embedding@, config.threshold);
        assert(sem@.len() <= cs.len());
    }
    let fused = rrf_fuse(&sem, &sorted_lex, config.rrf_k, config.fallback_rank);
    // assemble the results: one per fused key, best first
    let nf = fused.len();
    let take_n = if config.top_k <= nf { config.top_k } else { nf };
    let mut out: Vec<SearchResult> = Vec::new();
    for e in 0..take_n
        invariant
            nf == fused@.len(),
            take_n <= nf,
            take_n <= config.top_k,
            cs == candidates.deep_view(),
            cs == candidate_set(db@.chunks, sorted_lex@),
            valid_vector(query_embedding@),
            distinct_valid_chunks(cs),
            db.wf(),
            keys_from_store(db@.chunks, sorted_lex@),
            lex_ranking_ok(merged@, sorted_lex@),
            forall|a: int| 0 <= a < cs.len() ==> from_store(db@.chunks, #[trigger] cs[a]),
            sem_ranking_ok(cs, query_embedding@, config.threshold, sem@),
            fused_ok(sem@, sorted_lex@, config.rrf_k, config.fallback_rank, fused@),
            out@.len() == e,
            forall|a: int| 0 <= a < out@.len()
                ==> (#[trigger] out@[a]).chunk@.rowid == fused@[a].rowid as int,
            forall|a: int| 0 <= a < out@.len()
                ==> from_store(db@.chunks, (#[trigger] out@[a]).chunk@),
            forall|a: int| 0 <= a < out@.len()
                ==> ((#[trigger] out@[a]).similarity
                        == cosine_milli(query_embedding@, out@[a].chunk@.embedding)
                        && out@[a].similarity >= config.threshold)
                    || (out@[a].similarity == 0
                        && cosine_milli(query_embedding@, out@[a].chunk@.embedding)
                            < config.threshold),
    {
        let key = fused[e];
        proof {
            // the fused key names a loaded candidate: it sits in one of the
            // two rankings, and both draw from the candidate set
            assert(fused_entry_ok(fused@[e as int], sem@, sorted_lex@,
                config.rrf_k, config.fallback_rank));
            if sim_rank_of(sem@, key.rowid) is Some {
                let a = choose|a: int| 0 <= a < sem@.len() && (#[trigger] sem@[a]).rowid == key.rowid;
                assert(sem@.contains(sem@[a]));
                assert(sem_keys(cs, query_embedding@, config.threshold).contains(sem@[a]));
                let kk = choose|kk: int| 0 <= kk < sem_keys(cs, query_embedding@, config.threshold).len()
                    && sem_keys(cs, query_embedding@, config.threshold)[kk] == sem@[a];
                lemma_sem_sub(cs, query_embedding@, config.threshold, kk);
                let j = choose|j: int| 0 <= j < cs.len()
                    && (#[trigger] cs[j]).rowid as i64 == sem@[a].rowid
                    && cosine_milli(query_embedding@, cs[j].embedding) as i64 == sem@[a].sim
                    && cosine_milli(query_embedding@, cs[j].embedding) >= config.threshold;
                assert(cs[j].rowid == key.rowid as int);
            } else {
                assert(lex_rank_of(sorted_lex@, key.rowid) is Some);
                let a = choose|a: int| 0 <= a < sorted_lex@.len()
                    && (#[trigger] sorted_lex@[a]).rowid == key.rowid;
                lemma_score_of(sorted_lex@, a);
                assert(key_in_store(db@.chunks, sorted_lex@[a].rowid));
                let j = choose|j: int| 0 <= j < db@.chunks.len()
                    && (#[trigger] db@.chunks[j]).rowid as i64 == key.rowid;
                let cpred = |c: ChunkView| score_of(sorted_lex@, c.rowid as i64) is Some;
                db@.chunks.lemma_filter_contains(cpred, j);
                assert(candidate_set(db@.chunks, sorted_lex@).contains(db@.chunks[j]));
                let jc = choose|jc: int| 0 <= jc < cs.len() && cs[jc] == db@.chunks[j];
                db.lemma_wf_view();
                assert(cs[jc].rowid == key.rowid as int);
            }
        }
        let found = chunk_by_rowid(&candidates, key.rowid);
        let c = match found {
            Option::Some(c) => c,
            Option::None => {
                proof {
                    assert(false);
                }
                StoredChunk {
                    rowid: 0,
                    id: String::new(),
                    session_id: String::new(),
                    turn_start: 0,
                    turn_end: 1,
                    timestamp: None,
                    text: String::new(),
                    embedding: Vec::new(),
                }
            },
        };
        let ghost cv = c@;
        let sim = match find_sim(&sem, key.rowid) {
            Option::Some(s) => s,
            Option::None => 0,
        };
        proof {
            lemma_hybrid_entry(cs, sem@, query_embedding@, config.threshold, cv, key.rowid);
            let jc = choose|jc: int| 0 <= jc < cs.len()
                && #[trigger] cs[jc] == cv && cv.rowid == key.rowid as int;
            assert(from_store(db@.chunks, cs[jc]));
        }
        let ghost prev = out@;
        out.push(SearchResult { chunk: c, similarity: sim });
        proof {
            assert forall|a: int| 0 <= a < out@.len()
                implies from_store(db@.chunks, (#[trigger] out@[a]).chunk@) by {
                if a < out@.len() - 1 {
                    assert(out@[a] == prev[a]);
                }
            }
        }
    }
    proof {
        assert(results_ok(db@.chunks, fused@, config.top_k as int, out@));
        assert(merged_pool_ok(db@.chunks, qs, pool_limit(config.top_k), merged@));
        assert(sem_ranking_ok(candidate_set(db@.chunks, sorted_lex@), query_embedding@,
            config.threshold, sem@));
        assert(hybrid_pipeline_ok(db@.chunks, qs, query_embedding@, *config, out@));
        // results carry distinct keys because the fused keys are distinct
        assert forall|a: int, b: int| 0 <= a < b < out@.len()
            implies (#[trigger] out@[a]).chunk@.rowid != (#[trigger] out@[b]).chunk@.rowid by {
            assert(fused@[a].rowid != fused@[b].rowid);
        }
    }
    out
}

/// There are never more semantic entries than candidates.
proof fn lemma_sem_keys_len(cs: Seq<ChunkView>, qvec: Seq<i64>, threshold: i64)
    ensures
        sem_keys(cs, qvec, threshold).len() <= cs.len(),
    decreases cs.len(),
{
    if cs.len() > 0 {
        lemma_sem_keys_len(cs.drop_last(), qvec, threshold);
    }
}

/// What one assembled hybrid result satisfies: the similarity attached to a
/// candidate is its true cosine score when that clears the threshold, and
/// zero otherwise.
proof fn lemma_hybrid_entry(
    cs: Seq<ChunkView>,
    sem: Seq<SimKey>,
    qvec: Seq<i64>,
    threshold: i64,
    cv: ChunkView,
    rowid: i64,
)
    requires
        distinct_valid_chunks(cs),
        forall|p: SimKey| sem.contains(p) <==> sem_keys(cs, qvec, threshold).contains(p),
        exists|j: int| 0 <= j < cs.len() && #[trigger] cs[j] == cv && cv.rowid == rowid as int,
    ensures
        (exists|a: int| 0 <= a < sem.len() && (#[trigger] sem[a]).rowid == rowid
            && sem[a].sim == cosine_milli(qvec, cv.embedding)
            && cosine_milli(qvec, cv.embedding) >= threshold)
            || ((forall|a: int| 0 <= a < sem.len() ==> (#[trigger] sem[a]).rowid != rowid)
                && cosine_milli(qvec, cv.embedding) < threshold),
        forall|a: int| 0 <= a < sem.len() && (#[trigger] sem[a]).rowid == rowid
            ==> sem[a].sim == cosine_milli(qvec, cv.embedding)
                && cosine_milli(qvec, cv.embedding) >= threshold,
{
    let j = choose|j: int| 0 <= j < cs.len() && #[trigger] cs[j] == cv && cv.rowid == rowid as int;
    crate::vector::lemma_cosine_milli_bounded(qvec, cv.embedding);
    assert forall|a: int| 0 <= a < sem.len() && (#[trigger] sem[a]).rowid == rowid
        implies sem[a].sim == cosine_milli(qvec, cv.embedding)
            && cosine_milli(qvec, cv.embedding) >= threshold by {
        assert(sem.contains(sem[a]));
        assert(sem_keys(cs, qvec, threshold).contains(sem[a]));
        let kk = choose|kk: int| 0 <= kk < sem_keys(cs, qvec, threshold).len()
            && sem_keys(cs, qvec, threshold)[kk] == sem[a];
        lemma_sem_sub(cs, qvec, threshold, kk);
        let j2 = choose|j2: int| 0 <= j2 < cs.len()
            && (#[trigger] cs[j2]).rowid as i64 == sem[a].rowid
            && cosine_milli(qvec, cs[j2].embedding) as i64 == sem[a].sim
            && cosine_milli(qvec, cs[j2].embedding) >= threshold;
        assert(0 <= cs[j2].rowid <= i64::MAX);
        assert(cs[j2].rowid == rowid as int);
        if j != j2 {
            assert(cs[j].rowid != cs[j2].rowid);
            assert(false);
        }
    }
    if cosine_milli(qvec, cv.embedding) >= threshold {
        lemma_sem_complete(cs, qvec, threshold, j);
        let p = SimKey { rowid: cs[j].rowid as i64, sim: cosine_milli(qvec, cs[j].embedding) as i64 };
        assert(sem.contains(p));
        let a = choose|a: int| 0 <= a < sem.len() && sem[a] == p;
        assert(cs[j].rowid as i64 == rowid);
        assert(sem[a].rowid == rowid);
    }
}

/// The exhaustive-scan characterization implies every clause the hybrid
/// search promises of its results.
proof fn lemma_topk_gives_hybrid_clauses(
    cs: Seq<ChunkView>,
    qvec: Seq<i64>,
    threshold: i64,
    top_k: int,
    results: Seq<SearchResult>,
)
    requires
        semantic_topk_ok(cs, qvec, threshold, top_k, results),
    ensures
        results.len() <= top_k,
        forall|a: int| 0 <= a < results.len()
            ==> ((#[trigger] results[a]).similarity
                    == cosine_milli(qvec, results[a].chunk@.embedding)
                    && results[a].similarity >= threshold)
                || (results[a].similarity == 0
                    && cosine_milli(qvec, results[a].chunk@.embedding) < threshold),
{
}

/// Run a search against the store: the exhaustive semantic scan when the
/// configuration asks for it, the hybrid pipeline otherwise.
pub fn search(
    db: &Database,
    query_embedding: &Vec<i64>,
    queries: &Vec<String>,
    config: &RecallConfig,
) -> (r: Vec<SearchResult>)
    requires
        db.wf(),
        valid_vector(query_embedding@),
        config.wf(),
        forall|qi: int| 0 <= qi < queries@.len() ==> (#[trigger] queries@[qi])@.len() < i64::MAX,
    ensures
        r@.len() <= config.top_k,
        forall|a: int| 0 <= a < r@.len()
            ==> from_store(db@.chunks, (#[trigger] r@[a]).chunk@),
        forall|a: int| 0 <= a < r@.len()
            ==> ((#[trigger] r@[a]).similarity
                    == cosine_milli(query_embedding@, r@[a].chunk@.embedding)
                    && r@[a].similarity >= config.threshold)
                || (r@[a].similarity == 0
                    && cosine_milli(query_embedding@, r@[a].chunk@.embedding) < config.threshold),
        forall|a: int, b: int| 0 <= a < b < r@.len()
            ==> (#[trigger] r@[a]).chunk@.rowid != (#[trigger] r@[b]).chunk@.rowid,
        config.semantic_only ==> semantic_topk_ok(db@.chunks, query_embedding@,
            config.threshold, config.top_k as int, r@),
        (!config.semantic_only && forall|qi: int| 0 <= qi < queries@.len()
            ==> matched_pairs(db@.chunks, crate::text::tokens_of((#[trigger] queries@[qi])@)).len() == 0)
            ==> semantic_topk_ok(db@.chunks, query_embedding@, config.threshold,
                config.top_k as int, r@),
        (!config.semantic_only && exists|qi: int| 0 <= qi < queries@.len()
            && matched_pairs(db@.chunks, crate::text::tokens_of((#[trigger] queries@[qi])@)).len() > 0)
            ==> hybrid_pipeline_ok(db@.chunks, queries.deep_view(), query_embedding@, *config, r@),
{
    if config.semantic_only {
        let all = db.load_all_chunks();
        proof {
            db.lemma_wf_view();
            assert(all.deep_view() == db@.chunks);
            assert forall|i: int, j: int| 0 <= i < j < db@.chunks.len()
                implies (#[trigger] db@.chunks[i]).rowid != (#[trigger] db@.chunks[j]).rowid by {
            }
            assert forall|i: int| 0 <= i < db@.chunks.len()
                implies 0 <= (#[trigger] db@.chunks[i]).rowid <= i64::MAX
                    && valid_vector(db@.chunks[i].embedding) by {
            }
        }
        let out = semantic_only_search(&all, query_embedding, config);
        proof {
            lemma_topk_gives_hybrid_clauses(db@.chunks, query_embedding@, config.threshold,
                config.top_k as int, out@);
        }
        out
    } else {
        hybrid_search_expanded(db, query_embedding, queries, config)
    }
}

/// The query variants in a paraphrase reply: its lines, trimmed, empty ones
/// dropped, from position `i` on.
pub open spec fn variants_from(s: Seq<char>, i: int) -> Seq<Seq<char>>
    decreases s.len() + 1 - i,
    when 0 <= i
    via variants_from_decreases
{
    if i >= s.len() {
        Seq::empty()
    } else {
        let e = crate::export::line_end(s, i);
        let t = crate::text::trimmed(s.subrange(i, e));
        let rest = variants_from(s, e + 1);
        if t.len() == 0 {
            rest
        } else {
            seq![t] + rest
        }
    }
}

#[via_fn]
proof fn variants_from_decreases(s: Seq<char>, i: int) {
    if 0 <= i <= s.len() {
        crate::export::lemma_line_end(s, i);
    }
}

/// Parse a paraphrase reply into query variants: one per nonempty line
/// (trimmed), at most two. A reply with no usable line yields no variants,
/// which the caller treats as expansion having found nothing.
pub fn parse_expansion_response(response: &str) -> (r: Vec<String>)
    ensures
        ({
            let all = variants_from(response@, 0);
            let keep = if all.len() <= 2 { all.len() as int } else { 2int };
            &&& r@.len() == keep
            &&& forall|k: int| 0 <= k < r@.len() ==> (#[trigger] r@[k])@ == all[k]
        }),
{
    let chars = crate::text::str_to_chars(response);
    let ghost s = chars@;
    let n = chars.len();
    let mut out: Vec<String> = Vec::new();
    let mut i: usize = 0;
    proof {
        assert(variants_from(s, 0).take(0int) =~= Seq::<Seq<char>>::empty());
    }
    while i < n && out.len() < 2
        invariant
            n == s.len(),
            s == chars@,
            i <= n,
            out@.len() <= 2,
            variants_from(s, 0).len() >= out@.len(),
            forall|k: int| 0 <= k < out@.len()
                ==> (#[trigger] out@[k])@ == variants_from(s, 0)[k],
            out@.len() < 2 ==> variants_from(s, 0) =~=
                variants_from(s, 0).take(out@.len() as int) + variants_from(s, i as int),
        decreases n - i,
    {
        let mut e = i;
        while e < n && chars[e] != '\n'
            invariant
                n == s.len(),
                s == chars@,
                i <= e <= n,
                forall|k: int| i <= k < e ==> s[k] != '\n',
            decreases n - e,
        {
            e += 1;
        }
        proof {
            crate::export::lemma_line_end_at(s, i as int, e as int);
        }
        let ghost line = s.subrange(i as int, e as int);
        // trim the line
        let mut a = i;
        while a < e && crate::text::is_space(chars[a])
            invariant
                i <= a <= e <= n,
                s == chars@,
                n == s.len(),
                forall|k: int| i <= k < a ==> crate::text::is_space_char(#[trigger] s[k]),
            decreases e - a,
        {
            a += 1;
        }
        let mut b = e;
        while b > a && crate::text::is_space(chars[b - 1])
            invariant
                a <= b <= e <= n,
                s == chars@,
                n == s.len(),
                forall|k: int| b <= k < e ==> crate::text::is_space_char(#[trigger] s[k]),
            decreases b,
        {
            b -= 1;
        }
        proof {
            assert(forall|k: int| 0 <= k < line.len() ==> #[trigger] line[k] == s[i + k]);
            crate::harvest::lemma_lead_of_scan(line, a - i);
            if a < e {
                crate::harvest::lemma_trail_of_scan(line, e - b);
                assert(crate::text::trimmed(line) =~= s.subrange(a as int, b as int));
            } else {
                assert(b == a);
                assert(crate::text::trimmed(line) =~= s.subrange(a as int, b as int));
            }
        }
        if b > a {
            let mut t: Vec<char> = Vec::new();
            let mut k = a;
            while k < b
                invariant
                    a <= k <= b <= n,
                    s == chars@,
                    n == s.len(),
                    t@ == s.subrange(a as int, k as int),
                decreases b - k,
            {
                t.push(chars[k]);
                proof {
                    assert(t@ =~= s.subrange(a as int, k + 1));
                }
                k += 1;
            }
            let ghost before = out@;
            out.push(crate::text::chars_to_string(&t));
            proof {
                let all = variants_from(s, 0);
                assert(all =~= all.take(before.len() as int) + variants_from(s, i as int));
                assert(variants_from(s, i as int)[0] == crate::text::trimmed(line));
                assert(all[before.len() as int] == crate::text::trimmed(line));
                assert(out@[before.len() as int]@ == crate::text::trimmed(line));
                if out@.len() < 2 {
                    assert(all =~= all.take(out@.len() as int) + variants_from(s, e + 1)) by {
                        assert(variants_from(s, i as int) =~=
                            seq![crate::text::trimmed(line)] + variants_from(s, e + 1));
                        assert(all.take(out@.len() as int) =~=
                            all.take(before.len() as int).push(crate::text::trimmed(line)));
                    }
                }
            }
        } else {
            proof {
                assert(variants_from(s, i as int) == variants_from(s, e + 1));
            }
        }
        i = if e < n { e + 1 } else { n + 0 };
        proof {
            if e == n {
                assert(variants_from(s, n as int) =~= Seq::<Seq<char>>::empty());
                assert(variants_from(s, n + 1) =~= Seq::<Seq<char>>::empty());
            }
        }
    }
    proof {
        let all = variants_from(s, 0);
        if out@.len() < 2 {
            assert(i >= n);
            assert(variants_from(s, i as int) =~= Seq::<Seq<char>>::empty());
            assert(all =~= all.take(out@.len() as int));
            assert(all.len() == out@.len());
        }
    }
    out
}

} // verus!
