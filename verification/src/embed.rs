//! Configuration and counters for the embedding pipeline. The pipeline's
//! discovery, network and storage steps live in the application crate; the
//! chunking it runs is [`crate::session::Session::extract_text_chunks`] and
//! the storage step is [`crate::db::Database::store_chunks`].

use vstd::prelude::*;

verus! {

/// Configuration for the embedding pipeline.
pub struct EmbedConfig {
    /// Conversation turns per chunk.
    pub chunk_size: usize,
    /// Turns of overlap between consecutive chunks.
    pub overlap: usize,
    /// Reprocess every session, even ones whose fingerprint matches.
    pub force_reprocess: bool,
}

impl Default for EmbedConfig {
    /// The default pipeline: three-turn chunks overlapping by one.
    fn default() -> (r: Self)
        ensures
            r.chunk_size == 3,
            r.overlap == 1,
            !r.force_reprocess,
    {
        EmbedConfig { chunk_size: 3, overlap: 1, force_reprocess: false }
    }
}

/// Outcome counts of one pipeline run.
#[derive(Default)]
pub struct EmbedStats {
    pub processed: usize,
    pub skipped: usize,
    pub chunks_created: usize,
    pub errors: usize,
}

} // verus!
