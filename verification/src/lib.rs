//! Memory retrieval engine: hybrid lexical/semantic search over stored
//! conversation fragments, with context expansion and learning rollups.
//!
//! The store, the ranking pipeline and all text processing are verified;
//! network transport, SQLite persistence and terminal display live in the
//! surrounding application crate.

use vstd::prelude::*;

pub mod order;
pub mod codec;
pub mod context;
pub mod db;
pub mod embed;
pub mod export;
pub mod fmt;
pub mod harvest;
pub mod query;
pub mod recall;
pub mod stats;
pub mod session;
pub mod text;
pub mod vector;

verus! {

/// Base locations the application reads sessions from and writes memory to.
/// Paths are kept as plain strings; the application turns them into
/// filesystem paths at its own boundary.
pub struct Paths {
    /// Where session logs are stored.
    pub sessions_dir: String,
    /// Where the workspace memory lives.
    pub memory_dir: String,
    /// The fragment store's backing file.
    pub db_path: String,
    /// Extracted learnings, one JSON record per line.
    pub learnings_path: String,
    /// Cursor for incremental processing.
    pub cursor_path: String,
}

impl Paths {
    /// Derive the standard file layout from custom base directories.
    pub fn with_bases(sessions_dir: String, memory_dir: String) -> (r: Paths)
        ensures
            r.sessions_dir@ == sessions_dir@,
            r.memory_dir@ == memory_dir@,
            r.db_path@ == memory_dir@ + "/profundo.sqlite"@,
            r.learnings_path@ == memory_dir@ + "/learnings.jsonl"@,
            r.cursor_path@ == memory_dir@ + "/.profundo-cursor"@,
    {
        let db_path = memory_dir.clone().concat("/profundo.sqlite");
        let learnings_path = memory_dir.clone().concat("/learnings.jsonl");
        let cursor_path = memory_dir.clone().concat("/.profundo-cursor");
        Paths { sessions_dir, memory_dir, db_path, learnings_path, cursor_path }
    }
}

} // verus!
