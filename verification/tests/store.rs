use profundo::db::{Database, StoreError};
use profundo::session::TextChunk;
use profundo::codec::{embedding_to_bytes, bytes_to_embedding};

fn chunk(session: &str, start: usize, end: usize, text: &str) -> (TextChunk, Vec<i64>) {
    (
        TextChunk {
            session_id: session.to_string(),
            turn_start: start,
            turn_end: end,
            timestamp: Some("2024-05-01T10:00:00Z".to_string()),
            text: text.to_string(),
        },
        vec![1000, 0, 0],
    )
}

#[test]
fn store_and_load_round_trip() {
    let mut db = Database::new();
    let batch = vec![chunk("s1", 0, 2, "alpha beta"), chunk("s1", 2, 4, "gamma")];
    db.store_chunks("s1", "/tmp/s1.jsonl", 10, 111, "2024-05-01T10:00:00Z", &batch)
        .unwrap();
    let all = db.load_all_chunks();
    assert_eq!(all.len(), 2);
    assert_eq!(all[0].session_id, "s1");
    assert_eq!(all[0].text, "alpha beta");
    assert_eq!(all[0].turn_start, 0);
    assert_eq!(all[0].turn_end, 2);
    assert_eq!(all[0].id.len(), 36);
    assert_ne!(all[0].rowid, all[1].rowid);
}

#[test]
fn replacement_is_total() {
    let mut db = Database::new();
    db.store_chunks("s1", "p", 10, 111, "t1", &vec![chunk("s1", 0, 1, "old one"), chunk("s1", 1, 2, "old two")])
        .unwrap();
    db.store_chunks("s2", "p", 10, 111, "t1", &vec![chunk("s2", 0, 1, "other")])
        .unwrap();
    // reprocessing replaces all of s1's fragments and nothing else
    db.store_chunks("s1", "p", 20, 222, "t2", &vec![chunk("s1", 0, 3, "new")])
        .unwrap();
    let all = db.load_all_chunks();
    assert_eq!(all.len(), 2);
    let texts: Vec<&str> = all.iter().map(|c| c.text.as_str()).collect();
    assert!(texts.contains(&"other"));
    assert!(texts.contains(&"new"));
    assert!(!texts.contains(&"old one"));
}

#[test]
fn failed_replacement_changes_nothing() {
    let mut db = Database::new();
    db.store_chunks("s1", "p", 10, 111, "t1", &vec![chunk("s1", 0, 1, "keep me")])
        .unwrap();
    // an invalid entry mid-batch rejects the whole batch
    let bad = vec![
        chunk("s1", 0, 1, "first"),
        chunk("s1", 3, 3, "empty range"),
    ];
    let r = db.store_chunks("s1", "p", 20, 222, "t2", &bad);
    assert_eq!(r, Err(StoreError::InvalidTurnRange));
    let all = db.load_all_chunks();
    assert_eq!(all.len(), 1);
    assert_eq!(all[0].text, "keep me");
    assert!(db.is_session_processed("s1", 10, 111));
}

#[test]
fn session_mismatch_rejected() {
    let mut db = Database::new();
    let r = db.store_chunks("s1", "p", 10, 111, "t1", &vec![chunk("other", 0, 1, "x")]);
    assert_eq!(r, Err(StoreError::SessionMismatch));
    assert_eq!(db.load_all_chunks().len(), 0);
}

#[test]
fn oversized_embedding_rejected() {
    let mut db = Database::new();
    let bad = (
        TextChunk {
            session_id: "s1".to_string(),
            turn_start: 0,
            turn_end: 1,
            timestamp: None,
            text: "x".to_string(),
        },
        vec![2_000_000i64],
    );
    let r = db.store_chunks("s1", "p", 10, 111, "t1", &vec![bad]);
    assert_eq!(r, Err(StoreError::InvalidEmbedding));
}

#[test]
fn processed_marker_needs_exact_match() {
    let mut db = Database::new();
    db.store_chunks("s1", "p", 10, 111, "t1", &vec![chunk("s1", 0, 1, "x")])
        .unwrap();
    assert!(db.is_session_processed("s1", 10, 111));
    assert!(!db.is_session_processed("s1", 10, 112));
    assert!(!db.is_session_processed("s1", 11, 111));
    assert!(!db.is_session_processed("s2", 10, 111));
}

#[test]
fn load_by_keys_filters() {
    let mut db = Database::new();
    db.store_chunks("s1", "p", 10, 111, "t1", &vec![chunk("s1", 0, 1, "a"), chunk("s1", 1, 2, "b")])
        .unwrap();
    let all = db.load_all_chunks();
    let picked = db.load_chunks_by_rowids(&vec![all[1].rowid]);
    assert_eq!(picked.len(), 1);
    assert_eq!(picked[0].text, "b");
    let none = db.load_chunks_by_rowids(&vec![]);
    assert_eq!(none.len(), 0);
}

#[test]
fn stats_counts() {
    let mut db = Database::new();
    db.store_chunks("s1", "p", 10, 111, "2024-05-01", &vec![chunk("s1", 0, 1, "a")])
        .unwrap();
    db.store_chunks("s2", "p", 10, 111, "2024-05-02", &vec![chunk("s2", 0, 1, "b")])
        .unwrap();
    let st = db.stats();
    assert_eq!(st.chunks_count, 2);
    assert_eq!(st.sessions_count, 2);
    // the latest processing timestamp wins
    assert_eq!(st.last_processed.as_deref(), Some("2024-05-02"));
}

#[test]
fn bm25_ranks_by_matches() {
    let mut db = Database::new();
    let batch = vec![
        chunk("s1", 0, 1, "alpha beta gamma"),
        chunk("s1", 1, 2, "alpha only here"),
        chunk("s1", 2, 3, "nothing relevant"),
    ];
    db.store_chunks("s1", "p", 10, 111, "t", &batch).unwrap();
    let all = db.load_all_chunks();
    let r = db.bm25_search("alpha beta", 10);
    assert_eq!(r.len(), 2);
    // the two-token match ranks first (more negative score)
    assert_eq!(r[0].rowid, all[0].rowid);
    assert_eq!(r[0].score, -2);
    assert_eq!(r[1].rowid, all[1].rowid);
    assert_eq!(r[1].score, -1);
    // limits are respected
    let r1 = db.bm25_search("alpha", 1);
    assert_eq!(r1.len(), 1);
    // tokens match case-insensitively and through quotes
    let r2 = db.bm25_search("ALPHA \"beta", 10);
    assert_eq!(r2.len(), 2);
    // an empty query matches nothing
    assert_eq!(db.bm25_search("   ", 10).len(), 0);
}

#[test]
fn codec_round_trip_and_truncation() {
    let v: Vec<i64> = vec![-1_000_000, -1, 0, 1, 999_999];
    let bytes = embedding_to_bytes(&v);
    assert_eq!(bytes.len(), 20);
    assert_eq!(bytes_to_embedding(&bytes), v);
    // a malformed blob is cut to its largest complete prefix
    let mut mangled = bytes.clone();
    mangled.pop();
    assert_eq!(bytes_to_embedding(&mangled), vec![-1_000_000, -1, 0, 1]);
}
