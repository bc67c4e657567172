use profundo::db::{Database, LexKey};
use profundo::recall::{
    RecallConfig, SimKey, merge_pool, rrf_fuse, semantic_only_search, hybrid_search_expanded,
    search,
};
use profundo::session::TextChunk;
use profundo::vector::cosine_similarity;
use profundo::context::{expand_context, TurnCache};
use profundo::session::Turn;

fn chunk(session: &str, start: usize, text: &str, embedding: Vec<i64>) -> (TextChunk, Vec<i64>) {
    (
        TextChunk {
            session_id: session.to_string(),
            turn_start: start,
            turn_end: start + 1,
            timestamp: None,
            text: text.to_string(),
        },
        embedding,
    )
}

fn config() -> RecallConfig {
    RecallConfig::default()
}

#[test]
fn cosine_is_exact_on_known_vectors() {
    // a vector against itself scores exactly 1.0
    assert_eq!(cosine_similarity(&vec![3, 4], &vec![3, 4]), 1000);
    // orthogonal vectors score zero
    assert_eq!(cosine_similarity(&vec![1, 0], &vec![0, 1]), 0);
    // opposite vectors score exactly -1.0
    assert_eq!(cosine_similarity(&vec![5, 0], &vec![-5, 0]), -1000);
    // symmetry
    let a = vec![3, 1, 4];
    let b = vec![2, 7, 1];
    assert_eq!(cosine_similarity(&a, &b), cosine_similarity(&b, &a));
    // degenerate cases score zero
    assert_eq!(cosine_similarity(&vec![], &vec![]), 0);
    assert_eq!(cosine_similarity(&vec![1], &vec![1, 2]), 0);
    assert_eq!(cosine_similarity(&vec![0, 0], &vec![1, 1]), 0);
    // always within [-1000, 1000]
    let c = cosine_similarity(&vec![999_999, -999_999], &vec![-999_999, 999_999]);
    assert!(-1000 <= c && c <= 1000);
}

#[test]
fn merge_keeps_best_rank() {
    let a = vec![LexKey { rowid: 1, score: -2 }, LexKey { rowid: 2, score: -1 }];
    let b = vec![LexKey { rowid: 2, score: -5 }, LexKey { rowid: 3, score: -1 }];
    let m = merge_pool(&a, &b);
    assert_eq!(m.len(), 3);
    let of = |rid: i64| m.iter().find(|k| k.rowid == rid).unwrap().score;
    assert_eq!(of(1), -2);
    assert_eq!(of(2), -5);
    assert_eq!(of(3), -1);
}

#[test]
fn fusion_prefers_presence_in_both_rankings() {
    // fragment 1 leads the lexical ranking but is absent semantically;
    // fragment 2 leads the semantic ranking and sits fifth lexically
    let sem = vec![SimKey { rowid: 2, sim: 900 }];
    let lex = vec![
        LexKey { rowid: 1, score: -9 },
        LexKey { rowid: 3, score: -8 },
        LexKey { rowid: 4, score: -7 },
        LexKey { rowid: 5, score: -6 },
        LexKey { rowid: 2, score: -5 },
    ];
    let fused = rrf_fuse(&sem, &lex, 60, 10000);
    assert_eq!(fused.len(), 5);
    // 1/(60+1) + 1/(60+5) beats 1/(60+1) + 1/(60+10000)
    assert_eq!(fused[0].rowid, 2);
    assert_eq!(fused[1].rowid, 1);
    assert_eq!(fused[0].sem_rank, 1);
    assert_eq!(fused[0].lex_rank, 5);
    assert_eq!(fused[1].sem_rank, 10000);
    assert_eq!(fused[1].lex_rank, 1);
}

#[test]
fn semantic_scan_orders_and_cuts() {
    let mut db = Database::new();
    let batch = vec![
        chunk("s", 0, "far", vec![0, 1000]),
        chunk("s", 1, "близко exact", vec![1000, 0]),
        chunk("s", 2, "mid", vec![1000, 1000]),
    ];
    db.store_chunks("s", "p", 1, 1, "t", &batch).unwrap();
    let all = db.load_all_chunks();
    let mut cfg = config();
    cfg.top_k = 2;
    cfg.threshold = 300;
    let q = vec![1000, 0];
    let r = semantic_only_search(&all, &q, &cfg);
    assert_eq!(r.len(), 2);
    assert_eq!(r[0].chunk.text, "близко exact");
    assert_eq!(r[0].similarity, 1000);
    assert_eq!(r[1].chunk.text, "mid");
    assert!(r[1].similarity >= 300);
    // the one below the threshold never shows up
    let mut cfg3 = config();
    cfg3.top_k = 10;
    let r3 = semantic_only_search(&all, &q, &cfg3);
    assert_eq!(r3.len(), 2);
}

#[test]
fn hybrid_bounds_results_and_reports_similarity() {
    let mut db = Database::new();
    let batch = vec![
        chunk("s", 0, "rust verification proofs", vec![1000, 0]),
        chunk("s", 1, "rust compilers", vec![900, 300]),
        chunk("s", 2, "gardening tips", vec![0, 1000]),
    ];
    db.store_chunks("s", "p", 1, 1, "t", &batch).unwrap();
    let q = vec![1000, 0];
    let mut cfg = config();
    cfg.top_k = 2;
    let r = hybrid_search_expanded(&db, &q, &vec!["rust proofs".to_string()], &cfg);
    // both matching fragments come back, best fused score first
    assert_eq!(r.len(), 2);
    assert_eq!(r[0].chunk.text, "rust verification proofs");
    assert_eq!(r[1].chunk.text, "rust compilers");
    for res in &r {
        assert!(res.similarity >= cfg.threshold || res.similarity == 0);
    }
}

#[test]
fn empty_lexical_pool_falls_back_to_full_scan() {
    let mut db = Database::new();
    let batch = vec![
        chunk("s", 0, "alpha", vec![1000, 0]),
        chunk("s", 1, "beta", vec![900, 100]),
    ];
    db.store_chunks("s", "p", 1, 1, "t", &batch).unwrap();
    // the query shares no token with the corpus
    let q = vec![1000, 0];
    let r = hybrid_search_expanded(&db, &q, &vec!["zzz qqq".to_string()], &config());
    assert_eq!(r.len(), 2);
    assert_eq!(r[0].chunk.text, "alpha");
    assert_eq!(r[0].similarity, 1000);
    // an empty corpus really yields nothing
    let empty = Database::new();
    let r2 = hybrid_search_expanded(&empty, &q, &vec!["zzz".to_string()], &config());
    assert_eq!(r2.len(), 0);
}

#[test]
fn search_dispatches_on_mode() {
    let mut db = Database::new();
    db.store_chunks("s", "p", 1, 1, "t", &vec![chunk("s", 0, "alpha topic", vec![1000, 0])])
        .unwrap();
    let q = vec![1000, 0];
    let mut cfg = config();
    cfg.semantic_only = true;
    let r = search(&db, &q, &vec!["alpha".to_string()], &cfg);
    assert_eq!(r.len(), 1);
    cfg.semantic_only = false;
    let r2 = search(&db, &q, &vec!["alpha".to_string()], &cfg);
    assert_eq!(r2.len(), 1);
    assert_eq!(r2[0].chunk.text, "alpha topic");
}

fn turn(u: &str, a: &str) -> Turn {
    Turn {
        user_text: u.to_string(),
        assistant_text: a.to_string(),
        timestamp: None,
    }
}

#[test]
fn context_window_marks_matches() {
    let mut turns: Vec<Turn> = Vec::new();
    for i in 0..10 {
        turns.push(turn(&format!("u{}", i), &format!("a{}", i)));
    }
    // one context turn around a match at turns [2, 3) of ten
    let v = expand_context(&turns, 2, 3, 1).unwrap();
    assert_eq!(v.len(), 3);
    assert_eq!(v[0].index, 1);
    assert!(!v[0].is_match);
    assert_eq!(v[1].index, 2);
    assert!(v[1].is_match);
    assert_eq!(v[2].index, 3);
    assert!(!v[2].is_match);
    assert_eq!(v[1].user_text, "u2");
    // windows clamp at the edges
    let v2 = expand_context(&turns, 0, 1, 5).unwrap();
    assert_eq!(v2[0].index, 0);
    assert_eq!(v2.len(), 6);
    // out-of-range matches fall back
    assert!(expand_context(&turns, 12, 13, 1).is_none());
    assert!(expand_context(&Vec::new(), 0, 1, 1).is_none());
}

#[test]
fn turn_cache_remembers_conversations() {
    let mut cache = TurnCache::new();
    assert!(cache.get_index("s1").is_none());
    cache.insert("s1".to_string(), vec![turn("hello", "hi")]);
    let i = cache.get_index("s1").unwrap();
    assert_eq!(cache.turns_at(i).len(), 1);
    assert!(cache.get_index("s2").is_none());
}
