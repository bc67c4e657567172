use profundo::query::{sanitize_fts_query, parse_query};
use profundo::fmt::{truncate_text, format_tokens, format_cost, month_name, weekday_name, u64_to_string};
use profundo::harvest::{strip_markdown_json, format_transcript, Learning, filter_learnings, harvested_ids};
use profundo::export::{replace_profundo_section, filter_by_date, format_learning_bullets, format_stats_summary};
use profundo::session::{
    Session, SessionMessage, MessageContent, ContentBlock, Usage, Cost, TokenStats,
    extract_text_from_content,
};
use profundo::stats::{collect, StatsConfig, str_le};
use profundo::Paths;

#[test]
fn sanitizer_neutralizes_operator_syntax() {
    // operator words and an unbalanced quote become independently quoted tokens
    let s = sanitize_fts_query("AND \"unterminated");
    assert_eq!(s, "\"AND\" \"unterminated\"");
    // the raw input is a syntax error for the query engine; the sanitized
    // form always parses
    assert!(parse_query("AND \"unterminated").is_none());
    let toks = parse_query(&s).unwrap();
    assert_eq!(toks.len(), 2);
    let w0: String = toks[0].iter().collect();
    let w1: String = toks[1].iter().collect();
    assert_eq!(w0, "and");
    assert_eq!(w1, "unterminated");
    // nested quotes and grouping characters are carried as plain text
    assert_eq!(sanitize_fts_query("a\"b (c)"), "\"ab\" \"(c)\"");
    assert_eq!(sanitize_fts_query("   "), "");
}

#[test]
fn truncation_is_character_safe() {
    assert_eq!(truncate_text("short", 10), "short");
    assert_eq!(truncate_text("abcdefgh", 3), "abc...");
    assert_eq!(truncate_text("héllo wörld", 4), "héll...");
}

#[test]
fn number_formatting_examples() {
    assert_eq!(u64_to_string(0), "0");
    assert_eq!(u64_to_string(907), "907");
    assert_eq!(format_tokens(999), "999");
    assert_eq!(format_tokens(1_500), "1.5K");
    assert_eq!(format_tokens(1_234_567), "1.23M");
    assert_eq!(format_cost(12_345), "$0.0123");
    assert_eq!(format_cost(2_500_000), "$2.5000");
    assert_eq!(month_name(1), "Jan");
    assert_eq!(month_name(12), "Dec");
    assert_eq!(month_name(13), "???");
    assert_eq!(weekday_name(0), "Monday");
    assert_eq!(weekday_name(6), "Sunday");
}

#[test]
fn fence_stripping_cases() {
    assert_eq!(strip_markdown_json("```json\n{\"a\":1}\n```"), "{\"a\":1}");
    assert_eq!(strip_markdown_json("```\n{}\n```"), "{}");
    assert_eq!(strip_markdown_json("  {\"plain\": true} "), "{\"plain\": true}");
    assert_eq!(strip_markdown_json("```json\n{}"), "{}");
    assert_eq!(strip_markdown_json(""), "");
}

#[test]
fn section_replacement_scenarios() {
    let content = "# Day\n\n## Morning\nnotes\n\n## Profundo\nold line\nmore old\n\n## Evening\nlater\n";
    let updated = replace_profundo_section(content, "\n## Profundo\n\nnew\n\n");
    assert!(updated.contains("new"));
    assert!(!updated.contains("old line"));
    assert!(updated.contains("## Evening"));
    assert!(updated.contains("## Morning"));
    // a trailing marker section is replaced at the end, after trimming
    let tail = "# Day\nintro\n\n## Profundo\nold\n";
    let updated2 = replace_profundo_section(tail, "\n## Profundo\n\nnew\n");
    assert_eq!(updated2, "# Day\nintro\n## Profundo\n\nnew\n");
}

fn learning(session: &str, date: &str, topic: &str, summary: &str) -> Learning {
    Learning {
        session_id: session.to_string(),
        date: date.to_string(),
        topics: vec![topic.to_string()],
        decisions: vec!["use the plan".to_string()],
        facts_learned: vec![],
        action_items: vec!["follow up".to_string()],
        summary: summary.to_string(),
        message_count: 4,
        cost: 1200,
        harvested_at: "2024-05-02T00:00:00Z".to_string(),
    }
}

#[test]
fn learnings_filter_and_render() {
    let ls = vec![
        learning("aaaa1111", "2024-05-01", "Verification", "Proofs about sorting"),
        learning("bbbb2222", "2024-05-02", "Gardening", "Tomatoes"),
    ];
    let ids = harvested_ids(&ls);
    assert_eq!(ids, vec!["aaaa1111".to_string(), "bbbb2222".to_string()]);
    let by_date = filter_by_date(ls, "2024-05-01");
    assert_eq!(by_date.len(), 1);
    assert_eq!(by_date[0].session_id, "aaaa1111");
    let bullets = format_learning_bullets(&by_date[0]);
    assert_eq!(
        bullets,
        "- **Topics**: Verification\n- Proofs about sorting\n- **Decision**: use the plan\n- [ ] follow up"
    );
    // query matching is case-insensitive across fields
    let ls2 = vec![
        learning("aaaa1111", "2024-05-01", "Verification", "Proofs about sorting"),
        learning("bbbb2222", "2024-05-02", "Gardening", "Tomatoes"),
    ];
    let hits = filter_learnings(ls2, "VERIF");
    assert_eq!(hits.len(), 1);
    assert_eq!(hits[0].session_id, "aaaa1111");
}

fn msg(role: &str, text: &str, ts: &str) -> SessionMessage {
    SessionMessage {
        msg_type: "message".to_string(),
        timestamp: Some(ts.to_string()),
        message: Some(MessageContent {
            role: Some(role.to_string()),
            content: Some(vec![ContentBlock::Text { text: text.to_string() }]),
            model: Some("alpha-model".to_string()),
            usage: Some(Usage {
                input: Some(10),
                output: Some(5),
                cache_read: Some(30),
                cache_write: None,
                total_tokens: Some(45),
                cost: Some(Cost {
                    input: Some(100),
                    output: Some(200),
                    cache_read: None,
                    cache_write: None,
                    total: Some(300),
                }),
            }),
        }),
    }
}

#[test]
fn sessions_aggregate_and_chunk() {
    let messages = vec![
        msg("user", "hello there", "2024-05-01T08:00:00Z"),
        msg("assistant", "hi, how can I help?", "2024-05-01T08:00:05Z"),
        msg("user", "explain sorting", "2024-05-01T08:01:00Z"),
        msg("assistant", "gladly", "2024-05-01T08:01:30Z"),
    ];
    let session = Session::from_messages("sess1".to_string(), messages);
    assert_eq!(session.message_count, 4);
    assert_eq!(session.token_stats.input_tokens, 40);
    assert_eq!(session.token_stats.output_tokens, 20);
    assert_eq!(session.token_stats.total_cost, 1200);
    assert_eq!(session.total_cost, 1200);
    assert_eq!(session.models_used, vec!["alpha-model".to_string()]);
    assert_eq!(session.first_timestamp.as_deref(), Some("2024-05-01T08:00:00Z"));
    // the hit rate is cache reads over all input, in thousandths
    assert_eq!(session.token_stats.cache_hit_rate(), 120 * 1000 / 160);

    let turns = session.get_turns();
    assert_eq!(turns.len(), 2);
    assert_eq!(turns[0].user_text, "hello there");
    assert_eq!(turns[0].assistant_text, "hi, how can I help?");

    let chunks = session.extract_text_chunks(3, 1);
    assert_eq!(chunks.len(), 1);
    assert_eq!(chunks[0].turn_start, 0);
    assert_eq!(chunks[0].turn_end, 2);
    assert_eq!(
        chunks[0].text,
        "User: hello there\n\nAssistant: hi, how can I help?\n\n---\n\nUser: explain sorting\n\nAssistant: gladly"
    );

    let transcript = format_transcript(&session);
    assert!(transcript.starts_with("USER: hello there\n\nASSISTANT:"));
}

#[test]
fn sliding_window_overlaps() {
    let mut messages = Vec::new();
    for i in 0..5 {
        messages.push(msg("user", &format!("q{}", i), "2024-05-01T08:00:00Z"));
        messages.push(msg("assistant", &format!("a{}", i), "2024-05-01T08:00:01Z"));
    }
    let session = Session::from_messages("sess".to_string(), messages);
    let chunks = session.extract_text_chunks(3, 1);
    // five turns, windows of three starting every two turns
    assert_eq!(chunks.len(), 3);
    assert_eq!((chunks[0].turn_start, chunks[0].turn_end), (0, 3));
    assert_eq!((chunks[1].turn_start, chunks[1].turn_end), (2, 5));
    assert_eq!((chunks[2].turn_start, chunks[2].turn_end), (4, 5));
}

#[test]
fn tool_blocks_are_skipped() {
    let content = MessageContent {
        role: Some("assistant".to_string()),
        content: Some(vec![
            ContentBlock::Text { text: "first".to_string() },
            ContentBlock::ToolCall { name: Some("search".to_string()) },
            ContentBlock::ToolResult { content: Some("ignored".to_string()) },
            ContentBlock::Other,
            ContentBlock::Text { text: "second".to_string() },
        ]),
        model: None,
        usage: None,
    };
    assert_eq!(extract_text_from_content(&content), "first\nsecond");
}

#[test]
fn stats_collection_respects_date_bounds() {
    let s1 = Session::from_messages(
        "a".to_string(),
        vec![msg("user", "x", "2024-05-01T08:00:00Z")],
    );
    let s2 = Session::from_messages(
        "b".to_string(),
        vec![msg("user", "y", "2024-05-03T08:00:00Z")],
    );
    let sessions = vec![s1, s2];
    let all = collect(&sessions, &StatsConfig::default(), "2024-05-04");
    assert_eq!(all.session_count, 2);
    assert_eq!(all.total.input_tokens, 20);
    assert!(all.date_range.is_some());
    let bounded = collect(
        &sessions,
        &StatsConfig { since: Some("2024-05-02".to_string()), until: None },
        "2024-05-04",
    );
    assert_eq!(bounded.session_count, 1);
    assert_eq!(bounded.total.input_tokens, 10);
    assert!(str_le("2024-05-01", "2024-05-02"));
    assert!(!str_le("2024-05-02", "2024-05-01"));
}

#[test]
fn stats_summary_line() {
    let stats = TokenStats {
        input_tokens: 1_500,
        output_tokens: 500,
        cache_read_tokens: 0,
        cache_write_tokens: 0,
        total_tokens: 2_000,
        input_cost: 0,
        output_cost: 0,
        cache_read_cost: 0,
        cache_write_cost: 0,
        total_cost: 12_345,
        message_count: 3,
    };
    assert_eq!(
        format_stats_summary(&stats),
        "**Tokens**: 1.5K in / 500 out | **Cache**: 0% | **Cost**: $0.0123"
    );
}

#[test]
fn paths_derive_layout() {
    let p = Paths::with_bases("/tmp/sessions".to_string(), "/tmp/memory".to_string());
    assert_eq!(p.sessions_dir, "/tmp/sessions");
    assert_eq!(p.db_path, "/tmp/memory/profundo.sqlite");
    assert_eq!(p.learnings_path, "/tmp/memory/learnings.jsonl");
    assert_eq!(p.cursor_path, "/tmp/memory/.profundo-cursor");
}

#[test]
fn expansion_reply_parsing() {
    let variants = profundo::recall::parse_expansion_response(
        "  first variant \n\n   \nsecond variant\nthird is dropped\n",
    );
    assert_eq!(variants, vec!["first variant".to_string(), "second variant".to_string()]);
    assert_eq!(profundo::recall::parse_expansion_response("   \n  \n"), Vec::<String>::new());
    assert_eq!(
        profundo::recall::parse_expansion_response("only one"),
        vec!["only one".to_string()]
    );
}
