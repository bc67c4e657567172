//! Usage statistics aggregated across sessions. Walking the session
//! directory and printing the report live in the application crate; the
//! arithmetic lives here.

use vstd::prelude::*;
use vstd::string::StrSliceExecFns;
use crate::session::{Session, TokenStats, add_token_stats, stats_sum, empty_stats, opt_str_view};
use crate::text::str_eq;

verus! {

/// Statistics for one calendar date.
pub struct DateStats {
    pub date: String,
    pub stats: TokenStats,
}

/// Aggregated statistics across sessions.
pub struct AggregatedStats {
    pub total: TokenStats,
    pub by_model: Vec<crate::session::ModelStats>,
    pub by_date: Vec<DateStats>,
    pub session_count: usize,
    pub date_range: Option<(String, String)>,
}

/// Configuration for the statistics report. Dates are `YYYY-MM-DD`, so
/// their character order is their calendar order.
pub struct StatsConfig {
    /// Only include sessions since this date.
    pub since: Option<String>,
    /// Only include sessions until this date.
    pub until: Option<String>,
}

impl Default for StatsConfig {
    /// No date bounds.
    fn default() -> (r: Self)
        ensures
            r.since is None,
            r.until is None,
    {
        StatsConfig { since: None, until: None }
    }
}

/// Character-code lexicographic order; on `YYYY-MM-DD` dates this is the
/// calendar order.
pub open spec fn lex_le(a: Seq<char>, b: Seq<char>) -> bool
    decreases a.len(),
{
    if a.len() == 0 {
        true
    } else if b.len() == 0 {
        false
    } else if (a[0] as u32) < (b[0] as u32) {
        true
    } else if (a[0] as u32) > (b[0] as u32) {
        false
    } else {
        lex_le(a.drop_first(), b.drop_first())
    }
}

/// Compare two strings lexicographically by character code.
pub fn str_le(a: &str, b: &str) -> (r: bool)
    ensures
        r == lex_le(a@, b@),
{
    proof {
        assert(a@.skip(0int) =~= a@);
        assert(b@.skip(0int) =~= b@);
    }
    str_le_from(a, b, 0)
}

/// Comparison of the suffixes from position `i` on.
fn str_le_from(a: &str, b: &str, i: usize) -> (r: bool)
    requires
        i <= a@.len(),
        i <= b@.len(),
    ensures
        r == lex_le(a@.skip(i as int), b@.skip(i as int)),
    decreases a@.len() - i,
{
    let na = a.unicode_len();
    let nb = b.unicode_len();
    if i >= na {
        return true;
    }
    if i >= nb {
        return false;
    }
    let ca = a.get_char(i) as u32;
    let cb = b.get_char(i) as u32;
    proof {
        assert(a@.skip(i as int)[0] == a@[i as int]);
        assert(b@.skip(i as int)[0] == b@[i as int]);
        assert(a@.skip(i as int).drop_first() =~= a@.skip(i + 1));
        assert(b@.skip(i as int).drop_first() =~= b@.skip(i + 1));
    }
    if ca < cb {
        true
    } else if ca > cb {
        false
    } else {
        str_le_from(a, b, i + 1)
    }
}

/// The order is reflexive.
pub proof fn lemma_lex_refl(a: Seq<char>)
    ensures
        lex_le(a, a),
    decreases a.len(),
{
    if a.len() > 0 {
        lemma_lex_refl(a.drop_first());
    }
}

/// The order is total.
pub proof fn lemma_lex_total(a: Seq<char>, b: Seq<char>)
    ensures
        lex_le(a, b) || lex_le(b, a),
    decreases a.len(),
{
    if a.len() > 0 && b.len() > 0 && (a[0] as u32) == (b[0] as u32) {
        lemma_lex_total(a.drop_first(), b.drop_first());
    }
}

/// The order is transitive.
pub proof fn lemma_lex_trans(a: Seq<char>, b: Seq<char>, c: Seq<char>)
    requires
        lex_le(a, b),
        lex_le(b, c),
    ensures
        lex_le(a, c),
    decreases a.len(),
{
    if a.len() > 0 && b.len() > 0 && c.len() > 0
        && (a[0] as u32) == (b[0] as u32) && (b[0] as u32) == (c[0] as u32) {
        lemma_lex_trans(a.drop_first(), b.drop_first(), c.drop_first());
    }
}

/// The date a session is attributed to: the first ten characters of its
/// first timestamp, or the given current date when it has none.
pub open spec fn session_date(s: Session, today: Seq<char>) -> Seq<char> {
    match opt_str_view(s.first_timestamp) {
        Option::Some(t) => if t.len() >= 10 { t.take(10) } else { t },
        Option::None => today,
    }
}

/// Whether a date passes the configured bounds.
pub open spec fn date_in_range(d: Seq<char>, config: StatsConfig) -> bool {
    &&& match opt_str_view(config.since) { Option::Some(s) => lex_le(s, d), Option::None => true }
    &&& match opt_str_view(config.until) { Option::Some(u) => lex_le(d, u), Option::None => true }
}

/// The sessions that pass the date bounds, in order.
pub open spec fn in_range_sessions(
    sessions: Seq<Session>,
    config: StatsConfig,
    today: Seq<char>,
) -> Seq<Session>
    decreases sessions.len(),
{
    if sessions.len() == 0 {
        Seq::empty()
    } else {
        let rest = in_range_sessions(sessions.drop_last(), config, today);
        if date_in_range(session_date(sessions.last(), today), config) {
            rest.push(sessions.last())
        } else {
            rest
        }
    }
}

/// The fold of the in-range sessions' statistics.
pub open spec fn total_of(sessions: Seq<Session>) -> TokenStats
    decreases sessions.len(),
{
    if sessions.len() == 0 {
        empty_stats()
    } else {
        stats_sum(total_of(sessions.drop_last()), sessions.last().token_stats)
    }
}

/// The statistics recorded for a date, if the date has a bucket.
pub open spec fn date_bucket(by_date: Seq<DateStats>, d: Seq<char>) -> Option<TokenStats> {
    if exists|i: int| 0 <= i < by_date.len() && (#[trigger] by_date[i]).date@ == d {
        Some(by_date[choose|i: int| 0 <= i < by_date.len()
            && (#[trigger] by_date[i]).date@ == d].stats)
    } else {
        None
    }
}

/// The statistics recorded for a model, if the model has a bucket.
pub open spec fn model_bucket(by_model: Seq<crate::session::ModelStats>, m: Seq<char>) -> Option<TokenStats> {
    if exists|i: int| 0 <= i < by_model.len() && (#[trigger] by_model[i]).model@ == m {
        Some(by_model[choose|i: int| 0 <= i < by_model.len()
            && (#[trigger] by_model[i]).model@ == m].stats)
    } else {
        None
    }
}

/// With distinct dates, `date_bucket` reads exactly the entry at each index.
proof fn lemma_date_bucket(by_date: Seq<DateStats>, i: int)
    requires
        forall|a: int, b: int| 0 <= a < b < by_date.len()
            ==> (#[trigger] by_date[a]).date@ != (#[trigger] by_date[b]).date@,
        0 <= i < by_date.len(),
    ensures
        date_bucket(by_date, by_date[i].date@) == Some(by_date[i].stats),
{
    let b = choose|b: int| 0 <= b < by_date.len() && (#[trigger] by_date[b]).date@ == by_date[i].date@;
    if i != b {
        if i < b {
            assert(by_date[i].date@ != by_date[b].date@);
        } else {
            assert(by_date[b].date@ != by_date[i].date@);
        }
    }
}

/// With distinct models, `model_bucket` reads exactly the entry at each index.
proof fn lemma_model_bucket(by_model: Seq<crate::session::ModelStats>, i: int)
    requires
        forall|a: int, b: int| 0 <= a < b < by_model.len()
            ==> (#[trigger] by_model[a]).model@ != (#[trigger] by_model[b]).model@,
        0 <= i < by_model.len(),
    ensures
        model_bucket(by_model, by_model[i].model@) == Some(by_model[i].stats),
{
    let b = choose|b: int| 0 <= b < by_model.len()
        && (#[trigger] by_model[b]).model@ == by_model[i].model@;
    if i != b {
        if i < b {
            assert(by_model[i].model@ != by_model[b].model@);
        } else {
            assert(by_model[b].model@ != by_model[i].model@);
        }
    }
}

/// The statistics one date's sessions accumulate, over a session list.
pub open spec fn date_fold(ss: Seq<Session>, today: Seq<char>, d: Seq<char>) -> Option<TokenStats>
    decreases ss.len(),
{
    if ss.len() == 0 {
        None
    } else {
        let rest = date_fold(ss.drop_last(), today, d);
        if session_date(ss.last(), today) == d {
            match rest {
                Option::Some(st) => Option::Some(stats_sum(st, ss.last().token_stats)),
                Option::None => Option::Some(ss.last().token_stats),
            }
        } else {
            rest
        }
    }
}

/// One model's statistics accumulated over the first `i` messages of a log,
/// on top of an accumulator: only message records naming the model and
/// carrying usage contribute.
pub open spec fn model_msgs_fold(
    msgs: Seq<crate::session::SessionMessage>,
    i: int,
    m: Seq<char>,
    acc: Option<TokenStats>,
) -> Option<TokenStats>
    decreases i,
{
    if i <= 0 {
        acc
    } else {
        let prev = model_msgs_fold(msgs, i - 1, m, acc);
        let msg = msgs[i - 1];
        if msg.msg_type@ == "message"@ {
            match msg.message {
                Option::Some(c) => match (c.model, c.usage) {
                    (Option::Some(mo), Option::Some(u)) => if mo@ == m {
                        match prev {
                            Option::Some(st) => Option::Some(stats_sum(st,
                                crate::session::usage_stats_spec(u))),
                            Option::None => Option::Some(crate::session::usage_stats_spec(u)),
                        }
                    } else {
                        prev
                    },
                    _ => prev,
                },
                Option::None => prev,
            }
        } else {
            prev
        }
    }
}

/// One model's statistics accumulated over a session list, message by
/// message.
pub open spec fn model_fold(ss: Seq<Session>, m: Seq<char>) -> Option<TokenStats>
    decreases ss.len(),
{
    if ss.len() == 0 {
        None
    } else {
        model_msgs_fold(ss.last().messages@, ss.last().messages@.len() as int, m,
            model_fold(ss.drop_last(), m))
    }
}

/// Aggregate statistics over the sessions inside the configured date range.
///
/// The grand total is the saturating field-wise sum of the included
/// sessions' statistics and the count is exact; the per-date and per-model
/// breakdowns carry one entry per distinct key, each holding exactly the
/// fold of the included sessions (respectively their messages) under that
/// key.
pub fn collect(sessions: &Vec<Session>, config: &StatsConfig, today: &str) -> (r: AggregatedStats)
    ensures
        ({
            let included = in_range_sessions(sessions@, *config, today@);
            &&& r.session_count == included.len()
            &&& r.total == total_of(included)
            &&& (r.date_range is Some <==> included.len() > 0)
            &&& forall|i: int, j: int| 0 <= i < j < r.by_model@.len()
                ==> (#[trigger] r.by_model@[i]).model@ != (#[trigger] r.by_model@[j]).model@
            &&& forall|i: int, j: int| 0 <= i < j < r.by_date@.len()
                ==> (#[trigger] r.by_date@[i]).date@ != (#[trigger] r.by_date@[j]).date@
            &&& forall|d: Seq<char>| #[trigger] date_bucket(r.by_date@, d)
                == date_fold(included, today@, d)
            &&& forall|m: Seq<char>| #[trigger] model_bucket(r.by_model@, m)
                == model_fold(included, m)
        }),
{
    let n = sessions.len();
    let mut total = crate::session::zero_stats();
    let mut count: usize = 0;
    let mut by_model: Vec<crate::session::ModelStats> = Vec::new();
    let mut by_date: Vec<DateStats> = Vec::new();
    let mut range: Option<(String, String)> = None;
    proof {
        assert(sessions@.take(0int) =~= Seq::<Session>::empty());
    }
    for i in 0..n
        invariant
            n == sessions@.len(),
            count == in_range_sessions(sessions@.take(i as int), *config, today@).len(),
            count <= i,
            total == total_of(in_range_sessions(sessions@.take(i as int), *config, today@)),
            range is Some <==> count > 0,
            forall|a: int, b: int| 0 <= a < b < by_model@.len()
                ==> (#[trigger] by_model@[a]).model@ != (#[trigger] by_model@[b]).model@,
            forall|a: int, b: int| 0 <= a < b < by_date@.len()
                ==> (#[trigger] by_date@[a]).date@ != (#[trigger] by_date@[b]).date@,
            forall|d: Seq<char>| #[trigger] date_bucket(by_date@, d)
                == date_fold(in_range_sessions(sessions@.take(i as int), *config, today@), today@, d),
            forall|m: Seq<char>| #[trigger] model_bucket(by_model@, m)
                == model_fold(in_range_sessions(sessions@.take(i as int), *config, today@), m),
    {
        proof {
            assert(sessions@.take(i + 1).drop_last() =~= sessions@.take(i as int));
            assert(sessions@.take(i + 1).last() == sessions@[i as int]);
        }
        let s = &sessions[i];
        let date = date_of_session(s, today);
        let since_ok = match &config.since {
            Option::Some(lo) => str_le(lo.as_str(), date.as_str()),
            Option::None => true,
        };
        let until_ok = match &config.until {
            Option::Some(hi) => str_le(date.as_str(), hi.as_str()),
            Option::None => true,
        };
        if since_ok && until_ok {
            proof {
                assert(date_in_range(session_date(sessions@[i as int], today@), *config));
                let inc = in_range_sessions(sessions@.take(i as int), *config, today@);
                assert(in_range_sessions(sessions@.take(i + 1), *config, today@)
                    == inc.push(sessions@[i as int]));
                assert(inc.push(sessions@[i as int]).drop_last() =~= inc);
                assert(inc.push(sessions@[i as int]).last() == sessions@[i as int]);
            }
            total = add_token_stats(&total, &s.token_stats);
            count += 1;
            range = match range {
                Option::None => Some((date.clone(), date.clone())),
                Option::Some((lo, hi)) => {
                    let new_lo = if str_le(date.as_str(), lo.as_str()) { date.clone() } else { lo };
                    let new_hi = if str_le(hi.as_str(), date.as_str()) { date.clone() } else { hi };
                    Some((new_lo, new_hi))
                },
            };
            let ghost inc = in_range_sessions(sessions@.take(i as int), *config, today@);
            let ghost inc2 = in_range_sessions(sessions@.take(i + 1), *config, today@);
            let ghost sv = sessions@[i as int];
            // per-date breakdown
            upsert_date(&mut by_date, date, &s.token_stats);
            proof {
                assert(inc2 == inc.push(sv));
                assert(inc.push(sv).drop_last() =~= inc);
                assert(inc.push(sv).last() == sv);
                assert forall|d: Seq<char>| #[trigger] date_bucket(by_date@, d)
                    == date_fold(inc2, today@, d) by {
                    if d == session_date(sv, today@) {
                    } else {
                    }
                }
            }
            // per-model breakdown, message by message
            add_model_stats(&mut by_model, s);
            proof {
                assert forall|m: Seq<char>| #[trigger] model_bucket(by_model@, m)
                    == model_fold(inc2, m) by {
                    assert(model_fold(inc2, m)
                        == model_msgs_fold(sv.messages@, sv.messages@.len() as int, m,
                            model_fold(inc, m)));
                }
            }
        } else {
            proof {
                assert(!date_in_range(session_date(sessions@[i as int], today@), *config));
            }
        }
    }
    proof {
        assert(sessions@.take(n as int) =~= sessions@);
    }
    AggregatedStats { total, by_model, by_date, session_count: count, date_range: range }
}

/// The session's attribution date as a string.
fn date_of_session(s: &Session, today: &str) -> (r: String)
    ensures
        r@ == session_date(*s, today@),
{
    match &s.first_timestamp {
        Option::Some(t) => {
            let nt = t.as_str().unicode_len();
            if nt >= 10 {
                let d = t.as_str().substring_char(0, 10);
                d.to_owned()
            } else {
                t.clone()
            }
        },
        Option::None => today.to_owned(),
    }
}

/// Fold one session's statistics into its date's bucket: that bucket gains
/// the statistics (or appears holding them); every other bucket is
/// untouched.
fn upsert_date(by_date: &mut Vec<DateStats>, date: String, stats: &TokenStats)
    requires
        forall|a: int, b: int| 0 <= a < b < old(by_date)@.len()
            ==> (#[trigger] old(by_date)@[a]).date@ != (#[trigger] old(by_date)@[b]).date@,
    ensures
        forall|a: int, b: int| 0 <= a < b < final(by_date)@.len()
            ==> (#[trigger] final(by_date)@[a]).date@ != (#[trigger] final(by_date)@[b]).date@,
        forall|d: Seq<char>| d != date@
            ==> #[trigger] date_bucket(final(by_date)@, d) == date_bucket(old(by_date)@, d),
        date_bucket(final(by_date)@, date@) == match date_bucket(old(by_date)@, date@) {
            Option::Some(st) => Option::Some(stats_sum(st, *stats)),
            Option::None => Option::Some(*stats),
        },
{
    let n = by_date.len();
    let mut idx: usize = 0;
    let mut found = false;
    while idx < n && !found
        invariant
            n == by_date@.len(),
            *by_date == *old(by_date),
            idx <= n,
            !found ==> forall|a: int| 0 <= a < idx ==> (#[trigger] by_date@[a]).date@ != date@,
            found ==> idx < n && by_date@[idx as int].date@ == date@,
        decreases n - idx + if found { 0int } else { 1int },
    {
        if str_eq(by_date[idx].date.as_str(), date.as_str()) {
            found = true;
        } else {
            idx += 1;
        }
    }
    if found {
        proof {
            lemma_date_bucket(by_date@, idx as int);
        }
        let merged = add_token_stats(&by_date[idx].stats, stats);
        let ghost prev = by_date@;
        by_date[idx] = DateStats { date, stats: merged };
        proof {
            assert(forall|a: int| 0 <= a < by_date@.len()
                ==> (#[trigger] by_date@[a]).date@ == prev[a].date@);
            lemma_date_bucket(by_date@, idx as int);
            assert forall|d: Seq<char>| d != prev[idx as int].date@
                implies #[trigger] date_bucket(by_date@, d) == date_bucket(prev, d) by {
                if exists|a: int| 0 <= a < prev.len() && (#[trigger] prev[a]).date@ == d {
                    let a = choose|a: int| 0 <= a < prev.len() && (#[trigger] prev[a]).date@ == d;
                    lemma_date_bucket(prev, a);
                    lemma_date_bucket(by_date@, a);
                    assert(by_date@[a] == prev[a]);
                } else {
                    assert(forall|a: int| 0 <= a < by_date@.len()
                        ==> (#[trigger] by_date@[a]).date@ != d);
                }
            }
        }
    } else {
        let ghost prev = by_date@;
        let ghost dv = date@;
        by_date.push(DateStats { date, stats: clone_stats(stats) });
        proof {
            assert forall|a: int, b: int| 0 <= a < b < by_date@.len()
                implies (#[trigger] by_date@[a]).date@ != (#[trigger] by_date@[b]).date@ by {
                if b == by_date@.len() - 1 {
                    assert(by_date@[a] == prev[a]);
                }
            }
            lemma_date_bucket(by_date@, by_date@.len() - 1);
            assert(forall|a: int| 0 <= a < prev.len() ==> (#[trigger] prev[a]).date@ != dv);
            assert forall|d: Seq<char>| d != dv
                implies #[trigger] date_bucket(by_date@, d) == date_bucket(prev, d) by {
                if exists|a: int| 0 <= a < prev.len() && (#[trigger] prev[a]).date@ == d {
                    let a = choose|a: int| 0 <= a < prev.len() && (#[trigger] prev[a]).date@ == d;
                    lemma_date_bucket(prev, a);
                    lemma_date_bucket(by_date@, a);
                    assert(by_date@[a] == prev[a]);
                } else {
                    assert(forall|a: int| 0 <= a < by_date@.len()
                        ==> (#[trigger] by_date@[a]).date@ != d);
                }
            }
        }
    }
}

/// Copy a statistics record.
pub fn clone_stats(s: &TokenStats) -> (r: TokenStats)
    ensures
        r == *s,
{
    TokenStats {
        input_tokens: s.input_tokens,
        output_tokens: s.output_tokens,
        cache_read_tokens: s.cache_read_tokens,
        cache_write_tokens: s.cache_write_tokens,
        total_tokens: s.total_tokens,
        input_cost: s.input_cost,
        output_cost: s.output_cost,
        cache_read_cost: s.cache_read_cost,
        cache_write_cost: s.cache_write_cost,
        total_cost: s.total_cost,
        message_count: s.message_count,
    }
}

/// Fold one session's per-message usage into the per-model buckets: each
/// model's bucket accumulates exactly the usage of the session's message
/// records naming it.
fn add_model_stats(by_model: &mut Vec<crate::session::ModelStats>, s: &Session)
    requires
        forall|a: int, b: int| 0 <= a < b < old(by_model)@.len()
            ==> (#[trigger] old(by_model)@[a]).model@ != (#[trigger] old(by_model)@[b]).model@,
    ensures
        forall|a: int, b: int| 0 <= a < b < final(by_model)@.len()
            ==> (#[trigger] final(by_model)@[a]).model@ != (#[trigger] final(by_model)@[b]).model@,
        forall|m: Seq<char>| #[trigger] model_bucket(final(by_model)@, m)
            == model_msgs_fold(s.messages@, s.messages@.len() as int, m,
                model_bucket(old(by_model)@, m)),
{
    let n = s.messages.len();
    for i in 0..n
        invariant
            n == s.messages@.len(),
            forall|a: int, b: int| 0 <= a < b < by_model@.len()
                ==> (#[trigger] by_model@[a]).model@ != (#[trigger] by_model@[b]).model@,
            forall|m: Seq<char>| #[trigger] model_bucket(by_model@, m)
                == model_msgs_fold(s.messages@, i as int, m, model_bucket(old(by_model)@, m)),
    {
        let m = &s.messages[i];
        let ghost msgv = s.messages@[i as int];
        let ghost before = by_model@;
        if crate::text::str_eq(m.msg_type.as_str(), "message") {
            match &m.message {
                Option::Some(c) => {
                    match (&c.model, &c.usage) {
                        (Option::Some(model), Option::Some(usage)) => {
                            let delta = crate::session::usage_stats(usage);
                            upsert_model(by_model, model, &delta);
                            proof {
                                assert forall|mo: Seq<char>| #[trigger] model_bucket(by_model@, mo)
                                    == model_msgs_fold(s.messages@, i + 1, mo,
                                        model_bucket(old(by_model)@, mo)) by {
                                    if mo == model@ {
                                    } else {
                                    }
                                }
                            }
                        },
                        _ => {
                        },
                    }
                },
                Option::None => {
                },
            }
        }
    }
}

/// Fold one message's usage into its model's bucket: that bucket gains the
/// usage (or appears holding it); every other bucket is untouched.
fn upsert_model(by_model: &mut Vec<crate::session::ModelStats>, model: &String, delta: &TokenStats)
    requires
        forall|a: int, b: int| 0 <= a < b < old(by_model)@.len()
            ==> (#[trigger] old(by_model)@[a]).model@ != (#[trigger] old(by_model)@[b]).model@,
    ensures
        forall|a: int, b: int| 0 <= a < b < final(by_model)@.len()
            ==> (#[trigger] final(by_model)@[a]).model@ != (#[trigger] final(by_model)@[b]).model@,
        forall|m: Seq<char>| m != model@
            ==> #[trigger] model_bucket(final(by_model)@, m) == model_bucket(old(by_model)@, m),
        model_bucket(final(by_model)@, model@) == match model_bucket(old(by_model)@, model@) {
            Option::Some(st) => Option::Some(stats_sum(st, *delta)),
            Option::None => Option::Some(*delta),
        },
{
    let n = by_model.len();
    let mut idx: usize = 0;
    let mut found = false;
    while idx < n && !found
        invariant
            n == by_model@.len(),
            *by_model == *old(by_model),
            idx <= n,
            !found ==> forall|a: int| 0 <= a < idx ==> (#[trigger] by_model@[a]).model@ != model@,
            found ==> idx < n && by_model@[idx as int].model@ == model@,
        decreases n - idx + if found { 0int } else { 1int },
    {
        if str_eq(by_model[idx].model.as_str(), model.as_str()) {
            found = true;
        } else {
            idx += 1;
        }
    }
    if found {
        proof {
            lemma_model_bucket(by_model@, idx as int);
        }
        let merged = add_token_stats(&by_model[idx].stats, delta);
        let ghost prev = by_model@;
        by_model[idx] = crate::session::ModelStats { model: model.clone(), stats: merged };
        proof {
            assert(forall|a: int| 0 <= a < by_model@.len()
                ==> (#[trigger] by_model@[a]).model@ == prev[a].model@);
            lemma_model_bucket(by_model@, idx as int);
            assert forall|m: Seq<char>| m != prev[idx as int].model@
                implies #[trigger] model_bucket(by_model@, m) == model_bucket(prev, m) by {
                if exists|a: int| 0 <= a < prev.len() && (#[trigger] prev[a]).model@ == m {
                    let a = choose|a: int| 0 <= a < prev.len() && (#[trigger] prev[a]).model@ == m;
                    lemma_model_bucket(prev, a);
                    lemma_model_bucket(by_model@, a);
                    assert(by_model@[a] == prev[a]);
                } else {
                    assert(forall|a: int| 0 <= a < by_model@.len()
                        ==> (#[trigger] by_model@[a]).model@ != m);
                }
            }
        }
    } else {
        let ghost prev = by_model@;
        let ghost mv = model@;
        by_model.push(crate::session::ModelStats { model: model.clone(), stats: clone_stats(delta) });
        proof {
            assert forall|a: int, b: int| 0 <= a < b < by_model@.len()
                implies (#[trigger] by_model@[a]).model@ != (#[trigger] by_model@[b]).model@ by {
                if b == by_model@.len() - 1 {
                    assert(by_model@[a] == prev[a]);
                }
            }
            lemma_model_bucket(by_model@, by_model@.len() - 1);
            assert(forall|a: int| 0 <= a < prev.len() ==> (#[trigger] prev[a]).model@ != mv);
            assert forall|m: Seq<char>| m != mv
                implies #[trigger] model_bucket(by_model@, m) == model_bucket(prev, m) by {
                if exists|a: int| 0 <= a < prev.len() && (#[trigger] prev[a]).model@ == m {
                    let a = choose|a: int| 0 <= a < prev.len() && (#[trigger] prev[a]).model@ == m;
                    lemma_model_bucket(prev, a);
                    lemma_model_bucket(by_model@, a);
                    assert(by_model@[a] == prev[a]);
                } else {
                    assert(forall|a: int| 0 <= a < by_model@.len()
                        ==> (#[trigger] by_model@[a]).model@ != m);
                }
            }
        }
    }
}

} // verus!
