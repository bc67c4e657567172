//! Learnings harvested from sessions, and the text processing around the
//! extraction call: transcript rendering for the model and fence-stripping
//! of its reply. The network call itself lives in the application crate.

use vstd::prelude::*;
use vstd::string::StrSliceExecFns;
use crate::text::{
    is_space, is_space_char, lead_ws, trail_ws, trimmed, trimmed_end, starts_with, ends_with,
    str_to_chars, chars_to_string, window_starts_with, find_sub, contains_seq, lower_char,
    to_lower_char,
};
use crate::session::{Session, content_text, extract_text_from_content};

verus! {

/// Structured learnings extracted from one session.
pub struct Learning {
    pub session_id: String,
    pub date: String,
    pub topics: Vec<String>,
    pub decisions: Vec<String>,
    pub facts_learned: Vec<String>,
    pub action_items: Vec<String>,
    pub summary: String,
    pub message_count: usize,
    /// Cost in millionths of a dollar.
    pub cost: i64,
    pub harvested_at: String,
}

/// The mathematical content of a learning.
pub ghost struct LearningView {
    pub session_id: Seq<char>,
    pub date: Seq<char>,
    pub topics: Seq<Seq<char>>,
    pub decisions: Seq<Seq<char>>,
    pub facts_learned: Seq<Seq<char>>,
    pub action_items: Seq<Seq<char>>,
    pub summary: Seq<char>,
    pub message_count: int,
    pub cost: i64,
    pub harvested_at: Seq<char>,
}

impl View for Learning {
    type V = LearningView;

    open spec fn view(&self) -> LearningView {
        LearningView {
            session_id: self.session_id@,
            date: self.date@,
            topics: self.topics.deep_view(),
            decisions: self.decisions.deep_view(),
            facts_learned: self.facts_learned.deep_view(),
            action_items: self.action_items.deep_view(),
            summary: self.summary@,
            message_count: self.message_count as int,
            cost: self.cost,
            harvested_at: self.harvested_at@,
        }
    }
}

impl DeepView for Learning {
    type V = LearningView;

    open spec fn deep_view(&self) -> LearningView {
        self.view()
    }
}

/// Configuration for harvesting.
pub struct HarvestConfig {
    /// Only process sessions since this date (`YYYY-MM-DD`).
    pub since: Option<String>,
    /// Model to use for extraction.
    pub model: String,
    /// Minimum messages before a session is worth harvesting.
    pub min_messages: usize,
}

impl Default for HarvestConfig {
    /// The default harvest: the standard extraction model, sessions of at
    /// least four messages.
    fn default() -> (r: Self)
        ensures
            r.since is None,
            r.model@ == "deepseek/deepseek-v3.2"@,
            r.min_messages == 4,
    {
        HarvestConfig {
            since: None,
            model: "deepseek/deepseek-v3.2".to_owned(),
            min_messages: 4,
        }
    }
}

/// Outcome counts of one harvest run.
#[derive(Default)]
pub struct HarvestStats {
    pub harvested: usize,
    pub skipped: usize,
    pub errors: usize,
}

/// A leading whitespace scan finds exactly the leading run.
pub proof fn lemma_lead_of_scan(u: Seq<char>, c: int)
    requires
        0 <= c <= u.len(),
        forall|k: int| 0 <= k < c ==> is_space_char(#[trigger] u[k]),
        c == u.len() || !is_space_char(u[c]),
    ensures
        lead_ws(u) == c,
    decreases c,
{
    if c > 0 {
        assert(forall|k: int| 0 <= k < c - 1 ==> is_space_char(#[trigger] u.drop_first()[k]));
        lemma_lead_of_scan(u.drop_first(), c - 1);
    }
}

/// A trailing whitespace scan finds exactly the trailing run.
pub proof fn lemma_trail_of_scan(u: Seq<char>, c: int)
    requires
        0 <= c <= u.len(),
        forall|k: int| u.len() - c <= k < u.len() ==> is_space_char(#[trigger] u[k]),
        c == u.len() || !is_space_char(u[u.len() - c - 1]),
    ensures
        trail_ws(u) == c,
    decreases c,
{
    if c > 0 {
        assert(forall|k: int| u.drop_last().len() - (c - 1) <= k < u.drop_last().len()
            ==> is_space_char(#[trigger] u.drop_last()[k]));
        lemma_trail_of_scan(u.drop_last(), c - 1);
    }
}

/// A model reply with any surrounding markdown code fence removed: the
/// reply is trimmed, a leading ```` ```json ```` or ```` ``` ```` fence is
/// dropped, a trailing fence (after trailing whitespace) is dropped, and the
/// remainder is trimmed again.
pub open spec fn strip_md_spec(s: Seq<char>) -> Seq<char> {
    let t = trimmed(s);
    let t2 = if starts_with(t, "```json"@) {
        t.skip(7)
    } else if starts_with(t, "```"@) {
        t.skip(3)
    } else {
        t
    };
    let t3 = trimmed_end(t2);
    let t4 = if ends_with(t3, "```"@) {
        t3.take(t3.len() - 3)
    } else {
        t2
    };
    trimmed(t4)
}

/// Strip markdown code fences from a model reply, so a fenced JSON object
/// parses as plain JSON.
#[verifier::rlimit(100)]
pub fn strip_markdown_json(response: &str) -> (r: String)
    ensures
        r@ == strip_md_spec(response@),
{
    proof {
        reveal_strlit("```json");
        reveal_strlit("```");
    }
    let chars = str_to_chars(response);
    let ghost s = chars@;
    let n = chars.len();
    // trim the whole reply
    let mut a: usize = 0;
    while a < n && is_space(chars[a])
        invariant
            n == s.len(),
            s == chars@,
            a <= n,
            forall|k: int| 0 <= k < a ==> is_space_char(#[trigger] s[k]),
        decreases n - a,
    {
        a += 1;
    }
    let mut b: usize = n;
    while b > a && is_space(chars[b - 1])
        invariant
            n == s.len(),
            s == chars@,
            a <= b <= n,
            forall|k: int| b <= k < n ==> is_space_char(#[trigger] s[k]),
        decreases b,
    {
        b -= 1;
    }
    proof {
        lemma_lead_of_scan(s, a as int);
        if a < n {
            lemma_trail_of_scan(s, n - b);
            assert(trimmed(s) =~= s.subrange(a as int, b as int));
        } else {
            assert(b == a);
            assert(trimmed(s) =~= s.subrange(a as int, b as int));
        }
    }
    let ghost t = trimmed(s);
    // drop a leading fence
    let a2: usize;
    if window_starts_with(&chars, a, b, "```json") {
        proof {
            assert("```json"@.len() == 7);
            assert(s.subrange(a as int, b as int).skip(7) =~= s.subrange(a as int + 7, b as int));
        }
        a2 = a + 7;
    } else if window_starts_with(&chars, a, b, "```") {
        proof {
            assert("```"@.len() == 3);
            assert(s.subrange(a as int, b as int).skip(3) =~= s.subrange(a as int + 3, b as int));
        }
        a2 = a + 3;
    } else {
        a2 = a;
    }
    let ghost t2 = s.subrange(a2 as int, b as int);
    // trim the end, then drop a trailing fence
    let mut b2: usize = b;
    while b2 > a2 && is_space(chars[b2 - 1])
        invariant
            n == s.len(),
            s == chars@,
            a2 <= b2 <= b <= n,
            forall|k: int| b2 <= k < b ==> is_space_char(#[trigger] s[k]),
        decreases b2,
    {
        b2 -= 1;
    }
    proof {
        assert(forall|k: int| 0 <= k < t2.len() ==> #[trigger] t2[k] == s[a2 + k]);
        lemma_trail_of_scan(t2, b - b2);
        assert(trimmed_end(t2) =~= s.subrange(a2 as int, b2 as int));
    }
    let ghost t3 = trimmed_end(t2);
    let fenced = b2 - a2 >= 3 && chars[b2 - 3] == '`' && chars[b2 - 2] == '`'
        && chars[b2 - 1] == '`';
    proof {
        if b2 - a2 >= 3 {
            assert(t3.skip(t3.len() - 3) =~= s.subrange(b2 - 3, b2 as int));
            assert(fenced == ends_with(t3, "```"@)) by {
                if fenced {
                    assert(s.subrange(b2 - 3, b2 as int) =~= "```"@);
                } else {
                    if ends_with(t3, "```"@) {
                        assert(s.subrange(b2 - 3, b2 as int)[0] == '`');
                        assert(s.subrange(b2 - 3, b2 as int)[1] == '`');
                        assert(s.subrange(b2 - 3, b2 as int)[2] == '`');
                    }
                }
            }
        } else {
            assert(!ends_with(t3, "```"@));
        }
    }
    let lo4: usize = a2;
    let hi4: usize = if fenced { b2 - 3 } else { b };
    proof {
        if fenced {
            assert(t3.take(t3.len() - 3) =~= s.subrange(lo4 as int, hi4 as int));
        }
        assert(strip_md_spec(s) == trimmed(s.subrange(lo4 as int, hi4 as int)));
    }
    let ghost t4 = s.subrange(lo4 as int, hi4 as int);
    // final trim
    let mut a5: usize = lo4;
    while a5 < hi4 && is_space(chars[a5])
        invariant
            n == s.len(),
            s == chars@,
            lo4 <= a5 <= hi4 <= n,
            forall|k: int| lo4 <= k < a5 ==> is_space_char(#[trigger] s[k]),
        decreases hi4 - a5,
    {
        a5 += 1;
    }
    let mut b5: usize = hi4;
    while b5 > a5 && is_space(chars[b5 - 1])
        invariant
            n == s.len(),
            s == chars@,
            a5 <= b5 <= hi4 <= n,
            forall|k: int| b5 <= k < hi4 ==> is_space_char(#[trigger] s[k]),
        decreases b5,
    {
        b5 -= 1;
    }
    proof {
        assert(forall|k: int| 0 <= k < t4.len() ==> #[trigger] t4[k] == s[lo4 + k]);
        lemma_lead_of_scan(t4, a5 - lo4);
        if a5 < hi4 {
            lemma_trail_of_scan(t4, hi4 - b5);
            assert(trimmed(t4) =~= s.subrange(a5 as int, b5 as int));
        } else {
            assert(b5 == a5);
            assert(trimmed(t4) =~= s.subrange(a5 as int, b5 as int));
        }
    }
    let mut out: Vec<char> = Vec::new();
    let mut k = a5;
    while k < b5
        invariant
            n == s.len(),
            s == chars@,
            a5 <= k <= b5 <= n,
            out@ == s.subrange(a5 as int, k as int),
        decreases b5 - k,
    {
        out.push(chars[k]);
        proof {
            assert(out@ =~= s.subrange(a5 as int, k + 1));
        }
        k += 1;
    }
    chars_to_string(&out)
}

/// A role name uppercased character by character (ASCII).
pub open spec fn upper_char(c: char) -> char {
    if 97 <= c as u32 && c as u32 <= 122 {
        (((c as u32) - 32) as u8) as char
    } else {
        c
    }
}

/// The uppercased form of a text.
pub open spec fn upper_all(t: Seq<char>) -> Seq<char> {
    Seq::new(t.len(), |j: int| upper_char(t[j]))
}

/// One transcript line: the uppercased role, a colon, the message text.
pub open spec fn transcript_line(role: Seq<char>, text: Seq<char>) -> Seq<char> {
    upper_all(role) + ": "@ + text
}

/// The transcript lines of a message log: one per message record with a
/// role and nonempty text.
pub open spec fn transcript_lines(msgs: Seq<crate::session::SessionMessage>) -> Seq<Seq<char>>
    decreases msgs.len(),
{
    if msgs.len() == 0 {
        Seq::empty()
    } else {
        let rest = transcript_lines(msgs.drop_last());
        let m = msgs.last();
        if m.msg_type@ == "message"@ {
            match m.message {
                Option::Some(c) => match c.role {
                    Option::Some(role) => if content_text(c).len() > 0 {
                        rest.push(transcript_line(role@, content_text(c)))
                    } else {
                        rest
                    },
                    Option::None => rest,
                },
                Option::None => rest,
            }
        } else {
            rest
        }
    }
}

/// Lines joined by blank lines.
pub open spec fn join_blank(ts: Seq<Seq<char>>) -> Seq<char>
    decreases ts.len(),
{
    if ts.len() == 0 {
        Seq::empty()
    } else if ts.len() == 1 {
        ts[0]
    } else {
        join_blank(ts.drop_last()) + "\n\n"@ + ts.last()
    }
}

/// Render a session as a plain transcript for the extraction model: each
/// message with a role and text becomes `ROLE: text`, blank-line separated.
pub fn format_transcript(session: &Session) -> (r: String)
    ensures
        r@ == join_blank(transcript_lines(session.messages@)),
{
    let msgs = &session.messages;
    let n = msgs.len();
    let mut out = String::new();
    let mut pushed: usize = 0;
    proof {
        assert(msgs@.take(0int) =~= Seq::<crate::session::SessionMessage>::empty());
    }
    for i in 0..n
        invariant
            n == msgs@.len(),
            pushed <= i,
            pushed == transcript_lines(msgs@.take(i as int)).len(),
            out@ == join_blank(transcript_lines(msgs@.take(i as int))),
    {
        proof {
            assert(msgs@.take(i + 1).drop_last() =~= msgs@.take(i as int));
            assert(msgs@.take(i + 1).last() == msgs@[i as int]);
        }
        let m = &msgs[i];
        if crate::text::str_eq(m.msg_type.as_str(), "message") {
            match &m.message {
                Option::None => {
                },
                Option::Some(c) => {
                    match &c.role {
                        Option::None => {
                        },
                        Option::Some(role) => {
                            let text = extract_text_from_content(c);
                            if !text.as_str().is_empty() {
                                let ghost ls = transcript_lines(msgs@.take(i as int));
                                let ghost line = transcript_line(role@, content_text(msgs@[i as int].message->Some_0));
                                proof {
                                    lemma_join_blank_push(ls, line);
                                }
                                if pushed > 0 {
                                    out.append("\n\n");
                                }
                                let rc = str_to_chars(role.as_str());
                                let mut up: Vec<char> = Vec::new();
                                let rn = rc.len();
                                for j in 0..rn
                                    invariant
                                        rn == rc@.len(),
                                        up@ == upper_all(rc@).take(j as int),
                                {
                                    let u = rc[j] as u32;
                                    let ch = if 97 <= u && u <= 122 {
                                        ((u - 32) as u8) as char
                                    } else {
                                        rc[j]
                                    };
                                    up.push(ch);
                                    proof {
                                        assert(up@ =~= upper_all(rc@).take(j + 1));
                                    }
                                }
                                proof {
                                    assert(upper_all(rc@).take(rn as int) =~= upper_all(role@));
                                }
                                let ups = chars_to_string(&up);
                                out.append(ups.as_str());
                                out.append(": ");
                                out.append(text.as_str());
                                pushed = pushed + 1;
                            }
                        },
                    }
                },
            }
        }
    }
    proof {
        assert(msgs@.take(n as int) =~= msgs@);
    }
    out
}

/// Joining distributes over appending one line.
proof fn lemma_join_blank_push(ts: Seq<Seq<char>>, t: Seq<char>)
    ensures
        ts.len() == 0 ==> join_blank(ts.push(t)) == t,
        ts.len() > 0 ==> join_blank(ts.push(t)) == join_blank(ts) + "\n\n"@ + t,
{
    assert(ts.push(t).drop_last() =~= ts);
    assert(ts.push(t).last() == t);
    if ts.len() == 0 {
        assert(ts.push(t).len() == 1);
        assert(ts.push(t)[0] == t);
    }
}

/// The session identifiers of a learning list, in order.
pub fn harvested_ids(learnings: &Vec<Learning>) -> (r: Vec<String>)
    ensures
        r@.len() == learnings@.len(),
        forall|i: int| 0 <= i < r@.len() ==> (#[trigger] r@[i])@ == learnings@[i].session_id@,
{
    let n = learnings.len();
    let mut r: Vec<String> = Vec::new();
    for i in 0..n
        invariant
            n == learnings@.len(),
            r@.len() == i,
            forall|k: int| 0 <= k < i ==> (#[trigger] r@[k])@ == learnings@[k].session_id@,
    {
        r.push(learnings[i].session_id.clone());
    }
    r
}

/// Whether a learning matches a query: some topic, the summary, some
/// learned fact or some decision contains the lowercased query.
pub open spec fn learning_matches(l: Learning, q_lower: Seq<char>) -> bool {
    ||| exists|i: int| 0 <= i < l.topics@.len()
        && contains_seq(lower_all_spec((#[trigger] l.topics@[i])@), q_lower)
    ||| contains_seq(lower_all_spec(l.summary@), q_lower)
    ||| exists|i: int| 0 <= i < l.facts_learned@.len()
        && contains_seq(lower_all_spec((#[trigger] l.facts_learned@[i])@), q_lower)
    ||| exists|i: int| 0 <= i < l.decisions@.len()
        && contains_seq(lower_all_spec((#[trigger] l.decisions@[i])@), q_lower)
}

/// A text lowercased character by character.
pub open spec fn lower_all_spec(t: Seq<char>) -> Seq<char> {
    Seq::new(t.len(), |j: int| lower_char(t[j]))
}

/// Lowercase a string's characters.
fn lower_chars(s: &str) -> (r: Vec<char>)
    ensures
        r@ == lower_all_spec(s@),
{
    let cs = str_to_chars(s);
    let n = cs.len();
    let mut r: Vec<char> = Vec::new();
    for i in 0..n
        invariant
            n == cs@.len(),
            cs@ == s@,
            r@ == lower_all_spec(s@).take(i as int),
    {
        r.push(to_lower_char(cs[i]));
        proof {
            assert(r@ =~= lower_all_spec(s@).take(i + 1));
        }
    }
    proof {
        assert(lower_all_spec(s@).take(n as int) =~= lower_all_spec(s@));
    }
    r
}

/// Whether any of the strings contains the lowercased query.
fn any_contains(items: &Vec<String>, q: &Vec<char>) -> (r: bool)
    ensures
        r == exists|i: int| 0 <= i < items@.len()
            && contains_seq(lower_all_spec((#[trigger] items@[i])@), q@),
{
    let n = items.len();
    for i in 0..n
        invariant
            n == items@.len(),
            forall|k: int| 0 <= k < i
                ==> !contains_seq(lower_all_spec((#[trigger] items@[k])@), q@),
    {
        let low = lower_chars(items[i].as_str());
        if find_sub(&low, q) {
            return true;
        }
    }
    false
}

/// Keep the learnings matching a query, case-insensitively, in order.
pub fn filter_learnings(learnings: Vec<Learning>, query: &str) -> (r: Vec<Learning>)
    ensures
        ({
            let ql = lower_all_spec(query@);
            r@ == learnings@.filter(|l: Learning| learning_matches(l, ql))
        }),
{
    proof {
        reveal(Seq::filter);
    }
    let ghost ql = lower_all_spec(query@);
    let ghost pred = |l: Learning| learning_matches(l, ql);
    let q = lower_chars(query);
    let mut out: Vec<Learning> = Vec::new();
    let n = learnings.len();
    let ghost all = learnings@;
    let mut rest = learnings;
    proof {
        assert(all.take(0int) =~= Seq::<Learning>::empty());
    }
    for i in 0..n
        invariant
            n == all.len(),
            q@ == ql,
            pred == (|l: Learning| learning_matches(l, ql)),
            rest@ == all.skip(i as int),
            out@ == all.take(i as int).filter(pred),
    {
        proof {
            assert(rest@[0] == all[i as int]);
            assert(all.take(i + 1).drop_last() =~= all.take(i as int));
            assert(all.take(i + 1).last() == all[i as int]);
            all.take(i as int).lemma_filter_push(all[i as int], pred);
            assert(all.take(i + 1) =~= all.take(i as int).push(all[i as int]));
        }
        let l = rest.remove(0);
        proof {
            assert(rest@ =~= all.skip(i + 1));
        }
        let matched = any_contains(&l.topics, &q)
            || find_sub(&lower_chars(l.summary.as_str()), &q)
            || any_contains(&l.facts_learned, &q)
            || any_contains(&l.decisions, &q);
        proof {
            assert(matched == learning_matches(all[i as int], ql));
        }
        if matched {
            out.push(l);
        }
    }
    proof {
        assert(all.take(n as int) =~= all);
    }
    out
}

} // verus!
