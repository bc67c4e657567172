//! Rendering learnings as markdown, and the daily-log rollup rewrite. The
//! file reads and writes themselves live in the application crate.

use vstd::prelude::*;
use vstd::string::StrSliceExecFns;
use crate::text::{
    is_space, is_space_char, trail_ws, trimmed_end, starts_with, str_to_chars, chars_to_string,
    window_starts_with, str_eq,
};
use crate::harvest::Learning;
use crate::session::TokenStats;
use crate::fmt::{format_tokens_spec, format_tokens, format_cost_spec, format_cost, dec_digits, u64_to_string};

verus! {

/// Counts of one markdown export.
#[derive(Default)]
pub struct ExportStats {
    pub sessions: usize,
    pub decisions: usize,
    pub facts: usize,
    pub actions: usize,
}

/// Counts of one daily rollup.
pub struct RollupStats {
    pub sessions: usize,
    pub stats_sessions: usize,
    pub path: String,
}

/// Keep the learnings dated exactly `date` (`YYYY-MM-DD`), in order.
pub fn filter_by_date(learnings: Vec<Learning>, date: &str) -> (r: Vec<Learning>)
    ensures
        r@ == learnings@.filter(|l: Learning| l.date@ == date@),
{
    proof {
        reveal(Seq::filter);
    }
    let ghost pred = |l: Learning| l.date@ == date@;
    let ghost all = learnings@;
    let mut rest = learnings;
    let mut out: Vec<Learning> = Vec::new();
    let n = rest.len();
    proof {
        assert(all.take(0int) =~= Seq::<Learning>::empty());
        assert(rest@ =~= all.skip(0int));
    }
    for i in 0..n
        invariant
            n == all.len(),
            pred == (|l: Learning| l.date@ == date@),
            rest@ == all.skip(i as int),
            out@ == all.take(i as int).filter(pred),
    {
        proof {
            assert(rest@[0] == all[i as int]);
            all.take(i as int).lemma_filter_push(all[i as int], pred);
            assert(all.take(i + 1) =~= all.take(i as int).push(all[i as int]));
        }
        let l = rest.remove(0);
        proof {
            assert(rest@ =~= all.skip(i + 1));
        }
        if str_eq(l.date.as_str(), date) {
            out.push(l);
        }
    }
    proof {
        assert(all.take(n as int) =~= all);
    }
    out
}

/// Position of the first newline at or after `i` (the length if none).
pub open spec fn line_end(s: Seq<char>, i: int) -> int
    decreases s.len() - i,
{
    if i < 0 || i >= s.len() {
        s.len() as int
    } else if s[i] == '\n' {
        i
    } else {
        line_end(s, i + 1)
    }
}

/// The newline scan stays in bounds and finds a newline when it stops
/// short.
pub proof fn lemma_line_end(s: Seq<char>, i: int)
    requires
        0 <= i <= s.len(),
    ensures
        i <= line_end(s, i) <= s.len(),
        line_end(s, i) < s.len() ==> s[line_end(s, i)] == '\n',
    decreases s.len() - i,
{
    if i < s.len() && s[i] != '\n' {
        lemma_line_end(s, i + 1);
    }
}

/// A scan that saw no newline in `[i, j)` and stopped at one (or the end)
/// found the line end.
pub proof fn lemma_line_end_at(s: Seq<char>, i: int, j: int)
    requires
        0 <= i <= j <= s.len(),
        forall|k: int| i <= k < j ==> s[k] != '\n',
        j == s.len() || s[j] == '\n',
    ensures
        line_end(s, i) == j,
    decreases j - i,
{
    if i < j {
        lemma_line_end_at(s, i + 1, j);
    }
}

/// The daily-log rewrite, line by line from position `i`: the old marker
/// section's lines are dropped, the new section is inserted before the next
/// section heading (or, when the old section ran to the end of the file,
/// after the trailing whitespace is removed), and every other line is kept.
pub open spec fn rps_from(
    s: Seq<char>,
    i: int,
    in_p: bool,
    acc: Seq<char>,
    section: Seq<char>,
) -> Seq<char>
    decreases s.len() + 1 - i,
    when 0 <= i
    via rps_from_decreases
{
    if i >= s.len() {
        if in_p {
            trimmed_end(acc) + section
        } else {
            acc
        }
    } else {
        let e = line_end(s, i);
        let line = s.subrange(i, e);
        if starts_with(line, "## Profundo"@) {
            rps_from(s, e + 1, true, acc, section)
        } else if in_p && starts_with(line, "## "@) {
            rps_from(s, e + 1, false, acc + section + line + seq!['\n'], section)
        } else if in_p {
            rps_from(s, e + 1, true, acc, section)
        } else {
            rps_from(s, e + 1, in_p, acc + line + seq!['\n'], section)
        }
    }
}

#[via_fn]
proof fn rps_from_decreases(s: Seq<char>, i: int, in_p: bool, acc: Seq<char>, section: Seq<char>) {
    if 0 <= i <= s.len() {
        lemma_line_end(s, i);
    }
}

/// A daily log with its marker section replaced by a new one.
pub open spec fn replaced_profundo(content: Seq<char>, section: Seq<char>) -> Seq<char> {
    rps_from(content, 0, false, Seq::empty(), section)
}

/// Append a window of characters.
fn push_range(out: &mut Vec<char>, src: &Vec<char>, lo: usize, hi: usize)
    requires
        lo <= hi <= src@.len(),
    ensures
        final(out)@ == old(out)@ + src@.subrange(lo as int, hi as int),
{
    let ghost base = out@;
    let mut k = lo;
    while k < hi
        invariant
            lo <= k <= hi <= src@.len(),
            out@ == base + src@.subrange(lo as int, k as int),
        decreases hi - k,
    {
        out.push(src[k]);
        proof {
            assert(out@ =~= base + src@.subrange(lo as int, k + 1));
        }
        k += 1;
    }
}

/// Replace the daily log's existing marker section with a new one: the old
/// section's lines disappear, the new section text takes their place before
/// the next `## ` heading, or at the (whitespace-trimmed) end of the file
/// when no further heading follows.
pub fn replace_profundo_section(content: &str, new_section: &str) -> (r: String)
    ensures
        r@ == replaced_profundo(content@, new_section@),
{
    let chars = str_to_chars(content);
    let sect = str_to_chars(new_section);
    let ghost s = chars@;
    let n = chars.len();
    let mut out: Vec<char> = Vec::new();
    let mut in_p = false;
    let mut i: usize = 0;
    proof {
        assert(out@ =~= Seq::<char>::empty());
    }
    while i < n
        invariant
            n == s.len(),
            s == chars@,
            sect@ == new_section@,
            i <= n,
            replaced_profundo(s, new_section@) == rps_from(s, i as int, in_p, out@, new_section@),
        decreases n - i,
    {
        let mut e = i;
        while e < n && chars[e] != '\n'
            invariant
                n == s.len(),
                s == chars@,
                i <= e <= n,
                forall|k: int| i <= k < e ==> s[k] != '\n',
            decreases n - e,
        {
            e += 1;
        }
        proof {
            lemma_line_end_at(s, i as int, e as int);
        }
        let ghost line = s.subrange(i as int, e as int);
        if window_starts_with(&chars, i, e, "## Profundo") {
            in_p = true;
        } else if in_p && window_starts_with(&chars, i, e, "## ") {
            in_p = false;
            let ghost before = out@;
            push_range(&mut out, &sect, 0, sect.len());
            proof {
                assert(sect@.subrange(0int, sect@.len() as int) =~= sect@);
            }
            push_range(&mut out, &chars, i, e);
            out.push('\n');
            proof {
                assert(out@ =~= before + new_section@ + line + seq!['\n']);
            }
        } else if in_p {
        } else {
            let ghost before = out@;
            push_range(&mut out, &chars, i, e);
            out.push('\n');
            proof {
                assert(out@ =~= before + line + seq!['\n']);
            }
        }
        i = if e < n { e + 1 } else { n };
        proof {
            if e == n {
                assert(rps_from(s, n as int, in_p, out@, new_section@)
                    == rps_from(s, n + 1, in_p, out@, new_section@));
            }
        }
    }
    if in_p {
        // the old section ran to the end: trim and append the new section
        let ghost acc = out@;
        let mut b = out.len();
        while b > 0 && is_space(out[b - 1])
            invariant
                b <= out@.len(),
                out@ == acc,
                forall|k: int| b <= k < acc.len() ==> is_space_char(#[trigger] acc[k]),
            decreases b,
        {
            b -= 1;
        }
        proof {
            crate::harvest::lemma_trail_of_scan(acc, acc.len() as int - b);
            assert(trimmed_end(acc) =~= acc.take(b as int));
        }
        out.truncate(b);
        let ghost cut = out@;
        push_range(&mut out, &sect, 0, sect.len());
        proof {
            assert(sect@.subrange(0int, sect@.len() as int) =~= sect@);
            assert(out@ =~= trimmed_end(acc) + new_section@);
        }
    }
    chars_to_string(&out)
}

/// Clone a learning, preserving its content.
pub fn clone_learning(l: &Learning) -> (r: Learning)
    ensures
        r@ == l@,
{
    Learning {
        session_id: l.session_id.clone(),
        date: l.date.clone(),
        topics: clone_strings(&l.topics),
        decisions: clone_strings(&l.decisions),
        facts_learned: clone_strings(&l.facts_learned),
        action_items: clone_strings(&l.action_items),
        summary: l.summary.clone(),
        message_count: l.message_count,
        cost: l.cost,
        harvested_at: l.harvested_at.clone(),
    }
}

/// Clone a string list, preserving its content.
pub fn clone_strings(v: &Vec<String>) -> (r: Vec<String>)
    ensures
        r.deep_view() == v.deep_view(),
{
    let n = v.len();
    let mut r: Vec<String> = Vec::new();
    for i in 0..n
        invariant
            n == v@.len(),
            r.deep_view() =~= v.deep_view().take(i as int),
    {
        let ghost before = r.deep_view();
        r.push(v[i].clone());
        proof {
            assert(r.deep_view() =~~= before.push(v@[i as int]@));
            assert(r.deep_view() =~~= v.deep_view().take(i + 1));
        }
    }
    proof {
        assert(v.deep_view().take(n as int) =~= v.deep_view());
    }
    r
}

/// The markdown bullet list for one learning: its topics, summary,
/// decisions, learned facts and action items, in that order, one bullet per
/// line.
pub open spec fn bullets_spec(l: Learning) -> Seq<Seq<char>> {
    let topics = if l.topics@.len() > 0 {
        seq!["- **Topics**: "@ + join_commas(topic_views(l.topics@))]
    } else {
        Seq::<Seq<char>>::empty()
    };
    let summary = if l.summary@.len() > 0 {
        seq!["- "@ + l.summary@]
    } else {
        Seq::<Seq<char>>::empty()
    };
    topics + summary
        + prefixed_lines(topic_views(l.decisions@), "- **Decision**: "@)
        + prefixed_lines(topic_views(l.facts_learned@), "- **Learned**: "@)
        + prefixed_lines(topic_views(l.action_items@), "- [ ] "@)
}

/// The views of a string list.
pub open spec fn topic_views(v: Seq<String>) -> Seq<Seq<char>> {
    Seq::new(v.len(), |i: int| v[i]@)
}

/// Texts joined by a comma and a space.
pub open spec fn join_commas(ts: Seq<Seq<char>>) -> Seq<char>
    decreases ts.len(),
{
    if ts.len() == 0 {
        Seq::empty()
    } else if ts.len() == 1 {
        ts[0]
    } else {
        join_commas(ts.drop_last()) + ", "@ + ts.last()
    }
}

/// Each text on its own line behind a fixed prefix.
pub open spec fn prefixed_lines(ts: Seq<Seq<char>>, prefix: Seq<char>) -> Seq<Seq<char>> {
    Seq::new(ts.len(), |i: int| prefix + ts[i])
}

/// Lines joined by single newlines.
pub open spec fn join_lines(ts: Seq<Seq<char>>) -> Seq<char>
    decreases ts.len(),
{
    if ts.len() == 0 {
        Seq::empty()
    } else if ts.len() == 1 {
        ts[0]
    } else {
        join_lines(ts.drop_last()) + seq!['\n'] + ts.last()
    }
}

/// Join a string list with commas into a growing buffer.
fn append_joined(out: &mut String, items: &Vec<String>)
    ensures
        final(out)@ == old(out)@ + join_commas(topic_views(items@)),
{
    let n = items.len();
    let ghost base = out@;
    proof {
        assert(topic_views(items@).take(0int) =~= Seq::<Seq<char>>::empty());
        assert(base + join_commas(topic_views(items@).take(0int)) =~= base);
    }
    for i in 0..n
        invariant
            n == items@.len(),
            out@ == base + join_commas(topic_views(items@).take(i as int)),
    {
        if i > 0 {
            out.append(", ");
        }
        out.append(items[i].as_str());
        proof {
            let tv = topic_views(items@);
            assert(tv.take(i + 1).drop_last() =~= tv.take(i as int));
            assert(tv.take(i + 1).last() == items@[i as int]@);
            if i == 0 {
                assert(tv.take(1int).len() == 1);
                assert(out@ =~= base + join_commas(tv.take(1int)));
            } else {
                assert(out@ =~= base + (join_commas(tv.take(i as int)) + ", "@ + items@[i as int]@));
            }
        }
    }
    proof {
        assert(topic_views(items@).take(n as int) =~= topic_views(items@));
    }
}

/// The bullet lines of a learning, newline-joined.
pub fn format_learning_bullets(learning: &Learning) -> (r: String)
    ensures
        r@ == join_lines(bullets_spec(*learning)),
{
    let mut lines: Vec<String> = Vec::new();
    if learning.topics.len() > 0 {
        let mut line = String::new();
        line.append("- **Topics**: ");
        append_joined(&mut line, &learning.topics);
        lines.push(line);
    }
    if !learning.summary.as_str().is_empty() {
        let mut line = String::new();
        line.append("- ");
        line.append(learning.summary.as_str());
        lines.push(line);
    }
    append_prefixed(&mut lines, &learning.decisions, "- **Decision**: ");
    append_prefixed(&mut lines, &learning.facts_learned, "- **Learned**: ");
    append_prefixed(&mut lines, &learning.action_items, "- [ ] ");
    proof {
        assert(lines.deep_view() =~= bullets_spec(*learning));
    }
    join_string_lines(&lines)
}

/// Push one prefixed line per item.
fn append_prefixed(lines: &mut Vec<String>, items: &Vec<String>, prefix: &str)
    ensures
        final(lines).deep_view() == old(lines).deep_view()
            + prefixed_lines(topic_views(items@), prefix@),
{
    let n = items.len();
    let ghost base = lines.deep_view();
    proof {
        assert(base + prefixed_lines(topic_views(items@), prefix@).take(0int) =~= base);
    }
    for i in 0..n
        invariant
            n == items@.len(),
            lines.deep_view() =~= base + prefixed_lines(topic_views(items@), prefix@).take(i as int),
    {
        let mut line = String::new();
        line.append(prefix);
        line.append(items[i].as_str());
        let ghost lv = line@;
        lines.push(line);
        proof {
            let pl = prefixed_lines(topic_views(items@), prefix@);
            assert(lines.deep_view() =~~= (base + pl.take(i as int)).push(lv));
            assert(lv == pl[i as int]);
            assert((base + pl.take(i as int)).push(lv) =~~= base + pl.take(i + 1));
        }
    }
    proof {
        assert(prefixed_lines(topic_views(items@), prefix@).take(n as int)
            =~= prefixed_lines(topic_views(items@), prefix@));
    }
}

/// Join prepared lines with newlines.
fn join_string_lines(lines: &Vec<String>) -> (r: String)
    ensures
        r@ == join_lines(lines.deep_view()),
{
    let mut out = String::new();
    let n = lines.len();
    proof {
        assert(lines.deep_view().take(0int) =~= Seq::<Seq<char>>::empty());
    }
    for i in 0..n
        invariant
            n == lines@.len(),
            out@ == join_lines(lines.deep_view().take(i as int)),
    {
        if i > 0 {
            out.append("\n");
            proof {
                reveal_strlit("\n");
                assert("\n"@ =~= seq!['\n']);
            }
        }
        out.append(lines[i].as_str());
        proof {
            let lv = lines.deep_view();
            assert(lv.take(i + 1).drop_last() =~= lv.take(i as int));
            assert(lv.take(i + 1).last() == lines@[i as int]@);
            if i == 0 {
                assert(lv.take(1int).len() == 1);
                assert(out@ =~= join_lines(lv.take(1int)));
            }
        }
    }
    proof {
        assert(lines.deep_view().take(n as int) =~= lines.deep_view());
    }
    out
}

/// The compact statistics line of a rollup: tokens in and out, cache hit
/// rate in whole percent, total cost.
pub open spec fn stats_summary_spec(stats: TokenStats) -> Seq<char> {
    "**Tokens**: "@ + format_tokens_spec(stats.input_tokens as int)
        + " in / "@ + format_tokens_spec(stats.output_tokens as int)
        + " out | **Cache**: "@ + dec_digits(crate::session::hit_rate_spec(stats) / 10)
        + "% | **Cost**: "@ + format_cost_spec(stats.total_cost as int)
}

/// Render the compact statistics line.
pub fn format_stats_summary(stats: &TokenStats) -> (r: String)
    requires
        stats.total_cost >= 0,
    ensures
        r@ == stats_summary_spec(*stats),
{
    let mut out = String::new();
    out.append("**Tokens**: ");
    let t1 = format_tokens(stats.input_tokens);
    out.append(t1.as_str());
    out.append(" in / ");
    let t2 = format_tokens(stats.output_tokens);
    out.append(t2.as_str());
    out.append(" out | **Cache**: ");
    let rate = stats.cache_hit_rate();
    let pct = u64_to_string(rate / 10);
    out.append(pct.as_str());
    out.append("% | **Cost**: ");
    let c = format_cost(stats.total_cost);
    out.append(c.as_str());
    out
}

} // verus!
