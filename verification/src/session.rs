//! The session data model: messages, usage accounting, turns and the text
//! chunks cut from them for embedding.
//!
//! Monetary amounts are integers in millionths of a dollar; the surrounding
//! application converts at its boundary. Token and cost accumulation
//! saturates instead of overflowing.

use vstd::prelude::*;

verus! {

/// A single message in a session log.
pub struct SessionMessage {
    /// The record kind; only `"message"` records carry conversation text.
    pub msg_type: String,
    pub timestamp: Option<String>,
    pub message: Option<MessageContent>,
}

/// The payload of a message record.
pub struct MessageContent {
    pub role: Option<String>,
    pub content: Option<Vec<ContentBlock>>,
    pub model: Option<String>,
    pub usage: Option<Usage>,
}

/// One content block of a message: a closed set of block kinds. Extraction
/// consumes only the text variant and explicitly ignores the rest.
pub enum ContentBlock {
    /// Plain conversation text.
    Text { text: String },
    /// A tool invocation; its payload is irrelevant to retrieval.
    ToolCall { name: Option<String> },
    /// A tool result; its payload is irrelevant to retrieval.
    ToolResult { content: Option<String> },
    /// Any block kind this model does not know.
    Other,
}

/// Token usage reported on one message.
pub struct Usage {
    pub input: Option<u64>,
    pub output: Option<u64>,
    pub cache_read: Option<u64>,
    pub cache_write: Option<u64>,
    pub total_tokens: Option<u64>,
    pub cost: Option<Cost>,
}

/// Costs of one message, in millionths of a dollar.
pub struct Cost {
    pub input: Option<i64>,
    pub output: Option<i64>,
    pub cache_read: Option<i64>,
    pub cache_write: Option<i64>,
    pub total: Option<i64>,
}

/// Aggregated token statistics. Costs are in millionths of a dollar.
pub struct TokenStats {
    pub input_tokens: u64,
    pub output_tokens: u64,
    pub cache_read_tokens: u64,
    pub cache_write_tokens: u64,
    pub total_tokens: u64,
    pub input_cost: i64,
    pub output_cost: i64,
    pub cache_read_cost: i64,
    pub cache_write_cost: i64,
    pub total_cost: i64,
    pub message_count: usize,
}

/// Per-model usage statistics.
pub struct ModelStats {
    pub model: String,
    pub stats: TokenStats,
}

/// A parsed session with its aggregated metadata.
pub struct Session {
    pub id: String,
    pub messages: Vec<SessionMessage>,
    pub first_timestamp: Option<String>,
    pub last_timestamp: Option<String>,
    /// Total cost in millionths of a dollar.
    pub total_cost: i64,
    pub message_count: usize,
    pub token_stats: TokenStats,
    pub models_used: Vec<String>,
}

/// One conversation turn: a user message and the assistant's response.
pub struct Turn {
    pub user_text: String,
    pub assistant_text: String,
    pub timestamp: Option<String>,
}

/// A chunk of text cut from a session for embedding.
pub struct TextChunk {
    pub session_id: String,
    pub turn_start: usize,
    pub turn_end: usize,
    pub timestamp: Option<String>,
    pub text: String,
}

/// The mathematical content of a turn.
pub ghost struct TurnView {
    pub user_text: Seq<char>,
    pub assistant_text: Seq<char>,
    pub timestamp: Option<Seq<char>>,
}

impl View for Turn {
    type V = TurnView;

    open spec fn view(&self) -> TurnView {
        TurnView {
            user_text: self.user_text@,
            assistant_text: self.assistant_text@,
            timestamp: opt_str_view(self.timestamp),
        }
    }
}

impl DeepView for Turn {
    type V = TurnView;

    open spec fn deep_view(&self) -> TurnView {
        self.view()
    }
}

/// The mathematical content of a text chunk.
pub ghost struct TextChunkView {
    pub session_id: Seq<char>,
    pub turn_start: int,
    pub turn_end: int,
    pub timestamp: Option<Seq<char>>,
    pub text: Seq<char>,
}

impl View for TextChunk {
    type V = TextChunkView;

    open spec fn view(&self) -> TextChunkView {
        TextChunkView {
            session_id: self.session_id@,
            turn_start: self.turn_start as int,
            turn_end: self.turn_end as int,
            timestamp: opt_str_view(self.timestamp),
            text: self.text@,
        }
    }
}

impl DeepView for TextChunk {
    type V = TextChunkView;

    open spec fn deep_view(&self) -> TextChunkView {
        self.view()
    }
}

/// The view of an optional string.
pub open spec fn opt_str_view(o: Option<String>) -> Option<Seq<char>> {
    match o {
        Option::Some(s) => Option::Some(s@),
        Option::None => Option::None,
    }
}

/// Clone an optional string, preserving its view.
pub fn clone_opt_string(o: &Option<String>) -> (r: Option<String>)
    ensures
        opt_str_view(r) == opt_str_view(*o),
{
    match o {
        Option::Some(s) => Option::Some(s.clone()),
        Option::None => Option::None,
    }
}

/// The text payloads of a block list, in order. Only the text variant
/// contributes; tool calls, tool results and unknown blocks are explicitly
/// ignored.
pub open spec fn block_texts(blocks: Seq<ContentBlock>) -> Seq<Seq<char>>
    decreases blocks.len(),
{
    if blocks.len() == 0 {
        Seq::empty()
    } else {
        let rest = block_texts(blocks.drop_last());
        match blocks.last() {
            ContentBlock::Text { text } => rest.push(text@),
            _ => rest,
        }
    }
}

/// Texts joined by single newlines.
pub open spec fn join_nl(ts: Seq<Seq<char>>) -> Seq<char>
    decreases ts.len(),
{
    if ts.len() == 0 {
        Seq::empty()
    } else if ts.len() == 1 {
        ts[0]
    } else {
        join_nl(ts.drop_last()) + seq!['\n'] + ts.last()
    }
}

/// Joining distributes over appending one text.
pub proof fn lemma_join_nl_push(ts: Seq<Seq<char>>, t: Seq<char>)
    ensures
        ts.len() == 0 ==> join_nl(ts.push(t)) == t,
        ts.len() > 0 ==> join_nl(ts.push(t)) == join_nl(ts) + seq!['\n'] + t,
{
    assert(ts.push(t).drop_last() =~= ts);
    assert(ts.push(t).last() == t);
    if ts.len() == 0 {
        assert(ts.push(t).len() == 1);
        assert(ts.push(t)[0] == t);
    }
}

/// The conversation text of one message payload.
pub open spec fn content_text(c: MessageContent) -> Seq<char> {
    match c.content {
        Option::Some(blocks) => join_nl(block_texts(blocks@)),
        Option::None => Seq::empty(),
    }
}

/// Extract the conversation text of a message payload: the text blocks,
/// joined by newlines, with every other block kind skipped by an explicit
/// match.
pub fn extract_text_from_content(content: &MessageContent) -> (r: String)
    ensures
        r@ == content_text(*content),
{
    let mut out = String::new();
    match &content.content {
        Option::None => {
        },
        Option::Some(blocks) => {
            let n = blocks.len();
            let mut pushed: usize = 0;
            proof {
                assert(blocks@.take(0int) =~= Seq::<ContentBlock>::empty());
            }
            for i in 0..n
                invariant
                    n == blocks@.len(),
                    pushed <= i,
                    pushed == block_texts(blocks@.take(i as int)).len(),
                    out@ == join_nl(block_texts(blocks@.take(i as int))),
            {
                proof {
                    assert(blocks@.take(i + 1).drop_last() =~= blocks@.take(i as int));
                    assert(blocks@.take(i + 1).last() == blocks@[i as int]);
                }
                match &blocks[i] {
                    ContentBlock::Text { text } => {
                        proof {
                            lemma_join_nl_push(block_texts(blocks@.take(i as int)), text@);
                            reveal_strlit("\n");
                            assert("\n"@ =~= seq!['\n']);
                        }
                        if pushed > 0 {
                            out.append("\n");
                        }
                        out.append(text.as_str());
                        pushed = pushed + 1;
                        proof {
                            assert(block_texts(blocks@.take(i + 1)) =~=
                                block_texts(blocks@.take(i as int)).push(text@));
                        }
                    },
                    ContentBlock::ToolCall { .. } => {
                        // tool invocations carry no conversation text
                    },
                    ContentBlock::ToolResult { .. } => {
                        // tool results carry no conversation text
                    },
                    ContentBlock::Other => {
                        // unknown block kinds are skipped
                    },
                }
            }
            proof {
                assert(blocks@.take(n as int) =~= blocks@);
            }
        },
    }
    out
}

/// The state of the turn builder: completed turns and the turn being built.
pub ghost struct TurnAcc {
    pub done: Seq<TurnView>,
    pub cur: Option<TurnView>,
}

/// One message's effect on the turn builder: a user message with text opens
/// a new turn (completing the previous one), an assistant message with text
/// extends the open turn's response, everything else changes nothing.
pub open spec fn turn_step(st: TurnAcc, m: SessionMessage) -> TurnAcc {
    if m.msg_type@ != "message"@ {
        st
    } else {
        match m.message {
            Option::None => st,
            Option::Some(c) => match c.role {
                Option::None => st,
                Option::Some(role) => {
                    let text = content_text(c);
                    if text.len() == 0 {
                        st
                    } else if role@ == "user"@ {
                        TurnAcc {
                            done: match st.cur {
                                Option::Some(t) => st.done.push(t),
                                Option::None => st.done,
                            },
                            cur: Option::Some(TurnView {
                                user_text: text,
                                assistant_text: Seq::empty(),
                                timestamp: opt_str_view(m.timestamp),
                            }),
                        }
                    } else if role@ == "assistant"@ {
                        match st.cur {
                            Option::None => st,
                            Option::Some(t) => TurnAcc {
                                done: st.done,
                                cur: Option::Some(TurnView {
                                    user_text: t.user_text,
                                    assistant_text: if t.assistant_text.len() == 0 {
                                        text
                                    } else {
                                        t.assistant_text + "\n\n"@ + text
                                    },
                                    timestamp: t.timestamp,
                                }),
                            },
                        }
                    } else {
                        st
                    }
                },
            },
        }
    }
}

/// The turn builder's state after the first `i` messages.
pub open spec fn turns_upto(msgs: Seq<SessionMessage>, i: int) -> TurnAcc
    decreases i,
{
    if i <= 0 {
        TurnAcc { done: Seq::empty(), cur: Option::None }
    } else {
        turn_step(turns_upto(msgs, i - 1), msgs[i - 1])
    }
}

/// The conversation turns of a message log (the open turn included).
pub open spec fn turns_of_messages(msgs: Seq<SessionMessage>) -> Seq<TurnView> {
    let st = turns_upto(msgs, msgs.len() as int);
    match st.cur {
        Option::Some(t) => st.done.push(t),
        Option::None => st.done,
    }
}

/// The view of an optional turn.
pub open spec fn opt_turn_view(o: Option<Turn>) -> Option<TurnView> {
    match o {
        Option::Some(t) => Option::Some(t@),
        Option::None => Option::None,
    }
}

impl Session {
    /// Pair the log's messages into conversation turns.
    pub fn get_turns(&self) -> (r: Vec<Turn>)
        ensures
            r.deep_view() == turns_of_messages(self.messages@),
    {
        let n = self.messages.len();
        let mut done: Vec<Turn> = Vec::new();
        let mut cur: Option<Turn> = None;
        proof {
            assert(done.deep_view() =~= Seq::<TurnView>::empty());
        }
        for i in 0..n
            invariant
                n == self.messages@.len(),
                done.deep_view() == turns_upto(self.messages@, i as int).done,
                opt_turn_view(cur) == turns_upto(self.messages@, i as int).cur,
        {
            let ghost st = turns_upto(self.messages@, i as int);
            let m = &self.messages[i];
            proof {
                assert(*m == self.messages@[i as int]);
                assert(turns_upto(self.messages@, i + 1) == turn_step(st, self.messages@[i as int]));
            }
            if crate::text::str_eq(m.msg_type.as_str(), "message") {
                match &m.message {
                    Option::None => {
                    },
                    Option::Some(c) => {
                        match &c.role {
                            Option::None => {
                            },
                            Option::Some(role) => {
                                let text = extract_text_from_content(c);
                                if text.as_str().is_empty() {
                                } else if crate::text::str_eq(role.as_str(), "user") {
                                    let prev = cur;
                                    let ghost donev = done.deep_view();
                                    match prev {
                                        Option::Some(t) => {
                                            let ghost tv = t@;
                                            done.push(t);
                                            proof {
                                                assert(done.deep_view() =~~= donev.push(tv));
                                            }
                                        },
                                        Option::None => {
                                        },
                                    }
                                    cur = Some(Turn {
                                        user_text: text,
                                        assistant_text: String::new(),
                                        timestamp: clone_opt_string(&m.timestamp),
                                    });
                                } else if crate::text::str_eq(role.as_str(), "assistant") {
                                    match &mut cur {
                                        Option::Some(t) => {
                                            if !t.assistant_text.as_str().is_empty() {
                                                t.assistant_text.append("\n\n");
                                                proof {
                                                    reveal_strlit("\n\n");
                                                }
                                            }
                                            t.assistant_text.append(text.as_str());
                                        },
                                        Option::None => {
                                        },
                                    }
                                }
                            },
                        }
                    },
                }
            }
        }
        let ghost endst = turns_upto(self.messages@, n as int);
        let ghost donev = done.deep_view();
        match cur {
            Option::Some(t) => {
                let ghost tv = t@;
                done.push(t);
                proof {
                    assert(done.deep_view() =~~= donev.push(tv));
                }
            },
            Option::None => {
            },
        }
        done
    }

    /// Cut the conversation into overlapping chunks of turns for embedding.
    ///
    /// Chunks start every `max(chunk_size - overlap, 1)` turns and span up
    /// to `chunk_size` turns; each records its half-open turn range, the
    /// first turn's timestamp, and the turns' texts rendered and joined.
    pub fn extract_text_chunks(&self, chunk_size: usize, overlap: usize) -> (r: Vec<TextChunk>)
        requires
            chunk_size >= 1,
        ensures
            ({
                let turns = turns_of_messages(self.messages@);
                let step = if chunk_size - overlap >= 1 { chunk_size - overlap } else { 1 };
                &&& r@.len() == (turns.len() + step - 1) / (step as int)
                &&& forall|k: int| 0 <= k < r@.len()
                    ==> chunk_shape(#[trigger] r@[k]@, turns, self.id@, k, step as int, chunk_size as int)
            }),
    {
        let turns = self.get_turns();
        let ghost tv = turns.deep_view();
        let step: usize = if chunk_size > overlap { chunk_size - overlap } else { 1 };
        let n = turns.len();
        let mut out: Vec<TextChunk> = Vec::new();
        let mut i: usize = 0;
        let ghost stepg = step as int;
        proof {
            assert(stepg == if chunk_size - overlap >= 1 { chunk_size - overlap } else { 1int });
        }
        while i < n
            invariant
                n == tv.len(),
                tv == turns.deep_view(),
                tv == turns_of_messages(self.messages@),
                step >= 1,
                stepg == step as int,
                stepg == if chunk_size - overlap >= 1 { chunk_size - overlap } else { 1int },
                chunk_size >= 1,
                i == out@.len() * stepg,
                i < n || out@.len() == 0,
                forall|k: int| 0 <= k < out@.len()
                    ==> chunk_shape((#[trigger] out@[k])@, tv, self.id@, k, stepg, chunk_size as int),
            decreases n - i,
        {
            let end = if chunk_size <= n - i { i + chunk_size } else { n };
            let text = render_turns(&turns, i, end);
            let ts = clone_opt_string(&turns[i].timestamp);
            let ghost prev = out@;
            out.push(TextChunk {
                session_id: self.id.clone(),
                turn_start: i,
                turn_end: end,
                timestamp: ts,
                text,
            });
            proof {
                assert(out@[out@.len() - 1]@.turn_start == i as int);
                assert forall|k: int| 0 <= k < out@.len()
                    implies chunk_shape((#[trigger] out@[k])@, tv, self.id@, k, stepg, chunk_size as int) by {
                    if k < out@.len() - 1 {
                        assert(out@[k] == prev[k]);
                    }
                }
            }
            if n - i <= step {
                proof {
                    let c = out@.len() as int;
                    assert(i == (c - 1) * stepg);
                    let x = tv.len() + stepg - 1;
                    assert(c * stepg <= x && x - c * stepg < stepg) by (nonlinear_arith)
                        requires
                            stepg >= 1,
                            i == (c - 1) * stepg,
                            c >= 1,
                            i < tv.len() <= i + stepg,
                            x == tv.len() + stepg - 1,
                    ;
                    vstd::arithmetic::div_mod::lemma_fundamental_div_mod_converse(
                        x, stepg, c, x - c * stepg);
                }
                return out;
            }
            i += step;
            proof {
                assert(i as int == out@.len() * stepg) by (nonlinear_arith)
                    requires i == (out@.len() - 1) * stepg + stepg;
            }
        }
        proof {
            assert(out@.len() == 0);
            assert(n == 0);
            vstd::arithmetic::div_mod::lemma_fundamental_div_mod_converse(
                stepg - 1, stepg, 0, stepg - 1);
            assert((tv.len() + stepg - 1) / stepg == 0);
        }
        out
    }
}

/// The shape of one extracted chunk: its window, timestamp and rendered
/// text.
pub open spec fn chunk_shape(
    c: TextChunkView,
    turns: Seq<TurnView>,
    sid: Seq<char>,
    k: int,
    step: int,
    chunk_size: int,
) -> bool {
    let start = k * step;
    let end = if start + chunk_size <= turns.len() { start + chunk_size } else { turns.len() as int };
    &&& c.session_id == sid
    &&& c.turn_start == start
    &&& c.turn_end == end
    &&& 0 <= start < end <= turns.len()
    &&& c.timestamp == turns[start].timestamp
    &&& c.text == rendered_turns(turns, start, end)
}

/// One turn rendered for embedding.
pub open spec fn turn_text(t: TurnView) -> Seq<char> {
    "User: "@ + t.user_text + "\n\nAssistant: "@ + t.assistant_text
}

/// Rendered turns `[lo, hi)` joined by the separator line.
pub open spec fn rendered_turns(turns: Seq<TurnView>, lo: int, hi: int) -> Seq<char>
    decreases hi - lo,
{
    if hi <= lo {
        Seq::empty()
    } else if hi == lo + 1 {
        turn_text(turns[lo])
    } else {
        rendered_turns(turns, lo, hi - 1) + "\n\n---\n\n"@ + turn_text(turns[hi - 1])
    }
}

/// Render turns `[lo, hi)` of a conversation as embedding text.
fn render_turns(turns: &Vec<Turn>, lo: usize, hi: usize) -> (r: String)
    requires
        lo < hi <= turns@.len(),
    ensures
        r@ == rendered_turns(turns.deep_view(), lo as int, hi as int),
{
    let ghost tv = turns.deep_view();
    let mut out = String::new();
    let mut j = lo;
    while j < hi
        invariant
            lo <= j <= hi <= turns@.len(),
            tv == turns.deep_view(),
            out@ == rendered_turns(tv, lo as int, j as int),
        decreases hi - j,
    {
        if j > lo {
            out.append("\n\n---\n\n");
        }
        out.append("User: ");
        out.append(turns[j].user_text.as_str());
        out.append("\n\nAssistant: ");
        out.append(turns[j].assistant_text.as_str());
        proof {
            assert(tv[j as int] == turns@[j as int]@);
        }
        j += 1;
    }
    out
}

/// Saturating addition of token counts.
pub open spec fn s_add_u64(a: u64, b: u64) -> u64 {
    if a + b > u64::MAX {
        u64::MAX
    } else {
        (a + b) as u64
    }
}

/// Saturating addition of costs.
pub open spec fn s_add_i64(a: i64, b: i64) -> i64 {
    if a + b > i64::MAX {
        i64::MAX
    } else if a + b < i64::MIN {
        i64::MIN
    } else {
        (a + b) as i64
    }
}

/// Saturating addition of counts.
pub open spec fn s_add_usize(a: usize, b: usize) -> usize {
    if a + b > usize::MAX {
        usize::MAX
    } else {
        (a + b) as usize
    }
}

/// Field-wise saturating sum of two statistics records.
pub open spec fn stats_sum(a: TokenStats, b: TokenStats) -> TokenStats {
    TokenStats {
        input_tokens: s_add_u64(a.input_tokens, b.input_tokens),
        output_tokens: s_add_u64(a.output_tokens, b.output_tokens),
        cache_read_tokens: s_add_u64(a.cache_read_tokens, b.cache_read_tokens),
        cache_write_tokens: s_add_u64(a.cache_write_tokens, b.cache_write_tokens),
        total_tokens: s_add_u64(a.total_tokens, b.total_tokens),
        input_cost: s_add_i64(a.input_cost, b.input_cost),
        output_cost: s_add_i64(a.output_cost, b.output_cost),
        cache_read_cost: s_add_i64(a.cache_read_cost, b.cache_read_cost),
        cache_write_cost: s_add_i64(a.cache_write_cost, b.cache_write_cost),
        total_cost: s_add_i64(a.total_cost, b.total_cost),
        message_count: s_add_usize(a.message_count, b.message_count),
    }
}

/// The all-zero statistics record.
pub open spec fn empty_stats() -> TokenStats {
    TokenStats {
        input_tokens: 0,
        output_tokens: 0,
        cache_read_tokens: 0,
        cache_write_tokens: 0,
        total_tokens: 0,
        input_cost: 0,
        output_cost: 0,
        cache_read_cost: 0,
        cache_write_cost: 0,
        total_cost: 0,
        message_count: 0,
    }
}

/// An all-zero statistics record.
pub fn zero_stats() -> (r: TokenStats)
    ensures
        r == empty_stats(),
{
    TokenStats {
        input_tokens: 0,
        output_tokens: 0,
        cache_read_tokens: 0,
        cache_write_tokens: 0,
        total_tokens: 0,
        input_cost: 0,
        output_cost: 0,
        cache_read_cost: 0,
        cache_write_cost: 0,
        total_cost: 0,
        message_count: 0,
    }
}

/// Saturating token-count addition.
fn sat_u64(a: u64, b: u64) -> (r: u64)
    ensures
        r == s_add_u64(a, b),
{
    if a > u64::MAX - b {
        u64::MAX
    } else {
        a + b
    }
}

/// Saturating cost addition.
fn sat_i64(a: i64, b: i64) -> (r: i64)
    ensures
        r == s_add_i64(a, b),
{
    let s: i128 = (a as i128) + (b as i128);
    if s > i64::MAX as i128 {
        i64::MAX
    } else if s < i64::MIN as i128 {
        i64::MIN
    } else {
        s as i64
    }
}

/// Saturating count addition.
fn sat_usize(a: usize, b: usize) -> (r: usize)
    ensures
        r == s_add_usize(a, b),
{
    if a > usize::MAX - b {
        usize::MAX
    } else {
        a + b
    }
}

/// Add two statistics records field by field, saturating.
pub fn add_token_stats(a: &TokenStats, b: &TokenStats) -> (r: TokenStats)
    ensures
        r == stats_sum(*a, *b),
{
    TokenStats {
        input_tokens: sat_u64(a.input_tokens, b.input_tokens),
        output_tokens: sat_u64(a.output_tokens, b.output_tokens),
        cache_read_tokens: sat_u64(a.cache_read_tokens, b.cache_read_tokens),
        cache_write_tokens: sat_u64(a.cache_write_tokens, b.cache_write_tokens),
        total_tokens: sat_u64(a.total_tokens, b.total_tokens),
        input_cost: sat_i64(a.input_cost, b.input_cost),
        output_cost: sat_i64(a.output_cost, b.output_cost),
        cache_read_cost: sat_i64(a.cache_read_cost, b.cache_read_cost),
        cache_write_cost: sat_i64(a.cache_write_cost, b.cache_write_cost),
        total_cost: sat_i64(a.total_cost, b.total_cost),
        message_count: sat_usize(a.message_count, b.message_count),
    }
}

/// A count defaulting to zero.
pub open spec fn opt0_u64(o: Option<u64>) -> u64 {
    match o {
        Option::Some(v) => v,
        Option::None => 0,
    }
}

/// A cost defaulting to zero.
pub open spec fn opt0_i64(o: Option<i64>) -> i64 {
    match o {
        Option::Some(v) => v,
        Option::None => 0,
    }
}

/// The statistics one message's usage report contributes.
pub open spec fn usage_stats_spec(u: Usage) -> TokenStats {
    TokenStats {
        input_tokens: opt0_u64(u.input),
        output_tokens: opt0_u64(u.output),
        cache_read_tokens: opt0_u64(u.cache_read),
        cache_write_tokens: opt0_u64(u.cache_write),
        total_tokens: opt0_u64(u.total_tokens),
        input_cost: match u.cost { Option::Some(c) => opt0_i64(c.input), Option::None => 0 },
        output_cost: match u.cost { Option::Some(c) => opt0_i64(c.output), Option::None => 0 },
        cache_read_cost: match u.cost { Option::Some(c) => opt0_i64(c.cache_read), Option::None => 0 },
        cache_write_cost: match u.cost { Option::Some(c) => opt0_i64(c.cache_write), Option::None => 0 },
        total_cost: match u.cost { Option::Some(c) => opt0_i64(c.total), Option::None => 0 },
        message_count: 1,
    }
}

/// One usage report as a statistics record.
pub fn usage_stats(u: &Usage) -> (r: TokenStats)
    ensures
        r == usage_stats_spec(*u),
{
    let mut r = zero_stats();
    r.input_tokens = match u.input { Option::Some(v) => v, Option::None => 0 };
    r.output_tokens = match u.output { Option::Some(v) => v, Option::None => 0 };
    r.cache_read_tokens = match u.cache_read { Option::Some(v) => v, Option::None => 0 };
    r.cache_write_tokens = match u.cache_write { Option::Some(v) => v, Option::None => 0 };
    r.total_tokens = match u.total_tokens { Option::Some(v) => v, Option::None => 0 };
    match &u.cost {
        Option::Some(c) => {
            r.input_cost = match c.input { Option::Some(v) => v, Option::None => 0 };
            r.output_cost = match c.output { Option::Some(v) => v, Option::None => 0 };
            r.cache_read_cost = match c.cache_read { Option::Some(v) => v, Option::None => 0 };
            r.cache_write_cost = match c.cache_write { Option::Some(v) => v, Option::None => 0 };
            r.total_cost = match c.total { Option::Some(v) => v, Option::None => 0 };
        },
        Option::None => {
        },
    }
    r.message_count = 1;
    r
}

/// The statistics accumulated over the first `i` messages: every usage
/// report counts, whatever the record kind.
pub open spec fn stats_upto(msgs: Seq<SessionMessage>, i: int) -> TokenStats
    decreases i,
{
    if i <= 0 {
        empty_stats()
    } else {
        let st = stats_upto(msgs, i - 1);
        match msgs[i - 1].message {
            Option::Some(c) => match c.usage {
                Option::Some(u) => stats_sum(st, usage_stats_spec(u)),
                Option::None => st,
            },
            Option::None => st,
        }
    }
}

/// How many of the first `i` records are messages.
pub open spec fn message_count_upto(msgs: Seq<SessionMessage>, i: int) -> int
    decreases i,
{
    if i <= 0 {
        0
    } else {
        message_count_upto(msgs, i - 1)
            + if msgs[i - 1].msg_type@ == "message"@ { 1int } else { 0int }
    }
}

/// The distinct models named by the first `i` messages, in order of first
/// appearance.
pub open spec fn models_upto(msgs: Seq<SessionMessage>, i: int) -> Seq<Seq<char>>
    decreases i,
{
    if i <= 0 {
        Seq::empty()
    } else {
        let acc = models_upto(msgs, i - 1);
        match msgs[i - 1].message {
            Option::Some(c) => match c.model {
                Option::Some(m) => if acc.contains(m@) {
                    acc
                } else {
                    acc.push(m@)
                },
                Option::None => acc,
            },
            Option::None => acc,
        }
    }
}

impl Session {
    /// Assemble a session from its parsed messages: usage is accumulated
    /// (saturating), message records counted, distinct models collected in
    /// order of first appearance, and the first and last records' raw
    /// timestamps kept.
    pub fn from_messages(id: String, messages: Vec<SessionMessage>) -> (r: Session)
        ensures
            r.id@ == id@,
            r.messages@ == messages@,
            r.token_stats == stats_upto(messages@, messages@.len() as int),
            r.total_cost == r.token_stats.total_cost,
            r.message_count == message_count_upto(messages@, messages@.len() as int),
            r.models_used.deep_view() == models_upto(messages@, messages@.len() as int),
            opt_str_view(r.first_timestamp) == (if messages@.len() > 0 {
                opt_str_view(messages@[0].timestamp)
            } else {
                Option::<Seq<char>>::None
            }),
            opt_str_view(r.last_timestamp) == (if messages@.len() > 0 {
                opt_str_view(messages@[messages@.len() - 1].timestamp)
            } else {
                Option::<Seq<char>>::None
            }),
    {
        let n = messages.len();
        let mut stats = zero_stats();
        let mut count: usize = 0;
        let mut models: Vec<String> = Vec::new();
        proof {
            assert(models.deep_view() =~= Seq::<Seq<char>>::empty());
        }
        for i in 0..n
            invariant
                n == messages@.len(),
                stats == stats_upto(messages@, i as int),
                count == message_count_upto(messages@, i as int),
                count <= i,
                models.deep_view() == models_upto(messages@, i as int),
        {
            let m = &messages[i];
            if crate::text::str_eq(m.msg_type.as_str(), "message") {
                count += 1;
            }
            match &m.message {
                Option::Some(c) => {
                    match &c.usage {
                        Option::Some(u) => {
                            let delta = usage_stats(u);
                            stats = add_token_stats(&stats, &delta);
                        },
                        Option::None => {
                        },
                    }
                    match &c.model {
                        Option::Some(model) => {
                            let mut present = false;
                            let nm = models.len();
                            for k in 0..nm
                                invariant
                                    nm == models@.len(),
                                    present == exists|j: int| 0 <= j < k
                                        && (#[trigger] models.deep_view()[j]) == model@,
                                decreases nm - k,
                            {
                                proof {
                                    assert(models.deep_view()[k as int] == models@[k as int]@);
                                }
                                if crate::text::str_eq(models[k].as_str(), model.as_str()) {
                                    present = true;
                                }
                            }
                            if !present {
                                let ghost before = models.deep_view();
                                models.push(model.clone());
                                proof {
                                    assert(models.deep_view() =~~= before.push(model@));
                                }
                            } else {
                                proof {
                                    assert(models_upto(messages@, i + 1) == models.deep_view());
                                }
                            }
                        },
                        Option::None => {
                        },
                    }
                },
                Option::None => {
                },
            }
        }
        let first_timestamp = if messages.len() > 0 {
            clone_opt_string(&messages[0].timestamp)
        } else {
            None
        };
        let last_timestamp = if messages.len() > 0 {
            clone_opt_string(&messages[messages.len() - 1].timestamp)
        } else {
            None
        };
        let total_cost = stats.total_cost;
        Session {
            id,
            messages,
            first_timestamp,
            last_timestamp,
            total_cost,
            message_count: count,
            token_stats: stats,
            models_used: models,
        }
    }
}

/// The cache hit rate in thousandths: cache-read tokens over all input
/// tokens, zero when nothing was read.
pub open spec fn hit_rate_spec(stats: TokenStats) -> int {
    let total = stats.input_tokens + stats.cache_read_tokens;
    if total == 0 {
        0
    } else {
        stats.cache_read_tokens * 1000 / total
    }
}

impl TokenStats {
    /// The cache hit rate, in thousandths (so 1000 is a perfect rate).
    pub fn cache_hit_rate(&self) -> (r: u64)
        ensures
            r == hit_rate_spec(*self),
            r <= 1000,
    {
        let total = (self.input_tokens as u128) + (self.cache_read_tokens as u128);
        if total == 0 {
            0
        } else {
            let q = (self.cache_read_tokens as u128) * 1000 / total;
            proof {
                let cr = self.cache_read_tokens as int;
                vstd::arithmetic::div_mod::lemma_div_is_ordered(cr * 1000, total as int * 1000, total as int);
                assert(cr * 1000 <= total * 1000) by (nonlinear_arith)
                    requires cr <= total;
                assert(total as int * 1000 / (total as int) == 1000) by (nonlinear_arith)
                    requires total > 0;
            }
            q as u64
        }
    }
}

} // verus!
