//! Lexical query sanitization and the query syntax the index accepts.
//!
//! A raw user query may contain unbalanced quotes, grouping characters or
//! operator-like words (`AND "untermi...`). The sanitizer isolates each
//! whitespace-delimited token and wraps it in double quotes, so the result
//! always satisfies the index's query grammar: quoted, nonempty tokens
//! separated by single spaces. [`lemma_sanitized_parses`] proves that the
//! parser accepts every sanitized query and recovers exactly the normalized
//! tokens of the raw input.

use vstd::prelude::*;
use crate::text::{
    cleaned, ctokens_from, is_space_char, lower_char, lemma_run_len_from, run_len_from, tokens_of,
    str_to_chars, chars_to_string, clean_tokens,
};

verus! {

/// One token in the sanitized wire form: wrapped in double quotes.
pub open spec fn quoted(t: Seq<char>) -> Seq<char> {
    seq!['"'] + t + seq!['"']
}

/// Quoted tokens joined by single spaces.
pub open spec fn join_quoted(ts: Seq<Seq<char>>) -> Seq<char>
    decreases ts.len(),
{
    if ts.len() == 0 {
        Seq::empty()
    } else if ts.len() == 1 {
        quoted(ts[0])
    } else {
        quoted(ts[0]) + seq![' '] + join_quoted(ts.drop_first())
    }
}

/// The sanitized form of a raw query: its whitespace-delimited tokens,
/// quotes stripped, each wrapped in quotes, space separated.
pub open spec fn sanitized_query(q: Seq<char>) -> Seq<char> {
    join_quoted(ctokens_from(q, 0, false))
}

/// A token lowercased character by character.
pub open spec fn lower_all(t: Seq<char>) -> Seq<char> {
    Seq::new(t.len(), |j: int| lower_char(t[j]))
}

/// Position of the first double quote at or after `i` (the length if none).
pub open spec fn quote_end(s: Seq<char>, i: int) -> int
    decreases s.len() - i,
{
    if i < 0 || i >= s.len() {
        s.len() as int
    } else if s[i] == '"' {
        i
    } else {
        quote_end(s, i + 1)
    }
}

/// `quote_end` stays between `i` and the length, finds a quote when it stops
/// short, and skips no quote.
pub proof fn lemma_quote_end(s: Seq<char>, i: int)
    requires
        0 <= i <= s.len(),
    ensures
        i <= quote_end(s, i) <= s.len(),
        quote_end(s, i) < s.len() ==> s[quote_end(s, i)] == '"',
        forall|k: int| i <= k < quote_end(s, i) ==> s[k] != '"',
    decreases s.len() - i,
{
    if i < s.len() && s[i] != '"' {
        lemma_quote_end(s, i + 1);
    }
}

/// If no quote appears in `[i, j)` and `s[j]` is a quote, the scan stops at `j`.
pub proof fn lemma_quote_end_at(s: Seq<char>, i: int, j: int)
    requires
        0 <= i <= j < s.len(),
        forall|k: int| i <= k < j ==> s[k] != '"',
        s[j] == '"',
    ensures
        quote_end(s, i) == j,
    decreases j - i,
{
    if i < j {
        lemma_quote_end_at(s, i + 1, j);
    }
}

/// Parse a token list starting at `i`: a quoted nonempty token, then either
/// the end or one space and another token list. Tokens come out lowercased.
/// `None` is the index's syntax error: a bare (unquoted) character, an
/// unterminated quote, or an empty token.
pub open spec fn parse_from(s: Seq<char>, i: int) -> Option<Seq<Seq<char>>>
    decreases s.len() - i,
    when 0 <= i
    via parse_from_decreases
{
    if i >= s.len() {
        None
    } else if s[i] != '"' {
        None
    } else {
        let e = quote_end(s, i + 1);
        if e >= s.len() {
            None
        } else if e == i + 1 {
            None
        } else {
            let tok = lower_all(s.subrange(i + 1, e));
            if e + 1 == s.len() {
                Some(seq![tok])
            } else if s[e + 1] != ' ' {
                None
            } else {
                match parse_from(s, e + 2) {
                    Option::None => Option::<Seq<Seq<char>>>::None,
                    Option::Some(rest) => Option::Some(seq![tok] + rest),
                }
            }
        }
    }
}

#[via_fn]
proof fn parse_from_decreases(s: Seq<char>, i: int) {
    if 0 <= i && i < s.len() {
        lemma_quote_end(s, i + 1);
    }
}

/// The index's query grammar: empty, or a space-separated list of quoted
/// nonempty tokens. Tokens come out lowercased, ready for matching.
pub open spec fn parse_query_spec(s: Seq<char>) -> Option<Seq<Seq<char>>> {
    if s.len() == 0 {
        Some(Seq::empty())
    } else {
        parse_from(s, 0)
    }
}

/// Sanitize a raw query for the lexical index: each whitespace-delimited
/// token is stripped of embedded quotes and wrapped in its own quotes, so
/// no operator word, grouping character or unbalanced quote in user text
/// reaches the index as syntax.
pub fn sanitize_fts_query(query: &str) -> (r: String)
    ensures
        r@ == sanitized_query(query@),
{
    let chars = str_to_chars(query);
    let toks = clean_tokens(&chars, false);
    let mut out: Vec<char> = Vec::new();
    let n = toks.len();
    proof {
        assert(toks.deep_view().take(0int) =~= Seq::<Seq<char>>::empty());
        assert(out@ =~= join_quoted(toks.deep_view().take(0int)));
    }
    for i in 0..n
        invariant
            n == toks@.len(),
            toks.deep_view() == ctokens_from(query@, 0, false),
            toks.deep_view().len() == n,
            out@ == join_quoted(toks.deep_view().take(i as int)),
    {
        let ghost tsv = toks.deep_view();
        if i > 0 {
            out.push(' ');
        }
        out.push('"');
        let t = &toks[i];
        let m = t.len();
        let ghost mid = out@;
        for j in 0..m
            invariant
                m == t@.len(),
                t@ == tsv[i as int],
                out@ == mid + t@.take(j as int),
        {
            out.push(t[j]);
            proof {
                assert(mid + t@.take(j + 1) =~= (mid + t@.take(j as int)).push(t@[j as int]));
            }
        }
        out.push('"');
        proof {
            assert(t@.take(m as int) =~= t@);
            lemma_join_push(tsv.take(i as int), tsv[i as int]);
            assert(tsv.take(i + 1) =~= tsv.take(i as int).push(tsv[i as int]));
            if i == 0 {
                assert(out@ =~= quoted(tsv[0]));
                assert(join_quoted(tsv.take(1int)) =~= quoted(tsv.take(1int)[0]));
                assert(tsv.take(1int)[0] == tsv[0]);
            } else {
                assert(out@ =~= join_quoted(tsv.take(i as int)) + seq![' '] + quoted(tsv[i as int]));
            }
        }
    }
    proof {
        assert(toks.deep_view().take(n as int) =~= toks.deep_view());
    }
    chars_to_string(&out)
}

/// No quote from `i` onward means the scan runs to the end.
proof fn lemma_quote_end_none(s: Seq<char>, i: int)
    requires
        0 <= i <= s.len(),
        forall|k: int| i <= k < s.len() ==> s[k] != '"',
    ensures
        quote_end(s, i) == s.len(),
    decreases s.len() - i,
{
    if i < s.len() {
        lemma_quote_end_none(s, i + 1);
    }
}

/// Run the index's query parser. `None` is the index's syntax error; a
/// sanitized query never produces it (see [`lemma_sanitized_parses`]).
pub fn parse_query(s: &str) -> (r: Option<Vec<Vec<char>>>)
    ensures
        r is Some <==> parse_query_spec(s@) is Some,
        r is Some ==> r->Some_0.deep_view() == parse_query_spec(s@)->Some_0,
{
    let chars = str_to_chars(s);
    if chars.len() == 0 {
        let empty: Vec<Vec<char>> = Vec::new();
        proof {
            assert(empty.deep_view() =~= Seq::<Seq<char>>::empty());
        }
        return Some(empty);
    }
    parse_toks(&chars, 0)
}

/// Recursive descent over the token list grammar.
fn parse_toks(chars: &Vec<char>, i: usize) -> (r: Option<Vec<Vec<char>>>)
    requires
        i <= chars@.len(),
    ensures
        r is Some <==> parse_from(chars@, i as int) is Some,
        r is Some ==> r->Some_0.deep_view() == parse_from(chars@, i as int)->Some_0,
    decreases chars@.len() - i,
{
    let n = chars.len();
    if i >= n {
        return None;
    }
    if chars[i] != '"' {
        return None;
    }
    let mut e = i + 1;
    while e < n && chars[e] != '"'
        invariant
            n == chars@.len(),
            i + 1 <= e <= n,
            forall|k: int| i + 1 <= k < e ==> chars@[k] != '"',
        decreases n - e,
    {
        e += 1;
    }
    proof {
        if e < n {
            lemma_quote_end_at(chars@, i + 1, e as int);
        } else {
            lemma_quote_end_none(chars@, i + 1);
        }
    }
    if e >= n {
        return None;
    }
    if e == i + 1 {
        return None;
    }
    let mut tok: Vec<char> = Vec::new();
    proof {
        assert(tok@ =~= lower_all(chars@.subrange(i + 1, i + 1)));
    }
    let mut j = i + 1;
    while j < e
        invariant
            n == chars@.len(),
            i + 1 <= j <= e < n,
            tok@ == lower_all(chars@.subrange(i + 1, j as int)),
        decreases e - j,
    {
        tok.push(crate::text::to_lower_char(chars[j]));
        proof {
            assert(tok@ =~= lower_all(chars@.subrange(i + 1, j + 1)));
        }
        j += 1;
    }
    if e + 1 == n {
        let mut out: Vec<Vec<char>> = Vec::new();
        let ghost tokv = tok@;
        out.push(tok);
        proof {
            assert(out.deep_view() =~~= seq![tokv]);
        }
        return Some(out);
    }
    if chars[e + 1] != ' ' {
        return None;
    }
    match parse_toks(chars, e + 2) {
        Option::None => None,
        Option::Some(mut rest) => {
            let ghost restv = rest.deep_view();
            let ghost tokv = tok@;
            rest.insert(0, tok);
            proof {
                assert(rest.deep_view() =~~= seq![tokv] + restv);
            }
            Some(rest)
        },
    }
}

/// Appending one token extends the joined form by a space and the quoted
/// token (no space when it is the first).
proof fn lemma_join_push(ts: Seq<Seq<char>>, t: Seq<char>)
    ensures
        ts.len() == 0 ==> join_quoted(ts.push(t)) == quoted(t),
        ts.len() > 0 ==> join_quoted(ts.push(t)) == join_quoted(ts) + seq![' '] + quoted(t),
    decreases ts.len(),
{
    if ts.len() == 0 {
        assert(ts.push(t).len() == 1);
        assert(ts.push(t)[0] == t);
    } else if ts.len() == 1 {
        assert(ts.push(t).drop_first() =~= seq![t]);
        assert(join_quoted(ts.push(t)) == quoted(ts[0]) + seq![' '] + join_quoted(seq![t]));
        assert(join_quoted(seq![t]) == quoted(t));
        assert(join_quoted(ts) == quoted(ts[0]));
    } else {
        lemma_join_push(ts.drop_first(), t);
        assert(ts.push(t).drop_first() =~= ts.drop_first().push(t));
        assert(join_quoted(ts.push(t)) ==
            quoted(ts[0]) + seq![' '] + join_quoted(ts.drop_first().push(t)));
        assert(quoted(ts[0]) + seq![' ']
            + (join_quoted(ts.drop_first()) + seq![' '] + quoted(t)) =~=
            (quoted(ts[0]) + seq![' '] + join_quoted(ts.drop_first())) + seq![' '] + quoted(t));
    }
}

/// A token the sanitized wire form can carry: nonempty, no quote, no space.
pub open spec fn plain_token(t: Seq<char>) -> bool {
    &&& t.len() >= 1
    &&& forall|j: int| 0 <= j < t.len() ==> (#[trigger] t[j]) != '"' && !is_space_char(t[j])
}

/// Each token is lowercased.
pub open spec fn lower_tokens(ts: Seq<Seq<char>>) -> Seq<Seq<char>> {
    Seq::new(ts.len(), |k: int| lower_all(ts[k]))
}

/// Normalizing a whitespace-free run yields no quote and no space.
proof fn lemma_cleaned_props(t: Seq<char>, lower: bool)
    requires
        forall|k: int| 0 <= k < t.len() ==> !is_space_char(#[trigger] t[k]),
    ensures
        forall|j: int| 0 <= j < cleaned(t, lower).len()
            ==> (#[trigger] cleaned(t, lower)[j]) != '"' && !is_space_char(cleaned(t, lower)[j]),
    decreases t.len(),
{
    if t.len() > 0 {
        assert(forall|k: int| 0 <= k < t.drop_last().len() ==> !is_space_char(#[trigger] t.drop_last()[k]));
        lemma_cleaned_props(t.drop_last(), lower);
        let r = cleaned(t.drop_last(), lower);
        let c = t.last();
        assert(!is_space_char(t[t.len() - 1]));
        if c == '"' {
        } else {
            let c2 = if lower { lower_char(c) } else { c };
            assert(!is_space_char(c2) && c2 != '"');
            assert forall|j: int| 0 <= j < cleaned(t, lower).len()
                implies (#[trigger] cleaned(t, lower)[j]) != '"'
                    && !is_space_char(cleaned(t, lower)[j]) by {
                if j < r.len() {
                    assert(cleaned(t, lower)[j] == r[j]);
                } else {
                    assert(cleaned(t, lower)[j] == c2);
                }
            }
        }
    }
}

/// Every normalized token is nonempty, quote-free and space-free.
proof fn lemma_ctokens_props(s: Seq<char>, i: int, lower: bool)
    requires
        0 <= i <= s.len(),
    ensures
        forall|k: int| 0 <= k < ctokens_from(s, i, lower).len()
            ==> plain_token(#[trigger] ctokens_from(s, i, lower)[k]),
    decreases s.len() - i,
{
    if i >= s.len() {
    } else if is_space_char(s[i]) {
        lemma_ctokens_props(s, i + 1, lower);
        let ts = ctokens_from(s, i, lower);
        let rest = ctokens_from(s, i + 1, lower);
        assert forall|k: int| 0 <= k < ts.len() implies plain_token(#[trigger] ts[k]) by {
            assert(plain_token(rest[k]));
        }
    } else {
        lemma_run_len_from(s, i);
        let run = run_len_from(s, i);
        let sub = s.subrange(i, i + run);
        assert(forall|k: int| 0 <= k < sub.len() ==> !is_space_char(#[trigger] sub[k]));
        lemma_cleaned_props(sub, lower);
        lemma_ctokens_props(s, i + run, lower);
        let t = cleaned(sub, lower);
        let ts = ctokens_from(s, i, lower);
        let rest = ctokens_from(s, i + run, lower);
        assert forall|k: int| 0 <= k < ts.len() implies plain_token(#[trigger] ts[k]) by {
            if t.len() == 0 {
                assert(ts == rest);
                assert(ts[k] == rest[k]);
                assert(plain_token(rest[k]));
            } else {
                assert(plain_token(t));
                assert(ts == seq![t] + rest);
                if k == 0 {
                    assert(ts[0] == t);
                } else {
                    assert(ts[k] == rest[k - 1]);
                    assert(plain_token(rest[k - 1]));
                }
            }
        }
    }
}

/// Normalizing with lowercasing equals lowercasing the plain normalization.
proof fn lemma_cleaned_lower(t: Seq<char>)
    ensures
        cleaned(t, true) == lower_all(cleaned(t, false)),
    decreases t.len(),
{
    if t.len() == 0 {
        assert(cleaned(t, true) =~= lower_all(cleaned(t, false)));
    } else {
        lemma_cleaned_lower(t.drop_last());
        let c = t.last();
        if c == '"' {
        } else {
            assert(lower_all(cleaned(t.drop_last(), false).push(c)) =~=
                lower_all(cleaned(t.drop_last(), false)).push(lower_char(c)));
        }
    }
}

/// The lowercased token split equals the plain token split, lowercased.
proof fn lemma_ctokens_lower(s: Seq<char>, i: int)
    requires
        0 <= i <= s.len(),
    ensures
        ctokens_from(s, i, true) == lower_tokens(ctokens_from(s, i, false)),
    decreases s.len() - i,
{
    if i >= s.len() {
        assert(ctokens_from(s, i, true) =~= lower_tokens(ctokens_from(s, i, false)));
    } else if is_space_char(s[i]) {
        lemma_ctokens_lower(s, i + 1);
    } else {
        lemma_run_len_from(s, i);
        let run = run_len_from(s, i);
        let sub = s.subrange(i, i + run);
        lemma_cleaned_lower(sub);
        lemma_ctokens_lower(s, i + run);
        let tf = cleaned(sub, false);
        let tt = cleaned(sub, true);
        assert(tt.len() == tf.len());
        if tf.len() == 0 {
        } else {
            assert(ctokens_from(s, i, true) =~=
                lower_tokens(seq![tf] + ctokens_from(s, i + run, false)));
        }
    }
}

/// The first-quote scan only depends on the characters from `d` on.
proof fn lemma_quote_end_shift(s: Seq<char>, d: int, i: int)
    requires
        0 <= d <= i <= s.len(),
    ensures
        quote_end(s, i) == d + quote_end(s.skip(d), i - d),
    decreases s.len() - i,
{
    if i >= s.len() {
    } else if s[i] == '"' {
    } else {
        lemma_quote_end_shift(s, d, i + 1);
    }
}

/// Parsing from `i` only depends on the characters from `d` on.
proof fn lemma_parse_shift(s: Seq<char>, d: int, i: int)
    requires
        0 <= d <= i <= s.len(),
    ensures
        parse_from(s, i) == parse_from(s.skip(d), i - d),
    decreases s.len() - i,
{
    let s2 = s.skip(d);
    let i2 = i - d;
    if i >= s.len() {
    } else if s[i] != '"' {
    } else {
        lemma_quote_end_shift(s, d, i + 1);
        lemma_quote_end(s, i + 1);
        let e = quote_end(s, i + 1);
        let e2 = e - d;
        if e >= s.len() {
        } else if e == i + 1 {
        } else {
            assert(s.subrange(i + 1, e) =~= s2.subrange(i2 + 1, e2));
            if e + 1 == s.len() {
            } else if s[e + 1] != ' ' {
            } else {
                lemma_parse_shift(s, d, e + 2);
            }
        }
    }
}

/// A join of plain tokens parses, and parses to exactly those tokens,
/// lowercased.
proof fn lemma_parse_join(ts: Seq<Seq<char>>)
    requires
        forall|k: int| 0 <= k < ts.len() ==> plain_token(#[trigger] ts[k]),
    ensures
        parse_query_spec(join_quoted(ts)) == Some(lower_tokens(ts)),
    decreases ts.len(),
{
    if ts.len() == 0 {
        assert(lower_tokens(ts) =~= Seq::<Seq<char>>::empty());
    } else {
        let t0 = ts[0];
        let s = join_quoted(ts);
        assert(plain_token(t0));
        let q0 = quoted(t0);
        assert(q0.len() == t0.len() + 2);
        assert(q0[0] == '"');
        assert(forall|k: int| 1 <= k < t0.len() + 1 ==> q0[k] == t0[k - 1] && #[trigger] q0[k] != '"');
        assert(q0[t0.len() as int + 1] == '"');
        if ts.len() == 1 {
            assert(s == q0);
            lemma_quote_end_at(s, 1, t0.len() as int + 1);
            let e = quote_end(s, 1);
            assert(e == t0.len() as int + 1);
            assert(s.subrange(1, e) =~= t0);
            assert(e + 1 == s.len());
            assert(parse_from(s, 0) == Some(seq![lower_all(t0)]));
            assert(lower_tokens(ts) =~= seq![lower_all(t0)]);
        } else {
            let rest = ts.drop_first();
            let sr = join_quoted(rest);
            assert(s == q0 + seq![' '] + sr);
            assert(forall|k: int| 0 <= k < q0.len() ==> #[trigger] s[k] == q0[k]);
            assert(s[q0.len() as int] == ' ');
            assert(s[0] == '"');
            assert(forall|k: int| 1 <= k < t0.len() + 1 ==> #[trigger] s[k] != '"');
            lemma_quote_end_at(s, 1, t0.len() as int + 1);
            let e = quote_end(s, 1);
            assert(e == t0.len() as int + 1);
            // the rest of the input is itself a join of plain tokens
            assert(plain_token(rest[0]));
            assert(sr.len() >= 2) by {
                if rest.len() == 1 {
                    assert(sr == quoted(rest[0]));
                } else {
                    assert(sr == quoted(rest[0]) + seq![' '] + join_quoted(rest.drop_first()));
                }
                assert(quoted(rest[0]).len() >= 2);
            }
            assert(e + 1 < s.len());
            assert(s[e + 1] == ' ');
            assert(s.subrange(1, e) =~= t0);
            lemma_parse_shift(s, e + 2, e + 2);
            assert(s.skip(e + 2) =~= sr);
            assert(forall|k: int| 0 <= k < rest.len() ==> plain_token(#[trigger] rest[k]));
            lemma_parse_join(rest);
            assert(parse_from(s, e + 2) == Some(lower_tokens(rest)));
            assert(parse_from(s, 0) == Some(seq![lower_all(t0)] + lower_tokens(rest)));
            assert(lower_tokens(ts) =~= seq![lower_all(t0)] + lower_tokens(rest));
        }
    }
}

/// Sanitization always yields a query the index accepts: parsing the
/// sanitized form never errors, and recovers exactly the normalized tokens
/// of the raw query, however unbalanced or operator-laden the input was.
pub proof fn lemma_sanitized_parses(q: Seq<char>)
    ensures
        parse_query_spec(sanitized_query(q)) == Some(tokens_of(q)),
{
    let ts = ctokens_from(q, 0, false);
    lemma_ctokens_props(q, 0, false);
    lemma_parse_join(ts);
    lemma_ctokens_lower(q, 0);
}

} // verus!
