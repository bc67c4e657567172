//! Character and token primitives shared by the lexical index, the query
//! sanitizer and the text formatters.
//!
//! A token is a maximal whitespace-free run of characters, normalized by
//! dropping double quotes and (for index tokens) lowercasing ASCII letters;
//! runs that normalize to nothing are dropped.

use vstd::prelude::*;
use vstd::string::StrSliceExecFns;

verus! {

/// The whitespace characters the tokenizer splits on.
pub open spec fn is_space_char(c: char) -> bool {
    c == ' ' || c == '\t' || c == '\n' || c == '\r'
}

/// Executable whitespace test.
pub fn is_space(c: char) -> (r: bool)
    ensures
        r == is_space_char(c),
{
    c == ' ' || c == '\t' || c == '\n' || c == '\r'
}

/// ASCII lowercasing of one character.
pub open spec fn lower_char(c: char) -> char {
    if 65 <= c as u32 && c as u32 <= 90 {
        (((c as u32) + 32) as u8) as char
    } else {
        c
    }
}

/// Executable ASCII lowercasing.
pub fn to_lower_char(c: char) -> (r: char)
    ensures
        r == lower_char(c),
{
    let u = c as u32;
    if 65 <= u && u <= 90 {
        ((u + 32) as u8) as char
    } else {
        c
    }
}

/// A token normalized: double quotes dropped and, when `lower` is set,
/// ASCII letters lowercased.
pub open spec fn cleaned(t: Seq<char>, lower: bool) -> Seq<char>
    decreases t.len(),
{
    if t.len() == 0 {
        Seq::empty()
    } else {
        let r = cleaned(t.drop_last(), lower);
        let c = t.last();
        if c == '"' {
            r
        } else if lower {
            r.push(lower_char(c))
        } else {
            r.push(c)
        }
    }
}

/// Length of the whitespace-free run starting at `i`.
pub open spec fn run_len_from(s: Seq<char>, i: int) -> int
    decreases s.len() - i,
{
    if i < 0 || i >= s.len() || is_space_char(s[i]) {
        0
    } else {
        1 + run_len_from(s, i + 1)
    }
}

/// The run starting at `i` stays inside the sequence and ends at a space or
/// at the end.
pub proof fn lemma_run_len_from(s: Seq<char>, i: int)
    requires
        0 <= i <= s.len(),
    ensures
        0 <= run_len_from(s, i),
        i + run_len_from(s, i) <= s.len(),
        forall|k: int| i <= k < i + run_len_from(s, i) ==> !is_space_char(#[trigger] s[k]),
        i + run_len_from(s, i) == s.len() || is_space_char(s[i + run_len_from(s, i)]),
    decreases s.len() - i,
{
    if i < s.len() && !is_space_char(s[i]) {
        lemma_run_len_from(s, i + 1);
    }
}

/// A scan that saw only non-space characters from `a` to `b`, stopping at a
/// space or the end, covered exactly the run starting at `a`.
pub proof fn lemma_run_of_scan(s: Seq<char>, a: int, b: int)
    requires
        0 <= a <= b <= s.len(),
        forall|k: int| a <= k < b ==> !is_space_char(#[trigger] s[k]),
        b == s.len() || is_space_char(s[b]),
    ensures
        run_len_from(s, a) == b - a,
    decreases b - a,
{
    if a < b {
        lemma_run_of_scan(s, a + 1, b);
    }
}

/// The normalized tokens of `s` from position `i` on.
pub open spec fn ctokens_from(s: Seq<char>, i: int, lower: bool) -> Seq<Seq<char>>
    decreases s.len() - i,
    when 0 <= i
    via ctokens_from_decreases
{
    if i >= s.len() {
        Seq::empty()
    } else if is_space_char(s[i]) {
        ctokens_from(s, i + 1, lower)
    } else {
        let run = run_len_from(s, i);
        let t = cleaned(s.subrange(i, i + run), lower);
        let rest = ctokens_from(s, i + run, lower);
        if t.len() == 0 {
            rest
        } else {
            seq![t] + rest
        }
    }
}

#[via_fn]
proof fn ctokens_from_decreases(s: Seq<char>, i: int, lower: bool) {
    if 0 <= i <= s.len() {
        lemma_run_len_from(s, i);
    }
}

/// The normalized index tokens of a text.
pub open spec fn tokens_of(s: Seq<char>) -> Seq<Seq<char>> {
    ctokens_from(s, 0, true)
}

/// There are never more tokens than characters.
pub proof fn lemma_ctokens_count(s: Seq<char>, i: int, lower: bool)
    requires
        0 <= i <= s.len(),
    ensures
        ctokens_from(s, i, lower).len() <= s.len() - i,
    decreases s.len() - i,
{
    if i >= s.len() {
    } else if is_space_char(s[i]) {
        lemma_ctokens_count(s, i + 1, lower);
    } else {
        lemma_run_len_from(s, i);
        lemma_ctokens_count(s, i + run_len_from(s, i), lower);
    }
}

/// Collect a string's characters. The result views to exactly the string's
/// character sequence.
pub fn str_to_chars(s: &str) -> (r: Vec<char>)
    ensures
        r@ == s@,
{
    let n = s.unicode_len();
    let mut r: Vec<char> = Vec::new();
    for i in 0..n
        invariant
            n == s@.len(),
            r@ == s@.take(i as int),
    {
        r.push(s.get_char(i));
        proof {
            assert(r@ =~= s@.take(i + 1));
        }
    }
    proof {
        assert(s@.take(n as int) =~= s@);
    }
    r
}

/// Relies on `String: FromIterator<char>`: collecting characters yields the
/// string of exactly those characters in order.
#[verifier::external_body]
pub fn chars_to_string(v: &Vec<char>) -> (r: String)
    ensures
        r@ == v@,
{
    v.iter().collect()
}

/// Split into normalized tokens: whitespace-delimited runs, quotes dropped,
/// lowercased when `lower` is set, empty results skipped.
pub fn clean_tokens(chars: &Vec<char>, lower: bool) -> (r: Vec<Vec<char>>)
    ensures
        r.deep_view() == ctokens_from(chars@, 0, lower),
{
    let ghost s = chars@;
    let n = chars.len();
    let mut out: Vec<Vec<char>> = Vec::new();
    let mut i: usize = 0;
    proof {
        assert(out.deep_view() =~= Seq::<Seq<char>>::empty());
        assert(Seq::<Seq<char>>::empty() + ctokens_from(s, 0, lower) =~= ctokens_from(s, 0, lower));
    }
    while i < n
        invariant
            n == s.len(),
            s == chars@,
            i <= n,
            ctokens_from(s, 0, lower) == out.deep_view() + ctokens_from(s, i as int, lower),
        decreases n - i,
    {
        if is_space(chars[i]) {
            i += 1;
        } else {
            let ghost start = i as int;
            let mut tok: Vec<char> = Vec::new();
            proof {
                assert(s.subrange(start, start) =~= Seq::<char>::empty());
            }
            while i < n && !is_space(chars[i])
                invariant
                    n == s.len(),
                    s == chars@,
                    0 <= start <= i <= n,
                    forall|k: int| start <= k < i ==> !is_space_char(#[trigger] s[k]),
                    tok@ == cleaned(s.subrange(start, i as int), lower),
                decreases n - i,
            {
                let c = chars[i];
                proof {
                    assert(s.subrange(start, i + 1).drop_last() =~= s.subrange(start, i as int));
                    assert(s.subrange(start, i + 1).last() == s[i as int]);
                }
                if c != '"' {
                    if lower {
                        tok.push(to_lower_char(c));
                    } else {
                        tok.push(c);
                    }
                }
                i += 1;
            }
            proof {
                lemma_run_of_scan(s, start, i as int);
                assert(run_len_from(s, start) == i - start);
            }
            let ghost before = out.deep_view();
            let ghost tokv = tok@;
            if tok.len() > 0 {
                out.push(tok);
                proof {
                    assert(out.deep_view() =~~= before.push(tokv));
                    assert(before.push(tokv) =~~= before + seq![tokv]);
                    assert(before + (seq![tokv] + ctokens_from(s, i as int, lower)) =~~=
                        (before + seq![tokv]) + ctokens_from(s, i as int, lower));
                }
            }
        }
    }
    proof {
        assert(out.deep_view() + ctokens_from(s, n as int, lower) =~= out.deep_view());
    }
    out
}

/// Length of the whitespace run at the front.
pub open spec fn lead_ws(s: Seq<char>) -> int
    decreases s.len(),
{
    if s.len() == 0 || !is_space_char(s[0]) {
        0
    } else {
        1 + lead_ws(s.drop_first())
    }
}

/// Length of the whitespace run at the back.
pub open spec fn trail_ws(s: Seq<char>) -> int
    decreases s.len(),
{
    if s.len() == 0 || !is_space_char(s.last()) {
        0
    } else {
        1 + trail_ws(s.drop_last())
    }
}

/// The sequence with surrounding whitespace removed.
pub open spec fn trimmed(s: Seq<char>) -> Seq<char> {
    if lead_ws(s) == s.len() {
        Seq::empty()
    } else {
        s.subrange(lead_ws(s), s.len() - trail_ws(s))
    }
}

/// The sequence with trailing whitespace removed.
pub open spec fn trimmed_end(s: Seq<char>) -> Seq<char> {
    s.take(s.len() - trail_ws(s))
}

/// Whether `s` begins with `p`.
pub open spec fn starts_with(s: Seq<char>, p: Seq<char>) -> bool {
    p.len() <= s.len() && s.take(p.len() as int) == p
}

/// Whether `s` ends with `p`.
pub open spec fn ends_with(s: Seq<char>, p: Seq<char>) -> bool {
    p.len() <= s.len() && s.skip(s.len() - p.len()) == p
}

/// Test whether the window `[lo, hi)` of a character vector begins with a
/// pattern.
pub fn window_starts_with(chars: &Vec<char>, lo: usize, hi: usize, pat: &str) -> (r: bool)
    requires
        lo <= hi <= chars@.len(),
    ensures
        r == starts_with(chars@.subrange(lo as int, hi as int), pat@),
{
    let m = pat.unicode_len();
    if m > hi - lo {
        return false;
    }
    for j in 0..m
        invariant
            m == pat@.len(),
            lo <= hi <= chars@.len(),
            m <= hi - lo,
            forall|k: int| 0 <= k < j ==> chars@[lo + k] == pat@[k],
    {
        if chars[lo + j] != pat.get_char(j) {
            proof {
                assert(chars@.subrange(lo as int, hi as int)[j as int] != pat@[j as int]);
            }
            return false;
        }
    }
    proof {
        assert(chars@.subrange(lo as int, hi as int).take(m as int) =~= pat@);
    }
    true
}

/// Character-wise string equality.
pub fn str_eq(a: &str, b: &str) -> (r: bool)
    ensures
        r == (a@ == b@),
{
    let na = a.unicode_len();
    let nb = b.unicode_len();
    if na != nb {
        return false;
    }
    for i in 0..na
        invariant
            na == a@.len(),
            na == b@.len(),
            forall|k: int| 0 <= k < i ==> a@[k] == b@[k],
    {
        if a.get_char(i) != b.get_char(i) {
            return false;
        }
    }
    proof {
        assert(a@ =~= b@);
    }
    true
}

/// Whether `needle` occurs as a contiguous subsequence of `hay`.
pub open spec fn contains_seq(hay: Seq<char>, needle: Seq<char>) -> bool {
    exists|k: int| 0 <= k <= hay.len() - needle.len()
        && #[trigger] hay.subrange(k, k + needle.len()) == needle
}

/// Naive substring search.
pub fn find_sub(hay: &Vec<char>, needle: &Vec<char>) -> (r: bool)
    ensures
        r == contains_seq(hay@, needle@),
{
    let m = needle.len();
    let n = hay.len();
    if m > n {
        proof {
            assert(!contains_seq(hay@, needle@));
        }
        return false;
    }
    let mut k: usize = 0;
    while k <= n - m
        invariant
            m <= n,
            n == hay@.len(),
            m == needle@.len(),
            k <= n - m + 1,
            forall|p: int| 0 <= p < k ==> #[trigger] hay@.subrange(p, p + needle@.len()) != needle@,
        decreases n - m - k + 1,
    {
        let mut j: usize = 0;
        let mut ok = true;
        while j < m
            invariant
                k + m <= n,
                n == hay@.len(),
                m == needle@.len(),
                j <= m,
                ok <==> hay@.subrange(k as int, k as int + j as int) =~= needle@.subrange(0, j as int),
            decreases m - j,
        {
            proof {
                assert(hay@.subrange(k as int, k as int + j + 1).drop_last()
                    =~= hay@.subrange(k as int, k as int + j));
                assert(needle@.subrange(0, j + 1).drop_last() =~= needle@.subrange(0, j as int));
            }
            if hay[k + j] != needle[j] {
                ok = false;
                proof {
                    assert(hay@.subrange(k as int, k as int + j + 1)[j as int] == hay@[k as int + j]);
                    assert(needle@.subrange(0, j + 1)[j as int] == needle@[j as int]);
                }
            } else {
                proof {
                    if ok {
                        assert(hay@.subrange(k as int, k as int + j + 1) =~=
                            hay@.subrange(k as int, k as int + j).push(hay@[k as int + j]));
                        assert(needle@.subrange(0, j + 1) =~=
                            needle@.subrange(0, j as int).push(needle@[j as int]));
                    } else {
                        assert(hay@.subrange(k as int, k as int + j + 1).drop_last()
                            =~= hay@.subrange(k as int, k as int + j));
                    }
                }
            }
            j += 1;
        }
        if ok {
            proof {
                assert(needle@.subrange(0, m as int) =~= needle@);
                assert(hay@.subrange(k as int, k as int + m as int) == needle@);
            }
            return true;
        }
        proof {
            assert(needle@.subrange(0, m as int) =~= needle@);
        }
        k += 1;
    }
    proof {
        assert forall|p: int| 0 <= p <= hay@.len() - needle@.len()
            implies #[trigger] hay@.subrange(p, p + needle@.len()) != needle@ by {
            assert(p < k);
        }
    }
    false
}

} // verus!
