//! Verified text formatting: decimal rendering of counts and costs, text
//! truncation and calendar names.

use vstd::prelude::*;
use vstd::string::StrSliceExecFns;
use crate::text::chars_to_string;

verus! {

/// The digit character for one decimal digit.
pub open spec fn digit_char(d: int) -> char {
    ((48 + d) as u8) as char
}

/// The decimal digits of a nonnegative number, most significant first.
pub open spec fn dec_digits(n: int) -> Seq<char>
    decreases n,
{
    if n < 10 {
        seq![digit_char(if n >= 0 { n } else { 0 })]
    } else {
        dec_digits(n / 10).push(digit_char(n % 10))
    }
}

/// The decimal digits of a number as characters.
pub fn dec_chars(n: u64) -> (r: Vec<char>)
    ensures
        r@ == dec_digits(n as int),
    decreases n,
{
    if n < 10 {
        let mut v: Vec<char> = Vec::new();
        v.push(((48 + n as u8)) as char);
        proof {
            assert(v@ =~= seq![digit_char(n as int)]);
        }
        v
    } else {
        let mut v = dec_chars(n / 10);
        v.push((48 + (n % 10) as u8) as char);
        v
    }
}

/// Render a number in decimal.
pub fn u64_to_string(n: u64) -> (r: String)
    ensures
        r@ == dec_digits(n as int),
{
    let v = dec_chars(n);
    chars_to_string(&v)
}

/// A count with two zero-padded digits (for fractional parts).
pub open spec fn two_digits(d: int) -> Seq<char> {
    seq![digit_char(d / 10), digit_char(d % 10)]
}

/// A token count the way the reports print it: millions with two decimal
/// places, thousands with one, small counts plainly. Fractions are cut, not
/// rounded.
pub open spec fn format_tokens_spec(t: int) -> Seq<char> {
    if t >= 1_000_000 {
        dec_digits(t / 1_000_000) + seq!['.'] + two_digits((t % 1_000_000) / 10_000) + seq!['M']
    } else if t >= 1_000 {
        dec_digits(t / 1_000) + seq!['.'] + seq![digit_char((t % 1_000) / 100)] + seq!['K']
    } else {
        dec_digits(t)
    }
}

/// Render a token count compactly (`12.34M`, `1.5K`, `999`).
pub fn format_tokens(tokens: u64) -> (r: String)
    ensures
        r@ == format_tokens_spec(tokens as int),
{
    if tokens >= 1_000_000 {
        let mut v = dec_chars(tokens / 1_000_000);
        v.push('.');
        let frac = (tokens % 1_000_000) / 10_000;
        v.push((48 + (frac / 10) as u8) as char);
        v.push((48 + (frac % 10) as u8) as char);
        v.push('M');
        proof {
            assert(v@ =~= format_tokens_spec(tokens as int));
        }
        chars_to_string(&v)
    } else if tokens >= 1_000 {
        let mut v = dec_chars(tokens / 1_000);
        v.push('.');
        v.push((48 + ((tokens % 1_000) / 100) as u8) as char);
        v.push('K');
        proof {
            assert(v@ =~= format_tokens_spec(tokens as int));
        }
        chars_to_string(&v)
    } else {
        u64_to_string(tokens)
    }
}

/// A cost in millionths of a dollar, printed as dollars with four decimal
/// places.
pub open spec fn format_cost_spec(micros: int) -> Seq<char> {
    seq!['$'] + dec_digits(micros / 1_000_000)
        + seq!['.'] + two_digits((micros % 1_000_000) / 10_000)
        + two_digits(((micros % 1_000_000) / 100) % 100)
}

/// Render a cost (`$1.2345`). Costs are nonnegative micro-dollar amounts.
pub fn format_cost(micros: i64) -> (r: String)
    requires
        micros >= 0,
    ensures
        r@ == format_cost_spec(micros as int),
{
    let mut v: Vec<char> = Vec::new();
    v.push('$');
    let whole = dec_chars((micros / 1_000_000) as u64);
    let m = whole.len();
    let ghost pre = v@;
    for i in 0..m
        invariant
            m == whole@.len(),
            v@ == pre + whole@.take(i as int),
    {
        v.push(whole[i]);
        proof {
            assert(v@ =~= pre + whole@.take(i + 1));
        }
    }
    proof {
        assert(whole@.take(m as int) =~= whole@);
    }
    v.push('.');
    let frac = micros % 1_000_000;
    let hi = frac / 10_000;
    let lo = (frac / 100) % 100;
    v.push((48 + (hi / 10) as u8) as char);
    v.push((48 + (hi % 10) as u8) as char);
    v.push((48 + (lo / 10) as u8) as char);
    v.push((48 + (lo % 10) as u8) as char);
    proof {
        assert(v@ =~= format_cost_spec(micros as int));
    }
    chars_to_string(&v)
}

/// Truncated display text: the text itself when short enough, otherwise its
/// first `max_len` characters followed by an ellipsis.
pub open spec fn truncated_spec(text: Seq<char>, max_len: int) -> Seq<char> {
    if text.len() <= max_len {
        text
    } else {
        text.take(max_len) + seq!['.', '.', '.']
    }
}

/// Truncate text to at most `max_len` characters (plus an ellipsis marker).
pub fn truncate_text(text: &str, max_len: usize) -> (r: String)
    ensures
        r@ == truncated_spec(text@, max_len as int),
{
    let n = text.unicode_len();
    if n <= max_len {
        text.to_owned()
    } else {
        let head = text.substring_char(0, max_len);
        let mut s = head.to_owned();
        s.append("...");
        proof {
            reveal_strlit("...");
            assert(s@ =~= text@.take(max_len as int) + seq!['.', '.', '.']);
        }
        s
    }
}

/// The short month name for a 1-based month number.
pub open spec fn month_name_spec(month: int) -> Seq<char> {
    if month == 1 { "Jan"@ }
    else if month == 2 { "Feb"@ }
    else if month == 3 { "Mar"@ }
    else if month == 4 { "Apr"@ }
    else if month == 5 { "May"@ }
    else if month == 6 { "Jun"@ }
    else if month == 7 { "Jul"@ }
    else if month == 8 { "Aug"@ }
    else if month == 9 { "Sep"@ }
    else if month == 10 { "Oct"@ }
    else if month == 11 { "Nov"@ }
    else if month == 12 { "Dec"@ }
    else { "???"@ }
}

/// The short month name (`Jan` through `Dec`, `???` out of range).
pub fn month_name(month: u32) -> (r: &'static str)
    ensures
        r@ == month_name_spec(month as int),
{
    match month {
        1 => "Jan",
        2 => "Feb",
        3 => "Mar",
        4 => "Apr",
        5 => "May",
        6 => "Jun",
        7 => "Jul",
        8 => "Aug",
        9 => "Sep",
        10 => "Oct",
        11 => "Nov",
        12 => "Dec",
        _ => "???",
    }
}

/// The weekday name for a day number counted from Monday as zero.
pub open spec fn weekday_name_spec(wd: int) -> Seq<char> {
    if wd == 0 { "Monday"@ }
    else if wd == 1 { "Tuesday"@ }
    else if wd == 2 { "Wednesday"@ }
    else if wd == 3 { "Thursday"@ }
    else if wd == 4 { "Friday"@ }
    else if wd == 5 { "Saturday"@ }
    else if wd == 6 { "Sunday"@ }
    else { "???"@ }
}

/// The weekday name, Monday being day zero.
pub fn weekday_name(wd: u32) -> (r: &'static str)
    ensures
        r@ == weekday_name_spec(wd as int),
{
    match wd {
        0 => "Monday",
        1 => "Tuesday",
        2 => "Wednesday",
        3 => "Thursday",
        4 => "Friday",
        5 => "Saturday",
        6 => "Sunday",
        _ => "???",
    }
}

} // verus!
