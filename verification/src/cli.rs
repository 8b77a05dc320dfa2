//! Reading the command line and showing results.

use crate::shared::log::{LogLine, LogView};
use crate::shared::numeral;
use crate::shared::text;
use vstd::prelude::*;
use vstd::string::*;

verus! {

/// What a query on the command line asks for.
pub struct QueryArgs {
    pub start: u64,
    pub end: u64,
    pub keyword: String,
    pub limit: usize,
}

/// What is wrong with a command line.
#[derive(Debug, Clone, Copy, PartialEq, Eq, Structural)]
pub enum ArgError {
    /// The start time is no number.
    Start,
    /// The end time is no number.
    End,
    /// The limit is no number.
    Limit,
    /// The number of lines is no number.
    Count,
}

/// The number that a word stands for, if it is one up to `max`.
pub open spec fn number_in(s: Seq<char>, max: nat) -> Option<nat> {
    match numeral::unsigned_value(s) {
        Some(v) => if v <= max {
            Some(v)
        } else {
            None
        },
        None => None,
    }
}

fn read_u64(s: &str) -> (r: Option<u64>)
    ensures
        match r {
            Some(v) => number_in(s@, u64::MAX as nat) == Some(v as nat),
            None => number_in(s@, u64::MAX as nat) is None,
        },
{
    numeral::parse_unsigned(text::chars_of(s).as_slice())
}

fn read_usize(s: &str) -> (r: Option<usize>)
    ensures
        match r {
            Some(v) => number_in(s@, usize::MAX as nat) == Some(v as nat),
            None => number_in(s@, usize::MAX as nat) is None,
        },
{
    match read_u64(s) {
        Some(v) => if v <= usize::MAX as u64 {
            Some(v as usize)
        } else {
            None
        },
        None => None,
    }
}

/// The word of an optional argument, or another one.
pub open spec fn word_or(s: Option<&str>, other: Seq<char>) -> Seq<char> {
    match s {
        Some(w) => w@,
        None => other,
    }
}

/// Reads the arguments of a query: start and end time, a keyword, and a limit.
/// Without a keyword every line is meant, and without a limit a hundred lines.
pub fn query_args(start: &str, end: &str, keyword: Option<&str>, limit: Option<&str>) -> (r: Result<
    QueryArgs,
    ArgError,
>)
    ensures
        match r {
            Ok(a) => {
                &&& number_in(start@, u64::MAX as nat) == Some(a.start as nat)
                &&& number_in(end@, u64::MAX as nat) == Some(a.end as nat)
                &&& a.keyword@ == word_or(keyword, Seq::empty())
                &&& limit is None ==> a.limit == 100
                &&& limit is Some ==> number_in(limit->0@, usize::MAX as nat) == Some(
                    a.limit as nat,
                )
            },
            Err(e) => if number_in(start@, u64::MAX as nat) is None {
                e == ArgError::Start
            } else if number_in(end@, u64::MAX as nat) is None {
                e == ArgError::End
            } else {
                e == ArgError::Limit && limit is Some && number_in(
                    limit->0@,
                    usize::MAX as nat,
                ) is None
            },
        },
{
    let a: u64 = match read_u64(start) {
        Some(v) => v,
        None => {
            return Err(ArgError::Start);
        },
    };
    let b: u64 = match read_u64(end) {
        Some(v) => v,
        None => {
            return Err(ArgError::End);
        },
    };
    let n: usize = match limit {
        None => 100,
        Some(s) => match read_usize(s) {
            Some(v) => v,
            None => {
                return Err(ArgError::Limit);
            },
        },
    };
    let word: String = match keyword {
        Some(w) => w.to_string(),
        None => {
            let s: String = String::new();
            assert(s@ =~= Seq::<char>::empty());
            s
        },
    };
    Ok(QueryArgs { start: a, end: b, keyword: word, limit: n })
}

/// Reads the number of lines of a test file.
pub fn count_arg(count: &str) -> (r: Result<usize, ArgError>)
    ensures
        match r {
            Ok(n) => number_in(count@, usize::MAX as nat) == Some(n as nat),
            Err(e) => e == ArgError::Count && number_in(count@, usize::MAX as nat) is None,
        },
{
    match read_usize(count) {
        Some(n) => Ok(n),
        None => Err(ArgError::Count),
    }
}

/// A time in milliseconds as seconds and milliseconds, with a dot between them.
pub open spec fn time_text(ts: u64) -> Seq<char> {
    numeral::numeral((ts / 1000) as nat, 10) + "."@ + numeral::numeral((ts % 1000) as nat, 10)
}

fn append_number(s: &mut String, v: u64)
    ensures
        final(s)@ == old(s)@ + numeral::numeral(v as nat, 10),
{
    let digits: String = text::string_of(&numeral::numeral_chars(v, 10));
    s.append(digits.as_str());
}

/// A time in milliseconds as seconds and milliseconds, with a dot between them.
pub fn format_ts(ts: u64) -> (r: String)
    ensures
        r@ == time_text(ts),
{
    let mut s: String = String::new();
    append_number(&mut s, ts / 1000);
    s.append(".");
    append_number(&mut s, ts % 1000);
    assert(s@ =~= time_text(ts));
    s
}

/// How a line is shown.
pub open spec fn shown(l: LogView) -> Seq<char> {
    "["@ + time_text(l.ts) + "] ["@ + l.service + "] "@ + l.level + ": "@ + l.message
}

/// A line as it is shown.
pub fn format_line(l: &LogLine) -> (r: String)
    ensures
        r@ == shown(l@),
{
    let mut s: String = String::new();
    s.append("[");
    s.append(format_ts(l.ts).as_str());
    s.append("] [");
    s.append(l.service.as_str());
    s.append("] ");
    s.append(l.level.as_str());
    s.append(": ");
    s.append(l.message.as_str());
    assert(s@ =~= shown(l@));
    s
}

// ---------- laws ----------

/// The decimal numeral of a number is read as that number, with or without a
/// plus sign in front, unless it is too large; a word with anything else in it
/// is no number.
pub proof fn law_numbers_read(n: nat, max: nat, s: Seq<char>)
    ensures
        n <= max ==> number_in(numeral::numeral(n, 10), max) == Some(n),
        n <= max ==> number_in(seq!['+'] + numeral::numeral(n, 10), max) == Some(n),
        n > max ==> number_in(numeral::numeral(n, 10), max) is None,
        s.len() == 0 ==> number_in(s, max) is None,
        (exists|i: int| 0 <= i < s.len() && !('0' <= #[trigger] s[i] <= '9') && !(i == 0 && s[i]
            == '+')) ==> number_in(s, max) is None,
{
    let t: Seq<char> = numeral::numeral(n, 10);
    numeral::lemma_numeral(n, 10);
    assert(numeral::digit_value(t[0]) < 10);
    assert((seq!['+'] + t).drop_first() =~= t);
    if exists|i: int| 0 <= i < s.len() && !('0' <= #[trigger] s[i] <= '9') && !(i == 0 && s[i]
        == '+') {
        let i: int = choose|i: int|
            0 <= i < s.len() && !('0' <= #[trigger] s[i] <= '9') && !(i == 0 && s[i] == '+');
        lemma_no_digit(s[i]);
        if s[0] == '+' {
            assert(s.drop_first()[i - 1] == s[i]);
        }
    }
}

proof fn lemma_no_digit(c: char)
    requires
        !('0' <= c <= '9'),
    ensures
        numeral::digit_value(c) >= 10,
{
}

/// A time is shown by its whole seconds, a dot, and the milliseconds that are
/// left.
pub proof fn law_time_shown(seconds: u64, millis: u64)
    requires
        millis < 1000,
        seconds * 1000 + millis <= u64::MAX,
    ensures
        time_text((seconds * 1000 + millis) as u64) == numeral::numeral(seconds as nat, 10)
            + seq!['.'] + numeral::numeral(millis as nat, 10),
{
    reveal_strlit(".");
    assert("."@ =~= seq!['.']);
}

/// A line is shown in one piece: its time and its service in square brackets, its
/// level, a colon, and its message.
pub proof fn law_line_shown(l: LogView)
    ensures
        shown(l) == seq!['['] + time_text(l.ts) + seq![']', ' ', '['] + l.service + seq![']', ' ']
            + l.level + seq![':', ' '] + l.message,
{
    reveal_strlit("[");
    reveal_strlit("] [");
    reveal_strlit("] ");
    reveal_strlit(": ");
    assert("["@ =~= seq!['[']);
    assert("] ["@ =~= seq![']', ' ', '[']);
    assert("] "@ =~= seq![']', ' ']);
    assert(": "@ =~= seq![':', ' ']);
}

} // verus!
