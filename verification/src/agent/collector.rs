//! Making log lines of text lines.

use crate::agent::json;
use crate::agent::json::{JsonScalar, JsonView};
use crate::agent::level_law;
use crate::shared::letters;
use crate::shared::log;
use crate::shared::log::{LogLine, LogView};
use crate::shared::names;
use crate::shared::numeral;
use crate::shared::text;
use vstd::prelude::*;
use vstd::string::*;
use vstd::utf8::*;

verus! {

// ---------- levels ----------

/// The level that a level name in capitals stands for.
pub open spec fn normal_level(upper: Seq<char>) -> Seq<char> {
    if upper == "DEBUG"@ || upper == "D"@ {
        "D"@
    } else if upper == "WARN"@ || upper == "WARNING"@ || upper == "W"@ {
        "W"@
    } else if upper == "ERROR"@ || upper == "ERR"@ || upper == "E"@ || upper == "FATAL"@ || upper
        == "CRITICAL"@ {
        "E"@
    } else {
        "I"@
    }
}

/// The level that a level name in capitals stands for; `I` for unknown names.
pub fn normalize_level_as(upper: &str) -> (r: String)
    ensures
        r@ == normal_level(upper@),
{
    if text::same_text(upper, "DEBUG") || text::same_text(upper, "D") {
        "D".to_string()
    } else if text::same_text(upper, "WARN") || text::same_text(upper, "WARNING")
        || text::same_text(upper, "W") {
        "W".to_string()
    } else if text::same_text(upper, "ERROR") || text::same_text(upper, "ERR") || text::same_text(
        upper,
        "E",
    ) || text::same_text(upper, "FATAL") || text::same_text(upper, "CRITICAL") {
        "E".to_string()
    } else {
        "I".to_string()
    }
}

/// The level that a level name stands for, in small or capital letters; `I` for
/// unknown names.
pub fn normalize_level(s: &str) -> (r: String)
    ensures
        r@ == normal_level(letters::capitals(s@)),
{
    let upper: String = letters::upper_string(s);
    normalize_level_as(upper.as_str())
}

/// The level of a text line, by the words in it.
pub open spec fn inferred_level(upper: Seq<char>) -> Seq<char> {
    if text::contains_text(upper, "ERROR"@) || text::contains_text(upper, "FATAL"@)
        || text::contains_text(upper, "PANIC"@) || text::contains_text(upper, "CRITICAL"@) {
        "E"@
    } else if text::contains_text(upper, "WARN"@) {
        "W"@
    } else {
        "I"@
    }
}

fn has(hay: &str, needle: &str) -> (r: bool)
    ensures
        r == text::contains_text(hay@, needle@),
{
    text::str_contains(hay, text::chars_of(needle).as_slice())
}

/// The level of a text line in capitals, by the words in it.
pub fn infer_level_as(upper: &str) -> (r: String)
    ensures
        r@ == inferred_level(upper@),
{
    if has(upper, "ERROR") || has(upper, "FATAL") || has(upper, "PANIC") || has(upper, "CRITICAL") {
        "E".to_string()
    } else if has(upper, "WARN") {
        "W".to_string()
    } else {
        "I".to_string()
    }
}

/// The level of a text line, by the words in it, in small or capital letters.
pub fn infer_level(line: &str) -> (r: String)
    ensures
        r@ == inferred_level(letters::capitals(line@)),
{
    let upper: String = letters::upper_string(line);
    infer_level_as(upper.as_str())
}

// ---------- level names in a line ----------

/// Where `needle` first stands in `hay`, from `from` on.
pub open spec fn first_at(hay: Seq<u8>, needle: Seq<u8>, from: nat) -> Option<nat>
    decreases hay.len() - from,
{
    if from + needle.len() > hay.len() || from >= hay.len() {
        None
    } else if hay.subrange(from as int, (from + needle.len()) as int) == needle {
        Some(from)
    } else {
        first_at(hay, needle, from + 1)
    }
}

fn starts_at(hay: &[u8], needle: &[u8], from: usize) -> (r: bool)
    requires
        from + needle@.len() <= hay@.len(),
    ensures
        r == (hay@.subrange(from as int, from + needle@.len()) == needle@),
{
    let mut i: usize = 0;
    let total: usize = hay.len();
    while i < needle.len()
        invariant
            i <= needle@.len(),
            total == hay@.len(),
            from + needle@.len() <= total,
            forall|k: int| 0 <= k < i ==> hay@[from + k] == #[trigger] needle@[k],
        decreases needle@.len() - i,
    {
        if hay[from + i] != needle[i] {
            assert(hay@.subrange(from as int, from + needle@.len())[i as int] != needle@[i as int]);
            return false;
        }
        i += 1;
    }
    assert(hay@.subrange(from as int, from + needle@.len()) =~= needle@);
    true
}

fn find_bytes(hay: &[u8], needle: &[u8]) -> (r: Option<usize>)
    ensures
        match r {
            Some(i) => first_at(hay@, needle@, 0) == Some(i as nat),
            None => first_at(hay@, needle@, 0) is None,
        },
{
    let n: usize = hay.len();
    let m: usize = needle.len();
    let mut i: usize = 0;
    while i < n && m <= n - i
        invariant
            n == hay@.len(),
            m == needle@.len(),
            i <= n,
            first_at(hay@, needle@, 0) == first_at(hay@, needle@, i as nat),
        decreases n - i,
    {
        if starts_at(hay, needle, i) {
            return Some(i);
        }
        i += 1;
    }
    None
}

/// Where the message starts in a text line in capitals: behind the first `ERROR`,
/// else `FATAL`, else `WARN`, else `INFO` with a blank after it, in bytes.
pub open spec fn level_cut(upper: Seq<char>) -> Option<nat> {
    let b: Seq<u8> = encode_utf8(upper);
    match (
        first_at(b, encode_utf8("ERROR "@), 0),
        first_at(b, encode_utf8("FATAL "@), 0),
        first_at(b, encode_utf8("WARN "@), 0),
        first_at(b, encode_utf8("INFO "@), 0),
    ) {
        (Some(i), _, _, _) => Some(i + 6),
        (None, Some(i), _, _) => Some(i + 6),
        (None, None, Some(i), _) => Some(i + 5),
        (None, None, None, Some(i)) => Some(i + 5),
        (None, None, None, None) => None,
    }
}

fn find_cut(upper: &str) -> (r: Option<u128>)
    ensures
        match r {
            Some(n) => level_cut(upper@) == Some(n as nat),
            None => level_cut(upper@) is None,
        },
{
    let b: &[u8] = upper.as_bytes();
    if let Some(i) = find_bytes(b, "ERROR ".as_bytes()) {
        return Some(i as u128 + 6);
    }
    if let Some(i) = find_bytes(b, "FATAL ".as_bytes()) {
        return Some(i as u128 + 6);
    }
    if let Some(i) = find_bytes(b, "WARN ".as_bytes()) {
        return Some(i as u128 + 5);
    }
    if let Some(i) = find_bytes(b, "INFO ".as_bytes()) {
        return Some(i as u128 + 5);
    }
    None
}

/// The line can be cut where its capital form is cut: inside the line, and
/// between two characters.
pub open spec fn cut_stands(line: Seq<char>, upper: Seq<char>) -> bool {
    let b: Seq<u8> = encode_utf8(line);
    match level_cut(upper) {
        None => true,
        Some(n) => n <= b.len() && valid_utf8(b.skip(n as int)),
    }
}

/// The line from behind its level name on.
pub open spec fn stripped(line: Seq<char>, upper: Seq<char>) -> Seq<char> {
    match level_cut(upper) {
        None => line,
        Some(n) => decode_utf8(encode_utf8(line).skip(n as int)),
    }
}

/// Whether the line can be cut where its capital form is cut.
fn can_cut(line: &str, upper: &str) -> (r: bool)
    ensures
        r == cut_stands(line@, upper@),
{
    match find_cut(upper) {
        None => true,
        Some(n) => {
            let b: &[u8] = line.as_bytes();
            if n > b.len() as u128 {
                return false;
            }
            let rest: &[u8] = vstd::slice::slice_subrange(b, n as usize, b.len());
            assert(rest@ =~= encode_utf8(line@).skip(n as int));
            text::utf8_str(rest).is_some()
        },
    }
}

/// The line from behind its level name on. `upper` is the line in capitals.
pub fn strip_level_prefix_as(line: &str, upper: &str) -> (r: String)
    requires
        cut_stands(line@, upper@),
    ensures
        r@ == stripped(line@, upper@),
{
    match find_cut(upper) {
        None => line.to_string(),
        Some(n) => {
            let b: &[u8] = line.as_bytes();
            let rest: &[u8] = vstd::slice::slice_subrange(b, n as usize, b.len());
            assert(rest@ =~= encode_utf8(line@).skip(n as int));
            text::lossy_string(rest)
        },
    }
}

/// The line from behind its level name on. A line that cannot be cut where its
/// capital form is cut stays as it is; capital forms of other lengths are rare.
pub fn strip_level_prefix(line: &str) -> (r: String)
    ensures
        r@ == bare_message(line@, letters::capitals(line@)),
{
    let upper: String = letters::upper_string(line);
    if can_cut(line, upper.as_str()) {
        strip_level_prefix_as(line, upper.as_str())
    } else {
        line.to_string()
    }
}

/// The line from behind its level name on, or the line where it cannot be cut.
pub open spec fn bare_message(line: Seq<char>, upper: Seq<char>) -> Seq<char> {
    if cut_stands(line, upper) {
        stripped(line, upper)
    } else {
        line
    }
}

// ---------- JSON ----------

/// The first of four fields that is there.
pub open spec fn first_field(
    fields: Seq<(Seq<char>, JsonView)>,
    a: Seq<char>,
    b: Seq<char>,
    c: Seq<char>,
    d: Seq<char>,
) -> Option<JsonView> {
    match (
        json::json_get(fields, a),
        json::json_get(fields, b),
        json::json_get(fields, c),
        json::json_get(fields, d),
    ) {
        (Some(v), _, _, _) => Some(v),
        (None, Some(v), _, _) => Some(v),
        (None, None, Some(v), _) => Some(v),
        (None, None, None, v) => v,
    }
}

fn find_first<'a>(
    fields: &'a Vec<(String, JsonScalar)>,
    a: &str,
    b: &str,
    c: &str,
    d: &str,
) -> (r: Option<&'a JsonScalar>)
    ensures
        match r {
            Some(v) => first_field(json::field_views(fields@), a@, b@, c@, d@) == Some(v@),
            None => first_field(json::field_views(fields@), a@, b@, c@, d@) is None,
        },
{
    if let Some(v) = json::find_field(fields, a) {
        return Some(v);
    }
    if let Some(v) = json::find_field(fields, b) {
        return Some(v);
    }
    if let Some(v) = json::find_field(fields, c) {
        return Some(v);
    }
    json::find_field(fields, d)
}

/// The time in milliseconds that a text of digits stands for: milliseconds where
/// it is above 10^12, seconds where it is above 10^9, else none.
pub open spec fn text_time(s: Seq<char>) -> Option<u64> {
    match numeral::unsigned_value(s) {
        Some(v) => if v > u64::MAX {
            None
        } else if v > 1_000_000_000_000 {
            Some(v as u64)
        } else if v > 1_000_000_000 {
            Some((v * 1000) as u64)
        } else {
            None
        },
        None => None,
    }
}

/// The time in milliseconds that a text of digits stands for.
pub fn parse_iso_timestamp(s: &str) -> (r: Option<u64>)
    ensures
        r == text_time(s@),
{
    match numeral::parse_unsigned(text::chars_of(s).as_slice()) {
        Some(ms) => if ms > 1_000_000_000_000 {
            Some(ms)
        } else if ms > 1_000_000_000 {
            Some(ms * 1000)
        } else {
            None
        },
        None => None,
    }
}

/// The time of a JSON object: a number, or a text of digits, or `now`.
pub open spec fn fields_time(fields: Seq<(Seq<char>, JsonView)>, now: u64) -> u64 {
    match first_field(fields, "timestamp"@, "ts"@, "time"@, "t"@) {
        Some(JsonView::Uint(n)) => n,
        _ => match first_field(fields, "timestamp"@, "ts"@, "t"@, "t"@) {
            Some(JsonView::Text(s)) => match text_time(s) {
                Some(n) => n,
                None => now,
            },
            _ => now,
        },
    }
}

/// The text of a field, or another text.
pub open spec fn text_or(v: Option<JsonView>, other: Seq<char>) -> Seq<char> {
    match v {
        Some(JsonView::Text(s)) => s,
        _ => other,
    }
}

/// The level of a JSON object; `I` without one.
pub open spec fn fields_level(fields: Seq<(Seq<char>, JsonView)>) -> Seq<char> {
    match first_field(fields, "level"@, "severity"@, "loglevel"@, "l"@) {
        Some(JsonView::Text(s)) => normal_level(letters::capitals(s)),
        _ => "I"@,
    }
}

/// The log line that a JSON object stands for.
pub open spec fn fields_line(
    fields: Seq<(Seq<char>, JsonView)>,
    service: Seq<char>,
    line: Seq<char>,
    now: u64,
) -> LogView {
    LogView {
        ts: fields_time(fields, now),
        service: text_or(first_field(fields, "service"@, "app"@, "source"@, "s"@), service),
        level: fields_level(fields),
        message: text_or(first_field(fields, "message"@, "msg"@, "log"@, "m"@), line),
    }
}

fn text_of(v: Option<&JsonScalar>, other: &str) -> (r: String)
    ensures
        r@ == text_or(
            match v {
                Some(x) => Some(x@),
                None => None,
            },
            other@,
        ),
{
    match v {
        Some(JsonScalar::Text(s)) => s.clone(),
        _ => other.to_string(),
    }
}

/// The log line that the fields of a JSON object stand for. What is missing is
/// taken from `service`, `line` and `now`.
pub fn parse_json_fields(
    fields: &Vec<(String, JsonScalar)>,
    service: &str,
    line: &str,
    now: u64,
) -> (r: LogLine)
    ensures
        r@ == fields_line(json::field_views(fields@), service@, line@, now),
{
    let ts: u64 = match find_first(fields, "timestamp", "ts", "time", "t") {
        Some(JsonScalar::Uint(n)) => *n,
        _ => match find_first(fields, "timestamp", "ts", "t", "t") {
            Some(JsonScalar::Text(s)) => match parse_iso_timestamp(s.as_str()) {
                Some(n) => n,
                None => now,
            },
            _ => now,
        },
    };
    let service: String = text_of(find_first(fields, "service", "app", "source", "s"), service);
    let level: String = match find_first(fields, "level", "severity", "loglevel", "l") {
        Some(JsonScalar::Text(s)) => normalize_level(s.as_str()),
        _ => "I".to_string(),
    };
    let message: String = text_of(find_first(fields, "message", "msg", "log", "m"), line);
    LogLine { ts, service, level, message }
}

// ---------- lines ----------

/// The log line that a line of a web server's access log stands for: an error
/// where the status behind the request is 4xx or 5xx.
pub open spec fn access_line(line: Seq<char>, now: u64) -> LogView {
    LogView {
        ts: now,
        service: "ngx"@,
        level: if text::contains_text(line, "\" 5"@) || text::contains_text(line, "\" 4"@) {
            "E"@
        } else {
            "I"@
        },
        message: line,
    }
}

/// The log line that a line of a web server's access log stands for.
pub fn parse_nginx_line(line: &str, now: u64) -> (r: LogLine)
    ensures
        r@ == access_line(line@, now),
{
    let level: String = if has(line, "\" 5") || has(line, "\" 4") {
        "E".to_string()
    } else {
        "I".to_string()
    };
    LogLine { ts: now, service: "ngx".to_string(), level, message: line.to_string() }
}

/// The log line that any other line stands for. `upper` is the line in capitals.
pub open spec fn plain_line(
    line: Seq<char>,
    upper: Seq<char>,
    service: Seq<char>,
    now: u64,
) -> LogView {
    LogView {
        ts: now,
        service,
        level: inferred_level(upper),
        message: bare_message(line, upper),
    }
}

/// The log line that a text line stands for: a JSON object, a line of a web
/// server's access log, or any other line; nothing for an empty line.
pub open spec fn parsed_line(line: Seq<char>, service: Seq<char>, now: u64) -> Option<LogView> {
    let t: Seq<char> = text::trimmed(line);
    if t.len() == 0 {
        None
    } else if t[0] == '{' && json::json_object(t) is Some {
        Some(fields_line(json::json_object(t)->0, service, t, now))
    } else if text::contains_text(t, "HTTP/"@) && text::contains_text(t, "\""@) {
        Some(access_line(t, now))
    } else {
        Some(plain_line(t, letters::capitals(t), service, now))
    }
}

/// The log line with its level normalized.
pub open spec fn normalized(l: LogView) -> LogView {
    LogView {
        ts: l.ts,
        service: l.service,
        level: normal_level(letters::capitals(l.level)),
        message: l.message,
    }
}

proof fn lemma_get(fields: Seq<(Seq<char>, JsonView)>, key: Seq<char>)
    requires
        fields.len() == 4,
    ensures
        json::json_get(fields, key) == if fields[0].0 == key {
            Some(fields[0].1)
        } else if fields[1].0 == key {
            Some(fields[1].1)
        } else if fields[2].0 == key {
            Some(fields[2].1)
        } else if fields[3].0 == key {
            Some(fields[3].1)
        } else {
            None
        },
{
    let f1: Seq<(Seq<char>, JsonView)> = fields.drop_first();
    let f2: Seq<(Seq<char>, JsonView)> = f1.drop_first();
    let f3: Seq<(Seq<char>, JsonView)> = f2.drop_first();
    reveal_with_fuel(json::json_get, 5);
    assert(f1[0] == fields[1] && f2[0] == fields[2] && f3[0] == fields[3]);
    assert(f3.drop_first().len() == 0);
}

/// The fields of a log line's own JSON object give the log line back, with its
/// level normalized.
pub proof fn law_own_fields(l: LogView, service: Seq<char>, line: Seq<char>, now: u64)
    ensures
        fields_line(json::line_fields(l), service, line, now) == normalized(l),
{
    let f: Seq<(Seq<char>, JsonView)> = json::line_fields(l);
    reveal_strlit("timestamp");
    reveal_strlit("ts");
    reveal_strlit("time");
    reveal_strlit("t");
    reveal_strlit("service");
    reveal_strlit("app");
    reveal_strlit("source");
    reveal_strlit("s");
    reveal_strlit("level");
    reveal_strlit("severity");
    reveal_strlit("loglevel");
    reveal_strlit("l");
    reveal_strlit("message");
    reveal_strlit("msg");
    reveal_strlit("log");
    reveal_strlit("m");
    assert("t"@ =~= seq!['t']);
    assert("s"@ =~= seq!['s']);
    assert("l"@ =~= seq!['l']);
    assert("m"@ =~= seq!['m']);
    lemma_get(f, "timestamp"@);
    lemma_get(f, "ts"@);
    lemma_get(f, "time"@);
    lemma_get(f, "t"@);
    lemma_get(f, "service"@);
    lemma_get(f, "app"@);
    lemma_get(f, "source"@);
    lemma_get(f, "s"@);
    lemma_get(f, "level"@);
    lemma_get(f, "severity"@);
    lemma_get(f, "loglevel"@);
    lemma_get(f, "l"@);
    lemma_get(f, "message"@);
    lemma_get(f, "msg"@);
    lemma_get(f, "log"@);
    lemma_get(f, "m"@);
    assert(seq!['t'][0] == 't' && seq!['s'][0] == 's' && seq!['l'][0] == 'l' && seq!['m'][0]
        == 'm');
}

/// What an optional log line says.
pub open spec fn line_view(r: Option<LogLine>) -> Option<LogView> {
    match r {
        Some(l) => Some(l@),
        None => None,
    }
}

/// Makes a log line of a text line at the time `now`. The JSON object of a log
/// line gives that log line, with its level normalized; a level that is one of
/// the four letters stays as it is.
pub fn parse_line_at(line: &str, default_service: &str, now: u64) -> (r: Option<LogLine>)
    ensures
        line_view(r) == parsed_line(line@, default_service@, now),
        forall|l: LogView|
            line@ == #[trigger] json::line_json(l) ==> line_view(r) == Some(normalized(l)),
        forall|l: LogView|
            line@ == #[trigger] json::line_json(l) && (l.level == "D"@ || l.level == "I"@ || l.level
                == "W"@ || l.level == "E"@) ==> line_view(r) == Some(l),
{
    proof {
        assert forall|l: LogView|
            line@ == #[trigger] json::line_json(l) && level_law::is_letter(l.level) implies normalized(
            l,
        ) == l by {
            level_law::law_letters_kept(l.level);
        }
    }
    let chars: Vec<char> = text::trim_chars(text::chars_of(line).as_slice());
    if chars.len() == 0 {
        proof {
            assert forall|l: LogView| line@ == #[trigger] json::line_json(l) implies false by {
                json::lemma_line_json(l);
            }
        }
        return None;
    }
    let trimmed: String = text::string_of(chars.as_slice());
    let t: &str = trimmed.as_str();
    if chars[0] == '{' {
        if let Some(fields) = json::read_object(t) {
            proof {
                assert forall|l: LogView| line@ == #[trigger] json::line_json(l) implies fields_line(
                    json::field_views(fields@),
                    default_service@,
                    t@,
                    now,
                ) == normalized(l) by {
                    json::lemma_line_json(l);
                    law_own_fields(l, default_service@, t@, now);
                }
            }
            return Some(parse_json_fields(&fields, default_service, t, now));
        }
    }
    proof {
        assert forall|l: LogView| line@ == #[trigger] json::line_json(l) implies false by {
            json::lemma_line_json(l);
        }
    }
    if has(t, "HTTP/") && has(t, "\"") {
        return Some(parse_nginx_line(t, now));
    }
    let level: String = infer_level(t);
    let message: String = strip_level_prefix(t);
    Some(LogLine { ts: now, service: default_service.to_string(), level, message })
}

/// Makes a log line of a text line. Where the line has no time of its own, it is
/// the time of the system clock.
pub fn parse_line(line: &str, default_service: &str) -> (r: Option<LogLine>)
    ensures
        exists|now: u64| line_view(r) == #[trigger] parsed_line(line@, default_service@, now),
        forall|l: LogView|
            line@ == #[trigger] json::line_json(l) && (l.level == "D"@ || l.level == "I"@ || l.level
                == "W"@ || l.level == "E"@) ==> line_view(r) == Some(l),
{
    let now: u64 = names::now_ms();
    parse_line_at(line, default_service, now)
}

} // verus!
