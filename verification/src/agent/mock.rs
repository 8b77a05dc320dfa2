//! Made-up log lines, for tests and demonstrations.

use crate::agent::json;
use crate::shared::log;
use crate::shared::log::{LogLine, LogView};
use crate::shared::numeral;
use crate::shared::text;
use vstd::prelude::*;
use vstd::string::*;

verus! {

/// The message with a sequence number behind it.
pub open spec fn numbered(message: Seq<char>, n: nat) -> Seq<char> {
    message + " [seq="@ + numeral::numeral(n, 10) + "]"@
}

fn with_number(message: &str, n: u64) -> (r: String)
    ensures
        r@ == numbered(message@, n as nat),
{
    let mut out: String = String::new();
    out.append(message);
    out.append(" [seq=");
    let digits: String = text::string_of(&numeral::numeral_chars(n, 10));
    out.append(digits.as_str());
    out.append("]");
    assert(out@ =~= numbered(message@, n as nat));
    out
}

// ---------- the mock source ----------

/// The twelve messages of the mock source, in turn.
pub open spec fn mock_text(n: nat) -> Seq<char> {
    let k: nat = n % 12;
    if k == 0 {
        "User login successful"@
    } else if k == 1 {
        "Connection timeout after 3000ms"@
    } else if k == 2 {
        "Query executed in 45ms"@
    } else if k == 3 {
        "Cache miss for key user:12345"@
    } else if k == 4 {
        "Payment processed: $99.99"@
    } else if k == 5 {
        "Health check passed"@
    } else if k == 6 {
        "Database connection pool exhausted"@
    } else if k == 7 {
        "Request completed with status 200"@
    } else if k == 8 {
        "Disk usage above 90%"@
    } else if k == 9 {
        "ERROR: null pointer exception at line 42"@
    } else if k == 10 {
        "WARN: retry attempt 3/3"@
    } else {
        "Config reloaded successfully"@
    }
}

/// The levels of the mock source, in turn.
pub open spec fn mock_level(n: nat) -> Seq<char> {
    if n % 3 == 0 {
        "I"@
    } else if n % 3 == 1 {
        "W"@
    } else {
        "E"@
    }
}

fn mock_message(n: u32) -> (r: &'static str)
    ensures
        r@ == mock_text(n as nat),
{
    let k: u32 = n % 12;
    if k == 0 {
        "User login successful"
    } else if k == 1 {
        "Connection timeout after 3000ms"
    } else if k == 2 {
        "Query executed in 45ms"
    } else if k == 3 {
        "Cache miss for key user:12345"
    } else if k == 4 {
        "Payment processed: $99.99"
    } else if k == 5 {
        "Health check passed"
    } else if k == 6 {
        "Database connection pool exhausted"
    } else if k == 7 {
        "Request completed with status 200"
    } else if k == 8 {
        "Disk usage above 90%"
    } else if k == 9 {
        "ERROR: null pointer exception at line 42"
    } else if k == 10 {
        "WARN: retry attempt 3/3"
    } else {
        "Config reloaded successfully"
    }
}

/// Line number `n` of the mock source.
pub fn mock_line(n: u32, service: &str, now: u64) -> (r: LogLine)
    ensures
        r@ == (LogView {
            ts: now,
            service: service@,
            level: mock_level(n as nat),
            message: numbered(mock_text(n as nat), n as nat),
        }),
{
    let level: &str = if n % 3 == 0 {
        "I"
    } else if n % 3 == 1 {
        "W"
    } else {
        "E"
    };
    LogLine {
        ts: now,
        service: service.to_string(),
        level: level.to_string(),
        message: with_number(mock_message(n), n as u64),
    }
}

/// How many lines are to be sent now, where `expected` lines should have been
/// sent by now and `sent` lines were.
pub fn mock_due(expected: u32, sent: u32) -> (r: u32)
    ensures
        r == if expected > sent {
            expected - sent
        } else {
            0
        },
{
    if expected > sent {
        expected - sent
    } else {
        0
    }
}

// ---------- test files ----------

/// The nine messages of a test file, in turn.
pub open spec fn sample_text(n: nat) -> Seq<char> {
    let k: nat = n % 9;
    if k == 0 {
        "User login successful"@
    } else if k == 1 {
        "Connection timeout after 3000ms"@
    } else if k == 2 {
        "Query executed in 45ms"@
    } else if k == 3 {
        "Cache miss for key user:12345"@
    } else if k == 4 {
        "Payment processed: $99.99"@
    } else if k == 5 {
        "Health check passed"@
    } else if k == 6 {
        "ERROR: null pointer exception at line 42"@
    } else if k == 7 {
        "WARN: retry attempt 3/3"@
    } else {
        "Config reloaded successfully"@
    }
}

/// The level of a line of a test file, by its message.
pub open spec fn sample_level(n: nat) -> Seq<char> {
    if text::contains_text(sample_text(n), "ERROR"@) {
        "E"@
    } else if text::contains_text(sample_text(n), "WARN"@) {
        "W"@
    } else {
        "I"@
    }
}

/// Line number `n` of a test file, as JSON. The service stands there as it is,
/// without escapes.
pub open spec fn sample_json(n: nat, service: Seq<char>, ts: nat) -> Seq<char> {
    "{\"t\":"@ + numeral::numeral(ts, 10) + ",\"s\":\""@ + service + "\",\"l\":\""@ + sample_level(
        n,
    ) + "\",\"m\":\""@ + numbered(sample_text(n), n) + "\"}"@
}

fn sample_message(n: u64) -> (r: &'static str)
    ensures
        r@ == sample_text(n as nat),
{
    let k: u64 = n % 9;
    if k == 0 {
        "User login successful"
    } else if k == 1 {
        "Connection timeout after 3000ms"
    } else if k == 2 {
        "Query executed in 45ms"
    } else if k == 3 {
        "Cache miss for key user:12345"
    } else if k == 4 {
        "Payment processed: $99.99"
    } else if k == 5 {
        "Health check passed"
    } else if k == 6 {
        "ERROR: null pointer exception at line 42"
    } else if k == 7 {
        "WARN: retry attempt 3/3"
    } else {
        "Config reloaded successfully"
    }
}

/// Line number `n` of a test file that starts at the time `base`, a tenth of a
/// second after the line before.
pub fn sample_line(n: u64, service: &str, base: u64) -> (r: String)
    requires
        base + n * 100 <= u64::MAX,
    ensures
        r@ == sample_json(n as nat, service@, (base + n * 100) as nat),
{
    let message: &str = sample_message(n);
    let level: &str = if text::str_contains(message, text::chars_of("ERROR").as_slice()) {
        "E"
    } else if text::str_contains(message, text::chars_of("WARN").as_slice()) {
        "W"
    } else {
        "I"
    };
    let mut out: String = String::new();
    out.append("{\"t\":");
    let ts: String = text::string_of(&numeral::numeral_chars(base + n * 100, 10));
    out.append(ts.as_str());
    out.append(",\"s\":\"");
    out.append(service);
    out.append("\",\"l\":\"");
    out.append(level);
    out.append("\",\"m\":\"");
    out.append(with_number(message, n).as_str());
    out.append("\"}");
    assert(out@ =~= sample_json(n as nat, service@, (base + n * 100) as nat));
    out
}

// ---------- laws ----------

/// The levels of the mock source are `I`, `W` and `E` in turn.
pub proof fn law_mock_levels(k: nat)
    ensures
        mock_level(3 * k) == "I"@,
        mock_level(3 * k + 1) == "W"@,
        mock_level(3 * k + 2) == "E"@,
{
}

/// The messages of the mock source come back after twelve lines, those of a test
/// file after nine.
pub proof fn law_messages_come_back(n: nat)
    ensures
        mock_text(n + 12) == mock_text(n),
        sample_text(n + 9) == sample_text(n),
        sample_level(n + 9) == sample_level(n),
{
}

/// The messages of a test file are those of the mock source, but for its
/// seventh to ninth one.
pub proof fn law_messages_shared(n: nat)
    ensures
        n < 6 ==> sample_text(n) == mock_text(n),
        6 <= n < 9 ==> sample_text(n) == mock_text(n + 3),
{
}

proof fn lemma_no_escape(s: Seq<char>)
    requires
        forall|i: int|
            0 <= i < s.len() ==> (#[trigger] s[i]) as u32 >= 0x20 && s[i] != '"' && s[i] != '\\',
    ensures
        json::json_chars(s) == s,
    decreases s.len(),
{
    if s.len() > 0 {
        let front: Seq<char> = s.drop_last();
        assert forall|i: int| 0 <= i < front.len() implies (#[trigger] front[i]) as u32 >= 0x20
            && front[i] != '"' && front[i] != '\\' by {
            assert(front[i] == s[i]);
        }
        lemma_no_escape(front);
        assert(s[s.len() - 1] as u32 >= 0x20);
        assert(front + seq![s.last()] =~= s);
        assert(json::json_char(s.last()) == seq![s.last()]);
    } else {
        assert(json::json_chars(s) =~= s);
    }
}

/// No character needs an escape in a JSON string.
pub open spec fn is_plain(s: Seq<char>) -> bool {
    forall|i: int|
        0 <= i < s.len() ==> (#[trigger] s[i]) as u32 >= 0x20 && s[i] != '"' && s[i] != '\\'
}

proof fn lemma_sample_plain(n: nat)
    ensures
        is_plain(sample_text(n)),
        is_plain(sample_level(n)),
        is_plain(numbered(sample_text(n), n)),
{
    reveal_strlit("User login successful");
    reveal_strlit("Connection timeout after 3000ms");
    reveal_strlit("Query executed in 45ms");
    reveal_strlit("Cache miss for key user:12345");
    reveal_strlit("Payment processed: $99.99");
    reveal_strlit("Health check passed");
    reveal_strlit("ERROR: null pointer exception at line 42");
    reveal_strlit("WARN: retry attempt 3/3");
    reveal_strlit("Config reloaded successfully");
    reveal_strlit("E");
    reveal_strlit("W");
    reveal_strlit("I");
    reveal_strlit(" [seq=");
    reveal_strlit("]");
    let t: Seq<char> = numeral::numeral(n, 10);
    numeral::lemma_numeral(n, 10);
    assert(is_plain(sample_text(n)));
    assert(is_plain(t)) by {
        assert forall|i: int| 0 <= i < t.len() implies (#[trigger] t[i]) as u32 >= 0x20 && t[i]
            != '"' && t[i] != '\\' by {
            assert(numeral::digit_value(t[i]) < 10);
        }
    }
    let a: Seq<char> = sample_text(n) + " [seq="@;
    assert(is_plain(a)) by {
        assert forall|i: int| 0 <= i < a.len() implies (#[trigger] a[i]) as u32 >= 0x20 && a[i]
            != '"' && a[i] != '\\' by {
            if i < sample_text(n).len() {
                assert(a[i] == sample_text(n)[i]);
            }
        }
    }
    let b: Seq<char> = a + t;
    assert(is_plain(b)) by {
        assert forall|i: int| 0 <= i < b.len() implies (#[trigger] b[i]) as u32 >= 0x20 && b[i]
            != '"' && b[i] != '\\' by {
            if i < a.len() {
                assert(b[i] == a[i]);
            } else {
                assert(b[i] == t[i - a.len()]);
            }
        }
    }
    let c: Seq<char> = b + "]"@;
    assert forall|i: int| 0 <= i < c.len() implies (#[trigger] c[i]) as u32 >= 0x20 && c[i] != '"'
        && c[i] != '\\' by {
        if i < b.len() {
            assert(c[i] == b[i]);
        }
    }
}

/// A line of a test file is the JSON object of a log line: with the time, the
/// service, a level letter, and the message with its number in square brackets
/// behind it, where the service needs no escape.
pub proof fn law_sample_is_log_line(n: nat, service: Seq<char>, ts: u64)
    requires
        is_plain(service),
    ensures
        sample_json(n, service, ts as nat) == json::line_json(
            (LogView {
                ts,
                service,
                level: sample_level(n),
                message: sample_text(n) + seq![' ', '[', 's', 'e', 'q', '='] + numeral::numeral(
                    n,
                    10,
                ) + seq![']'],
            }),
        ),
{
    reveal_strlit("{\"t\":");
    reveal_strlit(",\"s\":\"");
    reveal_strlit("\",\"l\":\"");
    reveal_strlit("\",\"m\":\"");
    reveal_strlit("\"}");
    reveal_strlit(" [seq=");
    reveal_strlit("]");
    assert(" [seq="@ =~= seq![' ', '[', 's', 'e', 'q', '=']);
    assert("]"@ =~= seq![']']);
    let level: Seq<char> = sample_level(n);
    let message: Seq<char> = numbered(sample_text(n), n);
    lemma_sample_plain(n);
    lemma_no_escape(service);
    lemma_no_escape(level);
    lemma_no_escape(message);
    assert(sample_json(n, service, ts as nat) =~= json::line_json(
        (LogView { ts, service, level, message }),
    ));
}

} // verus!
