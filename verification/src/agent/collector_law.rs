//! What becomes of the lines that come in, said of their texts.

use crate::agent::collector;
use crate::agent::json;
use crate::agent::json::JsonView;
use crate::agent::level_law;
use crate::agent::query_law;
use crate::shared::letters;
use crate::shared::log::LogView;
use crate::shared::numeral;
use crate::shared::text;
use vstd::prelude::*;
use vstd::utf8::*;

verus! {

// ---------- names in a line ----------

/// From position `k` on, the line has the name, in small or capital letters.
pub open spec fn named_at(line: Seq<char>, name: Seq<char>, k: int) -> bool {
    &&& 0 <= k
    &&& k + name.len() <= line.len()
    &&& level_law::spelled(line.subrange(k, k + name.len()), name)
}

/// The line has the name somewhere.
pub open spec fn mentions(line: Seq<char>, name: Seq<char>) -> bool {
    exists|k: int| #[trigger] named_at(line, name, k)
}

/// The line has the name at `k` and nowhere before.
pub open spec fn first_named(line: Seq<char>, name: Seq<char>, k: int) -> bool {
    named_at(line, name, k) && forall|j: int| j < k ==> !#[trigger] named_at(line, name, j)
}

proof fn lemma_named_at(line: Seq<char>, name: Seq<char>, k: int)
    requires
        letters::all_ascii(line),
        level_law::is_plain(name),
        0 <= k,
        k + name.len() <= line.len(),
    ensures
        named_at(line, name, k) <==> letters::capitals(line).subrange(k, k + name.len()) == name,
{
    let part: Seq<char> = line.subrange(k, k + name.len());
    assert forall|i: int| 0 <= i < part.len() implies (#[trigger] part[i]) as u32 <= 0x7f by {
        assert(part[i] == line[k + i]);
    }
    assert(letters::capitals(part) =~= letters::capitals(line).subrange(k, k + name.len()));
    level_law::law_capitals(part, name);
}

proof fn lemma_mentions(line: Seq<char>, name: Seq<char>)
    requires
        letters::all_ascii(line),
        level_law::is_plain(name),
    ensures
        mentions(line, name) <==> text::contains_text(letters::capitals(line), name),
{
    let upper: Seq<char> = letters::capitals(line);
    if mentions(line, name) {
        let k: int = choose|k: int| #[trigger] named_at(line, name, k);
        lemma_named_at(line, name, k);
        assert(text::occurs_at(upper, name, k));
    }
    if text::contains_text(upper, name) {
        let k: int = choose|k: int| #[trigger] text::occurs_at(upper, name, k);
        lemma_named_at(line, name, k);
        assert(named_at(line, name, k));
    }
}

/// The words that make a text line of ASCII characters an error, in small or
/// capital letters: `ERROR`, `FATAL`, `PANIC` and `CRITICAL`, anywhere in it.
/// Other lines with `WARN` in them are warnings, and all others have the level
/// `I`.
pub proof fn law_words_give_level(line: Seq<char>)
    requires
        letters::all_ascii(line),
    ensures
        ({
            let level: Seq<char> = collector::inferred_level(letters::capitals(line));
            let bad: bool = mentions(line, "ERROR"@) || mentions(line, "FATAL"@) || mentions(
                line,
                "PANIC"@,
            ) || mentions(line, "CRITICAL"@);
            &&& bad ==> level == "E"@
            &&& !bad && mentions(line, "WARN"@) ==> level == "W"@
            &&& !bad && !mentions(line, "WARN"@) ==> level == "I"@
        }),
{
    reveal_strlit("ERROR");
    reveal_strlit("FATAL");
    reveal_strlit("PANIC");
    reveal_strlit("CRITICAL");
    reveal_strlit("WARN");
    lemma_mentions(line, "ERROR"@);
    lemma_mentions(line, "FATAL"@);
    lemma_mentions(line, "PANIC"@);
    lemma_mentions(line, "CRITICAL"@);
    lemma_mentions(line, "WARN"@);
}

// ---------- the message of a line ----------

proof fn lemma_ascii_char(c: char)
    requires
        c as u32 <= 0x7f,
    ensures
        '\0' <= c <= '\u{7f}',
{
}

proof fn lemma_ascii(s: Seq<char>)
    requires
        letters::all_ascii(s),
    ensures
        encode_utf8(s) == Seq::new(s.len(), |i: int| s[i] as u8),
        valid_utf8(encode_utf8(s)),
        decode_utf8(encode_utf8(s)) == s,
{
    assert forall|i: int| 0 <= i < s.len() implies '\0' <= #[trigger] s[i] <= '\u{7f}' by {
        lemma_ascii_char(s[i]);
    }
    is_ascii_chars_encode_utf8(s);
    encode_utf8_valid_utf8(s);
    encode_utf8_decode_utf8(s);
}

proof fn lemma_ascii_upper(line: Seq<char>)
    requires
        letters::all_ascii(line),
    ensures
        letters::all_ascii(letters::capitals(line)),
        letters::capitals(line).len() == line.len(),
{
    let upper: Seq<char> = letters::capitals(line);
    assert forall|i: int| 0 <= i < upper.len() implies (#[trigger] upper[i]) as u32 <= 0x7f by {
        assert(line[i] as u32 <= 0x7f);
        assert(upper[i] == letters::ascii_upper(line[i]));
    }
}

proof fn lemma_same_byte(c: char, d: char)
    requires
        c as u32 <= 0x7f,
        d as u32 <= 0x7f,
        c as u8 == d as u8,
    ensures
        c == d,
{
    assert(c as u8 as u32 == c as u32);
    assert(d as u8 as u32 == d as u32);
}

proof fn lemma_bytes_at(upper: Seq<char>, name: Seq<char>, k: int)
    requires
        letters::all_ascii(upper),
        letters::all_ascii(name),
        0 <= k,
        k + name.len() <= upper.len(),
    ensures
        encode_utf8(name).len() == name.len(),
        encode_utf8(upper).len() == upper.len(),
        encode_utf8(upper).subrange(k, k + name.len()) == encode_utf8(name) <==> upper.subrange(
            k,
            k + name.len(),
        ) == name,
{
    lemma_ascii(upper);
    lemma_ascii(name);
    let part: Seq<char> = upper.subrange(k, k + name.len());
    let bytes: Seq<u8> = encode_utf8(upper).subrange(k, k + name.len());
    if part == name {
        assert forall|i: int| 0 <= i < name.len() implies bytes[i] == encode_utf8(name)[i] by {
            assert(part[i] == upper[k + i]);
        }
        assert(bytes =~= encode_utf8(name));
    }
    if bytes == encode_utf8(name) {
        assert forall|i: int| 0 <= i < name.len() implies part[i] == name[i] by {
            assert(bytes[i] == upper[k + i] as u8);
            assert(encode_utf8(name)[i] == name[i] as u8);
            assert(part[i] == upper[k + i]);
            lemma_same_byte(upper[k + i], name[i]);
        }
        assert(part =~= name);
    }
}

proof fn lemma_first_at(hay: Seq<u8>, needle: Seq<u8>, from: nat, k: nat)
    requires
        needle.len() > 0,
        from <= k,
        k + needle.len() <= hay.len(),
        hay.subrange(k as int, (k + needle.len()) as int) == needle,
        forall|j: int|
            from <= j < k ==> #[trigger] hay.subrange(j, j + needle.len()) != needle,
    ensures
        collector::first_at(hay, needle, from) == Some(k),
    decreases k - from,
{
    if from < k {
        assert(hay.subrange(from as int, (from + needle.len()) as int) != needle);
        lemma_first_at(hay, needle, from + 1, k);
    }
}

proof fn lemma_none_at(hay: Seq<u8>, needle: Seq<u8>, from: nat)
    requires
        forall|j: int|
            from <= j && j + needle.len() <= hay.len() ==> #[trigger] hay.subrange(
                j,
                j + needle.len(),
            ) != needle,
    ensures
        collector::first_at(hay, needle, from) is None,
    decreases hay.len() - from,
{
    if from + needle.len() <= hay.len() && from < hay.len() {
        assert(hay.subrange(from as int, (from + needle.len()) as int) != needle);
        lemma_none_at(hay, needle, from + 1);
    }
}

proof fn lemma_found(line: Seq<char>, name: Seq<char>, k: int)
    requires
        letters::all_ascii(line),
        level_law::is_plain(name),
        name.len() > 0,
        first_named(line, name, k),
    ensures
        collector::first_at(encode_utf8(letters::capitals(line)), encode_utf8(name), 0) == Some(
            k as nat,
        ),
{
    let upper: Seq<char> = letters::capitals(line);
    lemma_ascii_upper(line);
    assert(letters::all_ascii(name));
    let b: Seq<u8> = encode_utf8(upper);
    let n: Seq<u8> = encode_utf8(name);
    lemma_named_at(line, name, k);
    lemma_bytes_at(upper, name, k);
    assert forall|j: int| 0 <= j < k implies #[trigger] b.subrange(j, j + n.len()) != n by {
        lemma_bytes_at(upper, name, j);
        lemma_named_at(line, name, j);
        assert(!named_at(line, name, j));
    }
    lemma_first_at(b, n, 0, k as nat);
}

proof fn lemma_not_found(line: Seq<char>, name: Seq<char>)
    requires
        letters::all_ascii(line),
        level_law::is_plain(name),
        !mentions(line, name),
    ensures
        collector::first_at(encode_utf8(letters::capitals(line)), encode_utf8(name), 0) is None,
{
    let upper: Seq<char> = letters::capitals(line);
    lemma_ascii_upper(line);
    assert(letters::all_ascii(name));
    lemma_ascii(upper);
    lemma_ascii(name);
    let b: Seq<u8> = encode_utf8(upper);
    let n: Seq<u8> = encode_utf8(name);
    assert forall|j: int| 0 <= j && j + n.len() <= b.len() implies #[trigger] b.subrange(
        j,
        j + n.len(),
    ) != n by {
        lemma_bytes_at(upper, name, j);
        lemma_named_at(line, name, j);
        assert(!named_at(line, name, j));
    }
    lemma_none_at(b, n, 0);
}

proof fn lemma_cut(line: Seq<char>, n: int)
    requires
        letters::all_ascii(line),
        0 <= n <= line.len(),
        collector::level_cut(letters::capitals(line)) == Some(n as nat),
    ensures
        collector::bare_message(line, letters::capitals(line)) == line.skip(n),
{
    let rest: Seq<char> = line.skip(n);
    assert forall|i: int| 0 <= i < rest.len() implies (#[trigger] rest[i]) as u32 <= 0x7f by {
        assert(rest[i] == line[n + i]);
    }
    lemma_ascii(line);
    lemma_ascii(rest);
    assert(encode_utf8(line).skip(n) =~= encode_utf8(rest));
}

proof fn lemma_level_words()
    ensures
        level_law::is_plain("ERROR "@),
        level_law::is_plain("FATAL "@),
        level_law::is_plain("WARN "@),
        level_law::is_plain("INFO "@),
        "ERROR "@.len() == 6,
        "FATAL "@.len() == 6,
        "WARN "@.len() == 5,
        "INFO "@.len() == 5,
{
    reveal_strlit("ERROR ");
    reveal_strlit("FATAL ");
    reveal_strlit("WARN ");
    reveal_strlit("INFO ");
}

/// The message of a text line of ASCII characters starts behind the level name
/// in it, in small or capital letters, and the blank behind the name: behind the
/// first `ERROR`; without one, behind the first `FATAL`; without that, behind the
/// first `WARN`; and without that, behind the first `INFO`. A line without a
/// level name is its own message.
pub proof fn law_message_behind_level(line: Seq<char>, k: int)
    requires
        letters::all_ascii(line),
    ensures
        ({
            let message: Seq<char> = collector::bare_message(line, letters::capitals(line));
            let error: bool = mentions(line, "ERROR "@);
            let fatal: bool = mentions(line, "FATAL "@);
            let warn: bool = mentions(line, "WARN "@);
            let info: bool = mentions(line, "INFO "@);
            &&& first_named(line, "ERROR "@, k) ==> message == line.skip(k + 6)
            &&& !error && first_named(line, "FATAL "@, k) ==> message == line.skip(k + 6)
            &&& !error && !fatal && first_named(line, "WARN "@, k) ==> message == line.skip(k + 5)
            &&& !error && !fatal && !warn && first_named(line, "INFO "@, k) ==> message
                == line.skip(k + 5)
            &&& !error && !fatal && !warn && !info ==> message == line
        }),
{
    lemma_level_words();
    let error: bool = mentions(line, "ERROR "@);
    let fatal: bool = mentions(line, "FATAL "@);
    let warn: bool = mentions(line, "WARN "@);
    let info: bool = mentions(line, "INFO "@);
    if !error {
        lemma_not_found(line, "ERROR "@);
    }
    if !fatal {
        lemma_not_found(line, "FATAL "@);
    }
    if !warn {
        lemma_not_found(line, "WARN "@);
    }
    if !info {
        lemma_not_found(line, "INFO "@);
    }
    if first_named(line, "ERROR "@, k) {
        lemma_found(line, "ERROR "@, k);
        lemma_cut(line, k + 6);
    }
    if !error && first_named(line, "FATAL "@, k) {
        lemma_found(line, "FATAL "@, k);
        lemma_cut(line, k + 6);
    }
    if !error && !fatal && first_named(line, "WARN "@, k) {
        lemma_found(line, "WARN "@, k);
        lemma_cut(line, k + 5);
    }
    if !error && !fatal && !warn && first_named(line, "INFO "@, k) {
        lemma_found(line, "INFO "@, k);
        lemma_cut(line, k + 5);
    }
}

// ---------- kinds of lines ----------

/// A line with nothing but white space gives no log line.
pub proof fn law_blank_line(line: Seq<char>, service: Seq<char>, now: u64)
    requires
        forall|i: int| 0 <= i < line.len() ==> text::is_space(#[trigger] line[i]),
    ensures
        collector::parsed_line(line, service, now) is None,
{
    text::law_trimmed(line, Seq::empty(), Seq::empty());
    assert(line + Seq::<char>::empty() + Seq::<char>::empty() =~= line);
}

/// White space around a line makes no difference.
pub proof fn law_space_around(
    before: Seq<char>,
    line: Seq<char>,
    behind: Seq<char>,
    service: Seq<char>,
    now: u64,
)
    requires
        forall|i: int| 0 <= i < before.len() ==> text::is_space(#[trigger] before[i]),
        forall|i: int| 0 <= i < behind.len() ==> text::is_space(#[trigger] behind[i]),
        line.len() > 0,
        !text::is_space(line[0]),
        !text::is_space(line.last()),
    ensures
        collector::parsed_line(before + line + behind, service, now) == collector::parsed_line(
            line,
            service,
            now,
        ),
{
    text::law_trimmed(before, line, behind);
    text::law_trimmed(Seq::empty(), line, Seq::empty());
    assert(Seq::<char>::empty() + line + Seq::<char>::empty() =~= line);
}

/// A line that is a JSON object gives the log line of its fields, whatever else
/// stands in it.
pub proof fn law_object_line(
    line: Seq<char>,
    fields: Seq<(Seq<char>, JsonView)>,
    service: Seq<char>,
    now: u64,
)
    requires
        line.len() > 0,
        line[0] == '{',
        !text::is_space(line.last()),
        json::json_object(line) == Some(fields),
    ensures
        collector::parsed_line(line, service, now) == Some(
            collector::fields_line(fields, service, line, now),
        ),
{
    text::law_trimmed(Seq::empty(), line, Seq::empty());
    assert(Seq::<char>::empty() + line + Seq::<char>::empty() =~= line);
}

/// A line that is no JSON object and holds `HTTP/` and a quotation mark is a line
/// of a web server's access log: it is kept whole, as a line of the service
/// `ngx` at the given time, and its level is `E` where a status that starts with
/// 4 or 5 stands behind a quotation mark and a blank, and `I` otherwise.
pub proof fn law_access_line(
    line: Seq<char>,
    service: Seq<char>,
    now: u64,
    a: Seq<char>,
    b: Seq<char>,
    c: Seq<char>,
    d: Seq<char>,
)
    requires
        line.len() > 0,
        !text::is_space(line[0]),
        !text::is_space(line.last()),
        line[0] != '{' || json::json_object(line) is None,
        line == a + "HTTP/"@ + b,
        line == c + "\""@ + d,
    ensures
        ({
            let l: LogView = collector::parsed_line(line, service, now)->0;
            let failed: bool = (exists|x: Seq<char>, y: Seq<char>| #[trigger]
                query_law::made_of(line, x, "\" 4"@, y)) || (exists|x: Seq<char>, y: Seq<char>|
             #[trigger] query_law::made_of(line, x, "\" 5"@, y));
            &&& collector::parsed_line(line, service, now) is Some
            &&& l.ts == now
            &&& l.service == "ngx"@
            &&& l.message == line
            &&& failed ==> l.level == "E"@
            &&& !failed ==> l.level == "I"@
        }),
{
    text::law_trimmed(Seq::empty(), line, Seq::empty());
    assert(Seq::<char>::empty() + line + Seq::<char>::empty() =~= line);
    query_law::law_text_found(line, "HTTP/"@);
    query_law::law_text_found(line, "\""@);
    query_law::law_text_found(line, "\" 4"@);
    query_law::law_text_found(line, "\" 5"@);
    assert(query_law::made_of(line, a, "HTTP/"@, b));
    assert(query_law::made_of(line, c, "\""@, d));
}

/// Any other line is a line of the given service at the given time.
pub proof fn law_plain_line(line: Seq<char>, service: Seq<char>, now: u64)
    requires
        line.len() > 0,
        !text::is_space(line[0]),
        !text::is_space(line.last()),
        line[0] != '{' || json::json_object(line) is None,
        (forall|x: Seq<char>, y: Seq<char>| !#[trigger] query_law::made_of(line, x, "HTTP/"@, y))
            || (forall|x: Seq<char>, y: Seq<char>| !#[trigger]
            query_law::made_of(line, x, "\""@, y)),
    ensures
        ({
            let l: LogView = collector::parsed_line(line, service, now)->0;
            &&& collector::parsed_line(line, service, now) is Some
            &&& l.ts == now
            &&& l.service == service
            &&& l.level == collector::inferred_level(letters::capitals(line))
            &&& l.message == collector::bare_message(line, letters::capitals(line))
        }),
{
    text::law_trimmed(Seq::empty(), line, Seq::empty());
    assert(Seq::<char>::empty() + line + Seq::<char>::empty() =~= line);
    query_law::law_text_found(line, "HTTP/"@);
    query_law::law_text_found(line, "\""@);
}

// ---------- JSON objects ----------

/// Field `i` is the only one of that name.
pub open spec fn only_field(
    fields: Seq<(Seq<char>, JsonView)>,
    i: int,
    key: Seq<char>,
    v: JsonView,
) -> bool {
    &&& 0 <= i < fields.len()
    &&& fields[i] == (key, v)
    &&& forall|j: int| 0 <= j < fields.len() && j != i ==> (#[trigger] fields[j]).0 != key
}

/// There is no field of that name.
pub open spec fn no_field(fields: Seq<(Seq<char>, JsonView)>, key: Seq<char>) -> bool {
    forall|j: int| 0 <= j < fields.len() ==> (#[trigger] fields[j]).0 != key
}

proof fn lemma_only_field(
    fields: Seq<(Seq<char>, JsonView)>,
    i: int,
    key: Seq<char>,
    v: JsonView,
)
    requires
        only_field(fields, i, key, v),
    ensures
        json::json_get(fields, key) == Some(v),
    decreases fields.len(),
{
    if i > 0 {
        let rest: Seq<(Seq<char>, JsonView)> = fields.drop_first();
        assert(fields[0].0 != key);
        assert(rest[i - 1] == fields[i]);
        assert forall|j: int| 0 <= j < rest.len() && j != i - 1 implies (#[trigger] rest[j]).0
            != key by {
            assert(rest[j] == fields[j + 1]);
        }
        lemma_only_field(rest, i - 1, key, v);
    }
}

proof fn lemma_no_field(fields: Seq<(Seq<char>, JsonView)>, key: Seq<char>)
    requires
        no_field(fields, key),
    ensures
        json::json_get(fields, key) is None,
    decreases fields.len(),
{
    if fields.len() > 0 {
        let rest: Seq<(Seq<char>, JsonView)> = fields.drop_first();
        assert(fields[0].0 != key);
        assert forall|j: int| 0 <= j < rest.len() implies (#[trigger] rest[j]).0 != key by {
            assert(rest[j] == fields[j + 1]);
        }
        lemma_no_field(rest, key);
    }
}

proof fn lemma_field(
    fields: Seq<(Seq<char>, JsonView)>,
    i: int,
    v: JsonView,
    a: Seq<char>,
    b: Seq<char>,
    c: Seq<char>,
    d: Seq<char>,
)
    requires
        only_field(fields, i, a, v) || (no_field(fields, a) && (only_field(fields, i, b, v) || (
        no_field(fields, b) && (only_field(fields, i, c, v) || (no_field(fields, c) && only_field(
            fields,
            i,
            d,
            v,
        )))))),
    ensures
        collector::first_field(fields, a, b, c, d) == Some(v),
{
    if only_field(fields, i, a, v) {
        lemma_only_field(fields, i, a, v);
    } else {
        lemma_no_field(fields, a);
        if only_field(fields, i, b, v) {
            lemma_only_field(fields, i, b, v);
        } else {
            lemma_no_field(fields, b);
            if only_field(fields, i, c, v) {
                lemma_only_field(fields, i, c, v);
            } else {
                lemma_no_field(fields, c);
                lemma_only_field(fields, i, d, v);
            }
        }
    }
}

/// The message of a JSON object is the text of its field `message`; without that
/// field, of `msg`; without that, of `log`; and without that, of `m`. Without any
/// of them it is the line itself.
pub proof fn law_message_field(
    fields: Seq<(Seq<char>, JsonView)>,
    service: Seq<char>,
    line: Seq<char>,
    now: u64,
    i: int,
    s: Seq<char>,
)
    ensures
        only_field(fields, i, "message"@, JsonView::Text(s)) || (no_field(fields, "message"@) && (
        only_field(fields, i, "msg"@, JsonView::Text(s)) || (no_field(fields, "msg"@) && (
        only_field(fields, i, "log"@, JsonView::Text(s)) || (no_field(fields, "log"@)
            && only_field(fields, i, "m"@, JsonView::Text(s))))))) ==> collector::fields_line(
            fields,
            service,
            line,
            now,
        ).message == s,
        no_field(fields, "message"@) && no_field(fields, "msg"@) && no_field(fields, "log"@)
            && no_field(fields, "m"@) ==> collector::fields_line(fields, service, line, now).message
            == line,
{
    let v: JsonView = JsonView::Text(s);
    if only_field(fields, i, "message"@, v) || (no_field(fields, "message"@) && (only_field(
        fields,
        i,
        "msg"@,
        v,
    ) || (no_field(fields, "msg"@) && (only_field(fields, i, "log"@, v) || (no_field(
        fields,
        "log"@,
    ) && only_field(fields, i, "m"@, v)))))) {
        lemma_field(fields, i, v, "message"@, "msg"@, "log"@, "m"@);
    }
    if no_field(fields, "message"@) && no_field(fields, "msg"@) && no_field(fields, "log"@)
        && no_field(fields, "m"@) {
        lemma_no_field(fields, "message"@);
        lemma_no_field(fields, "msg"@);
        lemma_no_field(fields, "log"@);
        lemma_no_field(fields, "m"@);
    }
}

/// The service of a JSON object is the text of its field `service`; without that
/// field, of `app`; without that, of `source`; and without that, of `s`. Without
/// any of them it is the given one.
pub proof fn law_service_field(
    fields: Seq<(Seq<char>, JsonView)>,
    service: Seq<char>,
    line: Seq<char>,
    now: u64,
    i: int,
    s: Seq<char>,
)
    ensures
        only_field(fields, i, "service"@, JsonView::Text(s)) || (no_field(fields, "service"@) && (
        only_field(fields, i, "app"@, JsonView::Text(s)) || (no_field(fields, "app"@) && (
        only_field(fields, i, "source"@, JsonView::Text(s)) || (no_field(fields, "source"@)
            && only_field(fields, i, "s"@, JsonView::Text(s))))))) ==> collector::fields_line(
            fields,
            service,
            line,
            now,
        ).service == s,
        no_field(fields, "service"@) && no_field(fields, "app"@) && no_field(fields, "source"@)
            && no_field(fields, "s"@) ==> collector::fields_line(fields, service, line, now).service
            == service,
{
    let v: JsonView = JsonView::Text(s);
    if only_field(fields, i, "service"@, v) || (no_field(fields, "service"@) && (only_field(
        fields,
        i,
        "app"@,
        v,
    ) || (no_field(fields, "app"@) && (only_field(fields, i, "source"@, v) || (no_field(
        fields,
        "source"@,
    ) && only_field(fields, i, "s"@, v)))))) {
        lemma_field(fields, i, v, "service"@, "app"@, "source"@, "s"@);
    }
    if no_field(fields, "service"@) && no_field(fields, "app"@) && no_field(fields, "source"@)
        && no_field(fields, "s"@) {
        lemma_no_field(fields, "service"@);
        lemma_no_field(fields, "app"@);
        lemma_no_field(fields, "source"@);
        lemma_no_field(fields, "s"@);
    }
}

/// The level of a JSON object is the one that the text of its field `level`
/// names; without that field, of `severity`; without that, of `loglevel`; and
/// without that, of `l`. Without any of them it is `I`.
pub proof fn law_level_field(
    fields: Seq<(Seq<char>, JsonView)>,
    service: Seq<char>,
    line: Seq<char>,
    now: u64,
    i: int,
    s: Seq<char>,
)
    ensures
        only_field(fields, i, "level"@, JsonView::Text(s)) || (no_field(fields, "level"@) && (
        only_field(fields, i, "severity"@, JsonView::Text(s)) || (no_field(fields, "severity"@)
            && (only_field(fields, i, "loglevel"@, JsonView::Text(s)) || (no_field(
            fields,
            "loglevel"@,
        ) && only_field(fields, i, "l"@, JsonView::Text(s))))))) ==> collector::fields_line(
            fields,
            service,
            line,
            now,
        ).level == collector::normal_level(letters::capitals(s)),
        no_field(fields, "level"@) && no_field(fields, "severity"@) && no_field(
            fields,
            "loglevel"@,
        ) && no_field(fields, "l"@) ==> collector::fields_line(fields, service, line, now).level
            == "I"@,
{
    let v: JsonView = JsonView::Text(s);
    if only_field(fields, i, "level"@, v) || (no_field(fields, "level"@) && (only_field(
        fields,
        i,
        "severity"@,
        v,
    ) || (no_field(fields, "severity"@) && (only_field(fields, i, "loglevel"@, v) || (no_field(
        fields,
        "loglevel"@,
    ) && only_field(fields, i, "l"@, v)))))) {
        lemma_field(fields, i, v, "level"@, "severity"@, "loglevel"@, "l"@);
    }
    if no_field(fields, "level"@) && no_field(fields, "severity"@) && no_field(
        fields,
        "loglevel"@,
    ) && no_field(fields, "l"@) {
        lemma_no_field(fields, "level"@);
        lemma_no_field(fields, "severity"@);
        lemma_no_field(fields, "loglevel"@);
        lemma_no_field(fields, "l"@);
    }
}

/// The time of a JSON object is the number in its field `timestamp`; without
/// that field, in `ts`; without that, in `time`; and without that, in `t`.
/// Without any of them it is the given one.
pub proof fn law_time_field(
    fields: Seq<(Seq<char>, JsonView)>,
    service: Seq<char>,
    line: Seq<char>,
    now: u64,
    i: int,
    n: u64,
)
    ensures
        only_field(fields, i, "timestamp"@, JsonView::Uint(n)) || (no_field(fields, "timestamp"@)
            && (only_field(fields, i, "ts"@, JsonView::Uint(n)) || (no_field(fields, "ts"@) && (
        only_field(fields, i, "time"@, JsonView::Uint(n)) || (no_field(fields, "time"@)
            && only_field(fields, i, "t"@, JsonView::Uint(n))))))) ==> collector::fields_line(
            fields,
            service,
            line,
            now,
        ).ts == n,
        no_field(fields, "timestamp"@) && no_field(fields, "ts"@) && no_field(fields, "time"@)
            && no_field(fields, "t"@) ==> collector::fields_line(fields, service, line, now).ts
            == now,
{
    let v: JsonView = JsonView::Uint(n);
    if only_field(fields, i, "timestamp"@, v) || (no_field(fields, "timestamp"@) && (only_field(
        fields,
        i,
        "ts"@,
        v,
    ) || (no_field(fields, "ts"@) && (only_field(fields, i, "time"@, v) || (no_field(
        fields,
        "time"@,
    ) && only_field(fields, i, "t"@, v)))))) {
        lemma_field(fields, i, v, "timestamp"@, "ts"@, "time"@, "t"@);
    }
    if no_field(fields, "timestamp"@) && no_field(fields, "ts"@) && no_field(fields, "time"@)
        && no_field(fields, "t"@) {
        lemma_no_field(fields, "timestamp"@);
        lemma_no_field(fields, "ts"@);
        lemma_no_field(fields, "time"@);
        lemma_no_field(fields, "t"@);
    }
}

/// A field that is no text gives no message, no service and no level, and one
/// that is neither number nor text gives no time: then the line itself, the given
/// service, `I` and the given time stand in.
pub proof fn law_fields_of_other_kinds(
    fields: Seq<(Seq<char>, JsonView)>,
    service: Seq<char>,
    line: Seq<char>,
    now: u64,
    i: int,
    v: JsonView,
)
    requires
        !(v is Text),
    ensures
        only_field(fields, i, "message"@, v) ==> collector::fields_line(
            fields,
            service,
            line,
            now,
        ).message == line,
        only_field(fields, i, "service"@, v) ==> collector::fields_line(
            fields,
            service,
            line,
            now,
        ).service == service,
        only_field(fields, i, "level"@, v) ==> collector::fields_line(
            fields,
            service,
            line,
            now,
        ).level == "I"@,
        only_field(fields, i, "timestamp"@, v) && !(v is Uint) ==> collector::fields_line(
            fields,
            service,
            line,
            now,
        ).ts == now,
{
    if only_field(fields, i, "message"@, v) {
        lemma_only_field(fields, i, "message"@, v);
    }
    if only_field(fields, i, "service"@, v) {
        lemma_only_field(fields, i, "service"@, v);
    }
    if only_field(fields, i, "level"@, v) {
        lemma_only_field(fields, i, "level"@, v);
    }
    if only_field(fields, i, "timestamp"@, v) {
        lemma_only_field(fields, i, "timestamp"@, v);
    }
}

/// A text may stand for the time of a JSON object as well, in the field
/// `timestamp`; without that field, in `ts`; and without that and without `time`,
/// in `t`. A text that stands for no time gives the given one.
pub proof fn law_time_text_field(
    fields: Seq<(Seq<char>, JsonView)>,
    service: Seq<char>,
    line: Seq<char>,
    now: u64,
    i: int,
    s: Seq<char>,
)
    requires
        only_field(fields, i, "timestamp"@, JsonView::Text(s)) || (no_field(fields, "timestamp"@)
            && (only_field(fields, i, "ts"@, JsonView::Text(s)) || (no_field(fields, "ts"@)
            && no_field(fields, "time"@) && only_field(fields, i, "t"@, JsonView::Text(s))))),
    ensures
        collector::text_time(s) is Some ==> collector::fields_line(fields, service, line, now).ts
            == collector::text_time(s)->0,
        collector::text_time(s) is None ==> collector::fields_line(fields, service, line, now).ts
            == now,
{
    let v: JsonView = JsonView::Text(s);
    lemma_field(fields, i, v, "timestamp"@, "ts"@, "time"@, "t"@);
    lemma_field(fields, i, v, "timestamp"@, "ts"@, "t"@, "t"@);
}

/// The number of a time in a text is a time in milliseconds where it is above
/// 10^12, a time in seconds where it is above 10^9, and no time otherwise.
pub proof fn law_time_text(n: u64)
    ensures
        n > 1_000_000_000_000 ==> collector::text_time(numeral::numeral(n as nat, 10)) == Some(n),
        1_000_000_000 < n <= 1_000_000_000_000 ==> collector::text_time(
            numeral::numeral(n as nat, 10),
        ) == Some((n * 1000) as u64),
        n <= 1_000_000_000 ==> collector::text_time(numeral::numeral(n as nat, 10)) is None,
{
    let s: Seq<char> = numeral::numeral(n as nat, 10);
    numeral::lemma_numeral(n as nat, 10);
    assert(numeral::digit_value(s[0]) < 10);
}

} // verus!
