//! Log lines as JSON objects, `{"t":1,"s":"svc","l":"E","m":"msg"}`, and lists
//! of log lines with one object on each text line.

use crate::agent::json_line;
use crate::shared::bytes;
use crate::shared::lines;
use crate::shared::log;
use crate::shared::log::{LogLine, LogView};
use crate::shared::numeral;
use crate::shared::text;
use vstd::prelude::*;
use vstd::string::*;
use vstd::utf8::*;

verus! {

// ---------- writing ----------

/// How a character stands in a JSON string.
pub open spec fn json_char(c: char) -> Seq<char> {
    let u: u32 = c as u32;
    if c == '"' || c == '\\' {
        seq!['\\', c]
    } else if u == 0x08 {
        seq!['\\', 'b']
    } else if u == 0x09 {
        seq!['\\', 't']
    } else if u == 0x0a {
        seq!['\\', 'n']
    } else if u == 0x0c {
        seq!['\\', 'f']
    } else if u == 0x0d {
        seq!['\\', 'r']
    } else if u < 0x20 {
        seq!['\\', 'u', '0', '0', numeral::digit_char((u / 16) as nat), numeral::digit_char((u % 16) as nat)]
    } else {
        seq![c]
    }
}

/// How the characters of a text stand in a JSON string.
pub open spec fn json_chars(s: Seq<char>) -> Seq<char>
    decreases s.len(),
{
    if s.len() == 0 {
        Seq::empty()
    } else {
        json_chars(s.drop_last()) + json_char(s.last())
    }
}

/// A text as a JSON string.
pub open spec fn json_string(s: Seq<char>) -> Seq<char> {
    seq!['"'] + json_chars(s) + seq!['"']
}

/// A log line as a JSON object.
pub open spec fn line_json(l: LogView) -> Seq<char> {
    seq!['{', '"', 't', '"', ':'] + numeral::numeral(l.ts as nat, 10)
        + seq![',', '"', 's', '"', ':'] + json_string(l.service)
        + seq![',', '"', 'l', '"', ':'] + json_string(l.level)
        + seq![',', '"', 'm', '"', ':'] + json_string(l.message) + seq!['}']
}

/// Calls `serde_json::to_string` on a text: the text in quotation marks, with
/// quotation marks, backslashes and control characters escaped.
#[verifier::external_body]
fn quote(s: &str) -> (r: String)
    ensures
        r@ == json_string(s@),
{
    serde_json::to_string(s).unwrap_or_default()
}

/// A log line as a JSON object.
pub fn log_json(l: &LogLine) -> (r: String)
    ensures
        r@ == line_json(l@),
{
    let mut out: String = String::new();
    out.append("{\"t\":");
    let digits: String = text::string_of(&numeral::numeral_chars(l.ts, 10));
    out.append(digits.as_str());
    out.append(",\"s\":");
    out.append(quote(l.service.as_str()).as_str());
    out.append(",\"l\":");
    out.append(quote(l.level.as_str()).as_str());
    out.append(",\"m\":");
    out.append(quote(l.message.as_str()).as_str());
    out.append("}");
    proof {
        reveal_strlit("{\"t\":");
        reveal_strlit(",\"s\":");
        reveal_strlit(",\"l\":");
        reveal_strlit(",\"m\":");
        reveal_strlit("}");
        assert("{\"t\":"@ =~= seq!['{', '"', 't', '"', ':']);
        assert(",\"s\":"@ =~= seq![',', '"', 's', '"', ':']);
        assert(",\"l\":"@ =~= seq![',', '"', 'l', '"', ':']);
        assert(",\"m\":"@ =~= seq![',', '"', 'm', '"', ':']);
        assert("}"@ =~= seq!['}']);
        assert(out@ =~= line_json(l@));
    }
    out
}

/// The JSON objects of log lines, one on each text line.
pub open spec fn json_bytes(ls: Seq<LogView>) -> Seq<u8>
    decreases ls.len(),
{
    if ls.len() == 0 {
        Seq::empty()
    } else {
        encode_utf8(line_json(ls[0])) + seq![0x0au8] + json_bytes(ls.drop_first())
    }
}

/// The JSON objects of log lines, one on each text line.
pub fn logs_json(logs: &[LogLine]) -> (r: Vec<u8>)
    ensures
        r@ == json_bytes(log::log_views(logs@)),
{
    let ghost lv = log::log_views(logs@);
    let mut out: Vec<u8> = Vec::new();
    let mut i: usize = 0;
    proof {
        assert(lv.skip(0) =~= lv);
        assert(out@ + json_bytes(lv) =~= json_bytes(lv));
    }
    while i < logs.len()
        invariant
            i <= logs@.len(),
            lv == log::log_views(logs@),
            out@ + json_bytes(lv.skip(i as int)) == json_bytes(lv),
        decreases logs@.len() - i,
    {
        let ghost before = out@;
        let ghost t = lv.skip(i as int);
        let json: String = log_json(&logs[i]);
        bytes::push_bytes(&mut out, json.as_str().as_bytes());
        out.push(0x0au8);
        proof {
            assert(t[0] == logs@[i as int]@);
            assert(t.drop_first() =~= lv.skip(i as int + 1));
            assert(out@ + json_bytes(lv.skip(i as int + 1)) =~= before + json_bytes(t));
        }
        i += 1;
    }
    assert(lv.skip(i as int) =~= Seq::<LogView>::empty());
    assert(out@ + Seq::<u8>::empty() =~= out@);
    out
}

// ---------- reading ----------

/// The value of a field of a JSON object.
#[derive(Debug)]
pub enum JsonScalar {
    /// An integer from 0 to 2^64 - 1.
    Uint(u64),
    /// A string.
    Text(String),
    /// Any other value.
    Other,
}

/// What the value of a field says.
pub enum JsonView {
    Uint(u64),
    Text(Seq<char>),
    Other,
}

impl View for JsonScalar {
    type V = JsonView;

    open spec fn view(&self) -> JsonView {
        match self {
            JsonScalar::Uint(n) => JsonView::Uint(*n),
            JsonScalar::Text(s) => JsonView::Text(s@),
            JsonScalar::Other => JsonView::Other,
        }
    }
}

/// What the fields of an object say.
pub open spec fn field_views(v: Seq<(String, JsonScalar)>) -> Seq<(Seq<char>, JsonView)> {
    Seq::new(v.len(), |i: int| (v[i].0@, v[i].1@))
}

/// The fields of the JSON object that `serde_json` reads from a text, in order
/// of their names; nothing where the text is no JSON object.
pub uninterp spec fn json_object(text: Seq<char>) -> Option<Seq<(Seq<char>, JsonView)>>;

/// The fields of a log line, in order of their names.
pub open spec fn line_fields(l: LogView) -> Seq<(Seq<char>, JsonView)> {
    seq![
        (seq!['l'], JsonView::Text(l.level)),
        (seq!['m'], JsonView::Text(l.message)),
        (seq!['s'], JsonView::Text(l.service)),
        (seq!['t'], JsonView::Uint(l.ts)),
    ]
}

/// Calls `serde_json::from_str` for a `serde_json::Value` and takes the fields
/// of the object that comes out. The result depends on the text alone, and the
/// JSON object of a log line gives the four fields of that line.
#[verifier::external_body]
pub(crate) fn read_object(text: &str) -> (r: Option<Vec<(String, JsonScalar)>>)
    ensures
        r is Some ==> json_object(text@) == Some(field_views(r->0@)),
        r is None ==> json_object(text@) is None,
        forall|l: LogView|
            text@ == #[trigger] line_json(l) ==> r is Some && field_views(r->0@) == line_fields(l),
{
    let value: serde_json::Value = serde_json::from_str(text).ok()?;
    let mut out = Vec::new();
    for (k, v) in value.as_object()? {
        let scalar = match (v.as_u64(), v.as_str()) {
            (Some(n), _) => JsonScalar::Uint(n),
            (None, Some(s)) => JsonScalar::Text(s.to_string()),
            (None, None) => JsonScalar::Other,
        };
        out.push((k.clone(), scalar));
    }
    Some(out)
}

/// The field of that name.
pub open spec fn json_get(fields: Seq<(Seq<char>, JsonView)>, key: Seq<char>) -> Option<JsonView>
    decreases fields.len(),
{
    if fields.len() == 0 {
        None
    } else if fields[0].0 == key {
        Some(fields[0].1)
    } else {
        json_get(fields.drop_first(), key)
    }
}

/// The field of that name.
pub fn find_field<'a>(fields: &'a Vec<(String, JsonScalar)>, key: &str) -> (r: Option<
    &'a JsonScalar,
>)
    ensures
        match r {
            Some(v) => json_get(field_views(fields@), key@) == Some(v@),
            None => json_get(field_views(fields@), key@) is None,
        },
{
    let ghost fv = field_views(fields@);
    let mut i: usize = 0;
    assert(fv.skip(0) =~= fv);
    while i < fields.len()
        invariant
            i <= fields@.len(),
            fv == field_views(fields@),
            json_get(fv, key@) == json_get(fv.skip(i as int), key@),
        decreases fields@.len() - i,
    {
        assert(fv.skip(i as int)[0] == (fields@[i as int].0@, fields@[i as int].1@));
        assert(fv.skip(i as int).drop_first() =~= fv.skip(i as int + 1));
        if text::same_text(fields[i].0.as_str(), key) {
            return Some(&fields[i].1);
        }
        i += 1;
    }
    assert(fv.skip(i as int).len() == 0);
    None
}

/// The log line on a text line, if there is one.
pub open spec fn line_log(line: Seq<u8>) -> Option<LogView> {
    if !valid_utf8(line) || text::trimmed(decode_utf8(line)).len() == 0 {
        None
    } else {
        json_line::bytes_log(line)
    }
}

/// The log lines on text lines; text lines without one are left out.
pub open spec fn lines_logs(lines: Seq<Seq<u8>>) -> Seq<LogView>
    decreases lines.len(),
{
    if lines.len() == 0 {
        Seq::empty()
    } else {
        (match line_log(lines[0]) {
            Some(l) => seq![l],
            None => Seq::empty(),
        }) + lines_logs(lines.drop_first())
    }
}

proof fn lemma_json_chars(s: Seq<char>)
    ensures
        forall|i: int| 0 <= i < json_chars(s).len() ==> (#[trigger] json_chars(s)[i]) as u32 >= 0x20,
    decreases s.len(),
{
    if s.len() > 0 {
        lemma_json_chars(s.drop_last());
        let c: char = s.last();
        let a: Seq<char> = json_chars(s.drop_last());
        let e: Seq<char> = json_char(c);
        assert forall|i: int| 0 <= i < e.len() implies (#[trigger] e[i]) as u32 >= 0x20 by {
            if (c as u32) < 0x20 {
                let u: u32 = c as u32;
                numeral::lemma_digit_char((u / 16) as nat);
                numeral::lemma_digit_char((u % 16) as nat);
            }
        }
        assert forall|i: int| 0 <= i < json_chars(s).len() implies (#[trigger] json_chars(s)[i]) as u32 >= 0x20 by {
            if i < a.len() {
                assert(a[i] as u32 >= 0x20);
            } else {
                assert(e[i - a.len()] as u32 >= 0x20);
            }
        }
    }
}

proof fn lemma_numeral_printable(n: nat)
    ensures
        forall|i: int|
            0 <= i < numeral::numeral(n, 10).len() ==> (#[trigger] numeral::numeral(n, 10)[i]) as u32 >= 0x20,
    decreases n,
{
    if n >= 10 {
        lemma_numeral_printable(n / 10);
        let s: Seq<char> = numeral::numeral(n, 10);
        let t: Seq<char> = numeral::numeral(n / 10, 10);
        assert(s == t.push(numeral::digit_char(n % 10)));
        assert forall|i: int| 0 <= i < s.len() implies (#[trigger] s[i]) as u32 >= 0x20 by {
            if i < t.len() {
                assert(t[i] as u32 >= 0x20);
            }
        }
        numeral::lemma_digit_char(n % 10);
    } else {
        numeral::lemma_digit_char(n);
    }
}

/// The JSON object of a log line is printable and starts with a brace, and there is
/// no white space around it.
pub proof fn lemma_line_json(l: LogView)
    ensures
        lines::printable(encode_utf8(line_json(l))),
        text::trimmed(line_json(l)) == line_json(l),
        line_json(l).len() > 0,
        line_json(l)[0] == '{',
{
    let t: Seq<char> = line_json(l);
    lemma_numeral_printable(l.ts as nat);
    lemma_json_chars(l.service);
    lemma_json_chars(l.level);
    lemma_json_chars(l.message);
    assert forall|i: int| 0 <= i < t.len() implies (#[trigger] t[i]) as u32 >= 0x20 by {}
    lines::lemma_utf8_printable(t);
    assert(t[0] == '{');
    assert(t.last() == '}');
    assert(text::trim_start(t) == t);
    assert(text::trim_end(t) == t);
}

proof fn lemma_json_lines(ls: Seq<LogView>)
    ensures
        lines::byte_lines(json_bytes(ls)) == Seq::new(
            ls.len(),
            |i: int| encode_utf8(line_json(ls[i])),
        ),
    decreases ls.len(),
{
    let want: Seq<Seq<u8>> = Seq::new(ls.len(), |i: int| encode_utf8(line_json(ls[i])));
    if ls.len() == 0 {
        assert(want =~= Seq::<Seq<u8>>::empty());
    } else {
        let rest: Seq<LogView> = ls.drop_first();
        lemma_line_json(ls[0]);
        lemma_json_lines(rest);
        lines::lemma_first_line(encode_utf8(line_json(ls[0])), json_bytes(rest));
        assert(seq![encode_utf8(line_json(ls[0]))] + lines::byte_lines(json_bytes(rest)) =~= want);
    }
}

/// The JSON objects of log lines are valid UTF-8 and hold no zero byte.
pub proof fn lemma_json_text(ls: Seq<LogView>)
    ensures
        valid_utf8(json_bytes(ls)),
        forall|i: int| 0 <= i < json_bytes(ls).len() ==> #[trigger] json_bytes(ls)[i] != 0,
    decreases ls.len(),
{
    let b: Seq<u8> = json_bytes(ls);
    if ls.len() > 0 {
        let rest: Seq<LogView> = ls.drop_first();
        let t: Seq<char> = line_json(ls[0]);
        lemma_json_text(rest);
        lemma_line_json(ls[0]);
        let tail: Seq<char> = decode_utf8(json_bytes(rest));
        decode_utf8_encode_utf8(json_bytes(rest));
        lines::lemma_utf8_concat(t, seq!['\n']);
        lines::lemma_utf8_concat(t + seq!['\n'], tail);
        assert(encode_utf8(seq!['\n']) =~= seq![0x0au8]) by {
            assert(seq!['\n'].drop_first() =~= Seq::<char>::empty());
            assert(encode_utf8(seq!['\n'].drop_first()) =~= Seq::<u8>::empty());
            assert((0x0au32 & 0x7f) as u8 == 0x0a) by (bit_vector);
        }
        assert(b == encode_utf8(t + seq!['\n'] + tail));
        encode_utf8_valid_utf8(t + seq!['\n'] + tail);
        let e: Seq<u8> = encode_utf8(t);
        assert forall|i: int| 0 <= i < b.len() implies #[trigger] b[i] != 0 by {
            if i < e.len() {
                assert(e[i] >= 0x20);
            } else if i > e.len() {
                assert(json_bytes(rest)[i - e.len() - 1] != 0);
            }
        }
    }
}

proof fn lemma_lines_logs_back(ls: Seq<LogView>, lines: Seq<Seq<u8>>)
    requires
        lines.len() == ls.len(),
        forall|i: int| 0 <= i < ls.len() ==> #[trigger] lines[i] == encode_utf8(line_json(ls[i])),
        forall|i: int| 0 <= i < ls.len() ==> json_line::reads_back(
            encode_utf8(line_json(#[trigger] ls[i])),
        ),
    ensures
        lines_logs(lines) == ls,
    decreases ls.len(),
{
    if ls.len() == 0 {
        assert(ls =~= Seq::<LogView>::empty());
    } else {
        let t: Seq<char> = line_json(ls[0]);
        let rest: Seq<LogView> = ls.drop_first();
        assert(lines[0] == encode_utf8(t));
        text::lemma_utf8_roundtrip(t);
        lemma_line_json(ls[0]);
        assert(json_line::reads_back(encode_utf8(t)));
        assert forall|i: int| 0 <= i < rest.len() implies #[trigger] lines.drop_first()[i]
            == encode_utf8(line_json(rest[i])) by {
            assert(lines[i + 1] == encode_utf8(line_json(ls[i + 1])));
        }
        assert forall|i: int| 0 <= i < rest.len() implies json_line::reads_back(
            encode_utf8(line_json(#[trigger] rest[i])),
        ) by {
            assert(json_line::reads_back(encode_utf8(line_json(ls[i + 1]))));
        }
        lemma_lines_logs_back(rest, lines.drop_first());
        assert(seq![ls[0]] + rest =~= ls);
    }
}

/// The log lines among the text lines of `data`. Log lines written by
/// `logs_json` come back as they were.
pub fn read_logs(data: &[u8]) -> (r: Vec<LogLine>)
    ensures
        log::log_views(r@) == lines_logs(lines::byte_lines(data@)),
        forall|ls: Seq<LogView>|
            data@ == #[trigger] json_bytes(ls) ==> log::log_views(r@) == ls,
{
    let rows: Vec<Vec<u8>> = lines::split_lines(data);
    let ghost rv = lines::byte_lists(rows@);
    let mut out: Vec<LogLine> = Vec::new();
    let mut i: usize = 0;
    proof {
        assert(log::log_views(out@) =~= Seq::<LogView>::empty());
        assert(rv.skip(0) =~= rv);
        assert(log::log_views(out@) + lines_logs(rv) =~= lines_logs(rv));
    }
    while i < rows.len()
        invariant
            i <= rows@.len(),
            rv == lines::byte_lists(rows@),
            log::log_views(out@) + lines_logs(rv.skip(i as int)) == lines_logs(rv),
            forall|k: int|
                0 <= k < i && valid_utf8(#[trigger] rv[k]) && text::trimmed(
                    decode_utf8(rv[k]),
                ).len() > 0 ==> json_line::reads_back(rv[k]),
        decreases rows@.len() - i,
    {
        let ghost before = log::log_views(out@);
        let ghost tail = rv.skip(i as int);
        proof {
            assert(tail[0] == rows@[i as int]@);
            assert(tail.drop_first() =~= rv.skip(i as int + 1));
        }
        let row: &[u8] = rows[i].as_slice();
        match text::utf8_str(row) {
            None => {},
            Some(s) => {
                let bare: Vec<char> = text::trim_chars(&text::chars_of(s));
                proof {
                    decode_utf8_encode_utf8(row@);
                }
                if bare.len() > 0 {
                    match json_line::read_log(s) {
                        None => {},
                        Some(l) => {
                            let ghost lv = l@;
                            out.push(l);
                            assert(log::log_views(out@) =~= before.push(lv));
                        },
                    }
                }
            },
        }
        proof {
            match line_log(tail[0]) {
                Some(l) => {
                    assert(log::log_views(out@) =~= before.push(l));
                    assert(log::log_views(out@) + lines_logs(tail.drop_first()) =~= before + (
                    seq![l] + lines_logs(tail.drop_first())));
                },
                None => {
                    assert(log::log_views(out@) =~= before);
                    assert(Seq::<LogView>::empty() + lines_logs(tail.drop_first())
                        =~= lines_logs(tail.drop_first()));
                },
            }
        }
        i += 1;
    }
    proof {
        assert(rv.skip(i as int) =~= Seq::<Seq<u8>>::empty());
        assert(log::log_views(out@) + Seq::<LogView>::empty() =~= log::log_views(out@));
        assert forall|ls: Seq<LogView>| data@ == #[trigger] json_bytes(ls) implies log::log_views(
            out@,
        ) == ls by {
            lemma_json_lines(ls);
            assert forall|k: int| 0 <= k < ls.len() implies json_line::reads_back(
                encode_utf8(line_json(#[trigger] ls[k])),
            ) by {
                assert(rv[k] == encode_utf8(line_json(ls[k])));
                text::lemma_utf8_roundtrip(line_json(ls[k]));
                lemma_line_json(ls[k]);
            }
            lemma_lines_logs_back(ls, rv);
        }
    }
    out
}

} // verus!
