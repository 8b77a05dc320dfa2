//! Reading log lines from JSON text: an object with the fields `t`, `s`, `l` and
//! `m`, each named once, or an array of the four values. Other fields of an
//! object are passed over.

use crate::agent::json;
use crate::shared::lines;
use crate::shared::log::{LogLine, LogView};
use crate::shared::numeral;
use crate::shared::text;
use vstd::prelude::*;
use vstd::string::*;
use vstd::utf8::*;

verus! {

// ---------- JSON values ----------

/// Where the JSON value at the front of `data` ends, as `serde_json` passes over
/// it; nothing where no JSON value stands there.
pub uninterp spec fn json_value_end(data: Seq<u8>) -> Option<nat>;

/// The text of the JSON string that `data` is; nothing where it is none.
pub uninterp spec fn json_text(data: Seq<u8>) -> Option<Seq<char>>;

/// The number from 0 to 2^64 - 1 that `data` is in JSON; nothing where it is
/// none.
pub uninterp spec fn json_uint(data: Seq<u8>) -> Option<u64>;

/// The number and the three texts that `serde_json` reads from a JSON array of
/// these four; nothing where the text is no such array.
pub uninterp spec fn json_row(text: Seq<char>) -> Option<LogView>;

/// The bytes of a text as a JSON string.
pub open spec fn string_bytes(s: Seq<char>) -> Seq<u8> {
    encode_utf8(json::json_string(s))
}

/// The digits of a number.
pub open spec fn number_bytes(n: u64) -> Seq<u8> {
    encode_utf8(numeral::numeral(n as nat, 10))
}

/// `data` is the bytes of a text as a JSON string, and `rest`.
pub open spec fn is_string_then(data: Seq<u8>, s: Seq<char>, rest: Seq<u8>) -> bool {
    data == string_bytes(s) + rest
}

/// `data` is the digits of a number, and `rest`, which starts with a comma.
pub open spec fn is_number_then(data: Seq<u8>, n: u64, rest: Seq<u8>) -> bool {
    data == number_bytes(n) + rest && rest.len() > 0 && rest[0] == 0x2c
}

/// Reads one `serde::de::IgnoredAny` from the stream of JSON values that
/// `serde_json::Deserializer::from_slice` gives, and takes its `byte_offset`. The
/// result depends on the data alone. A JSON string ends with its closing
/// quotation mark, and a number before a comma ends there.
#[verifier::external_body]
fn value_end(data: &[u8]) -> (r: Option<usize>)
    ensures
        match r {
            Some(n) => json_value_end(data@) == Some(n as nat) && 0 < n <= data@.len(),
            None => json_value_end(data@) is None,
        },
        forall|s: Seq<char>, rest: Seq<u8>| #[trigger]
            is_string_then(data@, s, rest) ==> r is Some && r->0 == string_bytes(s).len(),
        forall|n: u64, rest: Seq<u8>| #[trigger]
            is_number_then(data@, n, rest) ==> r is Some && r->0 == number_bytes(n).len(),
{
    let de = serde_json::Deserializer::from_slice(data);
    let mut values = de.into_iter::<serde::de::IgnoredAny>();
    match values.next() {
        Some(Ok(_)) => Some(values.byte_offset()),
        _ => None,
    }
}

/// Calls `serde_json::from_slice` for a `String`. The result depends on the data
/// alone, and a text as a JSON string gives that text.
#[verifier::external_body]
fn read_text(data: &[u8]) -> (r: Option<String>)
    ensures
        match r {
            Some(s) => json_text(data@) == Some(s@),
            None => json_text(data@) is None,
        },
        forall|s: Seq<char>|
            data@ == #[trigger] string_bytes(s) ==> r is Some && r->0@ == s,
{
    serde_json::from_slice(data).ok()
}

/// Calls `serde_json::from_slice` for a `u64`. The result depends on the data
/// alone, and the digits of a number give that number.
#[verifier::external_body]
fn read_uint(data: &[u8]) -> (r: Option<u64>)
    ensures
        r == json_uint(data@),
        forall|n: u64| data@ == #[trigger] number_bytes(n) ==> r == Some(n),
{
    serde_json::from_slice(data).ok()
}

/// Calls `serde_json::from_str` for a number and three texts. The result depends
/// on the text alone.
#[verifier::external_body]
fn read_row(text: &str) -> (r: Option<(u64, String, String, String)>)
    ensures
        match r {
            Some(v) => json_row(text@) == Some(
                LogView { ts: v.0, service: v.1@, level: v.2@, message: v.3@ },
            ),
            None => json_row(text@) is None,
        },
{
    serde_json::from_str(text).ok()
}

// ---------- the members of an object ----------

/// White space in JSON.
pub open spec fn is_blank(c: u8) -> bool {
    c == 0x20 || c == 0x09 || c == 0x0a || c == 0x0d
}

/// The first position from `i` on without white space.
pub open spec fn past_blanks(b: Seq<u8>, i: nat) -> nat
    decreases b.len() - i,
{
    if i < b.len() && is_blank(b[i as int]) {
        past_blanks(b, i + 1)
    } else {
        i
    }
}

/// The byte `c` stands at position `i`.
pub open spec fn has_at(b: Seq<u8>, i: nat, c: u8) -> bool {
    i < b.len() && b[i as int] == c
}

/// A member of an object: its name, the bytes of its value, and the position
/// behind it.
pub struct MemberView {
    pub key: Seq<char>,
    pub value: Seq<u8>,
    pub end: nat,
}

/// The member at position `i`: a string, a colon and a value.
pub open spec fn member_at(b: Seq<u8>, i: nat) -> Option<MemberView> {
    if !has_at(b, past_blanks(b, i), 0x22) {
        None
    } else {
        match json_value_end(b.skip(i as int)) {
            None => None,
            Some(n) => {
                let colon: nat = past_blanks(b, i + n);
                let from: nat = colon + 1;
                match json_text(b.subrange(i as int, (i + n) as int)) {
                    None => None,
                    Some(key) => if !has_at(b, colon, 0x3a) {
                        None
                    } else {
                        match json_value_end(b.skip(from as int)) {
                            None => None,
                            Some(k) => Some(
                                MemberView {
                                    key,
                                    value: b.subrange(from as int, (from + k) as int),
                                    end: from + k,
                                },
                            ),
                        }
                    },
                }
            },
        }
    }
}

proof fn lemma_past_blanks(b: Seq<u8>, i: nat)
    ensures
        i <= past_blanks(b, i),
        i <= b.len() ==> past_blanks(b, i) <= b.len(),
    decreases b.len() - i,
{
    if i < b.len() && is_blank(b[i as int]) {
        lemma_past_blanks(b, i + 1);
    }
}

pub proof fn lemma_member_end(b: Seq<u8>, i: nat)
    ensures
        member_at(b, i) matches Some(m) ==> i < m.end <= past_blanks(b, m.end),
{
    if let Some(m) = member_at(b, i) {
        let n: nat = json_value_end(b.skip(i as int))->0;
        lemma_past_blanks(b, i + n);
        lemma_past_blanks(b, m.end);
    }
}

/// Nothing but white space stands from position `i` on.
pub open spec fn ends_at(b: Seq<u8>, i: nat) -> bool {
    past_blanks(b, i) == b.len()
}

/// The members from position `i` up to the closing brace, behind which nothing
/// but white space stands.
pub open spec fn members_from(b: Seq<u8>, i: nat) -> Option<Seq<(Seq<char>, Seq<u8>)>>
    decreases b.len() - i,
{
    match member_at(b, i) {
        None => None,
        Some(m) => {
            let e: nat = past_blanks(b, m.end);
            if has_at(b, e, 0x2c) {
                proof {
                    lemma_member_end(b, i);
                }
                match members_from(b, e + 1) {
                    None => None,
                    Some(rest) => Some(seq![(m.key, m.value)] + rest),
                }
            } else if has_at(b, e, 0x7d) && ends_at(b, e + 1) {
                Some(seq![(m.key, m.value)])
            } else {
                None
            }
        },
    }
}

/// The members of the JSON object that the bytes are, in their order; nothing
/// where they are none.
pub open spec fn object_members(b: Seq<u8>) -> Option<Seq<(Seq<char>, Seq<u8>)>> {
    let s: nat = past_blanks(b, 0);
    let t: nat = past_blanks(b, s + 1);
    if !has_at(b, s, 0x7b) {
        None
    } else if has_at(b, t, 0x7d) {
        if ends_at(b, t + 1) {
            Some(Seq::empty())
        } else {
            None
        }
    } else {
        members_from(b, s + 1)
    }
}

// ---------- the log line ----------

/// A member has that name.
pub open spec fn is_named(ms: Seq<(Seq<char>, Seq<u8>)>, key: Seq<char>) -> bool {
    exists|i: int| 0 <= i < ms.len() && (#[trigger] ms[i]).0 == key
}

/// The value of the only member with that name; nothing where there is none, or
/// more than one.
pub open spec fn sole_value(ms: Seq<(Seq<char>, Seq<u8>)>, key: Seq<char>) -> Option<Seq<u8>>
    decreases ms.len(),
{
    if ms.len() == 0 {
        None
    } else if ms.last().0 != key {
        sole_value(ms.drop_last(), key)
    } else if is_named(ms.drop_last(), key) {
        None
    } else {
        Some(ms.last().1)
    }
}

/// The text of the only member with that name.
pub open spec fn sole_text(ms: Seq<(Seq<char>, Seq<u8>)>, key: Seq<char>) -> Option<Seq<char>> {
    match sole_value(ms, key) {
        Some(v) => json_text(v),
        None => None,
    }
}

/// The number of the only member with that name.
pub open spec fn sole_uint(ms: Seq<(Seq<char>, Seq<u8>)>, key: Seq<char>) -> Option<u64> {
    match sole_value(ms, key) {
        Some(v) => json_uint(v),
        None => None,
    }
}

/// The log line that the members of an object stand for; nothing unless `t`, a
/// number, and `s`, `l` and `m`, texts, are each named once.
pub open spec fn members_log(ms: Seq<(Seq<char>, Seq<u8>)>) -> Option<LogView> {
    match (
        sole_uint(ms, seq!['t']),
        sole_text(ms, seq!['s']),
        sole_text(ms, seq!['l']),
        sole_text(ms, seq!['m']),
    ) {
        (Some(ts), Some(service), Some(level), Some(message)) => Some(
            LogView { ts, service, level, message },
        ),
        _ => None,
    }
}

/// The log line that UTF-8 text stands for: an object with its four fields, or
/// an array of them in the order of time, service, level and message.
pub open spec fn bytes_log(b: Seq<u8>) -> Option<LogView> {
    match object_members(b) {
        Some(ms) => members_log(ms),
        None => json_row(decode_utf8(b)),
    }
}

/// The JSON object of a log line is read as that line.
pub open spec fn reads_back(b: Seq<u8>) -> bool {
    forall|l: LogView| b == encode_utf8(#[trigger] json::line_json(l)) ==> bytes_log(b) == Some(l)
}

// ---------- the object of a log line ----------

/// The names of the members in the JSON object of a log line.
pub open spec fn own_key(j: int) -> Seq<char> {
    if j == 0 {
        seq!['t']
    } else if j == 1 {
        seq!['s']
    } else if j == 2 {
        seq!['l']
    } else {
        seq!['m']
    }
}

/// The values of the members in the JSON object of a log line.
pub open spec fn own_value(l: LogView, j: int) -> Seq<u8> {
    if j == 0 {
        number_bytes(l.ts)
    } else if j == 1 {
        string_bytes(l.service)
    } else if j == 2 {
        string_bytes(l.level)
    } else {
        string_bytes(l.message)
    }
}

/// The bytes from member `j` on in the JSON object of a log line.
pub open spec fn own_tail(l: LogView, j: int) -> Seq<u8>
    decreases 4 - j,
{
    string_bytes(own_key(j)) + (seq![0x3au8] + (own_value(l, j) + (if j >= 3 {
        seq![0x7du8]
    } else {
        seq![0x2cu8] + own_tail(l, j + 1)
    })))
}

/// The bytes behind the value of member `j` in the JSON object of a log line.
pub open spec fn own_rest(l: LogView, j: int) -> Seq<u8> {
    if j >= 3 {
        seq![0x7du8]
    } else {
        seq![0x2cu8] + own_tail(l, j + 1)
    }
}

/// The members in the JSON object of a log line.
pub open spec fn own_members(l: LogView) -> Seq<(Seq<char>, Seq<u8>)> {
    Seq::new(4, |j: int| (own_key(j), own_value(l, j)))
}

proof fn lemma_ascii(c: char)
    requires
        (c as u32) < 0x80,
    ensures
        encode_utf8(seq![c]) == seq![c as u8],
{
    let u: u32 = c as u32;
    assert(seq![c].drop_first() =~= Seq::<char>::empty());
    assert(encode_utf8(seq![c].drop_first()) =~= Seq::<u8>::empty());
    assert((u & 0x7f) as u8 == u as u8) by (bit_vector)
        requires
            u < 0x80,
    ;
    assert(encode_utf8(seq![c]) =~= seq![c as u8]);
}

proof fn lemma_own_key(j: int)
    requires
        0 <= j < 4,
    ensures
        string_bytes(own_key(j)).len() == 3,
        string_bytes(own_key(j))[0] == 0x22,
{
    let c: char = own_key(j)[0];
    let t: Seq<char> = json::json_string(own_key(j));
    assert(own_key(j) =~= seq![c]);
    assert(seq![c].drop_last() =~= Seq::<char>::empty());
    assert(json::json_chars(seq![c].drop_last()) =~= Seq::<char>::empty());
    assert(json::json_chars(seq![c]) =~= seq![c]);
    assert(t =~= seq!['"'] + seq![c] + seq!['"']);
    lines::lemma_utf8_concat(seq!['"'], seq![c]);
    lines::lemma_utf8_concat(seq!['"'] + seq![c], seq!['"']);
    lemma_ascii('"');
    lemma_ascii(c);
}

/// The JSON object of a log line is a brace and its members.
proof fn lemma_own_object(l: LogView)
    ensures
        encode_utf8(json::line_json(l)) == seq![0x7bu8] + own_tail(l, 0),
{
    let n: Seq<char> = numeral::numeral(l.ts as nat, 10);
    let s: Seq<char> = json::json_string(l.service);
    let v: Seq<char> = json::json_string(l.level);
    let m: Seq<char> = json::json_string(l.message);
    lemma_member_head('{', 0);
    lemma_member_head(',', 1);
    lemma_member_head(',', 2);
    lemma_member_head(',', 3);
    lemma_ascii('}');
    let a: Seq<char> = seq!['{', '"', 't', '"', ':'];
    let b: Seq<char> = seq![',', '"', 's', '"', ':'];
    let c: Seq<char> = seq![',', '"', 'l', '"', ':'];
    let d: Seq<char> = seq![',', '"', 'm', '"', ':'];
    let e: Seq<char> = seq!['}'];
    lines::lemma_utf8_concat(a, n);
    lines::lemma_utf8_concat(a + n, b);
    lines::lemma_utf8_concat(a + n + b, s);
    lines::lemma_utf8_concat(a + n + b + s, c);
    lines::lemma_utf8_concat(a + n + b + s + c, v);
    lines::lemma_utf8_concat(a + n + b + s + c + v, d);
    lines::lemma_utf8_concat(a + n + b + s + c + v + d, m);
    lines::lemma_utf8_concat(a + n + b + s + c + v + d + m, e);
    let t3: Seq<u8> = own_tail(l, 3);
    let t2: Seq<u8> = own_tail(l, 2);
    let t1: Seq<u8> = own_tail(l, 1);
    let k: spec_fn(int) -> Seq<u8> = |j: int| string_bytes(own_key(j)) + seq![0x3au8];
    assert(t3 =~= k(3) + own_value(l, 3) + seq![0x7du8]);
    assert(t2 =~= k(2) + own_value(l, 2) + seq![0x2cu8] + t3);
    assert(t1 =~= k(1) + own_value(l, 1) + seq![0x2cu8] + t2);
    assert(own_tail(l, 0) =~= k(0) + own_value(l, 0) + seq![0x2cu8] + t1);
    assert(encode_utf8(json::line_json(l)) =~= seq![0x7bu8] + own_tail(l, 0));
}

proof fn lemma_member_head(first: char, j: int)
    requires
        0 <= j < 4,
        (first as u32) < 0x80,
    ensures
        encode_utf8(seq![first, '"', own_key(j)[0], '"', ':']) == seq![first as u8] + (string_bytes(
            own_key(j),
        ) + seq![0x3au8]),
{
    let c: char = own_key(j)[0];
    let t: Seq<char> = json::json_string(own_key(j));
    assert(own_key(j) =~= seq![c]);
    assert(seq![c].drop_last() =~= Seq::<char>::empty());
    assert(json::json_chars(seq![c].drop_last()) =~= Seq::<char>::empty());
    assert(json::json_chars(seq![c]) =~= seq![c]);
    assert(t =~= seq!['"', c, '"']);
    lines::lemma_utf8_concat(seq![first], t);
    lines::lemma_utf8_concat(seq![first] + t, seq![':']);
    lemma_ascii(first);
    lemma_ascii(':');
    assert(seq![first] + t + seq![':'] =~= seq![first, '"', c, '"', ':']);
    assert(encode_utf8(seq![first, '"', c, '"', ':']) =~= seq![first as u8] + (string_bytes(
        own_key(j),
    ) + seq![0x3au8]));
}

// ---------- reading ----------

fn skip_blanks(b: &[u8], i: usize) -> (r: usize)
    requires
        i <= b@.len(),
    ensures
        r == past_blanks(b@, i as nat),
        i <= r <= b@.len(),
{
    let mut k: usize = i;
    while k < b.len() && (b[k] == 0x20 || b[k] == 0x09 || b[k] == 0x0a || b[k] == 0x0d)
        invariant
            i <= k <= b@.len(),
            past_blanks(b@, i as nat) == past_blanks(b@, k as nat),
        decreases b@.len() - k,
    {
        k += 1;
    }
    k
}

/// A member of an object: its name, the bytes of its value, and the position
/// behind it.
struct Member {
    key: String,
    value: Vec<u8>,
    end: usize,
}

/// Reads the member at position `i`.
fn read_member(b: &[u8], i: usize) -> (r: Option<Member>)
    requires
        i <= b@.len(),
    ensures
        match r {
            Some(m) => member_at(b@, i as nat) == Some(
                MemberView { key: m.key@, value: m.value@, end: m.end as nat },
            ) && m.end <= b@.len(),
            None => member_at(b@, i as nat) is None,
        },
        forall|l: LogView, j: int|
            0 <= j < 4 && b@.skip(i as int) == #[trigger] own_tail(l, j) ==> {
                &&& r is Some
                &&& r->0.key@ == own_key(j)
                &&& r->0.value@ == own_value(l, j)
                &&& b@.skip(r->0.end as int) == own_rest(l, j)
            },
{
    let n: usize = b.len();
    let start: usize = skip_blanks(b, i);
    proof {
        assert forall|l: LogView, j: int|
            0 <= j < 4 && b@.skip(i as int) == #[trigger] own_tail(l, j) implies i < n && b@[i as int]
            == 0x22 by {
            lemma_own_key(j);
            assert(own_tail(l, j).len() >= 3);
            assert(own_tail(l, j)[0] == string_bytes(own_key(j))[0]);
            assert(b@.skip(i as int)[0] == b@[i as int]);
        }
    }
    if start >= n || b[start] != 0x22 {
        return None;
    }
    let front: &[u8] = vstd::slice::slice_subrange(b, i, n);
    assert(front@ =~= b@.skip(i as int));
    let found: Option<usize> = value_end(front);
    proof {
        assert forall|l: LogView, j: int|
            0 <= j < 4 && b@.skip(i as int) == #[trigger] own_tail(l, j) implies found == Some(
            3usize,
        ) by {
            lemma_own_key(j);
            assert(is_string_then(
                front@,
                own_key(j),
                seq![0x3au8] + (own_value(l, j) + own_rest(l, j)),
            ));
        }
    }
    let k: usize = match found {
        Some(k) => k,
        None => {
            return None;
        },
    };
    let name: &[u8] = vstd::slice::slice_subrange(b, i, i + k);
    let key: Option<String> = read_text(name);
    proof {
        assert forall|l: LogView, j: int|
            0 <= j < 4 && b@.skip(i as int) == #[trigger] own_tail(l, j) implies key is Some
            && key->0@ == own_key(j) && i + 3 < n && b@[i + 3] == 0x3a by {
            lemma_own_key(j);
            assert(name@ =~= b@.skip(i as int).take(3));
            assert(own_tail(l, j).take(3) =~= string_bytes(own_key(j)));
            assert(b@.skip(i as int)[3] == 0x3a);
        }
    }
    let key: String = match key {
        Some(key) => key,
        None => {
            return None;
        },
    };
    let colon: usize = skip_blanks(b, i + k);
    if colon >= n || b[colon] != 0x3a {
        return None;
    }
    let from: usize = colon + 1;
    let rest: &[u8] = vstd::slice::slice_subrange(b, from, n);
    assert(rest@ =~= b@.skip(from as int));
    let found: Option<usize> = value_end(rest);
    proof {
        assert forall|l: LogView, j: int|
            0 <= j < 4 && b@.skip(i as int) == #[trigger] own_tail(l, j) implies {
            &&& rest@ == own_value(l, j) + own_rest(l, j)
            &&& found is Some && found->0 == own_value(l, j).len()
        } by {
            lemma_own_key(j);
            let v: Seq<u8> = own_value(l, j);
            let after: Seq<u8> = own_rest(l, j);
            assert(from == i + 4);
            assert(own_tail(l, j).skip(4) =~= v + after);
            assert(rest@ =~= b@.skip(i as int).skip(4));
            if j == 0 {
                assert(is_number_then(rest@, l.ts, after));
            } else if j == 1 {
                assert(is_string_then(rest@, l.service, after));
            } else if j == 2 {
                assert(is_string_then(rest@, l.level, after));
            } else {
                assert(is_string_then(rest@, l.message, after));
            }
        }
    }
    match found {
        None => None,
        Some(len) => {
            let end: usize = from + len;
            let value: Vec<u8> = vstd::slice::slice_to_vec(vstd::slice::slice_subrange(b, from, end));
            proof {
                assert forall|l: LogView, j: int|
                    0 <= j < 4 && b@.skip(i as int) == #[trigger] own_tail(l, j) implies {
                    &&& value@ == own_value(l, j)
                    &&& b@.skip(end as int) == own_rest(l, j)
                } by {
                    let v: Seq<u8> = own_value(l, j);
                    assert(value@ =~= rest@.take(v.len() as int));
                    assert((v + own_rest(l, j)).take(v.len() as int) =~= v);
                    assert(b@.skip(end as int) =~= rest@.skip(v.len() as int));
                    assert((v + own_rest(l, j)).skip(v.len() as int) =~= own_rest(l, j));
                }
            }
            Some(Member { key, value, end })
        },
    }
}

/// What a list of members is.
pub open spec fn member_views(v: Seq<(String, Vec<u8>)>) -> Seq<(Seq<char>, Seq<u8>)> {
    Seq::new(v.len(), |i: int| (v[i].0@, v[i].1@))
}

/// The members, and those that follow.
pub open spec fn joined(
    ms: Seq<(Seq<char>, Seq<u8>)>,
    more: Option<Seq<(Seq<char>, Seq<u8>)>>,
) -> Option<Seq<(Seq<char>, Seq<u8>)>> {
    match more {
        Some(rest) => Some(ms + rest),
        None => None,
    }
}

/// Reads the members of an object.
fn read_members(b: &[u8]) -> (r: Option<Vec<(String, Vec<u8>)>>)
    ensures
        match r {
            Some(v) => object_members(b@) == Some(member_views(v@)),
            None => object_members(b@) is None,
        },
        forall|l: LogView|
            b@ == encode_utf8(#[trigger] json::line_json(l)) ==> r is Some && member_views(r->0@)
                == own_members(l),
{
    let n: usize = b.len();
    let s: usize = skip_blanks(b, 0);
    proof {
        assert forall|l: LogView| b@ == encode_utf8(#[trigger] json::line_json(l)) implies {
            &&& 1 < n && b@[0] == 0x7b && b@[1] == 0x22
            &&& b@.skip(1) == own_tail(l, 0)
        } by {
            lemma_own_object(l);
            lemma_own_key(0);
            assert(b@.skip(1) =~= own_tail(l, 0));
            assert(b@.skip(1)[0] == 0x22);
        }
    }
    if s >= n || b[s] != 0x7b {
        return None;
    }
    let t: usize = skip_blanks(b, s + 1);
    let mut out: Vec<(String, Vec<u8>)> = Vec::new();
    assert(member_views(out@) =~= Seq::<(Seq<char>, Seq<u8>)>::empty());
    if t < n && b[t] == 0x7d {
        let end: usize = skip_blanks(b, t + 1);
        if end == n {
            return Some(out);
        }
        return None;
    }
    let ghost all = object_members(b@);
    let mut i: usize = s + 1;
    proof {
        if let Some(rest) = members_from(b@, i as nat) {
            assert(member_views(out@) + rest =~= rest);
        }
    }
    loop
        invariant
            i <= b@.len(),
            n == b@.len(),
            all == object_members(b@),
            all == joined(member_views(out@), members_from(b@, i as nat)),
            forall|l: LogView|
                b@ == encode_utf8(#[trigger] json::line_json(l)) ==> {
                    &&& out@.len() < 4
                    &&& member_views(out@) == own_members(l).take(out@.len() as int)
                    &&& b@.skip(i as int) == own_tail(l, out@.len() as int)
                },
        decreases b@.len() - i,
    {
        let ghost before = member_views(out@);
        let ghost j: int = out@.len() as int;
        let m: Member = match read_member(b, i) {
            Some(m) => m,
            None => {
                return None;
            },
        };
        let e: usize = skip_blanks(b, m.end);
        let end: usize = m.end;
        let ghost pair = (m.key@, m.value@);
        proof {
            lemma_member_end(b@, i as nat);
        }
        out.push((m.key, m.value));
        proof {
            assert(member_views(out@) =~= before.push(pair));
            assert forall|l: LogView| b@ == encode_utf8(#[trigger] json::line_json(l)) implies {
                &&& member_views(out@) == own_members(l).take(j + 1)
                &&& b@.skip(end as int) == own_rest(l, j)
                &&& e == end && e < n
                &&& j < 3 ==> b@[e as int] == 0x2c && b@.skip(e + 1) == own_tail(l, j + 1)
                &&& j == 3 ==> b@[e as int] == 0x7d && e + 1 == n
            } by {
                assert(b@.skip(i as int) == own_tail(l, j));
                assert(own_members(l).take(j + 1) =~= own_members(l).take(j).push(
                    (own_key(j), own_value(l, j)),
                ));
                assert(b@.skip(end as int) == own_rest(l, j));
                assert(own_rest(l, j)[0] == b@[end as int]);
                if j < 3 {
                    assert(b@.skip(end + 1) =~= own_rest(l, j).skip(1));
                    assert(own_rest(l, j).skip(1) =~= own_tail(l, j + 1));
                }
            }
        }
        if e < n && b[e] == 0x2c {
            proof {
                if let Some(rest) = members_from(b@, (e + 1) as nat) {
                    assert(before + (seq![pair] + rest) =~= before.push(pair) + rest);
                }
            }
            i = e + 1;
        } else if e < n && b[e] == 0x7d {
            let last: usize = skip_blanks(b, e + 1);
            proof {
                assert(before + seq![pair] =~= before.push(pair));
                assert forall|l: LogView| b@ == encode_utf8(
                    #[trigger] json::line_json(l),
                ) implies member_views(out@) == own_members(l) && last == n by {
                    assert(own_members(l).take(4) =~= own_members(l));
                }
            }
            if last == n {
                return Some(out);
            }
            return None;
        } else {
            return None;
        }
    }
}

proof fn lemma_sole(ms: Seq<(Seq<char>, Seq<u8>)>, key: Seq<char>, i: int)
    requires
        0 <= i < ms.len(),
        ms[i].0 == key,
        forall|k: int| 0 <= k < ms.len() && k != i ==> (#[trigger] ms[k]).0 != key,
    ensures
        sole_value(ms, key) == Some(ms[i].1),
    decreases ms.len(),
{
    let t: Seq<(Seq<char>, Seq<u8>)> = ms.drop_last();
    if i < t.len() {
        assert(ms[ms.len() - 1].0 != key);
        assert forall|k: int| 0 <= k < t.len() && k != i implies (#[trigger] t[k]).0 != key by {
            assert(ms[k].0 != key);
        }
        lemma_sole(t, key, i);
    } else if is_named(t, key) {
        let k: int = choose|k: int| 0 <= k < t.len() && (#[trigger] t[k]).0 == key;
        assert(ms[k].0 != key);
    }
}

proof fn lemma_not_sole(ms: Seq<(Seq<char>, Seq<u8>)>, key: Seq<char>, i: int, j: int)
    requires
        0 <= i < j < ms.len(),
        ms[i].0 == key,
        ms[j].0 == key,
    ensures
        sole_value(ms, key) is None,
    decreases ms.len(),
{
    let t: Seq<(Seq<char>, Seq<u8>)> = ms.drop_last();
    assert(t[i] == ms[i]);
    if j < t.len() {
        assert(t[j] == ms[j]);
        if ms.last().0 != key {
            lemma_not_sole(t, key, i, j);
        }
    }
}

proof fn lemma_unnamed(ms: Seq<(Seq<char>, Seq<u8>)>, key: Seq<char>)
    requires
        forall|k: int| 0 <= k < ms.len() ==> (#[trigger] ms[k]).0 != key,
    ensures
        sole_value(ms, key) is None,
    decreases ms.len(),
{
    if ms.len() > 0 {
        let t: Seq<(Seq<char>, Seq<u8>)> = ms.drop_last();
        assert forall|k: int| 0 <= k < t.len() implies (#[trigger] t[k]).0 != key by {
            assert(ms[k].0 != key);
        }
        lemma_unnamed(t, key);
        assert(ms[ms.len() - 1].0 != key);
    }
}

/// The value of the only member with that name.
pub fn find_sole<'a>(ms: &'a Vec<(String, Vec<u8>)>, key: &str) -> (r: Option<&'a [u8]>)
    ensures
        match r {
            Some(v) => sole_value(member_views(ms@), key@) == Some(v@),
            None => sole_value(member_views(ms@), key@) is None,
        },
{
    let ghost mv = member_views(ms@);
    let mut at: Option<usize> = None;
    let mut i: usize = 0;
    while i < ms.len()
        invariant
            i <= ms@.len(),
            mv == member_views(ms@),
            match at {
                None => forall|k: int| 0 <= k < i ==> (#[trigger] mv[k]).0 != key@,
                Some(p) => p < i && mv[p as int].0 == key@ && forall|k: int|
                    0 <= k < i && k != p ==> (#[trigger] mv[k]).0 != key@,
            },
        decreases ms@.len() - i,
    {
        assert(mv[i as int] == (ms@[i as int].0@, ms@[i as int].1@));
        if text::same_text(ms[i].0.as_str(), key) {
            if let Some(p) = at {
                proof {
                    lemma_not_sole(mv, key@, p as int, i as int);
                }
                return None;
            }
            at = Some(i);
        }
        i += 1;
    }
    match at {
        None => {
            proof {
                lemma_unnamed(mv, key@);
            }
            None
        },
        Some(p) => {
            proof {
                lemma_sole(mv, key@, p as int);
            }
            Some(ms[p].1.as_slice())
        },
    }
}

proof fn lemma_own_sole(l: LogView, j: int)
    requires
        0 <= j < 4,
    ensures
        sole_value(own_members(l), own_key(j)) == Some(own_value(l, j)),
{
    let ms: Seq<(Seq<char>, Seq<u8>)> = own_members(l);
    assert forall|k: int| 0 <= k < ms.len() && k != j implies (#[trigger] ms[k]).0 != own_key(j) by {
        assert(own_key(k)[0] != own_key(j)[0]);
    }
    lemma_sole(ms, own_key(j), j);
}

fn text_member(ms: &Vec<(String, Vec<u8>)>, key: &str) -> (r: Option<String>)
    ensures
        match r {
            Some(s) => sole_text(member_views(ms@), key@) == Some(s@),
            None => sole_text(member_views(ms@), key@) is None,
        },
        forall|s: Seq<char>|
            sole_value(member_views(ms@), key@) == Some(#[trigger] string_bytes(s)) ==> r is Some
                && r->0@ == s,
{
    match find_sole(ms, key) {
        None => None,
        Some(v) => read_text(v),
    }
}

fn uint_member(ms: &Vec<(String, Vec<u8>)>, key: &str) -> (r: Option<u64>)
    ensures
        r == sole_uint(member_views(ms@), key@),
        forall|n: u64|
            sole_value(member_views(ms@), key@) == Some(#[trigger] number_bytes(n)) ==> r == Some(
                n,
            ),
{
    match find_sole(ms, key) {
        None => None,
        Some(v) => read_uint(v),
    }
}

/// The log line that the members of an object stand for.
fn log_of_members(ms: &Vec<(String, Vec<u8>)>) -> (r: Option<LogLine>)
    ensures
        match r {
            Some(l) => members_log(member_views(ms@)) == Some(l@),
            None => members_log(member_views(ms@)) is None,
        },
        forall|l: LogView|
            member_views(ms@) == #[trigger] own_members(l) ==> r is Some && r->0@ == l,
{
    proof {
        reveal_strlit("t");
        reveal_strlit("s");
        reveal_strlit("l");
        reveal_strlit("m");
        assert("t"@ =~= seq!['t']);
        assert("s"@ =~= seq!['s']);
        assert("l"@ =~= seq!['l']);
        assert("m"@ =~= seq!['m']);
    }
    let t: Option<u64> = uint_member(ms, "t");
    let s: Option<String> = text_member(ms, "s");
    let v: Option<String> = text_member(ms, "l");
    let m: Option<String> = text_member(ms, "m");
    proof {
        assert forall|l: LogView| member_views(ms@) == #[trigger] own_members(l) implies {
            &&& t == Some(l.ts)
            &&& s is Some && s->0@ == l.service
            &&& v is Some && v->0@ == l.level
            &&& m is Some && m->0@ == l.message
        } by {
            lemma_own_sole(l, 0);
            lemma_own_sole(l, 1);
            lemma_own_sole(l, 2);
            lemma_own_sole(l, 3);
        }
    }
    match (t, s, v, m) {
        (Some(ts), Some(service), Some(level), Some(message)) => Some(
            LogLine { ts, service, level, message },
        ),
        _ => None,
    }
}

/// The log line that UTF-8 text stands for. The JSON object of a log line gives
/// that line.
pub fn read_log(line: &str) -> (r: Option<LogLine>)
    ensures
        match r {
            Some(l) => bytes_log(line.spec_bytes()) == Some(l@),
            None => bytes_log(line.spec_bytes()) is None,
        },
        reads_back(line.spec_bytes()),
{
    let b: &[u8] = line.as_bytes();
    proof {
        text::lemma_utf8_roundtrip(line@);
    }
    match read_members(b) {
        Some(ms) => log_of_members(&ms),
        None => match read_row(line) {
            Some((ts, service, level, message)) => Some(LogLine { ts, service, level, message }),
            None => None,
        },
    }
}

} // verus!
