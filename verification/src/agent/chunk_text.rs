//! Writing the lines of a chunk.
//!
//! ```text
//! times     1 + count + first + step, or 0 + count + first + steps
//! levels    two bits for each line
//! services  0 + name, or 1/2 + names + indices of one/two bytes
//! records   count, then for each line: template number, parameter count,
//!           parameter texts
//! ```
//!
//! Counts of lines take four bytes, times eight, all other counts, lengths and
//! numbers two, unless said otherwise.

use crate::shared::bytes;
use crate::shared::chunk;
use crate::shared::log;
use crate::shared::log::{LogLine, LogView};
use crate::shared::text;
use vstd::prelude::*;
use vstd::string::*;
use vstd::utf8::*;

verus! {

// ---------- times ----------

/// The time of line `i` since the line before, as a 64-bit pattern.
pub open spec fn step_of(logs: Seq<LogView>, i: int) -> u64 {
    logs[i].ts.wrapping_sub(logs[i - 1].ts)
}

/// There are two lines or more, and all steps are the same.
pub open spec fn steady(logs: Seq<LogView>) -> bool {
    logs.len() > 1 && forall|i: int| 1 <= i < logs.len() ==> #[trigger] step_of(logs, i) == step_of(
        logs,
        1,
    )
}

/// The steps up to line `n`, in eight bytes each.
pub open spec fn steps_bytes(logs: Seq<LogView>, n: nat) -> Seq<u8>
    decreases n,
{
    if n <= 1 {
        Seq::empty()
    } else {
        steps_bytes(logs, (n - 1) as nat) + bytes::le_bytes(step_of(logs, n - 1) as nat, 8)
    }
}

/// The time of the first line; 0 without lines.
pub open spec fn first_ts(logs: Seq<LogView>) -> u64 {
    if logs.len() > 0 {
        logs[0].ts
    } else {
        0
    }
}

/// The time section.
pub open spec fn times_bytes(logs: Seq<LogView>) -> Seq<u8> {
    let head: Seq<u8> = bytes::le_bytes(logs.len(), 4) + bytes::le_bytes(first_ts(logs) as nat, 8);
    if steady(logs) {
        seq![1u8] + head + bytes::le_bytes(step_of(logs, 1) as nat, 8)
    } else {
        seq![0u8] + head + steps_bytes(logs, logs.len())
    }
}

// ---------- levels ----------

/// The two bits of a level; texts that name no level count as `I`.
pub open spec fn level_code(level: Seq<char>) -> u8 {
    match chunk::level_bit(level) {
        Some(k) => k,
        None => 1,
    }
}

/// The text of two level bits.
pub open spec fn level_text(code: u8) -> Seq<char> {
    if code == 0 {
        "D"@
    } else if code == 2 {
        "W"@
    } else if code == 3 {
        "E"@
    } else {
        "I"@
    }
}

/// The code of line `i`; 0 behind the last line.
pub open spec fn code_at(logs: Seq<LogView>, i: int) -> nat {
    if i < logs.len() {
        level_code(logs[i].level) as nat
    } else {
        0
    }
}

/// The codes of four lines in one byte.
pub open spec fn level_byte(logs: Seq<LogView>, j: int) -> u8 {
    (code_at(logs, 4 * j) + 4 * code_at(logs, 4 * j + 1) + 16 * code_at(logs, 4 * j + 2) + 64
        * code_at(logs, 4 * j + 3)) as u8
}

/// The level section.
pub open spec fn levels_bytes(logs: Seq<LogView>) -> Seq<u8> {
    Seq::new(((logs.len() + 3) / 4) as nat, |j: int| level_byte(logs, j))
}

// ---------- services ----------

/// The services of the first `n` lines, each once, in order of appearance.
pub open spec fn services_of(logs: Seq<LogView>, n: nat) -> Seq<Seq<char>>
    decreases n,
{
    if n == 0 {
        Seq::empty()
    } else {
        let us: Seq<Seq<char>> = services_of(logs, (n - 1) as nat);
        if us.contains(logs[n - 1].service) {
            us
        } else {
            us.push(logs[n - 1].service)
        }
    }
}

/// The first position of a text in a list; the length where it is not there.
pub open spec fn position_of(us: Seq<Seq<char>>, s: Seq<char>) -> nat
    decreases us.len(),
{
    if us.len() == 0 {
        0
    } else if us[0] == s {
        0
    } else {
        1 + position_of(us.drop_first(), s)
    }
}

/// A text: its length in two bytes, then its bytes.
pub open spec fn text16(s: Seq<char>) -> Seq<u8> {
    bytes::le_bytes(encode_utf8(s).len(), 2) + encode_utf8(s)
}

/// The first `n` texts.
pub open spec fn texts16(ss: Seq<Seq<char>>, n: nat) -> Seq<u8>
    decreases n,
{
    if n == 0 {
        Seq::empty()
    } else {
        texts16(ss, (n - 1) as nat) + text16(ss[n - 1])
    }
}

/// The service numbers of the first `n` lines, in `width` bytes each.
pub open spec fn indices_bytes(
    logs: Seq<LogView>,
    us: Seq<Seq<char>>,
    width: nat,
    n: nat,
) -> Seq<u8>
    decreases n,
{
    if n == 0 {
        Seq::empty()
    } else {
        indices_bytes(logs, us, width, (n - 1) as nat) + bytes::le_bytes(
            position_of(us, logs[n - 1].service),
            width,
        )
    }
}

/// The service section.
pub open spec fn services_bytes(logs: Seq<LogView>) -> Seq<u8> {
    let us: Seq<Seq<char>> = services_of(logs, logs.len());
    if us.len() == 1 {
        seq![0u8] + text16(us[0])
    } else if us.len() <= 255 {
        seq![1u8] + bytes::le_bytes(us.len(), 2) + texts16(us, us.len()) + indices_bytes(
            logs,
            us,
            1,
            logs.len(),
        )
    } else {
        seq![2u8] + bytes::le_bytes(us.len(), 2) + texts16(us, us.len()) + indices_bytes(
            logs,
            us,
            2,
            logs.len(),
        )
    }
}

// ---------- records ----------

/// A record: template number and parameter texts.
pub struct RecordView {
    pub pat_id: u16,
    pub params: Seq<Seq<char>>,
}

/// What a list of records is.
pub open spec fn record_views(recs: Seq<(u16, Vec<String>)>) -> Seq<RecordView> {
    Seq::new(
        recs.len(),
        |i: int| RecordView { pat_id: recs[i].0, params: text::texts(recs[i].1@) },
    )
}

/// The bytes of a record.
pub open spec fn record_bytes(r: RecordView) -> Seq<u8> {
    bytes::le_bytes(r.pat_id as nat, 2) + bytes::le_bytes(r.params.len(), 2) + texts16(
        r.params,
        r.params.len(),
    )
}

/// The bytes of the first `n` records.
pub open spec fn records_bytes(recs: Seq<RecordView>, n: nat) -> Seq<u8>
    decreases n,
{
    if n == 0 {
        Seq::empty()
    } else {
        records_bytes(recs, (n - 1) as nat) + record_bytes(recs[n - 1])
    }
}

/// The bytes of a chunk.
pub open spec fn chunk_bytes(logs: Seq<LogView>, recs: Seq<RecordView>) -> Seq<u8> {
    times_bytes(logs) + levels_bytes(logs) + services_bytes(logs) + bytes::le_bytes(logs.len(), 4)
        + records_bytes(recs, recs.len())
}

// ---------- writing ----------

fn push_times(buf: &mut Vec<u8>, logs: &[LogLine])
    ensures
        final(buf)@ == old(buf)@ + times_bytes(log::log_views(logs@)),
{
    let ghost lv = log::log_views(logs@);
    let n: usize = logs.len();
    let base: u64 = if n > 0 {
        logs[0].ts
    } else {
        0
    };
    let mut constant: bool = n > 1;
    let mut first_step: u64 = 0;
    if n > 1 {
        first_step = logs[1].ts.wrapping_sub(logs[0].ts);
        assert(first_step == step_of(lv, 1));
        let mut i: usize = 1;
        while i < n && constant
            invariant
                1 <= i <= n,
                n == logs@.len(),
                lv == log::log_views(logs@),
                n > 1,
                first_step == step_of(lv, 1),
                constant ==> forall|k: int|
                    1 <= k < i ==> #[trigger] step_of(lv, k) == step_of(lv, 1),
                !constant ==> !steady(lv),
            decreases n - i,
        {
            let d: u64 = logs[i].ts.wrapping_sub(logs[i - 1].ts);
            assert(d == step_of(lv, i as int));
            if d != first_step {
                constant = false;
            }
            i += 1;
        }
    }
    assert(constant == steady(lv));
    if constant {
        buf.push(1u8);
        bytes::push_le(buf, n as u64, 4);
        bytes::push_le(buf, base, 8);
        bytes::push_le(buf, first_step, 8);
        assert(buf@ =~= old(buf)@ + times_bytes(lv));
    } else {
        buf.push(0u8);
        bytes::push_le(buf, n as u64, 4);
        bytes::push_le(buf, base, 8);
        let ghost head = buf@;
        let mut i: usize = 1;
        assert(buf@ =~= head + steps_bytes(lv, 1));
        while i < n
            invariant
                1 <= i,
                i <= n || i == 1,
                n == logs@.len(),
                lv == log::log_views(logs@),
                buf@ == head + steps_bytes(lv, i as nat),
            decreases n - i,
        {
            let d: u64 = logs[i].ts.wrapping_sub(logs[i - 1].ts);
            assert(d == step_of(lv, i as int));
            bytes::push_le(buf, d, 8);
            i += 1;
            assert(buf@ =~= head + steps_bytes(lv, i as nat));
        }
        assert(steps_bytes(lv, i as nat) == steps_bytes(lv, n as nat));
        assert(buf@ =~= old(buf)@ + times_bytes(lv));
    }
}

/// The two bits of a level.
pub fn level_code_of(level: &str) -> (r: u8)
    ensures
        r == level_code(level@),
        r < 4,
{
    match chunk::level_bit_of(level) {
        Some(k) => k,
        None => 1,
    }
}

fn code_of_line(logs: &[LogLine], i: usize) -> (r: u8)
    ensures
        r == code_at(log::log_views(logs@), i as int),
        r < 4,
{
    if i < logs.len() {
        level_code_of(logs[i].level.as_str())
    } else {
        0
    }
}

fn push_levels(buf: &mut Vec<u8>, logs: &[LogLine])
    ensures
        final(buf)@ == old(buf)@ + levels_bytes(log::log_views(logs@)),
{
    let ghost lv = log::log_views(logs@);
    let n: usize = logs.len();
    let count: usize = if n % 4 == 0 {
        n / 4
    } else {
        n / 4 + 1
    };
    let ghost want = levels_bytes(lv);
    let mut j: usize = 0;
    assert(buf@ =~= old(buf)@ + want.take(0));
    while j < count
        invariant
            j <= count,
            count == want.len(),
            4 * count <= n + 3,
            n == logs@.len(),
            lv == log::log_views(logs@),
            want == levels_bytes(lv),
            buf@ == old(buf)@ + want.take(j as int),
        decreases count - j,
    {
        let i: usize = 4 * j;
        let a: u8 = code_of_line(logs, i);
        let b: u8 = if n - i > 1 {
            code_of_line(logs, i + 1)
        } else {
            0
        };
        let c: u8 = if n - i > 2 {
            code_of_line(logs, i + 2)
        } else {
            0
        };
        let d: u8 = if n - i > 3 {
            code_of_line(logs, i + 3)
        } else {
            0
        };
        let v: u8 = a + 4 * b + 16 * c + 64 * d;
        assert(v == level_byte(lv, j as int));
        buf.push(v);
        j += 1;
        assert(buf@ =~= old(buf)@ + want.take(j as int));
    }
    assert(want.take(count as int) =~= want);
}

proof fn lemma_position(us: Seq<Seq<char>>, s: Seq<char>, k: int)
    requires
        0 <= k < us.len(),
        us[k] == s,
        forall|j: int| 0 <= j < k ==> #[trigger] us[j] != s,
    ensures
        position_of(us, s) == k,
    decreases us.len(),
{
    if k > 0 {
        assert(us[0] != s);
        let t: Seq<Seq<char>> = us.drop_first();
        assert forall|j: int| 0 <= j < k - 1 implies #[trigger] t[j] != s by {
            assert(us[j + 1] != s);
        }
        lemma_position(t, s, k - 1);
    }
}

pub proof fn lemma_position_found(us: Seq<Seq<char>>, s: Seq<char>)
    requires
        us.contains(s),
    ensures
        position_of(us, s) < us.len(),
        us[position_of(us, s) as int] == s,
    decreases us.len(),
{
    if us[0] != s {
        let k: int = choose|k: int| 0 <= k < us.len() && us[k] == s;
        assert(us.drop_first()[k - 1] == s);
        lemma_position_found(us.drop_first(), s);
    }
}

pub proof fn lemma_services_of(logs: Seq<LogView>, n: nat)
    requires
        n <= logs.len(),
    ensures
        services_of(logs, n).len() <= n,
        n > 0 ==> services_of(logs, n).len() > 0,
        forall|i: int|
            0 <= i < n ==> services_of(logs, n).contains(#[trigger] logs[i].service),
    decreases n,
{
    if n > 0 {
        let m: nat = (n - 1) as nat;
        lemma_services_of(logs, m);
        let us: Seq<Seq<char>> = services_of(logs, m);
        let s: Seq<char> = logs[m as int].service;
        if !us.contains(s) {
            assert(us.push(s)[us.len() as int] == s);
        }
        assert forall|i: int| 0 <= i < n implies services_of(logs, n).contains(
            #[trigger] logs[i].service,
        ) by {
            if i < m {
                assert(us.contains(logs[i].service));
                let k: int = choose|k: int| 0 <= k < us.len() && us[k] == logs[i].service;
                assert(services_of(logs, n)[k] == logs[i].service);
            }
        }
    }
}

fn find_service(unique: &Vec<String>, s: &str) -> (r: usize)
    ensures
        r <= unique@.len(),
        r < unique@.len() ==> text::texts(unique@).contains(s@) && r == position_of(
            text::texts(unique@),
            s@,
        ),
        r == unique@.len() ==> !text::texts(unique@).contains(s@),
{
    let ghost us = text::texts(unique@);
    let mut i: usize = 0;
    while i < unique.len()
        invariant
            i <= unique@.len(),
            us == text::texts(unique@),
            forall|k: int| 0 <= k < i ==> #[trigger] us[k] != s@,
        decreases unique@.len() - i,
    {
        assert(us[i as int] == unique@[i as int]@);
        if text::same_text(unique[i].as_str(), s) {
            proof {
                lemma_position(us, s@, i as int);
            }
            return i;
        }
        i += 1;
    }
    i
}

/// Appends a text with its length in two bytes.
pub fn push_text16(buf: &mut Vec<u8>, s: &str)
    ensures
        final(buf)@ == old(buf)@ + text16(s@),
{
    let b: &[u8] = s.as_bytes();
    bytes::push_le(buf, b.len() as u64, 2);
    bytes::push_bytes(buf, b);
    assert(buf@ =~= old(buf)@ + text16(s@));
}

fn push_texts16(buf: &mut Vec<u8>, ss: &Vec<String>)
    ensures
        final(buf)@ == old(buf)@ + texts16(text::texts(ss@), ss@.len()),
{
    let ghost tv = text::texts(ss@);
    let mut i: usize = 0;
    assert(buf@ =~= old(buf)@ + texts16(tv, 0));
    while i < ss.len()
        invariant
            i <= ss@.len(),
            tv == text::texts(ss@),
            buf@ == old(buf)@ + texts16(tv, i as nat),
        decreases ss@.len() - i,
    {
        assert(tv[i as int] == ss@[i as int]@);
        push_text16(buf, ss[i].as_str());
        i += 1;
        assert(buf@ =~= old(buf)@ + texts16(tv, i as nat));
    }
}

fn push_indices(buf: &mut Vec<u8>, logs: &[LogLine], unique: &Vec<String>, width: usize)
    requires
        forall|i: int|
            0 <= i < logs@.len() ==> text::texts(unique@).contains(
                #[trigger] log::log_views(logs@)[i].service,
            ),
    ensures
        final(buf)@ == old(buf)@ + indices_bytes(
            log::log_views(logs@),
            text::texts(unique@),
            width as nat,
            logs@.len(),
        ),
{
    let ghost lv = log::log_views(logs@);
    let ghost us = text::texts(unique@);
    let mut i: usize = 0;
    assert(buf@ =~= old(buf)@ + indices_bytes(lv, us, width as nat, 0));
    while i < logs.len()
        invariant
            i <= logs@.len(),
            lv == log::log_views(logs@),
            us == text::texts(unique@),
            forall|k: int| 0 <= k < logs@.len() ==> us.contains(#[trigger] lv[k].service),
            buf@ == old(buf)@ + indices_bytes(lv, us, width as nat, i as nat),
        decreases logs@.len() - i,
    {
        assert(us.contains(lv[i as int].service));
        assert(lv[i as int].service == logs@[i as int].service@);
        let k: usize = find_service(unique, logs[i].service.as_str());
        bytes::push_le(buf, k as u64, width);
        i += 1;
        assert(buf@ =~= old(buf)@ + indices_bytes(lv, us, width as nat, i as nat));
    }
}

fn push_services(buf: &mut Vec<u8>, logs: &[LogLine])
    ensures
        final(buf)@ == old(buf)@ + services_bytes(log::log_views(logs@)),
{
    let ghost lv = log::log_views(logs@);
    let mut unique: Vec<String> = Vec::new();
    let mut i: usize = 0;
    assert(text::texts(unique@) =~= Seq::<Seq<char>>::empty());
    while i < logs.len()
        invariant
            i <= logs@.len(),
            lv == log::log_views(logs@),
            text::texts(unique@) == services_of(lv, i as nat),
        decreases logs@.len() - i,
    {
        let ghost us = text::texts(unique@);
        assert(lv[i as int].service == logs@[i as int].service@);
        let k: usize = find_service(&unique, logs[i].service.as_str());
        if k == unique.len() {
            unique.push(logs[i].service.clone());
            assert(text::texts(unique@) =~= us.push(lv[i as int].service));
        }
        i += 1;
    }
    let ghost us = text::texts(unique@);
    proof {
        lemma_services_of(lv, lv.len());
    }
    if unique.len() == 1 {
        buf.push(0u8);
        assert(us[0] == unique@[0]@);
        push_text16(buf, unique[0].as_str());
    } else if unique.len() <= 255 {
        buf.push(1u8);
        bytes::push_le(buf, unique.len() as u64, 2);
        push_texts16(buf, &unique);
        push_indices(buf, logs, &unique, 1);
    } else {
        buf.push(2u8);
        bytes::push_le(buf, unique.len() as u64, 2);
        push_texts16(buf, &unique);
        push_indices(buf, logs, &unique, 2);
    }
    assert(buf@ =~= old(buf)@ + services_bytes(lv));
}

fn push_records(buf: &mut Vec<u8>, recs: &[(u16, Vec<String>)])
    ensures
        final(buf)@ == old(buf)@ + records_bytes(record_views(recs@), recs@.len()),
{
    let ghost rv = record_views(recs@);
    let mut i: usize = 0;
    assert(buf@ =~= old(buf)@ + records_bytes(rv, 0));
    while i < recs.len()
        invariant
            i <= recs@.len(),
            rv == record_views(recs@),
            buf@ == old(buf)@ + records_bytes(rv, i as nat),
        decreases recs@.len() - i,
    {
        let ghost before = buf@;
        bytes::push_le(buf, recs[i].0 as u64, 2);
        bytes::push_le(buf, recs[i].1.len() as u64, 2);
        push_texts16(buf, &recs[i].1);
        assert(buf@ =~= before + record_bytes(rv[i as int]));
        i += 1;
        assert(buf@ =~= old(buf)@ + records_bytes(rv, i as nat));
    }
}

/// The bytes of a chunk.
pub fn write_chunk(logs: &[LogLine], text_params: &[(u16, Vec<String>)]) -> (r: Vec<u8>)
    ensures
        r@ == chunk_bytes(log::log_views(logs@), record_views(text_params@)),
{
    let mut buf: Vec<u8> = Vec::new();
    push_times(&mut buf, logs);
    push_levels(&mut buf, logs);
    push_services(&mut buf, logs);
    bytes::push_le(&mut buf, logs.len() as u64, 4);
    push_records(&mut buf, text_params);
    assert(buf@ =~= chunk_bytes(log::log_views(logs@), record_views(text_params@)));
    buf
}

} // verus!
