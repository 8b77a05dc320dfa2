//! A batch of templated lines as bytes:
//!
//! ```text
//! pattern table
//! record count   4 bytes, then a line feed
//! records        one on each line: time step, service number, level, template
//!                number, parameter count and parameters, with zero bytes
//!                between them
//! ```

use crate::agent::chunk_read;
use crate::agent::parts;
use crate::agent::parts::{PartView, Template, TemplatePart};
use crate::agent::records::{TemplateBatch, TemplateRecord};
use crate::agent::typed;
use crate::shared::bytes;
use crate::shared::error::DataError;
use crate::shared::lines;
use crate::shared::log;
use crate::shared::log::{LogLine, LogView};
use crate::shared::numeral;
use crate::shared::text;
use vstd::prelude::*;
use vstd::string::*;
use vstd::utf8::*;

verus! {

// ---------- fields ----------

/// Fields with zero bytes between them.
pub open spec fn joined(fields: Seq<Seq<u8>>) -> Seq<u8>
    decreases fields.len(),
{
    if fields.len() == 0 {
        Seq::empty()
    } else if fields.len() == 1 {
        fields[0]
    } else {
        fields[0] + seq![0u8] + joined(fields.drop_first())
    }
}

/// The position of the first zero byte; the length where there is none.
pub open spec fn zero_at(b: Seq<u8>) -> nat
    decreases b.len(),
{
    if b.len() == 0 || b[0] == 0 {
        0
    } else {
        1 + zero_at(b.drop_first())
    }
}

/// What stands between zero bytes.
pub open spec fn fields_of(b: Seq<u8>) -> Seq<Seq<u8>>
    decreases b.len(),
{
    let k: nat = zero_at(b);
    if k >= b.len() {
        seq![b]
    } else {
        seq![b.take(k as int)] + fields_of(b.skip(k as int + 1))
    }
}

proof fn lemma_zero_at(b: Seq<u8>, k: nat)
    requires
        k <= b.len(),
        forall|i: int| 0 <= i < k ==> #[trigger] b[i] != 0,
        k < b.len() ==> b[k as int] == 0,
    ensures
        zero_at(b) == k,
    decreases b.len(),
{
    if k > 0 {
        assert(b[0] != 0);
        let t: Seq<u8> = b.drop_first();
        assert forall|i: int| 0 <= i < k - 1 implies #[trigger] t[i] != 0 by {
            assert(b[i + 1] != 0);
        }
        lemma_zero_at(t, (k - 1) as nat);
    }
}

/// Joined fields are taken apart again.
proof fn lemma_fields_back(fields: Seq<Seq<u8>>)
    requires
        fields.len() > 0,
        forall|i: int| 0 <= i < fields.len() ==> lines::unbroken(#[trigger] fields[i]),
    ensures
        fields_of(joined(fields)) == fields,
        forall|k: int| 0 <= k < joined(fields).len() ==> #[trigger] joined(fields)[k] != 0x0a,
    decreases fields.len(),
{
    let b: Seq<u8> = joined(fields);
    let f: Seq<u8> = fields[0];
    assert(lines::unbroken(f));
    assert forall|i: int| 0 <= i < f.len() implies #[trigger] b[i] != 0 && b[i] != 0x0a by {
        assert(f[i] != 0 && f[i] != 0x0a);
    }
    lemma_zero_at(b, f.len());
    if fields.len() == 1 {
        assert(fields =~= seq![f]);
    } else {
        let rest: Seq<Seq<u8>> = fields.drop_first();
        assert forall|i: int| 0 <= i < rest.len() implies lines::unbroken(#[trigger] rest[i]) by {
            assert(lines::unbroken(fields[i + 1]));
        }
        lemma_fields_back(rest);
        assert(b.take(f.len() as int) =~= f);
        assert(b.skip(f.len() as int + 1) =~= joined(rest));
        assert(seq![f] + rest =~= fields);
        assert forall|k: int| 0 <= k < b.len() implies #[trigger] b[k] != 0x0a by {
            if k > f.len() {
                assert(joined(rest)[k - f.len() - 1] != 0x0a);
            }
        }
    }
}

fn push_joined(buf: &mut Vec<u8>, fields: &Vec<Vec<u8>>)
    ensures
        final(buf)@ == old(buf)@ + joined(lines::byte_lists(fields@)),
{
    let ghost fv = lines::byte_lists(fields@);
    let ghost start = buf@;
    let mut i: usize = 0;
    proof {
        assert(fv.skip(0) =~= fv);
    }
    while i < fields.len()
        invariant
            i <= fields@.len(),
            fv == lines::byte_lists(fields@),
            buf@ + joined(fv.skip(i as int)) == start + joined(fv),
        decreases fields@.len() - i,
    {
        let ghost before = buf@;
        let ghost t = fv.skip(i as int);
        proof {
            assert(t[0] == fields@[i as int]@);
            assert(t.drop_first() =~= fv.skip(i as int + 1));
        }
        bytes::push_bytes(buf, fields[i].as_slice());
        if i + 1 < fields.len() {
            buf.push(0u8);
            assert(buf@ + joined(t.drop_first()) =~= before + joined(t));
        } else {
            assert(t.drop_first().len() == 0);
            assert(buf@ + joined(t.drop_first()) =~= before + joined(t));
        }
        i += 1;
    }
    assert(fv.skip(i as int).len() == 0);
    assert(buf@ + Seq::<u8>::empty() =~= buf@);
}

fn split_fields(data: &[u8]) -> (r: Vec<Vec<u8>>)
    ensures
        lines::byte_lists(r@) == fields_of(data@),
{
    let n: usize = data.len();
    let ghost d = data@;
    let mut out: Vec<Vec<u8>> = Vec::new();
    let mut start: usize = 0;
    let mut i: usize = 0;
    proof {
        assert(lines::byte_lists(out@) =~= Seq::<Seq<u8>>::empty());
        assert(d.skip(0) =~= d);
        assert(lines::byte_lists(out@) + fields_of(d) =~= fields_of(d));
    }
    while i < n
        invariant
            start <= i <= n,
            n == data@.len(),
            d == data@,
            forall|k: int| start <= k < i ==> #[trigger] d[k] != 0,
            lines::byte_lists(out@) + fields_of(d.skip(start as int)) == fields_of(d),
        decreases n - i,
    {
        if data[i] == 0 {
            let ghost b = d.skip(start as int);
            let ghost k = (i - start) as nat;
            proof {
                assert forall|j: int| 0 <= j < k implies #[trigger] b[j] != 0 by {
                    assert(d[start + j] != 0);
                }
                lemma_zero_at(b, k);
            }
            let mut field: Vec<u8> = Vec::new();
            bytes::push_bytes(&mut field, vstd::slice::slice_subrange(data, start, i));
            let ghost fv = field@;
            let ghost before = lines::byte_lists(out@);
            out.push(field);
            proof {
                assert(fv =~= b.take(k as int));
                assert(b.skip(k as int + 1) =~= d.skip(i as int + 1));
                assert(lines::byte_lists(out@) =~= before.push(fv));
                assert(lines::byte_lists(out@) + fields_of(d.skip(i as int + 1)) =~= before + (
                seq![fv] + fields_of(d.skip(i as int + 1))));
            }
            start = i + 1;
        }
        i += 1;
    }
    let ghost b = d.skip(start as int);
    proof {
        assert forall|j: int| 0 <= j < b.len() implies #[trigger] b[j] != 0 by {
            assert(d[start + j] != 0);
        }
        lemma_zero_at(b, b.len());
    }
    let mut field: Vec<u8> = Vec::new();
    bytes::push_bytes(&mut field, vstd::slice::slice_subrange(data, start, n));
    let ghost fv = field@;
    let ghost before = lines::byte_lists(out@);
    out.push(field);
    proof {
        assert(fv =~= b);
        assert(lines::byte_lists(out@) =~= before + seq![fv]);
    }
    out
}

// ---------- writing ----------

/// What a record says.
#[verifier::ext_equal]
pub struct TextRecord {
    pub ts_delta: int,
    pub svc_id: nat,
    pub level: Seq<char>,
    pub pat_id: nat,
    pub params: Seq<Seq<char>>,
}

/// What a templated record says.
pub open spec fn text_record(r: TemplateRecord) -> TextRecord {
    TextRecord {
        ts_delta: r.ts_delta as int,
        svc_id: r.svc_id as nat,
        level: r.level@,
        pat_id: r.pat_id as nat,
        params: typed::param_texts(typed::param_views(r.params@)),
    }
}

/// What templated records say.
pub open spec fn text_records(rs: Seq<TemplateRecord>) -> Seq<TextRecord> {
    Seq::new(rs.len(), |i: int| text_record(rs[i]))
}

/// The parameters as fields.
pub open spec fn param_fields(params: Seq<Seq<char>>) -> Seq<Seq<u8>> {
    Seq::new(params.len(), |j: int| encode_utf8(params[j]))
}

/// The fields of a record.
pub open spec fn record_fields(r: TextRecord) -> Seq<Seq<u8>> {
    seq![
        encode_utf8(numeral::int_text(r.ts_delta)),
        encode_utf8(numeral::int_text(r.svc_id as int)),
        encode_utf8(r.level),
        encode_utf8(numeral::int_text(r.pat_id as int)),
        encode_utf8(numeral::int_text(r.params.len() as int)),
    ] + param_fields(r.params)
}

/// The first `n` records.
pub open spec fn record_lines(rs: Seq<TextRecord>, n: nat) -> Seq<u8>
    decreases n,
{
    if n == 0 {
        Seq::empty()
    } else {
        record_lines(rs, (n - 1) as nat) + (joined(record_fields(rs[n - 1])) + seq![0x0au8])
    }
}

/// The bytes of a batch.
pub open spec fn batch_bytes(ts: Seq<Seq<PartView>>, rs: Seq<TextRecord>) -> Seq<u8> {
    parts::table_bytes(ts) + bytes::le_bytes(rs.len(), 4) + seq![0x0au8] + record_lines(
        rs,
        rs.len(),
    )
}

fn push_text_field(fields: &mut Vec<Vec<u8>>, s: &str)
    ensures
        lines::byte_lists(final(fields)@) == lines::byte_lists(old(fields)@).push(encode_utf8(s@)),
{
    let ghost before = lines::byte_lists(fields@);
    let mut f: Vec<u8> = Vec::new();
    bytes::push_bytes(&mut f, s.as_bytes());
    let ghost fv = f@;
    assert(fv =~= encode_utf8(s@));
    fields.push(f);
    assert(lines::byte_lists(fields@) =~= before.push(fv));
}

fn push_number_field(fields: &mut Vec<Vec<u8>>, v: i64)
    ensures
        lines::byte_lists(final(fields)@) == lines::byte_lists(old(fields)@).push(
            encode_utf8(numeral::int_text(v as int)),
        ),
{
    let s: String = text::string_of(&numeral::int_chars(v));
    push_text_field(fields, s.as_str());
}

fn push_count_field(fields: &mut Vec<Vec<u8>>, v: u64)
    ensures
        lines::byte_lists(final(fields)@) == lines::byte_lists(old(fields)@).push(
            encode_utf8(numeral::int_text(v as int)),
        ),
{
    let s: String = text::string_of(&numeral::numeral_chars(v, 10));
    push_text_field(fields, s.as_str());
}

fn push_record(buf: &mut Vec<u8>, r: &TemplateRecord)
    ensures
        final(buf)@ == old(buf)@ + (joined(record_fields(text_record(*r))) + seq![0x0au8]),
{
    let ghost want = record_fields(text_record(*r));
    let strings: Vec<String> = typed::param_strings(&r.params);
    let ghost pv = text_record(*r).params;
    let mut fields: Vec<Vec<u8>> = Vec::new();
    assert(lines::byte_lists(fields@) =~= Seq::<Seq<u8>>::empty());
    push_number_field(&mut fields, r.ts_delta);
    push_count_field(&mut fields, r.svc_id as u64);
    push_text_field(&mut fields, r.level.as_str());
    push_count_field(&mut fields, r.pat_id as u64);
    push_count_field(&mut fields, strings.len() as u64);
    assert(pv.len() == strings@.len()) by {
        assert(text::texts(strings@).len() == strings@.len());
    }
    assert(lines::byte_lists(fields@) =~= want.take(5));
    let mut i: usize = 0;
    while i < strings.len()
        invariant
            i <= strings@.len(),
            pv == text::texts(strings@),
            want.len() == 5 + strings@.len(),
            forall|j: int| 0 <= j < pv.len() ==> #[trigger] want[5 + j] == encode_utf8(pv[j]),
            lines::byte_lists(fields@) == want.take(5 + i),
        decreases strings@.len() - i,
    {
        assert(pv[i as int] == strings@[i as int]@);
        assert(want[5 + i] == encode_utf8(pv[i as int]));
        push_text_field(&mut fields, strings[i].as_str());
        assert(lines::byte_lists(fields@) =~= want.take(5 + i + 1));
        i += 1;
    }
    assert(want.take(5 + i) =~= want);
    push_joined(buf, &fields);
    buf.push(0x0au8);
    assert(buf@ =~= old(buf)@ + (joined(want) + seq![0x0au8]));
}

/// The bytes of a batch.
pub fn serialize_template_v2(batch: &TemplateBatch) -> (r: Vec<u8>)
    ensures
        r@ == batch_bytes(
            parts::template_views(batch.templates@),
            text_records(batch.records@),
        ),
{
    let ghost rs = text_records(batch.records@);
    let mut buf: Vec<u8> = batch.serialize_pattern_table();
    bytes::push_le(&mut buf, batch.records.len() as u64, 4);
    buf.push(0x0au8);
    let ghost head = buf@;
    let mut i: usize = 0;
    assert(head + record_lines(rs, 0) =~= head);
    while i < batch.records.len()
        invariant
            i <= batch.records@.len(),
            rs == text_records(batch.records@),
            buf@ == head + record_lines(rs, i as nat),
        decreases batch.records@.len() - i,
    {
        assert(rs[i as int] == text_record(batch.records@[i as int]));
        push_record(&mut buf, &batch.records[i]);
        i += 1;
        assert(buf@ =~= head + record_lines(rs, i as nat));
    }
    assert(buf@ =~= batch_bytes(parts::template_views(batch.templates@), rs));
    buf
}

// ---------- reading ----------

/// Reads a template piece; an unknown tag counts as a slot.
pub open spec fn lenient_part(data: Seq<u8>, off: nat) -> Option<(PartView, nat)> {
    match parts::read_part(data, off) {
        Ok(p) => Some(p),
        Err(DataError::UnknownPartTag) => Some((PartView::Param, off + 1)),
        Err(_) => None,
    }
}

/// Reads `n` template pieces.
pub open spec fn lenient_parts(data: Seq<u8>, off: nat, n: nat) -> Option<(Seq<PartView>, nat)>
    decreases n,
{
    if n == 0 {
        Some((Seq::empty(), off))
    } else {
        match lenient_parts(data, off, (n - 1) as nat) {
            None => None,
            Some((ps, o)) => match lenient_part(data, o) {
                None => None,
                Some((p, e)) => Some((ps.push(p), e)),
            },
        }
    }
}

/// Reads `n` templates from offset 2 on.
pub open spec fn lenient_templates(data: Seq<u8>, n: nat) -> Option<(Seq<Seq<PartView>>, nat)>
    decreases n,
{
    if n == 0 {
        Some((Seq::empty(), 2))
    } else {
        match lenient_templates(data, (n - 1) as nat) {
            None => None,
            Some((ts, o)) => if o + 2 > data.len() {
                None
            } else {
                match lenient_parts(data, o + 2, bytes::le_value(bytes::window(data, o, 2))) {
                    None => None,
                    Some((ps, e)) => Some((ts.push(ps), e)),
                }
            },
        }
    }
}

/// The unsigned number that a field states, if it is at most `max`.
pub open spec fn count_field(f: Seq<u8>, max: nat) -> Option<nat> {
    if !valid_utf8(f) {
        None
    } else {
        match numeral::unsigned_value(decode_utf8(f)) {
            Some(v) if v <= max => Some(v),
            _ => None,
        }
    }
}

/// The signed 64-bit number that a field states.
pub open spec fn step_field(f: Seq<u8>) -> Option<int> {
    if !valid_utf8(f) {
        None
    } else {
        match numeral::signed_value(decode_utf8(f)) {
            Some(v) if i64::MIN <= v <= i64::MAX => Some(v),
            _ => None,
        }
    }
}

/// The record that a line states.
pub open spec fn read_record_line(line: Seq<u8>) -> Option<TextRecord> {
    let f: Seq<Seq<u8>> = fields_of(line);
    if f.len() < 5 {
        None
    } else {
        match (
            step_field(f[0]),
            count_field(f[1], 0xff),
            count_field(f[3], 0xffff),
            count_field(f[4], u64::MAX as nat),
        ) {
            (Some(ts_delta), Some(svc_id), Some(pat_id), Some(n)) => if f.len() - 5 < n {
                None
            } else {
                Some(
                    TextRecord {
                        ts_delta,
                        svc_id,
                        level: text::lossy_text(f[2]),
                        pat_id,
                        params: Seq::new(n, |j: int| text::lossy_text(f[5 + j])),
                    },
                )
            },
            _ => None,
        }
    }
}

/// The line that a record stands for, after a line at `prev`.
pub open spec fn record_log(ts: Seq<Seq<PartView>>, r: TextRecord, prev: u64) -> LogView {
    LogView {
        ts: prev.wrapping_add(typed::pattern64(r.ts_delta) as u64),
        service: seq!['s', 'v', 'c'] + numeral::numeral(r.svc_id, 10),
        level: r.level,
        message: parts::render(ts[r.pat_id as int], r.params, Seq::empty()),
    }
}

/// The time of the last line; 0 without lines.
pub open spec fn last_ts(logs: Seq<LogView>) -> u64 {
    if logs.len() == 0 {
        0
    } else {
        logs.last().ts
    }
}

/// Reads `n` records from `off` on: the lines and the offset behind them.
pub open spec fn read_record_lines(
    data: Seq<u8>,
    ts: Seq<Seq<PartView>>,
    off: nat,
    n: nat,
) -> Option<(Seq<LogView>, nat)>
    decreases n,
{
    if n == 0 {
        Some((Seq::empty(), off))
    } else {
        match read_record_lines(data, ts, off, (n - 1) as nat) {
            None => None,
            Some((logs, o)) => if o > data.len() {
                None
            } else {
                let len: nat = lines::newline_at(data.skip(o as int));
                match read_record_line(bytes::window(data, o, len)) {
                    None => None,
                    Some(r) => if r.pat_id >= ts.len() {
                        None
                    } else {
                        Some((logs.push(record_log(ts, r, last_ts(logs))), o + len + 1))
                    },
                }
            },
        }
    }
}

/// The lines of a batch.
pub open spec fn batch_logs(data: Seq<u8>) -> Result<Seq<LogView>, DataError> {
    if data.len() < 2 {
        Err(DataError::BatchTruncated)
    } else {
        match lenient_templates(data, bytes::le_value(bytes::window(data, 0, 2))) {
            None => Err(DataError::BatchTruncated),
            Some((ts, o)) => if o + 4 > data.len() {
                Err(DataError::BatchTruncated)
            } else {
                let n: nat = bytes::le_value(bytes::window(data, o, 4));
                let off: nat = if o + 4 < data.len() && data[(o + 4) as int] == 0x0a {
                    o + 5
                } else {
                    o + 4
                };
                match read_record_lines(data, ts, off, n) {
                    None => Err(DataError::BatchRecordMalformed),
                    Some((logs, _e)) => Ok(logs),
                }
            },
        }
    }
}

proof fn lemma_lenient_parts_none(data: Seq<u8>, off: nat, k: nat, n: nat)
    requires
        k <= n,
        lenient_parts(data, off, k) is None,
    ensures
        lenient_parts(data, off, n) is None,
    decreases n,
{
    if k < n {
        lemma_lenient_parts_none(data, off, k, (n - 1) as nat);
    }
}

proof fn lemma_lenient_templates_none(data: Seq<u8>, k: nat, n: nat)
    requires
        k <= n,
        lenient_templates(data, k) is None,
    ensures
        lenient_templates(data, n) is None,
    decreases n,
{
    if k < n {
        lemma_lenient_templates_none(data, k, (n - 1) as nat);
    }
}

proof fn lemma_record_lines_none(
    data: Seq<u8>,
    ts: Seq<Seq<PartView>>,
    off: nat,
    k: nat,
    n: nat,
)
    requires
        k <= n,
        read_record_lines(data, ts, off, k) is None,
    ensures
        read_record_lines(data, ts, off, n) is None,
    decreases n,
{
    if k < n {
        lemma_record_lines_none(data, ts, off, k, (n - 1) as nat);
    }
}

fn take_part(data: &[u8], off: usize) -> (r: Option<(TemplatePart, usize)>)
    requires
        off <= data@.len(),
    ensures
        match r {
            Some((p, o)) => lenient_part(data@, off as nat) == Some((p@, o as nat)) && o
                <= data@.len(),
            None => lenient_part(data@, off as nat) is None,
        },
{
    let total: usize = data.len();
    if off >= total {
        return None;
    }
    if data[off] != 1 {
        return Some((TemplatePart::Param, off + 1));
    }
    if total - off < 5 {
        return None;
    }
    let len: u64 = bytes::read_le(data, off + 1, 4);
    if ((total - off - 5) as u64) < len {
        return None;
    }
    let end: usize = off + 5 + len as usize;
    let s: String = text::lossy_string(vstd::slice::slice_subrange(data, off + 5, end));
    Some((TemplatePart::Literal(s), end))
}

fn take_parts(data: &[u8], off: usize, n: usize) -> (r: Option<(Vec<TemplatePart>, usize)>)
    requires
        off <= data@.len(),
    ensures
        match r {
            Some((ps, o)) => lenient_parts(data@, off as nat, n as nat) == Some(
                (parts::part_views(ps@), o as nat),
            ) && o <= data@.len(),
            None => lenient_parts(data@, off as nat, n as nat) is None,
        },
{
    let mut out: Vec<TemplatePart> = Vec::new();
    let mut at: usize = off;
    let mut i: usize = 0;
    assert(parts::part_views(out@) =~= Seq::<PartView>::empty());
    while i < n
        invariant
            i <= n,
            at <= data@.len(),
            lenient_parts(data@, off as nat, i as nat) == Some(
                (parts::part_views(out@), at as nat),
            ),
        decreases n - i,
    {
        match take_part(data, at) {
            None => {
                proof {
                    lemma_lenient_parts_none(data@, off as nat, (i + 1) as nat, n as nat);
                }
                return None;
            },
            Some((p, o)) => {
                let ghost before = parts::part_views(out@);
                let ghost pv = p@;
                out.push(p);
                assert(parts::part_views(out@) =~= before.push(pv));
                at = o;
            },
        }
        i += 1;
    }
    Some((out, at))
}

fn take_templates(data: &[u8], n: usize) -> (r: Option<(Vec<Template>, usize)>)
    requires
        2 <= data@.len(),
        n <= 0xffff,
    ensures
        match r {
            Some((ts, o)) => lenient_templates(data@, n as nat) == Some(
                (parts::template_views(ts@), o as nat),
            ) && o <= data@.len(),
            None => lenient_templates(data@, n as nat) is None,
        },
{
    let total: usize = data.len();
    let mut out: Vec<Template> = Vec::new();
    let mut at: usize = 2;
    let mut i: usize = 0;
    assert(parts::template_views(out@) =~= Seq::<Seq<PartView>>::empty());
    while i < n
        invariant
            i <= n <= 0xffff,
            total == data@.len(),
            at <= total,
            lenient_templates(data@, i as nat) == Some(
                (parts::template_views(out@), at as nat),
            ),
        decreases n - i,
    {
        proof {
            if lenient_templates(data@, (i + 1) as nat) is None {
                lemma_lenient_templates_none(data@, (i + 1) as nat, n as nat);
            }
        }
        if total - at < 2 {
            return None;
        }
        let count: usize = chunk_read::take_u16(data, at);
        match take_parts(data, at + 2, count) {
            None => {
                return None;
            },
            Some((ps, o)) => {
                let ghost before = parts::template_views(out@);
                let ghost pv = parts::part_views(ps@);
                out.push(Template { id: i as u16, parts: ps });
                assert(parts::template_views(out@) =~= before.push(pv));
                at = o;
            },
        }
        i += 1;
    }
    Some((out, at))
}

fn take_count(f: &[u8], max: u64) -> (r: Option<u64>)
    ensures
        match r {
            Some(v) => count_field(f@, max as nat) == Some(v as nat),
            None => count_field(f@, max as nat) is None,
        },
{
    match text::utf8_str(f) {
        None => None,
        Some(s) => match numeral::parse_unsigned(&text::chars_of(s)) {
            None => None,
            Some(v) => if v <= max {
                Some(v)
            } else {
                None
            },
        },
    }
}

fn take_step(f: &[u8]) -> (r: Option<i64>)
    ensures
        match r {
            Some(v) => step_field(f@) == Some(v as int),
            None => step_field(f@) is None,
        },
{
    match text::utf8_str(f) {
        None => None,
        Some(s) => numeral::parse_signed(&text::chars_of(s)),
    }
}

/// A record read from its line.
struct ReadRecord {
    ts_delta: i64,
    svc_id: u64,
    level: String,
    pat_id: usize,
    params: Vec<String>,
}

impl View for ReadRecord {
    type V = TextRecord;

    closed spec fn view(&self) -> TextRecord {
        TextRecord {
            ts_delta: self.ts_delta as int,
            svc_id: self.svc_id as nat,
            level: self.level@,
            pat_id: self.pat_id as nat,
            params: text::texts(self.params@),
        }
    }
}

fn take_record(line: &[u8]) -> (r: Option<ReadRecord>)
    ensures
        match r {
            Some(rec) => read_record_line(line@) == Some(rec@),
            None => read_record_line(line@) is None,
        },
{
    let fields: Vec<Vec<u8>> = split_fields(line);
    let ghost f = fields_of(line@);
    assert(f.len() == fields@.len()) by {
        assert(lines::byte_lists(fields@).len() == fields@.len());
    }
    if fields.len() < 5 {
        return None;
    }
    assert(forall|k: int| 0 <= k < f.len() ==> #[trigger] fields@[k]@ == f[k]) by {
        assert forall|k: int| 0 <= k < f.len() implies #[trigger] fields@[k]@ == f[k] by {
            assert(lines::byte_lists(fields@)[k] == f[k]);
        }
    }
    let ts_delta: i64 = match take_step(fields[0].as_slice()) {
        None => {
            return None;
        },
        Some(v) => v,
    };
    let svc_id: u64 = match take_count(fields[1].as_slice(), 0xff) {
        None => {
            return None;
        },
        Some(v) => v,
    };
    let pat_id: usize = match take_count(fields[3].as_slice(), 0xffff) {
        None => {
            return None;
        },
        Some(v) => v as usize,
    };
    let n: u64 = match take_count(fields[4].as_slice(), u64::MAX) {
        None => {
            return None;
        },
        Some(v) => v,
    };
    if ((fields.len() - 5) as u64) < n {
        return None;
    }
    let level: String = text::lossy_string(fields[2].as_slice());
    let mut params: Vec<String> = Vec::new();
    let mut j: usize = 0;
    let ghost want: Seq<Seq<char>> = Seq::new(n as nat, |j: int| text::lossy_text(f[5 + j]));
    assert(text::texts(params@) =~= want.take(0));
    while (j as u64) < n
        invariant
            j <= n,
            n <= fields@.len() - 5,
            f.len() == fields@.len(),
            forall|k: int| 0 <= k < f.len() ==> #[trigger] fields@[k]@ == f[k],
            want == Seq::new(n as nat, |j: int| text::lossy_text(f[5 + j])),
            text::texts(params@) == want.take(j as int),
        decreases n - j,
    {
        let ghost before = text::texts(params@);
        let total: usize = fields.len();
        assert(5 + j < total);
        let s: String = text::lossy_string(fields[5 + j].as_slice());
        let ghost sv = s@;
        assert(fields@[5 + j]@ == f[5 + j]);
        assert(sv == want[j as int]);
        params.push(s);
        assert(text::texts(params@) =~= before.push(sv));
        j += 1;
        assert(text::texts(params@) =~= want.take(j as int));
    }
    assert(want.take(j as int) =~= want);
    Some(ReadRecord { ts_delta, svc_id, level, pat_id, params })
}

fn line_end(data: &[u8], off: usize) -> (r: usize)
    requires
        off <= data@.len(),
    ensures
        r == off + lines::newline_at(data@.skip(off as int)),
        r <= data@.len(),
{
    let n: usize = data.len();
    let mut i: usize = off;
    while i < n && data[i] != 0x0a
        invariant
            off <= i <= n,
            n == data@.len(),
            forall|k: int| off <= k < i ==> #[trigger] data@[k] != 0x0a,
        decreases n - i,
    {
        i += 1;
    }
    proof {
        let b: Seq<u8> = data@.skip(off as int);
        assert forall|j: int| 0 <= j < i - off implies #[trigger] b[j] != 0x0a by {
            assert(data@[off + j] != 0x0a);
        }
        lines::lemma_newline_at(b, (i - off) as nat);
    }
    i
}

/// The lines of a batch.
pub fn deserialize_template_v2(data: &[u8]) -> (r: Result<Vec<LogLine>, DataError>)
    ensures
        match (r, batch_logs(data@)) {
            (Ok(logs), Ok(want)) => log::log_views(logs@) == want,
            (Err(e), Err(f)) => e == f,
            _ => false,
        },
{
    let total: usize = data.len();
    let ghost d = data@;
    if total < 2 {
        return Err(DataError::BatchTruncated);
    }
    let count: usize = chunk_read::take_u16(data, 0);
    let (templates, o) = match take_templates(data, count) {
        None => {
            return Err(DataError::BatchTruncated);
        },
        Some(p) => p,
    };
    if total - o < 4 {
        return Err(DataError::BatchTruncated);
    }
    proof {
        bytes::lemma_pow256();
    }
    let n: u64 = bytes::read_le(data, o, 4);
    let first: usize = if o + 4 < total && data[o + 4] == 0x0a {
        o + 5
    } else {
        o + 4
    };
    let ghost tv = parts::template_views(templates@);
    let mut out: Vec<LogLine> = Vec::new();
    let mut off: usize = first;
    let mut over: bool = false;
    let mut prev: u64 = 0;
    let mut i: u64 = 0;
    proof {
        reveal_strlit("");
        assert(""@ =~= Seq::<char>::empty());
        reveal_strlit("svc");
        assert("svc"@ =~= seq!['s', 'v', 'c']);
    }
    assert(log::log_views(out@) =~= Seq::<LogView>::empty());
    while i < n
        invariant
            i <= n,
            total == data@.len(),
            d == data@,
            off <= total,
            tv == parts::template_views(templates@),
            prev == last_ts(log::log_views(out@)),
            read_record_lines(d, tv, first as nat, i as nat) == Some(
                (
                    log::log_views(out@),
                    if over {
                        (total + 1) as nat
                    } else {
                        off as nat
                    },
                ),
            ),
            ""@ == Seq::<char>::empty(),
            "svc"@ == seq!['s', 'v', 'c'],
            batch_logs(d) == (match read_record_lines(d, tv, first as nat, n as nat) {
                None => Err::<Seq<LogView>, DataError>(DataError::BatchRecordMalformed),
                Some((logs, _e)) => Ok(logs),
            }),
        decreases n - i,
    {
        proof {
            if read_record_lines(d, tv, first as nat, (i + 1) as nat) is None {
                lemma_record_lines_none(d, tv, first as nat, (i + 1) as nat, n as nat);
            }
        }
        if over {
            return Err(DataError::BatchRecordMalformed);
        }
        let end: usize = line_end(data, off);
        let line: &[u8] = vstd::slice::slice_subrange(data, off, end);
        let rec: ReadRecord = match take_record(line) {
            None => {
                return Err(DataError::BatchRecordMalformed);
            },
            Some(rec) => rec,
        };
        if rec.pat_id >= templates.len() {
            return Err(DataError::BatchRecordMalformed);
        }
        let ghost before = log::log_views(out@);
        let ts: u64 = prev.wrapping_add(typed::to_pattern(rec.ts_delta));
        let mut service: String = "svc".to_string();
        service.append(text::string_of(&numeral::numeral_chars(rec.svc_id, 10)).as_str());
        let message: String = parts::render_template(
            templates[rec.pat_id].parts.as_slice(),
            rec.params.as_slice(),
            "",
        );
        let l: LogLine = LogLine { ts, service, level: rec.level, message };
        let ghost lv = l@;
        proof {
            assert(tv[rec.pat_id as int] == parts::part_views(
                templates@[rec.pat_id as int].parts@,
            ));
            assert(lv == record_log(tv, rec@, prev));
        }
        out.push(l);
        assert(log::log_views(out@) =~= before.push(lv));
        prev = ts;
        if end < total {
            off = end + 1;
        } else {
            over = true;
        }
        i += 1;
    }
    Ok(out)
}

// ---------- round trip ----------

/// A record whose texts hold no zero character and no line feed.
pub open spec fn record_plain(r: TextRecord) -> bool {
    &&& i64::MIN <= r.ts_delta <= i64::MAX
    &&& r.svc_id <= 0xff
    &&& r.pat_id <= 0xffff
    &&& r.params.len() <= u64::MAX
    &&& lines::unbroken_text(r.level)
    &&& forall|j: int| 0 <= j < r.params.len() ==> lines::unbroken_text(#[trigger] r.params[j])
}

/// The lines that the first `n` records stand for.
pub open spec fn record_logs(ts: Seq<Seq<PartView>>, rs: Seq<TextRecord>, n: nat) -> Seq<LogView>
    decreases n,
{
    if n == 0 {
        Seq::empty()
    } else {
        let logs: Seq<LogView> = record_logs(ts, rs, (n - 1) as nat);
        logs.push(record_log(ts, rs[n - 1], last_ts(logs)))
    }
}

proof fn lemma_digits_unbroken(n: nat)
    ensures
        lines::unbroken_text(numeral::numeral(n, 10)),
    decreases n,
{
    let s: Seq<char> = numeral::numeral(n, 10);
    if n >= 10 {
        lemma_digits_unbroken(n / 10);
        numeral::lemma_digit_char(n % 10);
        let t: Seq<char> = numeral::numeral(n / 10, 10);
        assert(s == t.push(numeral::digit_char(n % 10)));
        assert forall|i: int| 0 <= i < s.len() implies (#[trigger] s[i]) as u32 != 0 && s[i] as u32
            != 0x0a by {
            if i < t.len() {
                assert(t[i] as u32 != 0);
            }
        }
    } else {
        numeral::lemma_digit_char(n);
    }
}

proof fn lemma_int_unbroken(i: int)
    ensures
        lines::unbroken(encode_utf8(numeral::int_text(i))),
{
    let s: Seq<char> = numeral::int_text(i);
    if i < 0 {
        lemma_digits_unbroken((-i) as nat);
        let t: Seq<char> = numeral::numeral((-i) as nat, 10);
        assert forall|k: int| 0 <= k < s.len() implies (#[trigger] s[k]) as u32 != 0 && s[k] as u32
            != 0x0a by {
            if k > 0 {
                assert(t[k - 1] as u32 != 0);
            }
        }
    } else {
        lemma_digits_unbroken(i as nat);
    }
    lines::lemma_utf8_unbroken(s);
}

/// A record is read back from its line.
proof fn lemma_record_back(r: TextRecord)
    requires
        record_plain(r),
    ensures
        read_record_line(joined(record_fields(r))) == Some(r),
        forall|k: int|
            0 <= k < joined(record_fields(r)).len() ==> #[trigger] joined(record_fields(r))[k]
                != 0x0a,
{
    let f: Seq<Seq<u8>> = record_fields(r);
    lemma_int_unbroken(r.ts_delta);
    lemma_int_unbroken(r.svc_id as int);
    lemma_int_unbroken(r.pat_id as int);
    lemma_int_unbroken(r.params.len() as int);
    lines::lemma_utf8_unbroken(r.level);
    assert forall|i: int| 0 <= i < f.len() implies lines::unbroken(#[trigger] f[i]) by {
        if i >= 5 {
            assert(f[i] == encode_utf8(r.params[i - 5]));
            lines::lemma_utf8_unbroken(r.params[i - 5]);
        }
    }
    lemma_fields_back(f);
    numeral::lemma_int_text(r.ts_delta);
    numeral::lemma_int_text(r.svc_id as int);
    numeral::lemma_int_text(r.pat_id as int);
    numeral::lemma_int_text(r.params.len() as int);
    text::lemma_utf8_roundtrip(numeral::int_text(r.ts_delta));
    text::lemma_utf8_roundtrip(numeral::int_text(r.svc_id as int));
    text::lemma_utf8_roundtrip(numeral::int_text(r.pat_id as int));
    text::lemma_utf8_roundtrip(numeral::int_text(r.params.len() as int));
    text::lemma_utf8_roundtrip(r.level);
    let n: nat = r.params.len();
    let back: Seq<Seq<char>> = Seq::new(n, |j: int| text::lossy_text(f[5 + j]));
    assert forall|j: int| 0 <= j < n implies #[trigger] back[j] == r.params[j] by {
        assert(f[5 + j] == encode_utf8(r.params[j]));
        text::lemma_utf8_roundtrip(r.params[j]);
    }
    assert(back =~= r.params);
    assert(step_field(f[0]) == Some(r.ts_delta));
    assert(count_field(f[1], 0xff) == Some(r.svc_id));
    assert(count_field(f[3], 0xffff) == Some(r.pat_id));
    assert(count_field(f[4], u64::MAX as nat) == Some(n));
}

proof fn lemma_lenient_parts(data: Seq<u8>, off: nat, n: nat)
    requires
        parts::read_parts(data, off, n) is Ok,
    ensures
        lenient_parts(data, off, n) == Some(parts::read_parts(data, off, n)->Ok_0),
    decreases n,
{
    if n > 0 {
        lemma_lenient_parts(data, off, (n - 1) as nat);
    }
}

/// The templates are read back from the front of a batch.
proof fn lemma_templates_back(data: Seq<u8>, ts: Seq<Seq<PartView>>, n: nat)
    requires
        parts::table_fits(ts),
        n <= ts.len(),
        2 + parts::templates_bytes(ts, n).len() <= data.len(),
        data.subrange(2, (2 + parts::templates_bytes(ts, n).len()) as int)
            == parts::templates_bytes(ts, n),
    ensures
        lenient_templates(data, n) == Some(
            (ts.take(n as int), 2 + parts::templates_bytes(ts, n).len()),
        ),
    decreases n,
{
    if n == 0 {
        assert(ts.take(0) =~= Seq::<Seq<PartView>>::empty());
    } else {
        let m: nat = (n - 1) as nat;
        let head: Seq<u8> = parts::templates_bytes(ts, m);
        let t: Seq<PartView> = ts[m as int];
        let count: Seq<u8> = bytes::le_bytes(t.len(), 2);
        let body: Seq<u8> = parts::parts_bytes(t, t.len());
        let all: Seq<u8> = parts::templates_bytes(ts, n);
        assert(all == head + (count + body));
        bytes::lemma_pow256();
        bytes::lemma_le_value_of_bytes(t.len(), 2);
        let w: Seq<u8> = data.subrange(2, (2 + all.len()) as int);
        assert(data.subrange(2, (2 + head.len()) as int) =~= w.subrange(0, head.len() as int));
        assert(w.subrange(0, head.len() as int) =~= head);
        lemma_templates_back(data, ts, m);
        let o: nat = 2 + head.len();
        assert(bytes::window(data, o, 2) =~= w.subrange(
            head.len() as int,
            (head.len() + 2) as int,
        ));
        assert(w.subrange(head.len() as int, (head.len() + 2) as int) =~= count);
        assert(data.subrange((o + 2) as int, (o + 2 + body.len()) as int) =~= w.subrange(
            (head.len() + 2) as int,
            w.len() as int,
        ));
        assert(w.subrange((head.len() + 2) as int, w.len() as int) =~= body);
        assert(parts::template_fits(t));
        parts::lemma_read_parts_back(data, o + 2, t, t.len());
        assert(t.take(t.len() as int) =~= t);
        lemma_lenient_parts(data, o + 2, t.len());
        assert(ts.take(m as int).push(t) =~= ts.take(n as int));
    }
}

proof fn lemma_record_lines_back(
    data: Seq<u8>,
    ts: Seq<Seq<PartView>>,
    off: nat,
    rs: Seq<TextRecord>,
    n: nat,
)
    requires
        n <= rs.len(),
        forall|i: int| 0 <= i < rs.len() ==> record_plain(#[trigger] rs[i]),
        forall|i: int| 0 <= i < rs.len() ==> (#[trigger] rs[i]).pat_id < ts.len(),
        off + record_lines(rs, n).len() <= data.len(),
        bytes::window(data, off, record_lines(rs, n).len()) == record_lines(rs, n),
    ensures
        read_record_lines(data, ts, off, n) == Some(
            (record_logs(ts, rs, n), off + record_lines(rs, n).len()),
        ),
    decreases n,
{
    if n > 0 {
        let m: nat = (n - 1) as nat;
        let head: Seq<u8> = record_lines(rs, m);
        let line: Seq<u8> = joined(record_fields(rs[m as int]));
        let all: Seq<u8> = record_lines(rs, n);
        let w: Seq<u8> = bytes::window(data, off, all.len());
        assert(all == head + (line + seq![0x0au8]));
        assert(bytes::window(data, off, head.len()) =~= w.subrange(0, head.len() as int));
        assert(w.subrange(0, head.len() as int) =~= head);
        lemma_record_lines_back(data, ts, off, rs, m);
        assert(record_plain(rs[m as int]));
        lemma_record_back(rs[m as int]);
        let o: nat = off + head.len();
        let b: Seq<u8> = data.skip(o as int);
        assert forall|j: int| 0 <= j < line.len() implies #[trigger] b[j] != 0x0a by {
            assert(b[j] == w[head.len() + j]);
            assert(w[head.len() + j] == line[j]);
        }
        assert(b[line.len() as int] == w[(head.len() + line.len()) as int]);
        lines::lemma_newline_at(b, line.len());
        assert(bytes::window(data, o, line.len()) =~= w.subrange(
            head.len() as int,
            (head.len() + line.len()) as int,
        ));
        assert(w.subrange(head.len() as int, (head.len() + line.len()) as int) =~= line);
    }
}

/// A batch gives back the lines that its records stand for.
pub proof fn law_batch_roundtrip(ts: Seq<Seq<PartView>>, rs: Seq<TextRecord>)
    requires
        parts::table_fits(ts),
        rs.len() < 0x1_0000_0000,
        forall|i: int| 0 <= i < rs.len() ==> record_plain(#[trigger] rs[i]),
        forall|i: int| 0 <= i < rs.len() ==> (#[trigger] rs[i]).pat_id < ts.len(),
    ensures
        batch_logs(batch_bytes(ts, rs)) == Ok::<Seq<LogView>, DataError>(
            record_logs(ts, rs, rs.len()),
        ),
{
    let data: Seq<u8> = batch_bytes(ts, rs);
    let count: Seq<u8> = bytes::le_bytes(ts.len(), 2);
    let table: Seq<u8> = parts::templates_bytes(ts, ts.len());
    let n: Seq<u8> = bytes::le_bytes(rs.len(), 4);
    let body: Seq<u8> = record_lines(rs, rs.len());
    bytes::lemma_pow256();
    bytes::lemma_le_value_of_bytes(ts.len(), 2);
    bytes::lemma_le_value_of_bytes(rs.len(), 4);
    assert(bytes::window(data, 0, 2) =~= count);
    assert(data.subrange(2, (2 + table.len()) as int) =~= table);
    lemma_templates_back(data, ts, ts.len());
    assert(ts.take(ts.len() as int) =~= ts);
    let o: nat = 2 + table.len();
    assert(bytes::window(data, o, 4) =~= n);
    assert(data[(o + 4) as int] == 0x0a);
    assert(bytes::window(data, o + 5, body.len()) =~= body);
    lemma_record_lines_back(data, ts, o + 5, rs, rs.len());
}

/// Bytes without a zero byte are no batch.
pub proof fn lemma_no_batch(data: Seq<u8>)
    requires
        forall|i: int| 0 <= i < data.len() ==> #[trigger] data[i] != 0,
    ensures
        batch_logs(data) is Err,
{
    if data.len() >= 2 {
        match lenient_templates(data, bytes::le_value(bytes::window(data, 0, 2))) {
            None => {},
            Some((ts, o)) => {
                if o + 4 <= data.len() {
                    let w: Seq<u8> = bytes::window(data, o, 4);
                    let n: nat = bytes::le_value(w);
                    assert(w[0] == data[o as int]);
                    assert(n > 0);
                    let off: nat = if o + 4 < data.len() && data[(o + 4) as int] == 0x0a {
                        o + 5
                    } else {
                        o + 4
                    };
                    assert(read_record_lines(data, ts, off, 0) == Some(
                        (Seq::<LogView>::empty(), off),
                    ));
                    let len: nat = lines::newline_at(data.skip(off as int));
                    lemma_newline_bound(data.skip(off as int));
                    let line: Seq<u8> = bytes::window(data, off, len);
                    assert forall|i: int| 0 <= i < line.len() implies #[trigger] line[i] != 0 by {
                        assert(line[i] == data[off + i]);
                    }
                    lemma_zero_at(line, line.len());
                    assert(fields_of(line).len() == 1);
                    assert(read_record_lines(data, ts, off, 1) is None);
                    lemma_record_lines_none(data, ts, off, 1, n);
                }
            },
        }
    }
}

proof fn lemma_newline_bound(b: Seq<u8>)
    ensures
        lines::newline_at(b) <= b.len(),
    decreases b.len(),
{
    if b.len() > 0 && b[0] != 0x0a {
        lemma_newline_bound(b.drop_first());
    }
}

} // verus!
