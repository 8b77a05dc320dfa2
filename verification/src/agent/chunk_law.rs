//! What is written to a chunk is read back from it.

use crate::agent::chunk_read;
use crate::agent::chunk_read::ServicesView;
use crate::agent::chunk_text;
use crate::agent::chunk_text::RecordView;
use crate::agent::parts;
use crate::agent::parts::PartView;
use crate::shared::bytes;
use crate::shared::error::DataError;
use crate::shared::log::LogView;
use crate::shared::text;
use vstd::prelude::*;
use vstd::utf8::*;

verus! {

/// `piece` stands in `data` at `off`.
pub open spec fn stands(data: Seq<u8>, off: nat, piece: Seq<u8>) -> bool {
    off + piece.len() <= data.len() && bytes::window(data, off, piece.len()) == piece
}

/// A text whose length fits two bytes.
pub open spec fn text_fits(s: Seq<char>) -> bool {
    encode_utf8(s).len() <= 0xffff
}

/// A record whose counts and lengths fit two bytes.
pub open spec fn record_fits(r: RecordView) -> bool {
    r.params.len() <= 0xffff && forall|j: int|
        0 <= j < r.params.len() ==> text_fits(#[trigger] r.params[j])
}

/// Lines and records whose counts and lengths fit their fields.
pub open spec fn chunk_fits(logs: Seq<LogView>, recs: Seq<RecordView>) -> bool {
    &&& logs.len() < 0x1_0000_0000
    &&& recs.len() == logs.len()
    &&& chunk_text::services_of(logs, logs.len()).len() <= 0xffff
    &&& forall|i: int| 0 <= i < logs.len() ==> text_fits((#[trigger] logs[i]).service)
    &&& forall|i: int| 0 <= i < recs.len() ==> record_fits(#[trigger] recs[i])
}

/// The line that a record stands for.
pub open spec fn restored(
    templates: Seq<Seq<PartView>>,
    line: LogView,
    rec: RecordView,
) -> LogView {
    LogView {
        ts: line.ts,
        service: line.service,
        level: chunk_text::level_text(chunk_text::level_code(line.level)),
        message: parts::record_text(templates, rec.pat_id as nat, rec.params, Seq::empty()),
    }
}

/// The lines that the first `n` records stand for.
pub open spec fn restored_lines(
    templates: Seq<Seq<PartView>>,
    logs: Seq<LogView>,
    recs: Seq<RecordView>,
    n: nat,
) -> Seq<LogView> {
    Seq::new(n, |i: int| restored(templates, logs[i], recs[i]))
}

pub proof fn lemma_stands_split(data: Seq<u8>, off: nat, a: Seq<u8>, b: Seq<u8>)
    requires
        stands(data, off, a + b),
    ensures
        stands(data, off, a),
        stands(data, off + a.len(), b),
{
    let w: Seq<u8> = bytes::window(data, off, (a + b).len());
    assert(bytes::window(data, off, a.len()) =~= w.subrange(0, a.len() as int));
    assert(w.subrange(0, a.len() as int) =~= a);
    assert(bytes::window(data, off + a.len(), b.len()) =~= w.subrange(
        a.len() as int,
        w.len() as int,
    ));
    assert(w.subrange(a.len() as int, w.len() as int) =~= b);
}

pub proof fn lemma_stands_field(data: Seq<u8>, off: nat, n: nat, width: nat)
    requires
        stands(data, off, bytes::le_bytes(n, width)),
        n < bytes::pow256(width),
    ensures
        off + width <= data.len(),
        chunk_read::field(data, off, width) == n,
{
    bytes::lemma_le_value_of_bytes(n, width);
}

// ---------- times ----------

proof fn lemma_steps(data: Seq<u8>, off: nat, logs: Seq<LogView>, n: nat)
    requires
        1 <= n <= logs.len(),
        stands(data, off, chunk_text::steps_bytes(logs, n)),
    ensures
        chunk_text::steps_bytes(logs, n).len() == 8 * (n - 1),
        forall|i: nat|
            1 <= i < n ==> #[trigger] chunk_read::field(data, (off + 8 * (i - 1)) as nat, 8)
                == chunk_text::step_of(logs, i as int),
    decreases n,
{
    if n > 1 {
        let m: nat = (n - 1) as nat;
        let a: Seq<u8> = chunk_text::steps_bytes(logs, m);
        let b: Seq<u8> = bytes::le_bytes(chunk_text::step_of(logs, m as int) as nat, 8);
        lemma_stands_split(data, off, a, b);
        lemma_steps(data, off, logs, m);
        bytes::lemma_le_bytes_len(chunk_text::step_of(logs, m as int) as nat, 8);
        bytes::lemma_pow256();
        lemma_stands_field(
            data,
            off + a.len(),
            chunk_text::step_of(logs, m as int) as nat,
            8,
        );
        assert forall|i: nat| 1 <= i < n implies #[trigger] chunk_read::field(
            data,
            (off + 8 * (i - 1)) as nat,
            8,
        ) == chunk_text::step_of(logs, i as int) by {
            if i < m {
                assert(1 <= i < m);
            } else {
                assert(off + 8 * (i - 1) == off + a.len());
            }
        }
    }
}

proof fn lemma_time_at(data: Seq<u8>, logs: Seq<LogView>, i: nat)
    requires
        i < logs.len(),
        chunk_read::field(data, 5, 8) == logs[0].ts,
        forall|k: nat|
            1 <= k < logs.len() ==> #[trigger] chunk_read::read_step(data, k)
                == chunk_text::step_of(logs, k as int),
    ensures
        chunk_read::time_at(data, i) == logs[i as int].ts,
    decreases i,
{
    if i > 0 {
        lemma_time_at(data, logs, (i - 1) as nat);
        assert(chunk_read::read_step(data, i) == chunk_text::step_of(logs, i as int));
    }
}

proof fn lemma_times_back(data: Seq<u8>, logs: Seq<LogView>)
    requires
        logs.len() < 0x1_0000_0000,
        stands(data, 0, chunk_text::times_bytes(logs)),
    ensures
        chunk_read::line_count(data) == logs.len(),
        chunk_read::times_end(data) == Some(chunk_text::times_bytes(logs).len()),
        forall|i: nat|
            i < logs.len() ==> #[trigger] chunk_read::time_at(data, i) == logs[i as int].ts,
{
    bytes::lemma_pow256();
    let n: Seq<u8> = bytes::le_bytes(logs.len(), 4);
    let first: Seq<u8> = bytes::le_bytes(chunk_text::first_ts(logs) as nat, 8);
    let all: Seq<u8> = chunk_text::times_bytes(logs);
    let steady: bool = chunk_text::steady(logs);
    let tag: Seq<u8> = if steady {
        seq![1u8]
    } else {
        seq![0u8]
    };
    let tail: Seq<u8> = if steady {
        bytes::le_bytes(chunk_text::step_of(logs, 1) as nat, 8)
    } else {
        chunk_text::steps_bytes(logs, logs.len())
    };
    bytes::lemma_le_bytes_len(logs.len(), 4);
    bytes::lemma_le_bytes_len(chunk_text::first_ts(logs) as nat, 8);
    assert(all == tag + (n + first) + tail);
    lemma_stands_split(data, 0, tag + (n + first), tail);
    lemma_stands_split(data, 0, tag, n + first);
    lemma_stands_split(data, 1, n, first);
    lemma_stands_field(data, 1, logs.len(), 4);
    lemma_stands_field(data, 5, chunk_text::first_ts(logs) as nat, 8);
    assert(data[0] == bytes::window(data, 0, 1)[0]);
    if steady {
        lemma_stands_field(data, 13, chunk_text::step_of(logs, 1) as nat, 8);
        bytes::lemma_le_bytes_len(chunk_text::step_of(logs, 1) as nat, 8);
        assert forall|k: nat| 1 <= k < logs.len() implies #[trigger] chunk_read::read_step(data, k)
            == chunk_text::step_of(logs, k as int) by {}
    } else if logs.len() > 0 {
        lemma_steps(data, 13, logs, logs.len());
        assert forall|k: nat| 1 <= k < logs.len() implies #[trigger] chunk_read::read_step(data, k)
            == chunk_text::step_of(logs, k as int) by {
            assert(chunk_read::field(data, (13 + 8 * (k - 1)) as nat, 8) == chunk_text::step_of(
                logs,
                k as int,
            ));
        }
    }
    assert forall|i: nat| i < logs.len() implies #[trigger] chunk_read::time_at(data, i)
        == logs[i as int].ts by {
        lemma_time_at(data, logs, i);
    }
}

// ---------- levels ----------

proof fn lemma_level_back(data: Seq<u8>, off: nat, logs: Seq<LogView>, i: nat)
    requires
        i < logs.len(),
        stands(data, off, chunk_text::levels_bytes(logs)),
    ensures
        chunk_read::level_at(data, off, i) == chunk_text::level_text(
            chunk_text::level_code(logs[i as int].level),
        ),
{
    let j: int = (i / 4) as int;
    let all: Seq<u8> = chunk_text::levels_bytes(logs);
    assert(j < all.len());
    assert(data[off + j] == bytes::window(data, off, all.len())[j]);
    assert(data[off + j] == chunk_text::level_byte(logs, j));
    let a: nat = chunk_text::code_at(logs, 4 * j);
    let b: nat = chunk_text::code_at(logs, 4 * j + 1);
    let c: nat = chunk_text::code_at(logs, 4 * j + 2);
    let d: nat = chunk_text::code_at(logs, 4 * j + 3);
    assert(a < 4 && b < 4 && c < 4 && d < 4);
    let v: u8 = data[off + j];
    assert(v == a + 4 * b + 16 * c + 64 * d);
    if i % 4 == 0 {
        assert(i == 4 * j);
        assert((v / 1) % 4 == a);
    } else if i % 4 == 1 {
        assert(i == 4 * j + 1);
        assert((v / 4) % 4 == b);
    } else if i % 4 == 2 {
        assert(i == 4 * j + 2);
        assert((v / 16) % 4 == c);
    } else {
        assert(i == 4 * j + 3);
        assert((v / 64) % 4 == d);
    }
}

// ---------- texts ----------

pub proof fn lemma_text16_back(data: Seq<u8>, off: nat, s: Seq<char>)
    requires
        text_fits(s),
        stands(data, off, chunk_text::text16(s)),
    ensures
        chunk_read::read_text16(data, off) == Some((s, off + chunk_text::text16(s).len())),
{
    let len: Seq<u8> = bytes::le_bytes(encode_utf8(s).len(), 2);
    bytes::lemma_pow256();
    bytes::lemma_le_bytes_len(encode_utf8(s).len(), 2);
    lemma_stands_split(data, off, len, encode_utf8(s));
    lemma_stands_field(data, off, encode_utf8(s).len(), 2);
    text::lemma_utf8_roundtrip(s);
}

pub proof fn lemma_texts16_back(data: Seq<u8>, off: nat, ss: Seq<Seq<char>>, n: nat)
    requires
        n <= ss.len(),
        forall|j: int| 0 <= j < n ==> text_fits(#[trigger] ss[j]),
        stands(data, off, chunk_text::texts16(ss, n)),
    ensures
        chunk_read::read_texts16(data, off, n) == Some(
            (ss.take(n as int), off + chunk_text::texts16(ss, n).len()),
        ),
    decreases n,
{
    if n == 0 {
        assert(ss.take(0) =~= Seq::empty());
    } else {
        let m: nat = (n - 1) as nat;
        let a: Seq<u8> = chunk_text::texts16(ss, m);
        lemma_stands_split(data, off, a, chunk_text::text16(ss[m as int]));
        lemma_texts16_back(data, off, ss, m);
        lemma_text16_back(data, off + a.len(), ss[m as int]);
        assert(ss.take(m as int).push(ss[m as int]) =~= ss.take(n as int));
    }
}

// ---------- services ----------

proof fn lemma_indices(
    data: Seq<u8>,
    off: nat,
    logs: Seq<LogView>,
    us: Seq<Seq<char>>,
    width: nat,
    n: nat,
)
    requires
        n <= logs.len(),
        us.len() <= bytes::pow256(width),
        forall|i: int| 0 <= i < n ==> us.contains((#[trigger] logs[i]).service),
        stands(data, off, chunk_text::indices_bytes(logs, us, width, n)),
    ensures
        chunk_text::indices_bytes(logs, us, width, n).len() == width * n,
        forall|i: nat|
            i < n ==> #[trigger] chunk_read::field(data, off + width * i, width)
                == chunk_text::position_of(us, logs[i as int].service),
    decreases n,
{
    if n > 0 {
        let m: nat = (n - 1) as nat;
        let a: Seq<u8> = chunk_text::indices_bytes(logs, us, width, m);
        let k: nat = chunk_text::position_of(us, logs[m as int].service);
        assert(us.contains(logs[m as int].service));
        chunk_text::lemma_position_found(us, logs[m as int].service);
        lemma_stands_split(data, off, a, bytes::le_bytes(k, width));
        lemma_indices(data, off, logs, us, width, m);
        bytes::lemma_le_bytes_len(k, width);
        lemma_stands_field(data, off + a.len(), k, width);
        assert(width * m + width == width * n) by (nonlinear_arith)
            requires
                n == m + 1,
        ;
        assert forall|i: nat| i < n implies #[trigger] chunk_read::field(
            data,
            off + width * i,
            width,
        ) == chunk_text::position_of(us, logs[i as int].service) by {
            if i == m {
                assert(off + width * i == off + a.len());
            }
        }
    } else {
        assert(width * n == 0) by (nonlinear_arith)
            requires
                n == 0,
        ;
    }
}

proof fn lemma_services_fit(logs: Seq<LogView>, n: nat)
    requires
        n <= logs.len(),
        forall|i: int| 0 <= i < logs.len() ==> text_fits((#[trigger] logs[i]).service),
    ensures
        forall|j: int|
            0 <= j < chunk_text::services_of(logs, n).len() ==> text_fits(
                #[trigger] chunk_text::services_of(logs, n)[j],
            ),
    decreases n,
{
    if n > 0 {
        let us: Seq<Seq<char>> = chunk_text::services_of(logs, (n - 1) as nat);
        let vs: Seq<Seq<char>> = chunk_text::services_of(logs, n);
        lemma_services_fit(logs, (n - 1) as nat);
        assert(text_fits(logs[n - 1].service));
        assert forall|j: int| 0 <= j < vs.len() implies text_fits(#[trigger] vs[j]) by {
            if j < us.len() {
                assert(vs[j] == us[j]);
            }
        }
    }
}

proof fn lemma_services_back(data: Seq<u8>, off: nat, logs: Seq<LogView>) -> (sv: ServicesView)
    requires
        chunk_text::services_of(logs, logs.len()).len() <= 0xffff,
        forall|i: int| 0 <= i < logs.len() ==> text_fits((#[trigger] logs[i]).service),
        stands(data, off, chunk_text::services_bytes(logs)),
    ensures
        chunk_read::read_services(data, off, logs.len()) == Ok::<(ServicesView, nat), DataError>(
            (sv, off + chunk_text::services_bytes(logs).len()),
        ),
        forall|i: nat|
            i < logs.len() ==> {
                &&& #[trigger] chunk_read::service_number(data, sv, i) < sv.names.len()
                &&& sv.names[chunk_read::service_number(data, sv, i) as int]
                    == logs[i as int].service
            },
{
    let us: Seq<Seq<char>> = chunk_text::services_of(logs, logs.len());
    let n: nat = logs.len();
    let all: Seq<u8> = chunk_text::services_bytes(logs);
    bytes::lemma_pow256();
    chunk_text::lemma_services_of(logs, n);
    lemma_services_fit(logs, n);
    assert(data[off as int] == bytes::window(data, off, all.len())[0]);
    if us.len() == 1 {
        lemma_stands_split(data, off, seq![0u8], chunk_text::text16(us[0]));
        lemma_text16_back(data, off + 1, us[0]);
        let o: nat = off + all.len();
        let sv: ServicesView = ServicesView { names: seq![us[0]], at: o, width: 0 };
        assert forall|i: nat| i < n implies {
            &&& #[trigger] chunk_read::service_number(data, sv, i) < sv.names.len()
            &&& sv.names[chunk_read::service_number(data, sv, i) as int] == logs[i as int].service
        } by {
            assert(us.contains(logs[i as int].service));
        }
        sv
    } else {
        let width: nat = if us.len() <= 255 {
            1
        } else {
            2
        };
        let tag: Seq<u8> = seq![width as u8];
        let count: Seq<u8> = bytes::le_bytes(us.len(), 2);
        let names: Seq<u8> = chunk_text::texts16(us, us.len());
        let idx: Seq<u8> = chunk_text::indices_bytes(logs, us, width, n);
        assert(all == tag + count + names + idx);
        bytes::lemma_le_bytes_len(us.len(), 2);
        lemma_stands_split(data, off, tag + count + names, idx);
        lemma_stands_split(data, off, tag + count, names);
        lemma_stands_split(data, off, tag, count);
        lemma_stands_field(data, off + 1, us.len(), 2);
        lemma_texts16_back(data, off + 3, us, us.len());
        assert(us.take(us.len() as int) =~= us);
        let at: nat = off + 3 + names.len();
        lemma_indices(data, at, logs, us, width, n);
        let sv: ServicesView = ServicesView { names: us, at, width };
        assert forall|i: nat| i < n implies {
            &&& #[trigger] chunk_read::service_number(data, sv, i) < sv.names.len()
            &&& sv.names[chunk_read::service_number(data, sv, i) as int] == logs[i as int].service
        } by {
            assert(us.contains(logs[i as int].service));
            chunk_text::lemma_position_found(us, logs[i as int].service);
            assert(chunk_read::field(data, at + width * i, width) == chunk_text::position_of(
                us,
                logs[i as int].service,
            ));
        }
        sv
    }
}

// ---------- records ----------

proof fn lemma_record_back(data: Seq<u8>, off: nat, r: RecordView)
    requires
        record_fits(r),
        stands(data, off, chunk_text::record_bytes(r)),
    ensures
        chunk_read::read_record(data, off) == Some(
            (r.pat_id as nat, r.params, off + chunk_text::record_bytes(r).len()),
        ),
{
    let a: Seq<u8> = bytes::le_bytes(r.pat_id as nat, 2);
    let b: Seq<u8> = bytes::le_bytes(r.params.len(), 2);
    let c: Seq<u8> = chunk_text::texts16(r.params, r.params.len());
    bytes::lemma_pow256();
    bytes::lemma_le_bytes_len(r.pat_id as nat, 2);
    bytes::lemma_le_bytes_len(r.params.len(), 2);
    lemma_stands_split(data, off, a + b, c);
    lemma_stands_split(data, off, a, b);
    lemma_stands_field(data, off, r.pat_id as nat, 2);
    lemma_stands_field(data, off + 2, r.params.len(), 2);
    lemma_texts16_back(data, off + 4, r.params, r.params.len());
    assert(r.params.take(r.params.len() as int) =~= r.params);
}

proof fn lemma_lines_back(
    data: Seq<u8>,
    templates: Seq<Seq<PartView>>,
    levels: nat,
    sv: ServicesView,
    off: nat,
    logs: Seq<LogView>,
    recs: Seq<RecordView>,
    n: nat,
)
    requires
        n <= logs.len(),
        recs.len() == logs.len(),
        forall|i: int| 0 <= i < recs.len() ==> record_fits(#[trigger] recs[i]),
        forall|i: nat|
            i < logs.len() ==> #[trigger] chunk_read::time_at(data, i) == logs[i as int].ts,
        stands(data, levels, chunk_text::levels_bytes(logs)),
        forall|i: nat|
            i < logs.len() ==> {
                &&& #[trigger] chunk_read::service_number(data, sv, i) < sv.names.len()
                &&& sv.names[chunk_read::service_number(data, sv, i) as int]
                    == logs[i as int].service
            },
        stands(data, off, chunk_text::records_bytes(recs, n)),
    ensures
        chunk_read::read_lines(data, templates, levels, sv, off, n) == Ok::<
            (Seq<LogView>, nat),
            DataError,
        >(
            (
                restored_lines(templates, logs, recs, n),
                off + chunk_text::records_bytes(recs, n).len(),
            ),
        ),
    decreases n,
{
    if n == 0 {
        assert(restored_lines(templates, logs, recs, 0) =~= Seq::empty());
    } else {
        let m: nat = (n - 1) as nat;
        let a: Seq<u8> = chunk_text::records_bytes(recs, m);
        lemma_stands_split(data, off, a, chunk_text::record_bytes(recs[m as int]));
        lemma_lines_back(data, templates, levels, sv, off, logs, recs, m);
        assert(record_fits(recs[m as int]));
        lemma_record_back(data, off + a.len(), recs[m as int]);
        lemma_level_back(data, levels, logs, m);
        assert(chunk_read::time_at(data, m) == logs[m as int].ts);
        assert(chunk_read::service_number(data, sv, m) < sv.names.len());
        assert(restored_lines(templates, logs, recs, m).push(
            restored(templates, logs[m as int], recs[m as int]),
        ) =~= restored_lines(templates, logs, recs, n));
    }
}

/// A chunk gives back the lines written to it: time and service as they were,
/// the level as one of the four, and the message that the record stands for.
#[verifier::rlimit(40)]
pub proof fn law_chunk_roundtrip(
    logs: Seq<LogView>,
    recs: Seq<RecordView>,
    templates: Seq<Seq<PartView>>,
)
    requires
        chunk_fits(logs, recs),
    ensures
        chunk_read::chunk_logs(chunk_text::chunk_bytes(logs, recs), templates) == Ok::<
            Seq<LogView>,
            DataError,
        >(restored_lines(templates, logs, recs, logs.len())),
{
    let data: Seq<u8> = chunk_text::chunk_bytes(logs, recs);
    let n: nat = logs.len();
    let a: Seq<u8> = chunk_text::times_bytes(logs);
    let b: Seq<u8> = chunk_text::levels_bytes(logs);
    let c: Seq<u8> = chunk_text::services_bytes(logs);
    let d: Seq<u8> = bytes::le_bytes(n, 4);
    let e: Seq<u8> = chunk_text::records_bytes(recs, n);
    bytes::lemma_pow256();
    bytes::lemma_le_bytes_len(n, 4);
    assert(bytes::window(data, 0, data.len()) =~= data);
    assert(stands(data, 0, a + b + c + d + e));
    lemma_stands_split(data, 0, a + b + c + d, e);
    lemma_stands_split(data, 0, a + b + c, d);
    lemma_stands_split(data, 0, a + b, c);
    lemma_stands_split(data, 0, a, b);
    lemma_times_back(data, logs);
    let sv: ServicesView = lemma_services_back(data, a.len() + b.len(), logs);
    let off: nat = a.len() + b.len() + c.len();
    lemma_stands_field(data, off, n, 4);
    lemma_lines_back(data, templates, a.len(), sv, off + 4, logs, recs, n);
}

} // verus!
