//! Cutting lines into the chunks of a segment.

use crate::agent::chunk_text;
use crate::agent::chunk_text::RecordView;
use crate::agent::extract;
use crate::agent::parts;
use crate::agent::parts::PartView;
use crate::agent::records::{TemplateBatch, TemplateRecord};
use crate::agent::storage_config::StorageConfig;
use crate::agent::template::TemplateExtractor;
use crate::agent::typed;
use crate::shared::bloom;
use crate::shared::chunk;
use crate::shared::chunk::{ChunkEntry, ChunkSummary};
use crate::shared::lines;
use crate::shared::log;
use crate::shared::log::{LogLine, LogView};
use crate::shared::text;
use vstd::prelude::*;
use vstd::string::*;
use vstd::utf8::*;

verus! {

// ---------- cutting ----------

/// The number of bytes in the first `n` messages.
pub open spec fn message_bytes(logs: Seq<LogView>, n: nat) -> nat
    decreases n,
{
    if n == 0 {
        0
    } else {
        message_bytes(logs, (n - 1) as nat) + encode_utf8(logs[n - 1].message).len()
    }
}

/// The lines are kept in one chunk.
pub open spec fn single_chunk(config: StorageConfig, logs: Seq<LogView>) -> bool {
    logs.len() <= config.single_chunk_threshold_lines && message_bytes(logs, logs.len())
        <= config.single_chunk_threshold_bytes
}

/// How many lines a chunk holds.
pub open spec fn chunk_span(config: StorageConfig, logs: Seq<LogView>) -> nat {
    if single_chunk(config, logs) {
        if logs.len() == 0 {
            1
        } else {
            logs.len()
        }
    } else {
        config.chunk_size as nat
    }
}

/// The smaller number.
pub open spec fn least(a: nat, b: nat) -> nat {
    if a <= b {
        a
    } else {
        b
    }
}

/// A list cut into pieces of `k` items; the last piece holds the rest.
pub open spec fn pieces<T>(s: Seq<T>, k: nat) -> Seq<Seq<T>>
    decreases s.len(),
{
    if s.len() == 0 || k == 0 {
        Seq::empty()
    } else {
        let m: nat = least(k, s.len());
        seq![s.take(m as int)] + pieces(s.skip(m as int), k)
    }
}

/// Two lists of the same length are cut at the same places.
pub proof fn lemma_pieces_len<A, B>(a: Seq<A>, b: Seq<B>, k: nat)
    requires
        a.len() == b.len(),
    ensures
        pieces(a, k).len() == pieces(b, k).len(),
        forall|i: int|
            0 <= i < pieces(a, k).len() ==> (#[trigger] pieces(a, k)[i]).len() == pieces(
                b,
                k,
            )[i].len() && pieces(a, k)[i].len() > 0,
    decreases a.len(),
{
    if a.len() > 0 && k > 0 {
        let m: nat = least(k, a.len());
        lemma_pieces_len(a.skip(m as int), b.skip(m as int), k);
        assert forall|i: int| 0 <= i < pieces(a, k).len() implies (#[trigger] pieces(a, k)[i]).len()
            == pieces(b, k)[i].len() && pieces(a, k)[i].len() > 0 by {
            if i > 0 {
                assert(pieces(a, k)[i] == pieces(a.skip(m as int), k)[i - 1]);
                assert(pieces(b, k)[i] == pieces(b.skip(m as int), k)[i - 1]);
            }
        }
    }
}

/// No more pieces than items.
pub proof fn lemma_pieces_count<T>(s: Seq<T>, k: nat)
    ensures
        pieces(s, k).len() <= s.len(),
        k >= s.len() > 0 ==> pieces(s, k) == seq![s],
    decreases s.len(),
{
    if s.len() > 0 && k > 0 {
        let m: nat = least(k, s.len());
        lemma_pieces_count(s.skip(m as int), k);
        if k >= s.len() {
            assert(s.take(m as int) =~= s);
            assert(s.skip(m as int).len() == 0);
            assert(pieces(s, k) =~= seq![s]);
        }
    }
}

// ---------- summaries ----------

/// The earliest time; 0 without lines.
pub open spec fn earliest(logs: Seq<LogView>) -> u64
    decreases logs.len(),
{
    if logs.len() == 0 {
        0
    } else if logs.len() == 1 {
        logs[0].ts
    } else {
        let e: u64 = earliest(logs.drop_last());
        if logs.last().ts < e {
            logs.last().ts
        } else {
            e
        }
    }
}

/// The latest time; 0 without lines.
pub open spec fn latest(logs: Seq<LogView>) -> u64
    decreases logs.len(),
{
    if logs.len() == 0 {
        0
    } else {
        let e: u64 = latest(logs.drop_last());
        if logs.last().ts > e {
            logs.last().ts
        } else {
            e
        }
    }
}

/// Every line lies between the earliest and the latest time.
pub proof fn lemma_span(logs: Seq<LogView>, i: int)
    requires
        0 <= i < logs.len(),
    ensures
        earliest(logs) <= logs[i].ts <= latest(logs),
    decreases logs.len(),
{
    if i < logs.len() - 1 {
        lemma_span(logs.drop_last(), i);
        assert(logs.drop_last()[i] == logs[i]);
    }
}

/// Some record uses template `k`.
pub open spec fn uses_pattern(recs: Seq<RecordView>, k: u16) -> bool {
    exists|i: int| 0 <= i < recs.len() && (#[trigger] recs[i]).pat_id == k
}

/// Some line has the level with code `k`.
pub open spec fn uses_level(logs: Seq<LogView>, k: u8) -> bool {
    exists|i: int| 0 <= i < logs.len() && chunk_text::level_code((#[trigger] logs[i]).level) == k
}

/// One of the first `n` texts marks bit `p`.
pub open spec fn texts_mark(texts: Seq<Seq<char>>, n: nat, p: nat) -> bool {
    exists|j: int|
        0 <= j < n && chunk::is_position(encode_utf8(#[trigger] texts[j]), 5, p)
}

/// The message of a line or one of its parameters marks bit `p`.
pub open spec fn line_marks(l: LogView, r: RecordView, p: nat) -> bool {
    chunk::is_position(encode_utf8(l.message), 5, p) || texts_mark(r.params, r.params.len(), p)
}

/// Some line marks bit `p`.
pub open spec fn marks_bit(logs: Seq<LogView>, recs: Seq<RecordView>, p: nat) -> bool {
    exists|i: int| 0 <= i < logs.len() && line_marks(#[trigger] logs[i], recs[i], p)
}

/// `s` is the summary of a chunk with these lines and records.
pub open spec fn chunk_summarizes(
    s: ChunkSummary,
    logs: Seq<LogView>,
    recs: Seq<RecordView>,
) -> bool {
    &&& forall|k: u16|
        k < 64 ==> #[trigger] chunk::mask_bit(s.pattern_mask, k) == uses_pattern(recs, k)
    &&& forall|k: u8| k < 8 ==> #[trigger] level_set(s.level_mask, k) == uses_level(logs, k)
    &&& forall|p: nat|
        p < 512 ==> #[trigger] bloom::filter_bit(s.param_bloom@, p) == marks_bit(logs, recs, p)
    &&& s.reserved@ == Seq::new(7, |i: int| 0u8)
}

/// Bit `k` of a level mask.
pub open spec fn level_set(mask: u8, k: u8) -> bool {
    (mask >> k) & 1 != 0
}

proof fn lemma_mask_or(mask: u64, p: u16, k: u16)
    requires
        p < 64,
        k < 64,
    ensures
        chunk::mask_bit(mask | (1u64 << (p as u64)), k) == (k == p || chunk::mask_bit(mask, k)),
{
    let a: u64 = p as u64;
    let b: u64 = k as u64;
    assert((((mask | (1u64 << a)) >> b) & 1 != 0) == (a == b || (mask >> b) & 1 != 0)) by (bit_vector)
        requires
            a < 64,
            b < 64,
    ;
}

proof fn lemma_level_or(mask: u8, p: u8, k: u8)
    requires
        p < 8,
        k < 8,
    ensures
        level_set(mask | (1u8 << p), k) == (k == p || level_set(mask, k)),
{
    assert((((mask | (1u8 << p)) >> k) & 1 != 0) == (p == k || (mask >> k) & 1 != 0)) by (bit_vector)
        requires
            p < 8,
            k < 8,
    ;
}

proof fn lemma_uses_step(logs: Seq<LogView>, recs: Seq<RecordView>, n: int)
    requires
        0 <= n < logs.len(),
        recs.len() == logs.len(),
    ensures
        forall|k: u16| #[trigger]
            uses_pattern(recs.take(n + 1), k) == (uses_pattern(recs.take(n), k) || recs[n].pat_id
                == k),
        forall|k: u8| #[trigger]
            uses_level(logs.take(n + 1), k) == (uses_level(logs.take(n), k)
                || chunk_text::level_code(logs[n].level) == k),
        forall|p: nat| #[trigger]
            marks_bit(logs.take(n + 1), recs.take(n + 1), p) == (marks_bit(
                logs.take(n),
                recs.take(n),
                p,
            ) || line_marks(logs[n], recs[n], p)),
{
    let ra: Seq<RecordView> = recs.take(n);
    let rb: Seq<RecordView> = recs.take(n + 1);
    let la: Seq<LogView> = logs.take(n);
    let lb: Seq<LogView> = logs.take(n + 1);
    assert(rb[n] == recs[n] && lb[n] == logs[n]);
    assert forall|k: u16| #[trigger] uses_pattern(rb, k) == (uses_pattern(ra, k) || recs[n].pat_id
        == k) by {
        if uses_pattern(ra, k) {
            let i: int = choose|i: int| 0 <= i < ra.len() && (#[trigger] ra[i]).pat_id == k;
            assert(rb[i] == ra[i]);
        }
        if uses_pattern(rb, k) && recs[n].pat_id != k {
            let i: int = choose|i: int| 0 <= i < rb.len() && (#[trigger] rb[i]).pat_id == k;
            assert(ra[i] == rb[i]);
        }
    }
    assert forall|k: u8| #[trigger] uses_level(lb, k) == (uses_level(la, k)
        || chunk_text::level_code(logs[n].level) == k) by {
        if uses_level(la, k) {
            let i: int = choose|i: int|
                0 <= i < la.len() && chunk_text::level_code((#[trigger] la[i]).level) == k;
            assert(lb[i] == la[i]);
        }
        if uses_level(lb, k) && chunk_text::level_code(logs[n].level) != k {
            let i: int = choose|i: int|
                0 <= i < lb.len() && chunk_text::level_code((#[trigger] lb[i]).level) == k;
            assert(la[i] == lb[i]);
        }
    }
    assert forall|p: nat| #[trigger] marks_bit(lb, rb, p) == (marks_bit(la, ra, p) || line_marks(
        logs[n],
        recs[n],
        p,
    )) by {
        if marks_bit(la, ra, p) {
            let i: int = choose|i: int| 0 <= i < la.len() && line_marks(#[trigger] la[i], ra[i], p);
            assert(lb[i] == la[i] && rb[i] == ra[i]);
        }
        if marks_bit(lb, rb, p) && !line_marks(logs[n], recs[n], p) {
            let i: int = choose|i: int| 0 <= i < lb.len() && line_marks(#[trigger] lb[i], rb[i], p);
            assert(la[i] == lb[i] && ra[i] == rb[i]);
        }
    }
}

/// Marks each of the texts in a filter.
fn insert_all(filter: &mut [u8; 64], texts: &Vec<String>)
    ensures
        forall|p: nat|
            p < 512 ==> #[trigger] bloom::filter_bit(final(filter)@, p) == (bloom::filter_bit(
                old(filter)@,
                p,
            ) || texts_mark(text::texts(texts@), texts@.len(), p)),
{
    let ghost tv = text::texts(texts@);
    let ghost filter0 = filter@;
    let mut j: usize = 0;
    while j < texts.len()
        invariant
            j <= texts@.len(),
            tv == text::texts(texts@),
            forall|p: nat|
                p < 512 ==> #[trigger] bloom::filter_bit(filter@, p) == (bloom::filter_bit(
                    filter0,
                    p,
                ) || texts_mark(tv, j as nat, p)),
        decreases texts@.len() - j,
    {
        let ghost before = filter@;
        chunk::bloom_insert(filter, texts[j].as_str());
        proof {
            assert(tv[j as int] == texts@[j as int]@);
            assert forall|p: nat| p < 512 implies #[trigger] bloom::filter_bit(filter@, p) == (
            bloom::filter_bit(filter0, p) || texts_mark(tv, (j + 1) as nat, p)) by {
                assert(bloom::filter_bit(before, p) == (bloom::filter_bit(filter0, p) || texts_mark(
                    tv,
                    j as nat,
                    p,
                )));
                if chunk::is_position(encode_utf8(tv[j as int]), 5, p) {
                    assert(texts_mark(tv, (j + 1) as nat, p));
                }
                if texts_mark(tv, j as nat, p) {
                    let k: int = choose|k: int|
                        0 <= k < j && chunk::is_position(encode_utf8(#[trigger] tv[k]), 5, p);
                    assert(chunk::is_position(encode_utf8(tv[k]), 5, p));
                    assert(texts_mark(tv, (j + 1) as nat, p));
                }
            }
        }
        j += 1;
    }
}

/// The summary of a chunk.
pub fn summarize_chunk(logs: &[LogLine], recs: &[(u16, Vec<String>)]) -> (r: ChunkSummary)
    requires
        recs@.len() == logs@.len(),
    ensures
        chunk_summarizes(r, log::log_views(logs@), chunk_text::record_views(recs@)),
{
    let ghost lv = log::log_views(logs@);
    let ghost rv = chunk_text::record_views(recs@);
    let mut pattern_mask: u64 = 0;
    let mut level_mask: u8 = 0;
    let mut filter: [u8; 64] = [0u8;64];
    let mut i: usize = 0;
    proof {
        assert forall|k: u16| k < 64 implies !#[trigger] chunk::mask_bit(0, k) by {
            let b: u64 = k as u64;
            assert((0u64 >> b) & 1 == 0) by (bit_vector);
        }
        assert forall|k: u8| k < 8 implies !#[trigger] level_set(0, k) by {
            assert((0u8 >> k) & 1 == 0) by (bit_vector);
        }
        assert forall|p: nat| p < 512 implies !#[trigger] bloom::filter_bit(filter@, p) by {
            let k: u8 = (p % 8) as u8;
            assert((0u8 >> k) & 1 == 0) by (bit_vector);
            assert(filter@[(p / 8) as int] == 0);
        }
    }
    while i < logs.len()
        invariant
            i <= logs@.len(),
            recs@.len() == logs@.len(),
            lv == log::log_views(logs@),
            rv == chunk_text::record_views(recs@),
            forall|k: u16|
                k < 64 ==> #[trigger] chunk::mask_bit(pattern_mask, k) == uses_pattern(
                    rv.take(i as int),
                    k,
                ),
            forall|k: u8|
                k < 8 ==> #[trigger] level_set(level_mask, k) == uses_level(lv.take(i as int), k),
            forall|p: nat|
                p < 512 ==> #[trigger] bloom::filter_bit(filter@, p) == marks_bit(
                    lv.take(i as int),
                    rv.take(i as int),
                    p,
                ),
        decreases logs@.len() - i,
    {
        let ghost mask0 = pattern_mask;
        let ghost level0 = level_mask;
        let ghost filter0 = filter@;
        let pat: u16 = recs[i].0;
        if pat < 64 {
            pattern_mask = pattern_mask | (1u64 << (pat as u64));
        }
        let code: u8 = chunk_text::level_code_of(logs[i].level.as_str());
        level_mask = level_mask | (1u8 << code);
        chunk::bloom_insert(&mut filter, logs[i].message.as_str());
        let ghost filter1 = filter@;
        insert_all(&mut filter, &recs[i].1);
        proof {
            assert(rv[i as int].pat_id == pat);
            assert(lv[i as int] == logs@[i as int]@);
            lemma_uses_step(lv, rv, i as int);
            assert forall|k: u16| k < 64 implies #[trigger] chunk::mask_bit(pattern_mask, k)
                == uses_pattern(rv.take(i as int + 1), k) by {
                assert(uses_pattern(rv.take(i as int + 1), k) == (uses_pattern(
                    rv.take(i as int),
                    k,
                ) || pat == k));
                assert(chunk::mask_bit(mask0, k) == uses_pattern(rv.take(i as int), k));
                if pat < 64 {
                    lemma_mask_or(mask0, pat, k);
                }
            }
            assert forall|k: u8| k < 8 implies #[trigger] level_set(level_mask, k) == uses_level(
                lv.take(i as int + 1),
                k,
            ) by {
                assert(level_set(level0, k) == uses_level(lv.take(i as int), k));
                assert(uses_level(lv.take(i as int + 1), k) == (uses_level(lv.take(i as int), k)
                    || code == k));
                lemma_level_or(level0, code, k);
            }
            assert forall|p: nat| p < 512 implies #[trigger] bloom::filter_bit(filter@, p)
                == marks_bit(lv.take(i as int + 1), rv.take(i as int + 1), p) by {
                assert(bloom::filter_bit(filter0, p) == marks_bit(
                    lv.take(i as int),
                    rv.take(i as int),
                    p,
                ));
                assert(bloom::filter_bit(filter1, p) == (bloom::filter_bit(filter0, p)
                    || chunk::is_position(encode_utf8(lv[i as int].message), 5, p)));
                assert(rv[i as int].params == text::texts(recs@[i as int].1@));
                assert(marks_bit(lv.take(i as int + 1), rv.take(i as int + 1), p) == (marks_bit(
                    lv.take(i as int),
                    rv.take(i as int),
                    p,
                ) || line_marks(lv[i as int], rv[i as int], p)));
            }
        }
        i += 1;
    }
    assert(lv.take(i as int) =~= lv);
    assert(rv.take(i as int) =~= rv);
    ChunkSummary::new(pattern_mask, level_mask, filter)
}

fn span_of(logs: &[LogLine]) -> (r: (u64, u64))
    requires
        logs@.len() > 0,
    ensures
        r.0 == earliest(log::log_views(logs@)),
        r.1 == latest(log::log_views(logs@)),
{
    let ghost lv = log::log_views(logs@);
    let mut lo: u64 = logs[0].ts;
    let mut hi: u64 = logs[0].ts;
    let mut i: usize = 1;
    proof {
        assert(lv.take(1)[0] == lv[0]);
        assert(latest(lv.take(1).drop_last()) == 0);
    }
    while i < logs.len()
        invariant
            1 <= i <= logs@.len(),
            lv == log::log_views(logs@),
            lo == earliest(lv.take(i as int)),
            hi == latest(lv.take(i as int)),
        decreases logs@.len() - i,
    {
        let ts: u64 = logs[i].ts;
        proof {
            assert(lv.take(i as int + 1).drop_last() =~= lv.take(i as int));
            assert(lv.take(i as int + 1).last() == logs@[i as int]@);
        }
        if ts < lo {
            lo = ts;
        }
        if ts > hi {
            hi = ts;
        }
        i += 1;
    }
    assert(lv.take(i as int) =~= lv);
    (lo, hi)
}

/// The earliest and the latest time of lines; 0 without lines.
pub fn time_span(logs: &[LogLine]) -> (r: (u64, u64))
    ensures
        r.0 == earliest(log::log_views(logs@)),
        r.1 == latest(log::log_views(logs@)),
{
    if logs.len() == 0 {
        (0, 0)
    } else {
        span_of(logs)
    }
}

/// How many lines a chunk holds.
pub fn chunk_length(config: &StorageConfig, logs: &[LogLine]) -> (r: usize)
    ensures
        r == chunk_span(*config, log::log_views(logs@)),
{
    let ghost lv = log::log_views(logs@);
    if logs.len() > config.single_chunk_threshold_lines {
        return config.chunk_size;
    }
    let max: usize = config.single_chunk_threshold_bytes;
    let mut total: u128 = 0;
    let mut i: usize = 0;
    while i < logs.len()
        invariant
            i <= logs@.len(),
            lv == log::log_views(logs@),
            max == config.single_chunk_threshold_bytes,
            total == message_bytes(lv, i as nat),
            total <= max,
        decreases logs@.len() - i,
    {
        assert(lv[i as int] == logs@[i as int]@);
        total = total + logs[i].message.as_str().as_bytes().len() as u128;
        if total > max as u128 {
            proof {
                lemma_message_bytes(lv, (i + 1) as nat, lv.len());
            }
            return config.chunk_size;
        }
        i += 1;
    }
    if logs.len() == 0 {
        1
    } else {
        logs.len()
    }
}

proof fn lemma_message_bytes(logs: Seq<LogView>, a: nat, b: nat)
    requires
        a <= b,
    ensures
        message_bytes(logs, a) <= message_bytes(logs, b),
    decreases b,
{
    if a < b {
        lemma_message_bytes(logs, a, (b - 1) as nat);
    }
}

// ---------- planning ----------

/// The chunks of a segment before they are compressed.
pub struct Plan {
    /// The pattern table.
    pub table: Vec<u8>,
    pub pattern_count: usize,
    /// Table entries without offsets and sizes.
    pub entries: Vec<ChunkEntry>,
    pub summaries: Vec<ChunkSummary>,
    pub binaries: Vec<Vec<u8>>,
}

/// What the records of a batch say.
pub open spec fn batch_records(b: TemplateBatch) -> Seq<RecordView> {
    Seq::new(
        b.records@.len(),
        |i: int|
            RecordView {
                pat_id: b.records@[i].pat_id,
                params: typed::param_texts(typed::param_views(b.records@[i].params@)),
            },
    )
}

/// The table entry of a chunk, without offset and sizes.
pub open spec fn bare_entry(logs: Seq<LogView>) -> ChunkEntry {
    ChunkEntry {
        offset: 0,
        compressed_sz: 0,
        original_sz: 0,
        line_count: logs.len() as u32,
        min_ts: earliest(logs),
        max_ts: latest(logs),
    }
}

/// `p` is the plan of a segment with these templates, lines and records, in
/// chunks of `k` lines.
pub open spec fn is_plan(
    p: Plan,
    ts: Seq<Seq<PartView>>,
    logs: Seq<LogView>,
    recs: Seq<RecordView>,
    k: nat,
) -> bool {
    let lp: Seq<Seq<LogView>> = pieces(logs, k);
    let rp: Seq<Seq<RecordView>> = pieces(recs, k);
    &&& p.table@ == parts::table_bytes(ts)
    &&& p.pattern_count == ts.len()
    &&& p.entries@.len() == lp.len()
    &&& p.summaries@.len() == lp.len()
    &&& p.binaries@.len() == lp.len()
    &&& forall|c: int| 0 <= c < lp.len() ==> #[trigger] p.entries@[c] == bare_entry(lp[c])
    &&& forall|c: int|
        0 <= c < lp.len() ==> chunk_summarizes(#[trigger] p.summaries@[c], lp[c], rp[c])
    &&& forall|c: int|
        0 <= c < lp.len() ==> (#[trigger] p.binaries@[c])@ == chunk_text::chunk_bytes(
            lp[c],
            rp[c],
        )
}

fn text_params(records: &Vec<TemplateRecord>, lo: usize, hi: usize) -> (r: Vec<(u16, Vec<String>)>)
    requires
        lo <= hi <= records@.len(),
    ensures
        r@.len() == hi - lo,
        forall|i: int|
            0 <= i < hi - lo ==> (#[trigger] chunk_text::record_views(r@)[i]) == (RecordView {
                pat_id: records@[lo + i].pat_id,
                params: typed::param_texts(typed::param_views(records@[lo + i].params@)),
            }),
{
    let mut out: Vec<(u16, Vec<String>)> = Vec::new();
    let mut i: usize = lo;
    while i < hi
        invariant
            lo <= i <= hi <= records@.len(),
            out@.len() == i - lo,
            forall|k: int|
                0 <= k < i - lo ==> (#[trigger] chunk_text::record_views(out@)[k]) == (RecordView {
                    pat_id: records@[lo + k].pat_id,
                    params: typed::param_texts(typed::param_views(records@[lo + k].params@)),
                }),
        decreases hi - i,
    {
        let ghost before = chunk_text::record_views(out@);
        let strings: Vec<String> = typed::param_strings(&records[i].params);
        let ghost rv = RecordView {
            pat_id: records@[i as int].pat_id,
            params: text::texts(strings@),
        };
        out.push((records[i].pat_id, strings));
        assert(chunk_text::record_views(out@) =~= before.push(rv));
        i += 1;
    }
    out
}

/// Plans the chunks of a segment, in chunks of `k` lines.
pub fn plan_segment(logs: &[LogLine], k: usize) -> (p: Plan)
    requires
        k > 0,
    ensures
        exists|b: TemplateBatch|
            #[trigger] extract::is_extraction(log::log_views(logs@), b) && is_plan(
                p,
                parts::template_views(b.templates@),
                log::log_views(logs@),
                batch_records(b),
                k as nat,
            ),
{
    let ghost lv = log::log_views(logs@);
    let batch: TemplateBatch = TemplateExtractor::extract(logs);
    let ghost rv = batch_records(batch);
    let ghost lp = pieces(lv, k as nat);
    let ghost rp = pieces(rv, k as nat);
    let mut entries: Vec<ChunkEntry> = Vec::new();
    let mut summaries: Vec<ChunkSummary> = Vec::new();
    let mut binaries: Vec<Vec<u8>> = Vec::new();
    let n: usize = logs.len();
    let mut lo: usize = 0;
    proof {
        lemma_pieces_len(lv, rv, k as nat);
        assert(lv.skip(0) =~= lv);
        assert(rv.skip(0) =~= rv);
        assert(lp.skip(0) =~= lp);
        assert(rp.skip(0) =~= rp);
    }
    while lo < n
        invariant
            lo <= n,
            n == logs@.len(),
            k > 0,
            lv == log::log_views(logs@),
            rv == batch_records(batch),
            rv.len() == lv.len(),
            lp == pieces(lv, k as nat),
            rp == pieces(rv, k as nat),
            lp.len() == rp.len(),
            entries@.len() <= lp.len(),
            summaries@.len() == entries@.len(),
            binaries@.len() == entries@.len(),
            pieces(lv.skip(lo as int), k as nat) == lp.skip(entries@.len() as int),
            pieces(rv.skip(lo as int), k as nat) == rp.skip(entries@.len() as int),
            forall|c: int|
                0 <= c < entries@.len() ==> #[trigger] entries@[c] == bare_entry(lp[c]),
            forall|c: int|
                0 <= c < entries@.len() ==> chunk_summarizes(
                    #[trigger] summaries@[c],
                    lp[c],
                    rp[c],
                ),
            forall|c: int|
                0 <= c < entries@.len() ==> (#[trigger] binaries@[c])@ == chunk_text::chunk_bytes(
                    lp[c],
                    rp[c],
                ),
        decreases n - lo,
    {
        let hi: usize = if n - lo <= k {
            n
        } else {
            lo + k
        };
        let ghost c = entries@.len() as int;
        let ghost ls = lv.skip(lo as int);
        let ghost rs = rv.skip(lo as int);
        let part: &[LogLine] = vstd::slice::slice_subrange(logs, lo, hi);
        let recs: Vec<(u16, Vec<String>)> = text_params(&batch.records, lo, hi);
        proof {
            let m: nat = least(k as nat, ls.len());
            assert(m == hi - lo);
            assert(log::log_views(part@) =~= ls.take(m as int));
            assert(chunk_text::record_views(recs@) =~= rs.take(m as int));
            assert(pieces(ls, k as nat)[0] == ls.take(m as int));
            assert(pieces(rs, k as nat)[0] == rs.take(m as int));
            assert(pieces(ls, k as nat).len() > 0);
            assert(lp.skip(c).len() > 0);
            assert(lp.skip(c)[0] == lp[c]);
            assert(rp.skip(c)[0] == rp[c]);
            assert(ls.skip(m as int) =~= lv.skip(hi as int));
            assert(rs.skip(m as int) =~= rv.skip(hi as int));
            assert(pieces(ls, k as nat).skip(1) =~= pieces(ls.skip(m as int), k as nat));
            assert(pieces(rs, k as nat).skip(1) =~= pieces(rs.skip(m as int), k as nat));
            assert(lp.skip(c).skip(1) =~= lp.skip(c + 1));
            assert(rp.skip(c).skip(1) =~= rp.skip(c + 1));
        }
        summaries.push(summarize_chunk(part, &recs));
        let (first, last) = time_span(part);
        entries.push(ChunkEntry::new(0, 0, 0, part.len() as u32, first, last));
        binaries.push(chunk_text::write_chunk(part, &recs));
        lo = hi;
    }
    proof {
        assert(lv.skip(lo as int).len() == 0);
        assert(lp.skip(entries@.len() as int).len() == 0);
    }
    let p: Plan = Plan {
        table: batch.serialize_pattern_table(),
        pattern_count: batch.templates.len(),
        entries,
        summaries,
        binaries,
    };
    proof {
        assert(parts::template_views(batch.templates@).len() == batch.templates@.len());
        assert(extract::is_extraction(lv, batch));
    }
    p
}

} // verus!
