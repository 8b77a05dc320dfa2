//! Lines written to a segment are found in it.

use crate::agent::chunk_law;
use crate::agent::chunk_read;
use crate::agent::chunk_text;
use crate::agent::chunk_text::RecordView;
use crate::agent::codec;
use crate::agent::extract;
use crate::agent::parts;
use crate::agent::parts::PartView;
use crate::agent::records::TemplateBatch;
use crate::agent::segment_build;
use crate::agent::segment_layout;
use crate::agent::segment_plan;
use crate::agent::segment_plan::Plan;
use crate::agent::segment_query;
use crate::agent::segment_query::QueryView;
use crate::shared::bytes;
use crate::shared::chunk;
use crate::shared::error::DataError;
use crate::shared::header;
use crate::shared::header::SegmentHeader;
use crate::shared::lines;
use crate::shared::log::LogView;
use crate::shared::segment;
use crate::shared::text;
use vstd::prelude::*;
use vstd::utf8::*;

verus! {

/// A line as it is kept: a level that is none of the four becomes `I`.
pub open spec fn kept(l: LogView) -> LogView {
    LogView {
        ts: l.ts,
        service: l.service,
        level: chunk_text::level_text(chunk_text::level_code(l.level)),
        message: l.message,
    }
}

/// Lines as they are kept.
pub open spec fn all_kept(logs: Seq<LogView>) -> Seq<LogView> {
    Seq::new(logs.len(), |i: int| kept(logs[i]))
}

/// The record stands for the line, and its lengths and counts fit their fields.
pub open spec fn record_serves(ts: Seq<Seq<PartView>>, l: LogView, r: RecordView) -> bool {
    &&& parts::record_text(ts, r.pat_id as nat, r.params, Seq::empty()) == l.message
    &&& chunk_law::record_fits(r)
    &&& chunk_law::text_fits(l.service)
}

/// The counts and lengths of a batch of lines fit the fields of a segment file.
pub open spec fn lines_fit(logs: Seq<LogView>, b: TemplateBatch) -> bool {
    &&& logs.len() < 0x1_0000_0000
    &&& parts::table_fits(parts::template_views(b.templates@))
    &&& forall|i: int| 0 <= i < logs.len() ==> chunk_law::text_fits((#[trigger] logs[i]).service)
    &&& forall|i: int|
        0 <= i < logs.len() ==> chunk_law::record_fits(
            #[trigger] segment_plan::batch_records(b)[i],
        )
}

/// In no chunk are there too many services.
pub open spec fn services_fit(logs: Seq<LogView>, k: nat) -> bool {
    forall|c: int|
        0 <= c < segment_plan::pieces(logs, k).len() ==> chunk_text::services_of(
            #[trigger] segment_plan::pieces(logs, k)[c],
            segment_plan::pieces(logs, k)[c].len(),
        ).len() <= 0xffff
}

proof fn lemma_pieces_serve(
    ts: Seq<Seq<PartView>>,
    logs: Seq<LogView>,
    recs: Seq<RecordView>,
    k: nat,
    c: int,
)
    requires
        logs.len() == recs.len(),
        forall|i: int| 0 <= i < logs.len() ==> record_serves(ts, #[trigger] logs[i], recs[i]),
        0 <= c < segment_plan::pieces(logs, k).len(),
    ensures
        segment_plan::pieces(recs, k).len() == segment_plan::pieces(logs, k).len(),
        ({
            let l: Seq<LogView> = segment_plan::pieces(logs, k)[c];
            let r: Seq<RecordView> = segment_plan::pieces(recs, k)[c];
            &&& l.len() == r.len()
            &&& l.len() <= logs.len()
            &&& forall|j: int| 0 <= j < l.len() ==> record_serves(ts, #[trigger] l[j], r[j])
        }),
    decreases logs.len(),
{
    segment_plan::lemma_pieces_len(logs, recs, k);
    let m: nat = segment_plan::least(k, logs.len());
    let lt: Seq<LogView> = logs.skip(m as int);
    let rt: Seq<RecordView> = recs.skip(m as int);
    if c == 0 {
        let l: Seq<LogView> = segment_plan::pieces(logs, k)[0];
        let r: Seq<RecordView> = segment_plan::pieces(recs, k)[0];
        assert forall|j: int| 0 <= j < l.len() implies record_serves(ts, #[trigger] l[j], r[j]) by {
            assert(record_serves(ts, logs[j], recs[j]));
        }
    } else {
        assert forall|i: int| 0 <= i < lt.len() implies record_serves(
            ts,
            #[trigger] lt[i],
            rt[i],
        ) by {
            assert(record_serves(ts, logs[i + m], recs[i + m]));
        }
        assert(segment_plan::pieces(logs, k)[c] == segment_plan::pieces(lt, k)[c - 1]);
        assert(segment_plan::pieces(recs, k)[c] == segment_plan::pieces(rt, k)[c - 1]);
        lemma_pieces_serve(ts, lt, rt, k, c - 1);
    }
}

/// A chunk gives back its lines as they are kept.
proof fn lemma_chunk_kept(ts: Seq<Seq<PartView>>, logs: Seq<LogView>, recs: Seq<RecordView>)
    requires
        logs.len() == recs.len(),
        logs.len() < 0x1_0000_0000,
        chunk_text::services_of(logs, logs.len()).len() <= 0xffff,
        forall|j: int| 0 <= j < logs.len() ==> record_serves(ts, #[trigger] logs[j], recs[j]),
    ensures
        chunk_read::chunk_logs(chunk_text::chunk_bytes(logs, recs), ts) == Ok::<
            Seq<LogView>,
            DataError,
        >(all_kept(logs)),
{
    assert forall|i: int| 0 <= i < logs.len() implies chunk_law::text_fits(
        (#[trigger] logs[i]).service,
    ) by {
        assert(record_serves(ts, logs[i], recs[i]));
    }
    assert forall|i: int| 0 <= i < recs.len() implies chunk_law::record_fits(
        #[trigger] recs[i],
    ) by {
        assert(record_serves(ts, logs[i], recs[i]));
    }
    chunk_law::law_chunk_roundtrip(logs, recs, ts);
    let got: Seq<LogView> = chunk_law::restored_lines(ts, logs, recs, logs.len());
    assert forall|i: int| 0 <= i < logs.len() implies #[trigger] got[i] == all_kept(logs)[i] by {
        assert(record_serves(ts, logs[i], recs[i]));
    }
    assert(got =~= all_kept(logs));
}

/// Extraction serves every line.
proof fn lemma_extraction_serves(logs: Seq<LogView>, b: TemplateBatch, i: int)
    requires
        extract::is_extraction(logs, b),
        lines_fit(logs, b),
        0 <= i < logs.len(),
    ensures
        record_serves(
            parts::template_views(b.templates@),
            logs[i],
            segment_plan::batch_records(b)[i],
        ),
        segment_plan::batch_records(b)[i].pat_id < b.templates@.len(),
        parts::template_views(b.templates@)[segment_plan::batch_records(b)[i].pat_id as int]
            == extract::template_of(extract::batch_tokens(logs), i),
{
    let toks: Seq<Seq<Seq<char>>> = extract::batch_tokens(logs);
    let ts: Seq<Seq<PartView>> = parts::template_views(b.templates@);
    let rec = b.records@[i];
    let r: RecordView = segment_plan::batch_records(b)[i];
    assert(extract::is_record_of(logs, rec, i));
    extract::lemma_record_texts(logs, rec, i);
    assert(extract::points_at(rec.pat_id, ts, extract::template_of(toks, i)));
    let k: nat = choose|k: nat|
        k < ts.len() && ts[k as int] == extract::template_of(toks, i) && rec.pat_id as nat
            == #[trigger] extract::low16(k);
    assert(rec.pat_id == k);
    extract::law_extract_lossless(logs, i, Seq::empty());
    assert(r.params == extract::params_of(toks, i));
    assert(chunk_law::text_fits(logs[i].service));
    assert(chunk_law::record_fits(r));
}

// ---------- finding ----------

/// A chunk with these lines and records is passed over by the query.
pub open spec fn chunk_skipped(
    logs: Seq<LogView>,
    recs: Seq<RecordView>,
    ts: Seq<Seq<PartView>>,
    q: QueryView,
) -> bool {
    ||| segment_plan::latest(logs) < q.start
    ||| segment_plan::earliest(logs) > q.end
    ||| !patterns_in_use(recs, ts, q.keyword)
}

/// No template holds the keyword, or a template that does is in use, or has a
/// number from 64 on.
pub open spec fn patterns_in_use(
    recs: Seq<RecordView>,
    ts: Seq<Seq<PartView>>,
    keyword: Seq<char>,
) -> bool {
    let ks: Seq<u16> = segment_query::keyword_patterns(ts, keyword, ts.len());
    ks.len() == 0 || exists|i: int|
        0 <= i < ks.len() && (#[trigger] ks[i] >= 64 || segment_plan::uses_pattern(recs, ks[i]))
}

/// The chunk is not passed over for its templates, or it holds no line that the
/// query looks for.
pub open spec fn chunk_complete(
    logs: Seq<LogView>,
    recs: Seq<RecordView>,
    ts: Seq<Seq<PartView>>,
    q: QueryView,
) -> bool {
    ||| patterns_in_use(recs, ts, q.keyword)
    ||| forall|i: int|
        0 <= i < logs.len() ==> !segment_query::line_matches(#[trigger] all_kept(logs)[i], q)
}

/// What a query finds in the first `n` chunks.
pub open spec fn expected(
    lp: Seq<Seq<LogView>>,
    rp: Seq<Seq<RecordView>>,
    ts: Seq<Seq<PartView>>,
    q: QueryView,
    n: nat,
) -> Seq<LogView>
    decreases n,
{
    if n == 0 {
        Seq::empty()
    } else {
        expected(lp, rp, ts, q, (n - 1) as nat) + (if chunk_skipped(
            lp[n - 1],
            rp[n - 1],
            ts,
            q,
        ) {
            Seq::empty()
        } else {
            segment_query::matching(all_kept(lp[n - 1]), q)
        })
    }
}

/// The mask of a chunk tells which templates it uses.
proof fn lemma_patterns(mask: u64, recs: Seq<RecordView>, ts: Seq<Seq<PartView>>, kw: Seq<char>)
    requires
        forall|k: u16|
            k < 64 ==> #[trigger] chunk::mask_bit(mask, k) == segment_plan::uses_pattern(recs, k),
    ensures
        segment_query::patterns_allow(
            mask,
            segment_query::keyword_patterns(ts, kw, ts.len()),
        ) == patterns_in_use(recs, ts, kw),
{
    let ks: Seq<u16> = segment_query::keyword_patterns(ts, kw, ts.len());
    if segment_query::patterns_allow(mask, ks) && ks.len() > 0 {
        let i: int = choose|i: int|
            0 <= i < ks.len() && (#[trigger] ks[i] >= 64 || chunk::mask_bit(mask, ks[i]));
        assert(ks[i] >= 64 || segment_plan::uses_pattern(recs, ks[i]));
    }
    if patterns_in_use(recs, ts, kw) && ks.len() > 0 {
        let i: int = choose|i: int|
            0 <= i < ks.len() && (#[trigger] ks[i] >= 64 || segment_plan::uses_pattern(
                recs,
                ks[i],
            ));
        assert(ks[i] >= 64 || chunk::mask_bit(mask, ks[i]));
    }
}

/// What is read of one chunk of a segment file.
proof fn lemma_chunk_read(
    data: Seq<u8>,
    p: Plan,
    ts: Seq<Seq<PartView>>,
    logs: Seq<LogView>,
    recs: Seq<RecordView>,
    k: nat,
    dict: Seq<u8>,
    ds: Seq<Seq<u8>>,
    id: u32,
    c: int,
)
    requires
        segment_layout::reads_as(data, header::header_at(data), p, dict, ds, id),
        segment_plan::is_plan(p, ts, logs, recs, k),
        0 <= c < p.entries@.len(),
    ensures
        ({
            let h: SegmentHeader = header::header_at(data);
            let lp: Seq<LogView> = segment_plan::pieces(logs, k)[c];
            let rp: Seq<RecordView> = segment_plan::pieces(recs, k)[c];
            let e = segment::table_entry(data, h, c);
            &&& e.min_ts == segment_plan::earliest(lp)
            &&& e.max_ts == segment_plan::latest(lp)
            &&& e.compressed_sz == ds[c].len()
            &&& segment_query::data_begin(data, h, c) + ds[c].len() <= data.len() - 8
            &&& bytes::window(data, segment_query::data_begin(data, h, c), ds[c].len()) == ds[c]
            &&& segment_query::chunk_mask(data, h, c) == p.summaries@[c].pattern_mask
            &&& forall|j: u16|
                j < 64 ==> #[trigger] chunk::mask_bit(p.summaries@[c].pattern_mask, j)
                    == segment_plan::uses_pattern(rp, j)
            &&& lines::byte_lists(p.binaries@)[c] == chunk_text::chunk_bytes(lp, rp)
            &&& h.reserved@[20] == 1
            &&& segment_query::file_dict(data, h) == if dict.len() > 0 {
                Some(dict)
            } else {
                None
            }
        }),
{
    let h: SegmentHeader = header::header_at(data);
    let lp: Seq<LogView> = segment_plan::pieces(logs, k)[c];
    let rp: Seq<RecordView> = segment_plan::pieces(recs, k)[c];
    let bs: Seq<Seq<u8>> = lines::byte_lists(p.binaries@);
    assert(p.entries@[c] == segment_plan::bare_entry(lp));
    assert(segment_plan::chunk_summarizes(p.summaries@[c], lp, rp));
    assert(p.binaries@[c]@ == chunk_text::chunk_bytes(lp, rp));
    assert(segment::table_entry(data, h, c) == segment_build::full_entry(
        p.entries@[c],
        bs,
        ds,
        c,
    ));
    let mask: u64 = p.summaries@[c].pattern_mask;
    assert(segment_query::chunk_mask(data, h, c) == mask) by {
        let b: Seq<u8> = segment_layout::summary_read(data, h, c);
        assert(b == chunk::summary_bytes(p.summaries@[c]));
        chunk::lemma_summary_bytes(p.summaries@[c]);
        assert(data.subrange(segment::summary_at(h, c), segment::summary_at(h, c) + 8)
            =~= b.subrange(0, 8));
        bytes::lemma_pow256();
        bytes::lemma_le_value_of_bytes(mask as nat, 8);
    }
    assert(segment_layout::chunk_stands(data, h, c, ds[c]));
}

/// What a query finds in one chunk of a segment file.
proof fn lemma_found_in_chunk(
    data: Seq<u8>,
    p: Plan,
    ts: Seq<Seq<PartView>>,
    logs: Seq<LogView>,
    recs: Seq<RecordView>,
    k: nat,
    dict: Seq<u8>,
    ds: Seq<Seq<u8>>,
    id: u32,
    q: QueryView,
    c: int,
)
    requires
        segment_layout::reads_as(data, header::header_at(data), p, dict, ds, id),
        segment_plan::is_plan(p, ts, logs, recs, k),
        logs.len() == recs.len(),
        logs.len() < 0x1_0000_0000,
        forall|i: int| 0 <= i < logs.len() ==> record_serves(ts, #[trigger] logs[i], recs[i]),
        services_fit(logs, k),
        segment_build::all_unpack(
            ds,
            lines::byte_lists(p.binaries@),
            if dict.len() > 0 {
                Some(dict)
            } else {
                None
            },
        ),
        0 <= c < p.entries@.len(),
    ensures
        segment_query::found_in_chunk(data, header::header_at(data), ts, q, c) == Ok::<
            Seq<LogView>,
            DataError,
        >(
            if chunk_skipped(
                segment_plan::pieces(logs, k)[c],
                segment_plan::pieces(recs, k)[c],
                ts,
                q,
            ) {
                Seq::empty()
            } else {
                segment_query::matching(all_kept(segment_plan::pieces(logs, k)[c]), q)
            },
        ),
{
    let lp: Seq<LogView> = segment_plan::pieces(logs, k)[c];
    let rp: Seq<RecordView> = segment_plan::pieces(recs, k)[c];
    let bs: Seq<Seq<u8>> = lines::byte_lists(p.binaries@);
    lemma_chunk_read(data, p, ts, logs, recs, k, dict, ds, id, c);
    lemma_patterns(p.summaries@[c].pattern_mask, rp, ts, q.keyword);
    lemma_pieces_serve(ts, logs, recs, k, c);
    lemma_chunk_kept(ts, lp, rp);
    assert(codec::unpacked(ds[c], segment_query::file_dict(data, header::header_at(data))) == Some(
        bs[c],
    ));
    assert(1u8 & 1u8 != 0) by (bit_vector);
}

/// What a query finds in the chunks of a segment file.
proof fn lemma_found_in_chunks(
    data: Seq<u8>,
    p: Plan,
    ts: Seq<Seq<PartView>>,
    logs: Seq<LogView>,
    recs: Seq<RecordView>,
    k: nat,
    dict: Seq<u8>,
    ds: Seq<Seq<u8>>,
    id: u32,
    q: QueryView,
    limit: nat,
    n: nat,
)
    requires
        segment_layout::reads_as(data, header::header_at(data), p, dict, ds, id),
        segment_plan::is_plan(p, ts, logs, recs, k),
        k > 0,
        logs.len() == recs.len(),
        logs.len() < 0x1_0000_0000,
        forall|i: int| 0 <= i < logs.len() ==> record_serves(ts, #[trigger] logs[i], recs[i]),
        services_fit(logs, k),
        segment_build::all_unpack(
            ds,
            lines::byte_lists(p.binaries@),
            if dict.len() > 0 {
                Some(dict)
            } else {
                None
            },
        ),
        n <= p.entries@.len(),
    ensures
        segment_query::found_in_chunks(data, header::header_at(data), ts, q, limit, n) == Ok::<
            Seq<LogView>,
            DataError,
        >(
            segment_query::first(
                expected(segment_plan::pieces(logs, k), segment_plan::pieces(recs, k), ts, q, n),
                limit,
            ),
        ),
    decreases n,
{
    let lp: Seq<Seq<LogView>> = segment_plan::pieces(logs, k);
    let rp: Seq<Seq<RecordView>> = segment_plan::pieces(recs, k);
    if n > 0 {
        let m: nat = (n - 1) as nat;
        lemma_found_in_chunks(data, p, ts, logs, recs, k, dict, ds, id, q, limit, m);
        lemma_found_in_chunk(data, p, ts, logs, recs, k, dict, ds, id, q, n - 1);
        let all: Seq<LogView> = expected(lp, rp, ts, q, m);
        let more: Seq<LogView> = if chunk_skipped(lp[n - 1], rp[n - 1], ts, q) {
            Seq::empty()
        } else {
            segment_query::matching(all_kept(lp[n - 1]), q)
        };
        if all.len() >= limit {
            assert(segment_query::first(all + more, limit) =~= segment_query::first(all, limit));
        } else {
            assert(segment_query::first(all + more, limit) =~= all + segment_query::first(
                more,
                (limit - all.len()) as nat,
            ));
        }
    } else {
        assert(segment_query::first(Seq::<LogView>::empty(), limit) =~= Seq::<LogView>::empty());
    }
}

/// A segment file holds the lines it was made from: a query finds in the chunks
/// that are not passed over exactly the lines that match, in their order, as
/// they are kept, up to its limit.
pub proof fn law_segment_holds_lines(
    data: Seq<u8>,
    p: Plan,
    b: TemplateBatch,
    logs: Seq<LogView>,
    k: nat,
    dict: Seq<u8>,
    ds: Seq<Seq<u8>>,
    id: u32,
    created_at: u64,
    q: QueryView,
    limit: nat,
)
    requires
        extract::is_extraction(logs, b),
        k > 0,
        segment_plan::is_plan(
            p,
            parts::template_views(b.templates@),
            logs,
            segment_plan::batch_records(b),
            k,
        ),
        segment_build::is_segment(data, p, dict, ds, id, created_at),
        segment_build::all_unpack(
            ds,
            lines::byte_lists(p.binaries@),
            if dict.len() > 0 {
                Some(dict)
            } else {
                None
            },
        ),
        segment_layout::layout_fits(p, dict, ds),
        lines_fit(logs, b),
        services_fit(logs, k),
    ensures
        header::header_readable(data),
        segment_query::found_v2(data, header::header_at(data), q, limit) == Ok::<
            Seq<LogView>,
            DataError,
        >(
            segment_query::first(
                expected(
                    segment_plan::pieces(logs, k),
                    segment_plan::pieces(segment_plan::batch_records(b), k),
                    parts::template_views(b.templates@),
                    q,
                    segment_plan::pieces(logs, k).len(),
                ),
                limit,
            ),
        ),
{
    let ts: Seq<Seq<PartView>> = parts::template_views(b.templates@);
    let recs: Seq<RecordView> = segment_plan::batch_records(b);
    let h: SegmentHeader = header::header_at(data);
    segment_layout::lemma_reads_as(data, p, dict, ds, id, created_at);
    assert forall|i: int| 0 <= i < logs.len() implies record_serves(
        ts,
        #[trigger] logs[i],
        recs[i],
    ) by {
        lemma_extraction_serves(logs, b, i);
    }
    lemma_found_in_chunks(
        data,
        p,
        ts,
        logs,
        recs,
        k,
        dict,
        ds,
        id,
        q,
        limit,
        p.entries@.len(),
    );
    assert(segment_query::file_templates(data, h) == Ok::<Seq<Seq<PartView>>, DataError>(ts)) by {
        bytes::lemma_le_bytes_len(ts.len(), 2);
        if ts.len() > 0 {
            parts::law_pattern_table_roundtrip(ts, Seq::empty());
            assert(parts::table_bytes(ts) + Seq::<u8>::empty() =~= parts::table_bytes(ts));
        } else {
            assert(ts =~= Seq::<Seq<PartView>>::empty());
        }
    }
}

// ---------- completeness ----------

proof fn lemma_matching_concat(a: Seq<LogView>, b: Seq<LogView>, q: QueryView)
    ensures
        segment_query::matching(a + b, q) == segment_query::matching(a, q)
            + segment_query::matching(b, q),
    decreases b.len(),
{
    if b.len() == 0 {
        assert(a + b =~= a);
        assert(segment_query::matching(a, q) + Seq::<LogView>::empty()
            =~= segment_query::matching(a, q));
    } else {
        lemma_matching_concat(a, b.drop_last(), q);
        assert((a + b).drop_last() =~= a + b.drop_last());
        assert((a + b).last() == b.last());
        assert(segment_query::matching(a + b, q) =~= segment_query::matching(a, q)
            + segment_query::matching(b, q));
    }
}

/// The first `n` chunks, one after another.
pub open spec fn joined_pieces(lp: Seq<Seq<LogView>>, n: nat) -> Seq<LogView>
    decreases n,
{
    if n == 0 {
        Seq::empty()
    } else {
        joined_pieces(lp, (n - 1) as nat) + lp[n - 1]
    }
}

proof fn lemma_joined_shift(lp: Seq<Seq<LogView>>, n: nat)
    requires
        0 < n <= lp.len(),
    ensures
        joined_pieces(lp, n) == lp[0] + joined_pieces(lp.skip(1), (n - 1) as nat),
    decreases n,
{
    if n > 1 {
        lemma_joined_shift(lp, (n - 1) as nat);
        assert(lp.skip(1)[n - 2] == lp[n - 1]);
        assert(joined_pieces(lp, n) =~= lp[0] + joined_pieces(lp.skip(1), (n - 1) as nat));
    } else {
        assert(joined_pieces(lp, 0) + lp[0] =~= lp[0]);
        assert(lp[0] + joined_pieces(lp.skip(1), 0) =~= lp[0]);
    }
}

/// The chunks of a segment hold all its lines, in their order.
pub proof fn lemma_joined_pieces(logs: Seq<LogView>, k: nat)
    requires
        k > 0,
    ensures
        joined_pieces(
            segment_plan::pieces(logs, k),
            segment_plan::pieces(logs, k).len(),
        ) == logs,
    decreases logs.len(),
{
    let lp: Seq<Seq<LogView>> = segment_plan::pieces(logs, k);
    if logs.len() == 0 {
        assert(joined_pieces(lp, 0) =~= logs);
    } else {
        let m: nat = segment_plan::least(k, logs.len());
        let rest: Seq<LogView> = logs.skip(m as int);
        lemma_joined_pieces(rest, k);
        lemma_joined_shift(lp, lp.len());
        assert(lp.skip(1) =~= segment_plan::pieces(rest, k));
        assert(logs.take(m as int) + rest =~= logs);
    }
}

pub proof fn lemma_out_of_time(logs: Seq<LogView>, q: QueryView)
    requires
        segment_plan::latest(logs) < q.start || segment_plan::earliest(logs) > q.end,
    ensures
        segment_query::matching(all_kept(logs), q) == Seq::<LogView>::empty(),
{
    assert forall|i: int| 0 <= i < logs.len() implies !segment_query::line_matches(
        #[trigger] all_kept(logs)[i],
        q,
    ) by {
        segment_plan::lemma_span(logs, i);
    }
    lemma_no_match(all_kept(logs), q);
}

proof fn lemma_no_match(logs: Seq<LogView>, q: QueryView)
    requires
        forall|i: int|
            0 <= i < logs.len() ==> !segment_query::line_matches(#[trigger] logs[i], q),
    ensures
        segment_query::matching(logs, q) == Seq::<LogView>::empty(),
    decreases logs.len(),
{
    if logs.len() > 0 {
        let t: Seq<LogView> = logs.drop_last();
        assert forall|i: int| 0 <= i < t.len() implies !segment_query::line_matches(
            #[trigger] t[i],
            q,
        ) by {
            assert(t[i] == logs[i]);
        }
        lemma_no_match(t, q);
        assert(!segment_query::line_matches(logs[logs.len() - 1], q));
    }
}

/// Where no chunk with a line that matches is passed over for its templates, a
/// query finds exactly the lines that match.
pub proof fn law_found_complete(
    lp: Seq<Seq<LogView>>,
    rp: Seq<Seq<RecordView>>,
    ts: Seq<Seq<PartView>>,
    q: QueryView,
    n: nat,
)
    requires
        n <= lp.len(),
        forall|c: int| 0 <= c < n ==> chunk_complete(lp[c], #[trigger] rp[c], ts, q),
    ensures
        expected(lp, rp, ts, q, n) == segment_query::matching(
            all_kept(joined_pieces(lp, n)),
            q,
        ),
    decreases n,
{
    if n == 0 {
        assert(all_kept(joined_pieces(lp, 0)) =~= Seq::<LogView>::empty());
    } else {
        let m: nat = (n - 1) as nat;
        law_found_complete(lp, rp, ts, q, m);
        let a: Seq<LogView> = joined_pieces(lp, m);
        let b: Seq<LogView> = lp[n - 1];
        assert(all_kept(a + b) =~= all_kept(a) + all_kept(b));
        lemma_matching_concat(all_kept(a), all_kept(b), q);
        assert(chunk_complete(b, rp[n - 1], ts, q));
        if chunk_skipped(b, rp[n - 1], ts, q) {
            if patterns_in_use(rp[n - 1], ts, q.keyword) {
                lemma_out_of_time(b, q);
            } else {
                lemma_no_match(all_kept(b), q);
            }
        }
    }
}

proof fn lemma_matching_contains(logs: Seq<LogView>, q: QueryView, i: int)
    requires
        0 <= i < logs.len(),
        segment_query::line_matches(logs[i], q),
    ensures
        segment_query::matching(logs, q).contains(logs[i]),
    decreases logs.len(),
{
    let m: Seq<LogView> = segment_query::matching(logs, q);
    if i == logs.len() - 1 {
        assert(m[m.len() - 1] == logs[i]);
    } else {
        let t: Seq<LogView> = logs.drop_last();
        lemma_matching_contains(t, q, i);
        let mt: Seq<LogView> = segment_query::matching(t, q);
        let j: int = choose|j: int| 0 <= j < mt.len() && mt[j] == t[i];
        assert(m[j] == logs[i]);
    }
}

proof fn lemma_keyword_pattern(ts: Seq<Seq<PartView>>, kw: Seq<char>, n: nat, t: int)
    requires
        0 <= t < n <= ts.len(),
        n <= 0xffff,
        segment_query::template_holds(ts[t], kw),
    ensures
        segment_query::keyword_patterns(ts, kw, n).contains(t as u16),
    decreases n,
{
    let ks: Seq<u16> = segment_query::keyword_patterns(ts, kw, n);
    if t == n - 1 {
        assert(ks[ks.len() - 1] == t as u16);
    } else {
        lemma_keyword_pattern(ts, kw, (n - 1) as nat, t);
        let prev: Seq<u16> = segment_query::keyword_patterns(ts, kw, (n - 1) as nat);
        let j: int = choose|j: int| 0 <= j < prev.len() && prev[j] == t as u16;
        assert(ks[j] == t as u16);
    }
}

/// A line that matches is found if a text of its own template holds the keyword,
/// or if no template does.
pub proof fn law_own_template_found(
    lp: Seq<Seq<LogView>>,
    rp: Seq<Seq<RecordView>>,
    ts: Seq<Seq<PartView>>,
    q: QueryView,
    n: nat,
    c: int,
    j: int,
)
    requires
        0 <= c < n <= lp.len(),
        0 <= j < lp[c].len(),
        rp[c].len() == lp[c].len(),
        ts.len() <= 0xffff,
        rp[c][j].pat_id < ts.len(),
        segment_query::line_matches(kept(lp[c][j]), q),
        segment_query::template_holds(ts[rp[c][j].pat_id as int], q.keyword)
            || segment_query::keyword_patterns(ts, q.keyword, ts.len()).len() == 0,
    ensures
        expected(lp, rp, ts, q, n).contains(kept(lp[c][j])),
    decreases n,
{
    let want: LogView = kept(lp[c][j]);
    let all: Seq<LogView> = expected(lp, rp, ts, q, n);
    if c < n - 1 {
        law_own_template_found(lp, rp, ts, q, (n - 1) as nat, c, j);
        let part: Seq<LogView> = expected(lp, rp, ts, q, (n - 1) as nat);
        let i: int = choose|i: int| 0 <= i < part.len() && part[i] == want;
        assert(all[i] == want);
    } else {
        segment_plan::lemma_span(lp[c], j);
        let ks: Seq<u16> = segment_query::keyword_patterns(ts, q.keyword, ts.len());
        assert(patterns_in_use(rp[c], ts, q.keyword)) by {
            if ks.len() > 0 {
                let t: u16 = rp[c][j].pat_id;
                lemma_keyword_pattern(ts, q.keyword, ts.len(), t as int);
                let i: int = choose|i: int| 0 <= i < ks.len() && ks[i] == t;
                assert(segment_plan::uses_pattern(rp[c], ks[i]));
            }
        }
        lemma_matching_contains(all_kept(lp[c]), q, j);
        let more: Seq<LogView> = segment_query::matching(all_kept(lp[c]), q);
        let part: Seq<LogView> = expected(lp, rp, ts, q, (n - 1) as nat);
        let i: int = choose|i: int| 0 <= i < more.len() && more[i] == want;
        assert(all[part.len() + i] == want);
    }
}

} // verus!
