//! What scanning a written segment file gives: the entry that the index had for
//! it.

use crate::agent::index_law;
use crate::agent::index_open;
use crate::agent::index_scan;
use crate::agent::index_scan::ScannedSegment;
use crate::agent::parts;
use crate::agent::records::TemplateBatch;
use crate::agent::segment_build;
use crate::agent::segment_layout;
use crate::agent::segment_plan;
use crate::agent::segment_plan::Plan;
use crate::agent::storage;
use crate::agent::storage_config::StorageConfig;
use crate::shared::bloom;
use crate::shared::chunk;
use crate::shared::chunk::ChunkSummary;
use crate::shared::header;
use crate::shared::header::SegmentHeader;
use crate::shared::lines;
use crate::shared::log::LogView;
use crate::shared::segment;
use crate::shared::summary;
use crate::shared::summary::SegmentSummary;
use vstd::prelude::*;

verus! {

// ---------- times ----------

proof fn lemma_earliest_is(logs: Seq<LogView>) -> (i: int)
    requires
        logs.len() > 0,
    ensures
        0 <= i < logs.len(),
        logs[i].ts == segment_plan::earliest(logs),
    decreases logs.len(),
{
    if logs.len() == 1 || logs.last().ts < segment_plan::earliest(logs.drop_last()) {
        logs.len() - 1
    } else {
        lemma_earliest_is(logs.drop_last())
    }
}

proof fn lemma_latest_is(logs: Seq<LogView>) -> (i: int)
    requires
        logs.len() > 0,
    ensures
        0 <= i < logs.len(),
        logs[i].ts == segment_plan::latest(logs),
    decreases logs.len(),
{
    let t: Seq<LogView> = logs.drop_last();
    if logs.last().ts > segment_plan::latest(t) {
        logs.len() - 1
    } else if t.len() == 0 {
        0
    } else {
        lemma_latest_is(t)
    }
}

/// The least of the first times of the chunks is the first time of all lines.
proof fn lemma_min_of_pieces(logs: Seq<LogView>, k: nat, lo: u64)
    requires
        k > 0,
        logs.len() > 0,
        forall|c: int|
            0 <= c < segment_plan::pieces(logs, k).len() ==> lo <= segment_plan::earliest(
                #[trigger] segment_plan::pieces(logs, k)[c],
            ),
        exists|c: int|
            0 <= c < segment_plan::pieces(logs, k).len() && lo == segment_plan::earliest(
                #[trigger] segment_plan::pieces(logs, k)[c],
            ),
    ensures
        lo == segment_plan::earliest(logs),
{
    let lp: Seq<Seq<LogView>> = segment_plan::pieces(logs, k);
    segment_plan::lemma_pieces_len(logs, logs, k);
    let c0: int = choose|c: int|
        0 <= c < lp.len() && lo == segment_plan::earliest(#[trigger] lp[c]);
    let j0: int = lemma_earliest_is(lp[c0]);
    let i0: int = index_law::lemma_piece_in(logs, k, c0, j0);
    segment_plan::lemma_span(logs, i0);
    let i: int = lemma_earliest_is(logs);
    let (c, j) = index_law::lemma_piece_of(logs, k, i);
    segment_plan::lemma_span(lp[c], j);
    assert(lo <= segment_plan::earliest(lp[c]));
}

/// The greatest of the last times of the chunks is the last time of all lines.
proof fn lemma_max_of_pieces(logs: Seq<LogView>, k: nat, hi: u64)
    requires
        k > 0,
        logs.len() > 0,
        forall|c: int|
            0 <= c < segment_plan::pieces(logs, k).len() ==> hi >= segment_plan::latest(
                #[trigger] segment_plan::pieces(logs, k)[c],
            ),
        exists|c: int|
            0 <= c < segment_plan::pieces(logs, k).len() && hi == segment_plan::latest(
                #[trigger] segment_plan::pieces(logs, k)[c],
            ),
    ensures
        hi == segment_plan::latest(logs),
{
    let lp: Seq<Seq<LogView>> = segment_plan::pieces(logs, k);
    segment_plan::lemma_pieces_len(logs, logs, k);
    let c0: int = choose|c: int| 0 <= c < lp.len() && hi == segment_plan::latest(#[trigger] lp[c]);
    let j0: int = lemma_latest_is(lp[c0]);
    let i0: int = index_law::lemma_piece_in(logs, k, c0, j0);
    segment_plan::lemma_span(logs, i0);
    let i: int = lemma_latest_is(logs);
    let (c, j) = index_law::lemma_piece_of(logs, k, i);
    segment_plan::lemma_span(lp[c], j);
    assert(hi >= segment_plan::latest(lp[c]));
}

/// How many lines stand in the first `n` pieces.
spec fn pieces_sum(lp: Seq<Seq<LogView>>, n: nat) -> nat
    decreases n,
{
    if n == 0 {
        0
    } else {
        pieces_sum(lp, (n - 1) as nat) + lp[n - 1].len()
    }
}

proof fn lemma_sum_shift(lp: Seq<Seq<LogView>>, n: nat)
    requires
        0 < n <= lp.len(),
    ensures
        pieces_sum(lp, n) == lp[0].len() + pieces_sum(lp.skip(1), (n - 1) as nat),
    decreases n,
{
    if n > 1 {
        lemma_sum_shift(lp, (n - 1) as nat);
        assert(lp.skip(1)[n - 2] == lp[n - 1]);
    } else {
        assert(pieces_sum(lp, 0) == 0);
        assert(pieces_sum(lp.skip(1), 0) == 0);
    }
}

proof fn lemma_pieces_sum(logs: Seq<LogView>, k: nat)
    requires
        k > 0,
    ensures
        pieces_sum(segment_plan::pieces(logs, k), segment_plan::pieces(logs, k).len())
            == logs.len(),
    decreases logs.len(),
{
    let lp: Seq<Seq<LogView>> = segment_plan::pieces(logs, k);
    if logs.len() > 0 {
        let m: nat = segment_plan::least(k, logs.len());
        lemma_pieces_sum(logs.skip(m as int), k);
        lemma_sum_shift(lp, lp.len());
        assert(lp.skip(1) =~= segment_plan::pieces(logs.skip(m as int), k));
    }
}

proof fn lemma_sum_bound(lp: Seq<Seq<LogView>>, n: nat, c: int)
    requires
        0 <= c < n <= lp.len(),
    ensures
        lp[c].len() <= pieces_sum(lp, n),
    decreases n,
{
    if c < n - 1 {
        lemma_sum_bound(lp, (n - 1) as nat, c);
    }
}

// ---------- summaries ----------

/// The two chunk summaries say the same.
spec fn same_chunk(a: ChunkSummary, b: ChunkSummary) -> bool {
    &&& a.pattern_mask == b.pattern_mask
    &&& a.level_mask == b.level_mask
    &&& a.param_bloom@ == b.param_bloom@
}

proof fn lemma_same_joined(a: Seq<ChunkSummary>, b: Seq<ChunkSummary>)
    requires
        a.len() == b.len(),
        forall|i: int| 0 <= i < a.len() ==> same_chunk(#[trigger] a[i], b[i]),
    ensures
        summary::joined_patterns(a) == summary::joined_patterns(b),
        summary::joined_levels(a) == summary::joined_levels(b),
    decreases a.len(),
{
    if a.len() > 0 {
        let n: int = a.len() - 1;
        assert(same_chunk(a[n], b[n]));
        assert forall|i: int| 0 <= i < a.drop_last().len() implies same_chunk(
            #[trigger] a.drop_last()[i],
            b.drop_last()[i],
        ) by {
            assert(same_chunk(a[i], b[i]));
        }
        lemma_same_joined(a.drop_last(), b.drop_last());
    }
}

proof fn lemma_same_folds(a: Seq<ChunkSummary>, b: Seq<ChunkSummary>, q: nat)
    requires
        a.len() == b.len(),
        forall|i: int| 0 <= i < a.len() ==> same_chunk(#[trigger] a[i], b[i]),
        summary::some_folds_onto(a, q),
    ensures
        summary::some_folds_onto(b, q),
{
    let i: int = choose|i: int|
        0 <= i < a.len() && summary::folds_onto((#[trigger] a[i]).param_bloom@, q);
    assert(same_chunk(a[i], b[i]));
    assert(summary::folds_onto(b[i].param_bloom@, q));
}

proof fn lemma_same_byte(a: u8, b: u8)
    requires
        forall|k: nat| k < 8 ==> #[trigger] bloom::byte_bit(a, k) == bloom::byte_bit(b, k),
    ensures
        a == b,
{
    assert(bloom::byte_bit(a, 0) == bloom::byte_bit(b, 0));
    assert(bloom::byte_bit(a, 1) == bloom::byte_bit(b, 1));
    assert(bloom::byte_bit(a, 2) == bloom::byte_bit(b, 2));
    assert(bloom::byte_bit(a, 3) == bloom::byte_bit(b, 3));
    assert(bloom::byte_bit(a, 4) == bloom::byte_bit(b, 4));
    assert(bloom::byte_bit(a, 5) == bloom::byte_bit(b, 5));
    assert(bloom::byte_bit(a, 6) == bloom::byte_bit(b, 6));
    assert(bloom::byte_bit(a, 7) == bloom::byte_bit(b, 7));
    assert(a == b) by (bit_vector)
        requires
            ((a >> 0u8) & 1 != 0) == ((b >> 0u8) & 1 != 0),
            ((a >> 1u8) & 1 != 0) == ((b >> 1u8) & 1 != 0),
            ((a >> 2u8) & 1 != 0) == ((b >> 2u8) & 1 != 0),
            ((a >> 3u8) & 1 != 0) == ((b >> 3u8) & 1 != 0),
            ((a >> 4u8) & 1 != 0) == ((b >> 4u8) & 1 != 0),
            ((a >> 5u8) & 1 != 0) == ((b >> 5u8) & 1 != 0),
            ((a >> 6u8) & 1 != 0) == ((b >> 6u8) & 1 != 0),
            ((a >> 7u8) & 1 != 0) == ((b >> 7u8) & 1 != 0),
    ;
}

/// Summaries of the same chunks have the same bytes.
proof fn lemma_same_summary(
    s: SegmentSummary,
    t: SegmentSummary,
    a: Seq<ChunkSummary>,
    b: Seq<ChunkSummary>,
)
    requires
        a.len() == b.len(),
        forall|i: int| 0 <= i < a.len() ==> same_chunk(#[trigger] a[i], b[i]),
        summary::summarizes(s, a),
        summary::summarizes(t, b),
    ensures
        summary::segment_summary_bytes(s) == summary::segment_summary_bytes(t),
{
    lemma_same_joined(a, b);
    assert forall|i: int| 0 <= i < b.len() implies same_chunk(#[trigger] b[i], a[i]) by {
        assert(same_chunk(a[i], b[i]));
    }
    assert forall|j: int| 0 <= j < 12 implies s.param_bloom@[j] == t.param_bloom@[j] by {
        assert forall|k: nat| k < 8 implies #[trigger] bloom::byte_bit(s.param_bloom@[j], k)
            == bloom::byte_bit(t.param_bloom@[j], k) by {
            let q: nat = (8 * j + k) as nat;
            assert(q / 8 == j && q % 8 == k);
            assert(bloom::filter_bit(s.param_bloom@, q) == summary::some_folds_onto(a, q));
            assert(bloom::filter_bit(t.param_bloom@, q) == summary::some_folds_onto(b, q));
            if summary::some_folds_onto(a, q) {
                lemma_same_folds(a, b, q);
            }
            if summary::some_folds_onto(b, q) {
                lemma_same_folds(b, a, q);
            }
        }
        lemma_same_byte(s.param_bloom@[j], t.param_bloom@[j]);
    }
    assert(s.param_bloom@ =~= t.param_bloom@);
}

// ---------- scanning ----------

proof fn lemma_line_sum(
    data: Seq<u8>,
    h: SegmentHeader,
    lp: Seq<Seq<LogView>>,
    n: nat,
)
    requires
        n <= lp.len(),
        forall|c: int| 0 <= c < lp.len() ==> index_scan::entry_fits(data, h, c),
        forall|c: int|
            0 <= c < lp.len() ==> (#[trigger] segment::table_entry(data, h, c)).line_count
                == lp[c].len(),
    ensures
        index_scan::line_sum(data, h, n) == pieces_sum(lp, n),
    decreases n,
{
    if n > 0 {
        lemma_line_sum(data, h, lp, (n - 1) as nat);
        assert(index_scan::entry_fits(data, h, n - 1));
        assert(segment::table_entry(data, h, n - 1).line_count == lp[n - 1].len());
    }
}

proof fn lemma_scan(
    data: Seq<u8>,
    p: Plan,
    dict: Seq<u8>,
    ds: Seq<Seq<u8>>,
    id: u32,
    b: TemplateBatch,
    logs: Seq<LogView>,
    k: nat,
    s: SegmentSummary,
    found: ScannedSegment,
)
    requires
        k > 0,
        0 < logs.len() < 0x1_0000_0000,
        segment_plan::is_plan(
            p,
            parts::template_views(b.templates@),
            logs,
            segment_plan::batch_records(b),
            k,
        ),
        segment_layout::reads_as(data, header::header_at(data), p, dict, ds, id),
        summary::summarizes(s, p.summaries@),
        index_scan::scans_to(data, found),
    ensures
        found.segment_id == id,
        found.min_ts == segment_plan::earliest(logs),
        found.max_ts == segment_plan::latest(logs),
        found.line_count == logs.len(),
        summary::segment_summary_bytes(found.summary) == summary::segment_summary_bytes(s),
{
    let h: SegmentHeader = header::header_at(data);
    let lp: Seq<Seq<LogView>> = segment_plan::pieces(logs, k);
    let bs: Seq<Seq<u8>> = lines::byte_lists(p.binaries@);
    let n: nat = lp.len();
    segment_plan::lemma_pieces_len(logs, logs, k);
    lemma_pieces_sum(logs, k);
    assert forall|c: int| 0 <= c < n implies {
        &&& (#[trigger] segment::table_entry(data, h, c)).line_count == lp[c].len()
        &&& segment::table_entry(data, h, c).min_ts == segment_plan::earliest(lp[c])
        &&& segment::table_entry(data, h, c).max_ts == segment_plan::latest(lp[c])
    } by {
        lemma_sum_bound(lp, n, c);
        assert(p.entries@[c] == segment_plan::bare_entry(lp[c]));
        assert(segment::table_entry(data, h, c) == segment_build::full_entry(
            p.entries@[c],
            bs,
            ds,
            c,
        ));
    }
    assert forall|c: int| 0 <= c < n implies index_scan::entry_fits(data, h, c) by {
        assert(segment::table_end(h) + 8 <= data.len());
    }
    lemma_line_sum(data, h, lp, n);
    assert(index_scan::scanned_count(h) == n);
    assert forall|c: int| 0 <= c < n implies found.min_ts <= segment_plan::earliest(
        #[trigger] lp[c],
    ) && found.max_ts >= segment_plan::latest(lp[c]) by {
        assert(index_scan::entry_counts(data, h, c));
        assert(found.min_ts <= segment::table_entry(data, h, c).min_ts);
        assert(found.max_ts >= segment::table_entry(data, h, c).max_ts);
    }
    let c0: int = choose|i: int|
        0 <= i < n && index_scan::entry_counts(data, h, i) && found.min_ts == (
        #[trigger] segment::table_entry(data, h, i)).min_ts;
    assert(found.min_ts == segment_plan::earliest(lp[c0]));
    lemma_min_of_pieces(logs, k, found.min_ts);
    let c1: int = choose|i: int|
        0 <= i < n && index_scan::entry_counts(data, h, i) && found.max_ts == (
        #[trigger] segment::table_entry(data, h, i)).max_ts;
    assert(found.max_ts == segment_plan::latest(lp[c1]));
    lemma_max_of_pieces(logs, k, found.max_ts);
    let css = choose|css: Seq<ChunkSummary>|
        #[trigger] segment::summaries_stand(data, h, css) && summary::summarizes(
            found.summary,
            css,
        );
    if css.len() < n {
        assert(segment::summary_fits(data, h, css.len() as int));
    }
    assert forall|i: int| 0 <= i < css.len() implies same_chunk(#[trigger] css[i], p.summaries@[i]) by {
        assert(segment::summary_stands(data, h, i, css[i]));
        assert(segment_layout::summary_read(data, h, i) == chunk::summary_bytes(p.summaries@[i]));
        chunk::law_chunk_summary_roundtrip(p.summaries@[i], css[i]);
    }
    lemma_same_summary(found.summary, s, css, p.summaries@);
}

/// The index heals itself: the file of a written segment can be scanned, and
/// scanning it gives the entry that the index had for it, but for its path.
pub proof fn law_rescan(
    config: StorageConfig,
    logs: Seq<LogView>,
    dir: Seq<char>,
    name: Seq<char>,
    id: u32,
    created_at: u64,
    data: Seq<u8>,
    summary: SegmentSummary,
    original: u64,
    compressed: u64,
)
    requires
        storage::is_written(
            config,
            logs,
            id,
            created_at,
            data,
            summary,
            original,
            compressed,
        ),
        0 < logs.len() < 0x1_0000_0000,
        segment_plan::chunk_span(config, logs) > 0,
        segment_plan::pieces(logs, segment_plan::chunk_span(config, logs)).len() <= 0xffff,
        index_law::tables_fit(logs),
        data.len() < 0x1_0000_0000,
    ensures
        index_scan::scannable(data),
        header::header_at(data).chunk_count > 0,
        forall|found: ScannedSegment| #[trigger]
            index_scan::scans_to(data, found) ==> index_law::same_segment(
                index_open::scanned_meta(dir, name, found),
                storage::meta_of(dir, id, logs, summary),
            ),
{
    reveal(storage::is_written);
    let (b, p, own, ds) = choose|
        b: TemplateBatch,
        p: Plan,
        own: Option<Seq<u8>>,
        ds: Seq<Seq<u8>>,
    |
        {
            let bs: Seq<Seq<u8>> = lines::byte_lists(p.binaries@);
            &&& #[trigger] storage::is_planned(config, logs, b, p)
            &&& #[trigger] storage::dict_allowed(config, p, own)
            &&& segment_build::all_unpack(ds, bs, own)
            &&& #[trigger] segment_build::is_segment(
                data,
                p,
                storage::dict_part(own),
                ds,
                id,
                created_at,
            )
            &&& summary::summarizes(summary, p.summaries@)
        };
    let part: Seq<u8> = storage::dict_part(own);
    let k: nat = segment_plan::chunk_span(config, logs);
    segment_layout::lemma_segment_len(data, p, part, ds, id, created_at);
    segment_layout::lemma_reads_as(data, p, part, ds, id, created_at);
    segment_plan::lemma_pieces_len(logs, logs, k);
    assert forall|found: ScannedSegment| #[trigger]
        index_scan::scans_to(data, found) implies index_law::same_segment(
        index_open::scanned_meta(dir, name, found),
        storage::meta_of(dir, id, logs, summary),
    ) by {
        lemma_scan(data, p, part, ds, id, b, logs, k, summary, found);
    }
}

} // verus!
