//! What the index promises of the segments that it knows.

use crate::agent::chunk_text;
use crate::agent::chunk_text::RecordView;
use crate::agent::extract;
use crate::agent::index;
use crate::agent::index::MetaView;
use crate::agent::index_open;
use crate::agent::index_scan;
use crate::agent::index_truth;
use crate::agent::keywords;
use crate::agent::keywords::{Finding, KeywordView};
use crate::agent::manifest_file;
use crate::agent::parts;
use crate::agent::parts::PartView;
use crate::agent::records::TemplateBatch;
use crate::agent::segment_build;
use crate::agent::segment_layout;
use crate::agent::segment_plan;
use crate::agent::segment_plan::Plan;
use crate::agent::storage;
use crate::agent::storage_config::StorageConfig;
use crate::agent::tokens;
use crate::shared::bloom;
use crate::shared::bytes;
use crate::shared::chunk;
use crate::shared::chunk::ChunkSummary;
use crate::shared::error::DataError;
use crate::shared::lines;
use crate::shared::log::LogView;
use crate::shared::manifest;
use crate::shared::manifest::ManifestEntry;
use crate::shared::manifest_flags;
use crate::shared::names;
use crate::shared::summary;
use crate::shared::summary::SegmentSummary;
use vstd::prelude::*;
use vstd::utf8::*;

verus! {

// ---------- summaries ----------

/// Where an item stands among the pieces.
pub proof fn lemma_piece_of<T>(s: Seq<T>, k: nat, i: int) -> (r: (int, int))
    requires
        k > 0,
        0 <= i < s.len(),
    ensures
        0 <= r.0 < segment_plan::pieces(s, k).len(),
        0 <= r.1 < segment_plan::pieces(s, k)[r.0].len(),
        segment_plan::pieces(s, k)[r.0][r.1] == s[i],
    decreases s.len(),
{
    let m: nat = segment_plan::least(k, s.len());
    if i < m {
        (0, i)
    } else {
        let t: Seq<T> = s.skip(m as int);
        let (c, j) = lemma_piece_of(t, k, i - m);
        assert(segment_plan::pieces(s, k)[c + 1] == segment_plan::pieces(t, k)[c]);
        (c + 1, j)
    }
}

/// An item of a piece stands in the list.
pub proof fn lemma_piece_in<T>(s: Seq<T>, k: nat, c: int, j: int) -> (i: int)
    requires
        0 <= c < segment_plan::pieces(s, k).len(),
        0 <= j < segment_plan::pieces(s, k)[c].len(),
    ensures
        0 <= i < s.len(),
        segment_plan::pieces(s, k)[c][j] == s[i],
    decreases s.len(),
{
    let m: nat = segment_plan::least(k, s.len());
    if c == 0 {
        j
    } else {
        let t: Seq<T> = s.skip(m as int);
        assert(segment_plan::pieces(s, k)[c] == segment_plan::pieces(t, k)[c - 1]);
        m + lemma_piece_in(t, k, c - 1, j)
    }
}

proof fn lemma_joined_pattern(css: Seq<ChunkSummary>, k: u16)
    requires
        k < 64,
    ensures
        chunk::mask_bit(summary::joined_patterns(css), k) == exists|c: int|
            0 <= c < css.len() && chunk::mask_bit((#[trigger] css[c]).pattern_mask, k),
    decreases css.len(),
{
    let e: u64 = k as u64;
    if css.len() == 0 {
        assert((0u64 >> e) & 1 == 0) by (bit_vector)
            requires
                e < 64,
        ;
    } else {
        let t: Seq<ChunkSummary> = css.drop_last();
        let a: u64 = summary::joined_patterns(t);
        let b: u64 = css.last().pattern_mask;
        lemma_joined_pattern(t, k);
        assert((((a | b) >> e) & 1 != 0) == ((a >> e) & 1 != 0 || (b >> e) & 1 != 0))
            by (bit_vector)
            requires
                e < 64,
        ;
        if chunk::mask_bit(a, k) {
            let c: int = choose|c: int|
                0 <= c < t.len() && chunk::mask_bit((#[trigger] t[c]).pattern_mask, k);
            assert(chunk::mask_bit(css[c].pattern_mask, k));
        }
        if chunk::mask_bit(b, k) {
            assert(chunk::mask_bit(css[css.len() - 1].pattern_mask, k));
        }
        if exists|c: int| 0 <= c < css.len() && chunk::mask_bit((#[trigger] css[c]).pattern_mask, k) {
            let c: int = choose|c: int|
                0 <= c < css.len() && chunk::mask_bit((#[trigger] css[c]).pattern_mask, k);
            if c < t.len() {
                assert(chunk::mask_bit(t[c].pattern_mask, k));
            }
        }
    }
}

proof fn lemma_joined_level(css: Seq<ChunkSummary>, k: u8)
    requires
        k < 8,
    ensures
        segment_plan::level_set(summary::joined_levels(css), k) == exists|c: int|
            0 <= c < css.len() && segment_plan::level_set((#[trigger] css[c]).level_mask, k),
    decreases css.len(),
{
    if css.len() == 0 {
        assert((0u8 >> k) & 1 == 0) by (bit_vector)
            requires
                k < 8,
        ;
    } else {
        let t: Seq<ChunkSummary> = css.drop_last();
        let a: u8 = summary::joined_levels(t);
        let b: u8 = css.last().level_mask;
        lemma_joined_level(t, k);
        assert((((a | b) >> k) & 1 != 0) == ((a >> k) & 1 != 0 || (b >> k) & 1 != 0))
            by (bit_vector)
            requires
                k < 8,
        ;
        if segment_plan::level_set(a, k) {
            let c: int = choose|c: int|
                0 <= c < t.len() && segment_plan::level_set((#[trigger] t[c]).level_mask, k);
            assert(segment_plan::level_set(css[c].level_mask, k));
        }
        if segment_plan::level_set(b, k) {
            assert(segment_plan::level_set(css[css.len() - 1].level_mask, k));
        }
        if exists|c: int|
            0 <= c < css.len() && segment_plan::level_set((#[trigger] css[c]).level_mask, k) {
            let c: int = choose|c: int|
                0 <= c < css.len() && segment_plan::level_set((#[trigger] css[c]).level_mask, k);
            if c < t.len() {
                assert(segment_plan::level_set(t[c].level_mask, k));
            }
        }
    }
}

/// What the summary of a planned segment says of its templates.
proof fn lemma_summary_patterns(
    p: Plan,
    ts: Seq<Seq<PartView>>,
    logs: Seq<LogView>,
    recs: Seq<RecordView>,
    k: nat,
    s: SegmentSummary,
    t: u16,
)
    requires
        k > 0,
        recs.len() == logs.len(),
        segment_plan::is_plan(p, ts, logs, recs, k),
        summary::summarizes(s, p.summaries@),
        t < 64,
    ensures
        chunk::mask_bit(s.pattern_mask, t) == segment_plan::uses_pattern(recs, t),
{
    let css: Seq<ChunkSummary> = p.summaries@;
    let lp: Seq<Seq<LogView>> = segment_plan::pieces(logs, k);
    let rp: Seq<Seq<RecordView>> = segment_plan::pieces(recs, k);
    segment_plan::lemma_pieces_len(logs, recs, k);
    lemma_joined_pattern(css, t);
    if chunk::mask_bit(s.pattern_mask, t) {
        let c: int = choose|c: int|
            0 <= c < css.len() && chunk::mask_bit((#[trigger] css[c]).pattern_mask, t);
        assert(segment_plan::chunk_summarizes(css[c], lp[c], rp[c]));
        let j: int = choose|j: int| 0 <= j < rp[c].len() && (#[trigger] rp[c][j]).pat_id == t;
        let i: int = lemma_piece_in(recs, k, c, j);
        assert(recs[i].pat_id == t);
    }
    if segment_plan::uses_pattern(recs, t) {
        let i: int = choose|i: int| 0 <= i < recs.len() && (#[trigger] recs[i]).pat_id == t;
        let (c, j) = lemma_piece_of(recs, k, i);
        assert(rp[c][j].pat_id == t);
        assert(segment_plan::uses_pattern(rp[c], t));
        assert(segment_plan::chunk_summarizes(css[c], lp[c], rp[c]));
        assert(chunk::mask_bit(css[c].pattern_mask, t));
    }
}

/// What the summary of a planned segment says of the levels of its lines.
proof fn lemma_summary_levels(
    p: Plan,
    ts: Seq<Seq<PartView>>,
    logs: Seq<LogView>,
    recs: Seq<RecordView>,
    k: nat,
    s: SegmentSummary,
    t: u8,
)
    requires
        k > 0,
        segment_plan::is_plan(p, ts, logs, recs, k),
        summary::summarizes(s, p.summaries@),
        t < 8,
    ensures
        segment_plan::level_set(s.level_mask, t) == segment_plan::uses_level(logs, t),
{
    let css: Seq<ChunkSummary> = p.summaries@;
    let lp: Seq<Seq<LogView>> = segment_plan::pieces(logs, k);
    let rp: Seq<Seq<RecordView>> = segment_plan::pieces(recs, k);
    lemma_joined_level(css, t);
    if segment_plan::level_set(s.level_mask, t) {
        let c: int = choose|c: int|
            0 <= c < css.len() && segment_plan::level_set((#[trigger] css[c]).level_mask, t);
        assert(segment_plan::chunk_summarizes(css[c], lp[c], rp[c]));
        let j: int = choose|j: int|
            0 <= j < lp[c].len() && chunk_text::level_code((#[trigger] lp[c][j]).level) == t;
        let i: int = lemma_piece_in(logs, k, c, j);
        assert(chunk_text::level_code(logs[i].level) == t);
    }
    if segment_plan::uses_level(logs, t) {
        let i: int = choose|i: int|
            0 <= i < logs.len() && chunk_text::level_code((#[trigger] logs[i]).level) == t;
        let (c, j) = lemma_piece_of(logs, k, i);
        assert(chunk_text::level_code(lp[c][j].level) == t);
        assert(segment_plan::uses_level(lp[c], t));
        assert(segment_plan::chunk_summarizes(css[c], lp[c], rp[c]));
        assert(segment_plan::level_set(css[c].level_mask, t));
    }
}

/// The filter of a planned segment marks every message and every parameter.
proof fn lemma_summary_marks(
    p: Plan,
    ts: Seq<Seq<PartView>>,
    logs: Seq<LogView>,
    recs: Seq<RecordView>,
    k: nat,
    s: SegmentSummary,
    i: int,
    t: Seq<char>,
)
    requires
        k > 0,
        recs.len() == logs.len(),
        segment_plan::is_plan(p, ts, logs, recs, k),
        summary::summarizes(s, p.summaries@),
        0 <= i < logs.len(),
        t == logs[i].message || recs[i].params.contains(t),
    ensures
        summary::folded_marked(s.param_bloom@, 96, encode_utf8(t)),
{
    let css: Seq<ChunkSummary> = p.summaries@;
    let lp: Seq<Seq<LogView>> = segment_plan::pieces(logs, k);
    let rp: Seq<Seq<RecordView>> = segment_plan::pieces(recs, k);
    let m: Seq<u8> = encode_utf8(t);
    let (c, j) = lemma_pieces_of(logs, recs, k, i);
    let f: Seq<u8> = css[c].param_bloom@;
    segment_plan::lemma_pieces_len(logs, recs, k);
    assert(segment_plan::chunk_summarizes(css[c], lp[c], rp[c]));
    assert forall|seed: u64| seed < 5 implies bloom::filter_bit(
        f,
        #[trigger] bloom::bloom_position(m, seed),
    ) by {
        let pos: nat = bloom::bloom_position(m, seed);
        assert(chunk::is_position(m, 5, pos));
        if t != logs[i].message {
            let params: Seq<Seq<char>> = recs[i].params;
            let x: int = choose|x: int| 0 <= x < params.len() && params[x] == t;
            assert(chunk::is_position(encode_utf8(params[x]), 5, pos));
            assert(segment_plan::texts_mark(params, params.len(), pos));
        }
        assert(segment_plan::line_marks(lp[c][j], rp[c][j], pos));
        assert(segment_plan::marks_bit(lp[c], rp[c], pos));
    }
    assert forall|q: nat| q < 96 && summary::folds_onto(f, q) implies #[trigger] bloom::filter_bit(
        s.param_bloom@,
        q,
    ) by {
        assert(summary::some_folds_onto(css, q));
    }
    summary::law_folded_filter_no_false_negative(f, s.param_bloom@, m);
}

/// Where an item and its partner stand among the pieces.
proof fn lemma_pieces_of<T, U>(s: Seq<T>, u: Seq<U>, k: nat, i: int) -> (r: (int, int))
    requires
        k > 0,
        s.len() == u.len(),
        0 <= i < s.len(),
    ensures
        0 <= r.0 < segment_plan::pieces(s, k).len(),
        0 <= r.0 < segment_plan::pieces(u, k).len(),
        0 <= r.1 < segment_plan::pieces(s, k)[r.0].len(),
        segment_plan::pieces(s, k)[r.0][r.1] == s[i],
        segment_plan::pieces(u, k)[r.0][r.1] == u[i],
    decreases s.len(),
{
    let m: nat = segment_plan::least(k, s.len());
    if i < m {
        (0, i)
    } else {
        let (c, j) = lemma_pieces_of(s.skip(m as int), u.skip(m as int), k, i - m);
        assert(segment_plan::pieces(s, k)[c + 1] == segment_plan::pieces(s.skip(m as int), k)[c]);
        assert(segment_plan::pieces(u, k)[c + 1] == segment_plan::pieces(u.skip(m as int), k)[c]);
        (c + 1, j)
    }
}

/// The filter in the summary of a written segment denies no message and no
/// parameter of its lines.
pub proof fn law_filter_never_denies(
    config: StorageConfig,
    logs: Seq<LogView>,
    id: u32,
    created_at: u64,
    data: Seq<u8>,
    summary: SegmentSummary,
    original: u64,
    compressed: u64,
)
    requires
        storage::is_written(
            config,
            logs,
            id,
            created_at,
            data,
            summary,
            original,
            compressed,
        ),
        segment_plan::chunk_span(config, logs) > 0,
    ensures
        forall|i: int|
            0 <= i < logs.len() ==> summary::folded_marked(
                summary.param_bloom@,
                96,
                encode_utf8((#[trigger] logs[i]).message),
            ),
        exists|b: TemplateBatch| #[trigger]
            extract::is_extraction(logs, b) && params_marked(
                summary,
                segment_plan::batch_records(b),
            ),
{
    reveal(storage::is_written);
    let (b, p, own, ds) = choose|
        b: TemplateBatch,
        p: Plan,
        own: Option<Seq<u8>>,
        ds: Seq<Seq<u8>>,
    |
        {
            &&& #[trigger] storage::is_planned(config, logs, b, p)
            &&& #[trigger] storage::dict_allowed(config, p, own)
            &&& #[trigger] segment_build::is_segment(
                data,
                p,
                storage::dict_part(own),
                ds,
                id,
                created_at,
            )
            &&& summary::summarizes(summary, p.summaries@)
        };
    let k: nat = segment_plan::chunk_span(config, logs);
    let ts: Seq<Seq<PartView>> = parts::template_views(b.templates@);
    let recs: Seq<RecordView> = segment_plan::batch_records(b);
    assert(extract::is_extraction(logs, b));
    assert forall|i: int| 0 <= i < logs.len() implies summary::folded_marked(
        summary.param_bloom@,
        96,
        encode_utf8((#[trigger] logs[i]).message),
    ) by {
        lemma_summary_marks(p, ts, logs, recs, k, summary, i, logs[i].message);
    }
    assert forall|i: int, j: int|
        0 <= i < recs.len() && 0 <= j < recs[i].params.len() implies summary::folded_marked(
        summary.param_bloom@,
        96,
        encode_utf8(#[trigger] recs[i].params[j]),
    ) by {
        lemma_summary_marks(p, ts, logs, recs, k, summary, i, recs[i].params[j]);
    }
}

/// The filter of the summary marks every parameter.
pub open spec fn params_marked(s: SegmentSummary, recs: Seq<RecordView>) -> bool {
    forall|i: int, j: int|
        0 <= i < recs.len() && 0 <= j < recs[i].params.len() ==> summary::folded_marked(
            s.param_bloom@,
            96,
            encode_utf8(#[trigger] recs[i].params[j]),
        )
}

// ---------- what the entries tell ----------

/// What is noted for a segment file are its templates.
proof fn lemma_segment_words(
    data: Seq<u8>,
    p: Plan,
    dict: Seq<u8>,
    ds: Seq<Seq<u8>>,
    id: u32,
    created_at: u64,
    ts: Seq<Seq<PartView>>,
)
    requires
        segment_build::is_segment(data, p, dict, ds, id, created_at),
        segment_layout::layout_fits(p, dict, ds),
        p.table@ == parts::table_bytes(ts),
        p.pattern_count == ts.len(),
        ts.len() > 0,
        parts::table_fits(ts),
    ensures
        index_scan::has_table(id, data, ts),
{
    segment_layout::lemma_reads_as(data, p, dict, ds, id, created_at);
    parts::law_pattern_table_roundtrip(ts, Seq::empty());
    assert(parts::table_bytes(ts) + Seq::<u8>::empty() =~= parts::table_bytes(ts));
    bytes::lemma_le_bytes_len(ts.len(), 2);
}

proof fn lemma_template_used(
    logs: Seq<LogView>,
    b: TemplateBatch,
    p: Plan,
    k: nat,
    s: SegmentSummary,
    t: int,
)
    requires
        extract::is_extraction(logs, b),
        k > 0,
        segment_plan::is_plan(
            p,
            parts::template_views(b.templates@),
            logs,
            segment_plan::batch_records(b),
            k,
        ),
        summary::summarizes(s, p.summaries@),
        b.templates@.len() <= 0xffff,
        0 <= t < b.templates@.len(),
        t < 64,
    ensures
        chunk::mask_bit(s.pattern_mask, t as u16),
{
    let ts: Seq<Seq<PartView>> = parts::template_views(b.templates@);
    let recs: Seq<RecordView> = segment_plan::batch_records(b);
    let toks: Seq<Seq<Seq<char>>> = extract::batch_tokens(logs);
    assert(extract::is_used(toks, ts[t]));
    let i: int = choose|i: int|
        0 <= i < toks.len() && #[trigger] extract::template_of(toks, i) == ts[t];
    assert(extract::points_at(b.records@[i].pat_id, ts, extract::template_of(toks, i)));
    let z: nat = choose|z: nat|
        z < ts.len() && ts[z as int] == extract::template_of(toks, i) && b.records@[i].pat_id as nat
            == #[trigger] extract::low16(z);
    assert(z == t);
    assert(recs[i].pat_id == t as u16);
    assert(segment_plan::uses_pattern(recs, t as u16));
    lemma_summary_patterns(p, ts, logs, recs, k, s, t as u16);
}

/// The message of a line belongs to the template of its record.
proof fn lemma_line_template(logs: Seq<LogView>, b: TemplateBatch, i: int)
    requires
        extract::is_extraction(logs, b),
        b.templates@.len() <= 0xffff,
        0 <= i < logs.len(),
    ensures
        segment_plan::batch_records(b)[i].pat_id < b.templates@.len(),
        keywords::is_message_of(
            parts::template_views(
                b.templates@,
            )[segment_plan::batch_records(b)[i].pat_id as int],
            logs[i].message,
        ),
{
    let ts: Seq<Seq<PartView>> = parts::template_views(b.templates@);
    let toks: Seq<Seq<Seq<char>>> = extract::batch_tokens(logs);
    let t: Seq<PartView> = extract::template_of(toks, i);
    assert(extract::points_at(b.records@[i].pat_id, ts, t));
    let z: nat = choose|z: nat|
        z < ts.len() && ts[z as int] == t && b.records@[i].pat_id as nat == #[trigger] extract::low16(
            z,
        );
    assert(segment_plan::batch_records(b)[i].pat_id == z);
    tokens::law_tokens_concat(logs[i].message);
    assert(keywords::fills(t, toks[i]));
}

proof fn lemma_plan_tells(
    logs: Seq<LogView>,
    b: TemplateBatch,
    p: Plan,
    k: nat,
    m: MetaView,
    map: KeywordView,
)
    requires
        extract::is_extraction(logs, b),
        k > 0,
        segment_plan::is_plan(
            p,
            parts::template_views(b.templates@),
            logs,
            segment_plan::batch_records(b),
            k,
        ),
        summary::summarizes(m.summary, p.summaries@),
        b.templates@.len() <= 0xffff,
        m.line_count == logs.len(),
        m.min_ts == segment_plan::earliest(logs),
        m.max_ts == segment_plan::latest(logs),
        map.tables.contains_key(m.id) ==> map.tables[m.id] == parts::template_views(b.templates@),
    ensures
        index_truth::tells(m, map, logs),
{
    let ts: Seq<Seq<PartView>> = parts::template_views(b.templates@);
    let recs: Seq<RecordView> = segment_plan::batch_records(b);
    let pats: Seq<int> = Seq::new(logs.len(), |i: int| recs[i].pat_id as int);
    assert forall|i: int| 0 <= i < logs.len() implies m.min_ts <= (#[trigger] logs[i]).ts
        <= m.max_ts by {
        segment_plan::lemma_span(logs, i);
    }
    assert forall|t: u8| t < 8 implies #[trigger] segment_plan::level_set(m.summary.level_mask, t)
        == segment_plan::uses_level(logs, t) by {
        lemma_summary_levels(p, ts, logs, recs, k, m.summary, t);
    }
    assert forall|i: int| 0 <= i < logs.len() implies 0 <= #[trigger] pats[i] < ts.len()
        && keywords::is_message_of(ts[pats[i]], logs[i].message) by {
        lemma_line_template(logs, b, i);
    }
    assert forall|t: u16| t < 64 implies #[trigger] chunk::mask_bit(m.summary.pattern_mask, t)
        == pats.contains(t as int) by {
        lemma_summary_patterns(p, ts, logs, recs, k, m.summary, t);
        if segment_plan::uses_pattern(recs, t) {
            let i: int = choose|i: int| 0 <= i < recs.len() && (#[trigger] recs[i]).pat_id == t;
            assert(pats[i] == t);
        }
        if pats.contains(t as int) {
            let i: int = choose|i: int| 0 <= i < pats.len() && pats[i] == t as int;
            assert(recs[i].pat_id == t);
        }
    }
    assert(index_truth::templates_tell(m, ts, pats, logs));
    if logs.len() > 0 {
        assert(0 <= pats[0] < ts.len());
        lemma_template_used(logs, b, p, k, m.summary, 0);
        let mask: u64 = m.summary.pattern_mask;
        assert(mask != 0) by (bit_vector)
            requires
                (mask >> 0u64) & 1 != 0,
        ;
    }
}

/// The counts and lengths of the templates of these lines fit their fields.
pub open spec fn tables_fit(logs: Seq<LogView>) -> bool {
    forall|b: TemplateBatch| #[trigger]
        extract::is_extraction(logs, b) ==> parts::table_fits(parts::template_views(b.templates@))
}

/// The counts and lengths of a segment with these lines fit the fields of its
/// header and its tables.
pub open spec fn is_tellable(config: StorageConfig, logs: Seq<LogView>, data: Seq<u8>) -> bool {
    &&& segment_plan::chunk_span(config, logs) > 0
    &&& segment_plan::pieces(logs, segment_plan::chunk_span(config, logs)).len() <= 0xffff
    &&& tables_fit(logs)
    &&& 0 < logs.len() < 0x1_0000_0000
    &&& data.len() < 0x1_0000_0000
}

/// The entry of a written segment tells the truth of its lines, once its file
/// was noted.
pub proof fn law_written_tells(
    config: StorageConfig,
    logs: Seq<LogView>,
    dir: Seq<char>,
    id: u32,
    created_at: u64,
    data: Seq<u8>,
    summary: SegmentSummary,
    original: u64,
    compressed: u64,
    map: KeywordView,
)
    requires
        storage::is_written(
            config,
            logs,
            id,
            created_at,
            data,
            summary,
            original,
            compressed,
        ),
        is_tellable(config, logs, data),
    ensures
        index_truth::tells(
            storage::meta_of(dir, id, logs, summary),
            keywords::all_noted(map, index_scan::segment_words(id, data)),
            logs,
        ),
        exists|ts: Seq<Seq<PartView>>| #[trigger] index_scan::has_table(id, data, ts),
{
    reveal(storage::is_written);
    let (b, p, own, ds) = choose|
        b: TemplateBatch,
        p: Plan,
        own: Option<Seq<u8>>,
        ds: Seq<Seq<u8>>,
    |
        {
            let bs: Seq<Seq<u8>> = lines::byte_lists(p.binaries@);
            &&& #[trigger] storage::is_planned(config, logs, b, p)
            &&& #[trigger] storage::dict_allowed(config, p, own)
            &&& segment_build::all_unpack(ds, bs, own)
            &&& #[trigger] segment_build::is_segment(
                data,
                p,
                storage::dict_part(own),
                ds,
                id,
                created_at,
            )
            &&& summary::summarizes(summary, p.summaries@)
        };
    let k: nat = segment_plan::chunk_span(config, logs);
    let part: Seq<u8> = storage::dict_part(own);
    let ts: Seq<Seq<PartView>> = parts::template_views(b.templates@);
    let f: Finding = Finding { segment: id, templates: ts };
    assert(extract::is_extraction(logs, b));
    lemma_line_template(logs, b, 0);
    segment_layout::lemma_segment_len(data, p, part, ds, id, created_at);
    lemma_segment_words(data, p, part, ds, id, created_at, ts);
    keywords::lemma_one_noted(map, f);
    lemma_plan_tells(
        logs,
        b,
        p,
        k,
        storage::meta_of(dir, id, logs, summary),
        keywords::noted(map, f),
    );
}

// ---------- numbers ----------

/// Every entry has a number below the next one.
pub open spec fn ids_below(s: Seq<MetaView>, next: u32) -> bool {
    forall|i: int| 0 <= i < s.len() ==> (#[trigger] s[i]).id < next
}

/// The next number is above those of all entries, unless the last number is in
/// use, and never below the number to start from.
pub proof fn law_next_id_free(next: u32, ms: Seq<MetaView>)
    ensures
        last_in_use(ms) || ids_below(ms, index::next_after(next, ms)),
        next <= index::next_after(next, ms),
    decreases ms.len(),
{
    if ms.len() > 0 {
        let t: Seq<MetaView> = ms.drop_last();
        law_next_id_free(next, t);
        if last_in_use(t) {
            let i: int = choose|i: int| 0 <= i < t.len() && (#[trigger] t[i]).id == u32::MAX;
            assert(ms[i].id == u32::MAX);
        } else if ms.last().id == u32::MAX {
            assert(ms[ms.len() - 1].id == u32::MAX);
        } else {
            let n: u32 = index::next_after(next, ms);
            assert(index::next_after(next, t) <= n);
            assert forall|i: int| 0 <= i < ms.len() implies (#[trigger] ms[i]).id < n by {
                if i < t.len() {
                    assert(t[i].id < index::next_after(next, t));
                }
            }
        }
    }
}

/// The last number is in use.
pub open spec fn last_in_use(ms: Seq<MetaView>) -> bool {
    exists|i: int| 0 <= i < ms.len() && (#[trigger] ms[i]).id == u32::MAX
}

pub proof fn lemma_placed_contains(s: Seq<MetaView>, m: MetaView, i: int)
    requires
        0 <= i < index::placed(s, m).len(),
    ensures
        index::placed(s, m)[i] == m || s.contains(index::placed(s, m)[i]),
    decreases s.len(),
{
    if s.len() > 0 && s.last().id > m.id {
        let t: Seq<MetaView> = s.drop_last();
        let r: Seq<MetaView> = index::placed(t, m);
        if i < r.len() {
            lemma_placed_contains(t, m, i);
            if t.contains(r[i]) {
                let j: int = choose|j: int| 0 <= j < t.len() && t[j] == r[i];
                assert(s[j] == r[i]);
            }
        } else {
            assert(s[s.len() - 1] == index::placed(s, m)[i]);
        }
    } else if i < s.len() {
        assert(s[i] == index::placed(s, m)[i]);
    }
}

/// Numbers are not given out twice: after a segment was noted, all entries have
/// numbers below the next one, if they had before.
pub proof fn law_ids_stay_below(s: Seq<MetaView>, m: MetaView, next: u32)
    requires
        ids_below(s, next),
        next < u32::MAX,
        m.id == next,
    ensures
        ids_below(index::placed(s, m), (next + 1) as u32),
{
    let r: Seq<MetaView> = index::placed(s, m);
    assert forall|i: int| 0 <= i < r.len() implies (#[trigger] r[i]).id < (next + 1) as u32 by {
        lemma_placed_contains(s, m, i);
        if s.contains(r[i]) {
            let j: int = choose|j: int| 0 <= j < s.len() && s[j] == r[i];
            assert(s[j].id < next);
        }
    }
}

// ---------- the manifest ----------

proof fn lemma_metas_body_at(s: Seq<MetaView>, n: nat, i: int)
    requires
        0 <= i < n <= s.len(),
    ensures
        index::metas_body(s, n).len() == 64 * n,
        index::metas_body(s, n).subrange(64 * i, 64 * i + 64) == index::meta_bytes(s[i]),
    decreases n,
{
    let a: Seq<u8> = index::metas_body(s, (n - 1) as nat);
    let b: Seq<u8> = index::meta_bytes(s[n - 1]);
    lemma_meta_bytes(s[n - 1]);
    if n > 1 {
        lemma_metas_body_at(s, (n - 1) as nat, 0);
    }
    if i < n - 1 {
        lemma_metas_body_at(s, (n - 1) as nat, i);
        assert((a + b).subrange(64 * i, 64 * i + 64) =~= a.subrange(64 * i, 64 * i + 64));
    } else {
        assert((a + b).subrange(64 * i, 64 * i + 64) =~= b);
    }
}

proof fn lemma_meta_bytes(m: MetaView)
    ensures
        index::meta_bytes(m).len() == 64,
        index::meta_bytes(m).subrange(0, 4) == bytes::le_bytes(m.id as nat, 4),
        index::meta_bytes(m).subrange(4, 12) == bytes::le_bytes(m.min_ts as nat, 8),
        index::meta_bytes(m).subrange(12, 20) == bytes::le_bytes(m.max_ts as nat, 8),
        index::meta_bytes(m).subrange(20, 24) == bytes::le_bytes(m.line_count as nat, 4),
        index::meta_bytes(m).subrange(36, 64) == summary::segment_summary_bytes(m.summary),
{
    let b: Seq<u8> = index::meta_bytes(m);
    bytes::lemma_le_bytes_len(m.id as nat, 4);
    bytes::lemma_le_bytes_len(m.min_ts as nat, 8);
    bytes::lemma_le_bytes_len(m.max_ts as nat, 8);
    bytes::lemma_le_bytes_len(m.line_count as nat, 4);
    bytes::lemma_le_bytes_len(names::fnv1a(encode_utf8(m.path)) as nat, 8);
    bytes::lemma_le_bytes_len(manifest_flags::NORMAL as nat, 4);
    bytes::lemma_le_bytes_len(m.summary.pattern_mask as nat, 8);
    assert(b.subrange(0, 4) =~= bytes::le_bytes(m.id as nat, 4));
    assert(b.subrange(4, 12) =~= bytes::le_bytes(m.min_ts as nat, 8));
    assert(b.subrange(12, 20) =~= bytes::le_bytes(m.max_ts as nat, 8));
    assert(b.subrange(20, 24) =~= bytes::le_bytes(m.line_count as nat, 4));
    assert(b.subrange(36, 64) =~= summary::segment_summary_bytes(m.summary));
}

/// The entry says of its segment what the other one says, but for the path.
pub open spec fn same_segment(a: MetaView, b: MetaView) -> bool {
    &&& a.id == b.id
    &&& a.min_ts == b.min_ts
    &&& a.max_ts == b.max_ts
    &&& a.line_count == b.line_count
    &&& summary::segment_summary_bytes(a.summary) == summary::segment_summary_bytes(b.summary)
}

proof fn lemma_entry_loads(e: ManifestEntry, m: MetaView, back: MetaView)
    requires
        manifest::manifest_entry_bytes(e) == index::meta_bytes(m),
        index_open::loads_as(e, back),
    ensures
        same_segment(back, m),
{
    lemma_meta_bytes(m);
    manifest::lemma_manifest_entry_bytes(e);
    bytes::lemma_pow256();
    bytes::lemma_le_value_of_bytes(e.segment_id as nat, 4);
    bytes::lemma_le_value_of_bytes(m.id as nat, 4);
    bytes::lemma_le_value_of_bytes(e.min_ts as nat, 8);
    bytes::lemma_le_value_of_bytes(m.min_ts as nat, 8);
    bytes::lemma_le_value_of_bytes(e.max_ts as nat, 8);
    bytes::lemma_le_value_of_bytes(m.max_ts as nat, 8);
    bytes::lemma_le_value_of_bytes(e.line_count as nat, 4);
    bytes::lemma_le_value_of_bytes(m.line_count as nat, 4);
}

proof fn lemma_all_placed_same(ms: Seq<MetaView>)
    requires
        index::by_id(ms),
    ensures
        index::all_placed(ms) == ms,
    decreases ms.len(),
{
    if ms.len() > 0 {
        let t: Seq<MetaView> = ms.drop_last();
        assert(index::by_id(t)) by {
            assert forall|i: int, j: int| 0 <= i < j < t.len() implies (#[trigger] t[i]).id <= (
            #[trigger] t[j]).id by {
                assert(ms[i].id <= ms[j].id);
            }
        }
        lemma_all_placed_same(t);
        if t.len() > 0 {
            assert(ms[t.len() - 1].id <= ms[ms.len() - 1].id);
        }
        assert(index::placed(t, ms.last()) =~= ms);
    } else {
        assert(index::all_placed(ms) =~= ms);
    }
}

/// Putting the entries in order neither adds nor drops any.
pub proof fn lemma_all_placed_len(ms: Seq<MetaView>)
    ensures
        index::all_placed(ms).len() == ms.len(),
        index::by_id(index::all_placed(ms)),
    decreases ms.len(),
{
    if ms.len() > 0 {
        lemma_all_placed_len(ms.drop_last());
        index::lemma_placed_by_id(index::all_placed(ms.drop_last()), ms.last());
    }
}

/// Reopening the index from the manifest that it saved gives the same entries in
/// the same order, but for their paths.
pub proof fn law_reload(s: Seq<MetaView>, ms: Seq<MetaView>)
    requires
        index::by_id(s),
        s.len() <= u64::MAX,
        ms.len() <= u64::MAX,
        index_open::is_load(index::saved_bytes(s), ms),
    ensures
        index::all_placed(ms) == ms,
        ms.len() == s.len(),
        forall|i: int| 0 <= i < s.len() ==> same_segment(#[trigger] ms[i], s[i]),
{
    let data: Seq<u8> = index::saved_bytes(s);
    let es = choose|es: Seq<ManifestEntry>|
        {
            &&& #[trigger] manifest_file::manifest_reads(data, es)
            &&& ms.len() == es.len()
            &&& forall|i: int| 0 <= i < es.len() ==> index_open::loads_as(es[i], #[trigger] ms[i])
        };
    let body: Seq<u8> = bytes::le_bytes(es.len(), 8) + manifest_file::entries_body(es, es.len());
    bytes::lemma_pow256();
    bytes::lemma_le_value_of_bytes(s.len(), 8);
    bytes::lemma_le_value_of_bytes(es.len(), 8);
    assert(data.subrange(5, 13) =~= bytes::le_bytes(s.len(), 8));
    assert(data.subrange(5, 13) =~= data.subrange(5, (5 + body.len()) as int).subrange(0, 8));
    assert(body.subrange(0, 8) =~= bytes::le_bytes(es.len(), 8));
    assert(es.len() == s.len());
    assert forall|i: int| 0 <= i < s.len() implies same_segment(#[trigger] ms[i], s[i]) by {
        lemma_metas_body_at(s, s.len(), i);
        manifest_file::lemma_entries_body_at(es, es.len(), i);
        let a: Seq<u8> = index::metas_body(s, s.len());
        let b: Seq<u8> = manifest_file::entries_body(es, es.len());
        let part: Seq<u8> = data.subrange(13 + 64 * i, 13 + 64 * i + 64);
        assert(a.subrange(64 * i, 64 * i + 64) =~= part);
        assert(b.subrange(64 * i, 64 * i + 64) =~= data.subrange(
            5,
            (5 + body.len()) as int,
        ).subrange(8 + 64 * i, 8 + 64 * i + 64));
        assert(part =~= data.subrange(5, (5 + body.len()) as int).subrange(
            8 + 64 * i,
            8 + 64 * i + 64,
        ));
        lemma_entry_loads(es[i], s[i], ms[i]);
    }
    assert(index::by_id(ms)) by {
        assert forall|i: int, j: int| 0 <= i < j < ms.len() implies (#[trigger] ms[i]).id <= (
        #[trigger] ms[j]).id by {
            assert(s[i].id <= s[j].id);
            assert(same_segment(ms[i], s[i]) && same_segment(ms[j], s[j]));
        }
    }
    lemma_all_placed_same(ms);
}

/// A saved manifest can be read.
pub proof fn law_saved_readable(s: Seq<MetaView>, e: DataError)
    requires
        s.len() <= u64::MAX,
    ensures
        !manifest_file::manifest_error(index::saved_bytes(s), e),
{
    let data: Seq<u8> = index::saved_bytes(s);
    bytes::lemma_pow256();
    bytes::lemma_le_value_of_bytes(s.len(), 8);
    if s.len() > 0 {
        lemma_metas_body_at(s, s.len(), 0);
    }
    assert(data.take(4) =~= manifest::midx());
    assert(data.subrange(5, 13) =~= bytes::le_bytes(s.len(), 8));
}

} // verus!
