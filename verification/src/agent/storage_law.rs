//! What the storage engine promises: lines that were written are found again.

use crate::agent::chunk_text::RecordView;
use crate::agent::extract;
use crate::agent::index;
use crate::agent::index_law;
use crate::agent::index::{MetaView, SegmentMetaView};
use crate::agent::index_open;
use crate::agent::index_open::FileView;
use crate::agent::json;
use crate::agent::parts;
use crate::agent::parts::PartView;
use crate::agent::records::TemplateBatch;
use crate::agent::segment_build;
use crate::agent::segment_law;
use crate::agent::segment_layout;
use crate::agent::segment_plan;
use crate::agent::segment_plan::Plan;
use crate::agent::segment_query;
use crate::agent::segment_query::QueryView;
use crate::agent::storage;
use crate::agent::storage::{StorageEngine, WrittenSegment};
use crate::agent::storage_config::StorageConfig;
use crate::agent::storage_open;
use crate::agent::storage_query;
use crate::shared::error::DataError;
use crate::shared::lines;
use crate::shared::log;
use crate::shared::log::LogView;
use crate::shared::names;
use crate::shared::order;
use crate::shared::summary::SegmentSummary;
use vstd::prelude::*;
use vstd::utf8::*;

verus! {

/// Whatever numbers the templates of the lines get, the counts and lengths fit
/// their fields.
pub open spec fn batch_fits(logs: Seq<LogView>) -> bool {
    forall|b: TemplateBatch| #[trigger]
        extract::is_extraction(logs, b) ==> segment_law::lines_fit(logs, b) && b.templates@.len()
            <= 0xffff
}

/// No chunk of `k` lines that holds a line that the query looks for is passed
/// over for its templates.
pub open spec fn batch_allows(
    b: TemplateBatch,
    logs: Seq<LogView>,
    k: nat,
    q: QueryView,
) -> bool {
    let lp: Seq<Seq<LogView>> = segment_plan::pieces(logs, k);
    let rp: Seq<Seq<RecordView>> = segment_plan::pieces(segment_plan::batch_records(b), k);
    forall|c: int|
        0 <= c < rp.len() ==> segment_law::chunk_complete(
            lp[c],
            #[trigger] rp[c],
            parts::template_views(b.templates@),
            q,
        )
}

/// The same, whatever numbers the templates of the lines get.
pub open spec fn chunks_allow(logs: Seq<LogView>, k: nat, q: QueryView) -> bool {
    forall|b: TemplateBatch| #[trigger]
        extract::is_extraction(logs, b) ==> batch_allows(b, logs, k, q)
}

/// A query finds in the segment file exactly the lines that it looks for, as
/// they are kept, up to its limit.
pub open spec fn file_holds(
    data: Seq<u8>,
    logs: Seq<LogView>,
    q: QueryView,
    dict: Option<Seq<u8>>,
) -> bool {
    forall|limit: nat, r: Result<Seq<LogView>, DataError>| #[trigger]
        segment_query::is_found(data, q, limit, dict, r) ==> r == Ok::<Seq<LogView>, DataError>(
            segment_query::first(
                segment_query::matching(segment_law::all_kept(logs), q),
                limit,
            ),
        )
}

/// A segment that was written holds its lines: a query finds exactly those that
/// it looks for, in their order and up to its limit. The lengths must fit their
/// fields, and no chunk with such a line may be passed over because other chunks
/// have the templates that hold the keyword.
pub proof fn law_written_found(
    config: StorageConfig,
    logs: Seq<LogView>,
    id: u32,
    created_at: u64,
    data: Seq<u8>,
    summary: SegmentSummary,
    original: u64,
    compressed: u64,
    q: QueryView,
    dict: Option<Seq<u8>>,
)
    requires
        storage::is_written(
            config,
            logs,
            id,
            created_at,
            data,
            summary,
            original,
            compressed,
        ),
        segment_plan::chunk_span(config, logs) > 0,
        batch_fits(logs),
        segment_law::services_fit(logs, segment_plan::chunk_span(config, logs)),
        segment_plan::pieces(logs, segment_plan::chunk_span(config, logs)).len() <= 0xffff,
        data.len() < 0x1_0000_0000,
        chunks_allow(logs, segment_plan::chunk_span(config, logs), q),
    ensures
        file_holds(data, logs, q, dict),
{
    reveal(storage::is_written);
    let (b, p, own, ds) = choose|
        b: TemplateBatch,
        p: Plan,
        own: Option<Seq<u8>>,
        ds: Seq<Seq<u8>>,
    |
        {
            let bs: Seq<Seq<u8>> = lines::byte_lists(p.binaries@);
            &&& #[trigger] storage::is_planned(config, logs, b, p)
            &&& #[trigger] storage::dict_allowed(config, p, own)
            &&& segment_build::all_packed(bs, config.compression_level, own, bs.len()) == Some(ds)
            &&& segment_build::all_unpack(ds, bs, own)
            &&& #[trigger] segment_build::is_segment(
                data,
                p,
                storage::dict_part(own),
                ds,
                id,
                created_at,
            )
        };
    let k: nat = segment_plan::chunk_span(config, logs);
    let part: Seq<u8> = storage::dict_part(own);
    let ts: Seq<Seq<PartView>> = parts::template_views(b.templates@);
    let lp: Seq<Seq<LogView>> = segment_plan::pieces(logs, k);
    let rp: Seq<Seq<RecordView>> = segment_plan::pieces(segment_plan::batch_records(b), k);
    segment_layout::lemma_segment_len(data, p, part, ds, id, created_at);
    assert(segment_layout::layout_fits(p, part, ds));
    assert(extract::is_extraction(logs, b));
    assert(batch_allows(b, logs, k, q));
    segment_plan::lemma_pieces_len(logs, segment_plan::batch_records(b), k);
    segment_law::law_found_complete(lp, rp, ts, q, lp.len());
    segment_law::lemma_joined_pieces(logs, k);
    assert forall|limit: nat, r: Result<Seq<LogView>, DataError>| #[trigger]
        segment_query::is_found(data, q, limit, dict, r) implies r == Ok::<
        Seq<LogView>,
        DataError,
    >(
        segment_query::first(segment_query::matching(segment_law::all_kept(logs), q), limit),
    ) by {
        segment_law::law_segment_holds_lines(
            data,
            p,
            b,
            logs,
            k,
            part,
            ds,
            id,
            created_at,
            q,
            limit,
        );
    }
}

proof fn lemma_keyword_index(ts: Seq<Seq<PartView>>, keyword: Seq<char>, n: nat) -> (t: int)
    requires
        n <= ts.len() <= 0xffff,
        segment_query::keyword_patterns(ts, keyword, n).len() > 0,
    ensures
        0 <= t < n,
        segment_query::keyword_patterns(ts, keyword, n).last() as int == t,
    decreases n,
{
    if segment_query::template_holds(ts[n - 1], keyword) {
        n - 1
    } else {
        lemma_keyword_index(ts, keyword, (n - 1) as nat)
    }
}

pub proof fn lemma_one_chunk_allows(logs: Seq<LogView>, k: nat, q: QueryView)
    requires
        k >= logs.len(),
        batch_fits(logs),
    ensures
        chunks_allow(logs, k, q),
{
    let keyword: Seq<char> = q.keyword;
    assert forall|b: TemplateBatch| #[trigger] extract::is_extraction(logs, b) implies batch_allows(
        b,
        logs,
        k,
        q,
    ) by {
        let ts: Seq<Seq<PartView>> = parts::template_views(b.templates@);
        let recs: Seq<RecordView> = segment_plan::batch_records(b);
        let toks: Seq<Seq<Seq<char>>> = extract::batch_tokens(logs);
        let ks: Seq<u16> = segment_query::keyword_patterns(ts, keyword, ts.len());
        segment_plan::lemma_pieces_count(recs, k);
        assert(segment_law::patterns_in_use(recs, ts, keyword)) by {
            if ks.len() > 0 {
                let t: int = lemma_keyword_index(ts, keyword, ts.len());
                assert(extract::is_used(toks, ts[t]));
                let i: int = choose|i: int|
                    0 <= i < toks.len() && #[trigger] extract::template_of(toks, i) == ts[t];
                let pat: u16 = b.records@[i].pat_id;
                assert(extract::points_at(pat, ts, extract::template_of(toks, i)));
                let m: nat = choose|m: nat|
                    m < ts.len() && ts[m as int] == extract::template_of(toks, i) && pat as nat
                        == #[trigger] extract::low16(m);
                assert(m == t);
                assert(recs[i].pat_id == ks.last());
                assert(segment_plan::uses_pattern(recs, ks[ks.len() - 1]));
            }
        }
    }
}

/// A segment of one chunk holds its lines, whatever the keyword is: a query finds
/// exactly those that it looks for, in their order and up to its limit.
pub proof fn law_single_chunk_found(
    config: StorageConfig,
    logs: Seq<LogView>,
    id: u32,
    created_at: u64,
    data: Seq<u8>,
    summary: SegmentSummary,
    original: u64,
    compressed: u64,
    q: QueryView,
    dict: Option<Seq<u8>>,
)
    requires
        storage::is_written(
            config,
            logs,
            id,
            created_at,
            data,
            summary,
            original,
            compressed,
        ),
        segment_plan::single_chunk(config, logs),
        batch_fits(logs),
        segment_law::services_fit(logs, segment_plan::chunk_span(config, logs)),
        data.len() < 0x1_0000_0000,
    ensures
        file_holds(data, logs, q, dict),
{
    let k: nat = segment_plan::chunk_span(config, logs);
    segment_plan::lemma_pieces_count(logs, k);
    lemma_one_chunk_allows(logs, k, q);
    law_written_found(
        config,
        logs,
        id,
        created_at,
        data,
        summary,
        original,
        compressed,
        q,
        dict,
    );
}

// ---------- queries ----------

/// The lines that a query looks for in the first `n` segments. `held` gives the
/// lines of a segment by its number.
pub open spec fn held_lines(
    held: Map<u32, Seq<LogView>>,
    range: Seq<SegmentMetaView>,
    q: QueryView,
    n: nat,
) -> Seq<LogView>
    decreases n,
{
    if n == 0 {
        Seq::empty()
    } else {
        held_lines(held, range, q, (n - 1) as nat) + segment_query::matching(
            segment_law::all_kept(held[range[n - 1].segment_id]),
            q,
        )
    }
}

/// The file of each segment is there and holds its lines.
pub open spec fn all_hold(
    fs: Seq<FileView>,
    metas: Seq<MetaView>,
    held: Map<u32, Seq<LogView>>,
    q: QueryView,
    dict: Option<Seq<u8>>,
) -> bool {
    forall|i: int|
        0 <= i < metas.len() ==> {
            let name: Seq<char> = names::segment_file_name((#[trigger] metas[i]).id as nat);
            &&& index_open::file_named(fs, name) is Some
            &&& file_holds(index_open::file_named(fs, name)->0, held[metas[i].id], q, dict)
        }
}

/// The first items of two lists behind each other.
proof fn lemma_first_concat<T>(a: Seq<T>, b: Seq<T>, n: nat)
    ensures
        segment_query::first(a, n) + segment_query::first(
            b,
            (n - segment_query::first(a, n).len()) as nat,
        ) == segment_query::first(a + b, n),
        segment_query::first(a, n).len() <= n,
{
    let f: Seq<T> = segment_query::first(a, n);
    let g: Seq<T> = segment_query::first(b, (n - f.len()) as nat);
    if n <= a.len() {
        assert(g =~= Seq::<T>::empty());
        assert(f + g =~= (a + b).take(n as int));
    } else if n <= (a + b).len() {
        assert(f + g =~= (a + b).take(n as int));
    } else {
        assert(f + g =~= a + b);
    }
}

proof fn lemma_overlapping_known(s: Seq<MetaView>, start: u64, end: u64, n: nat, i: int) -> (j: int)
    requires
        n <= s.len(),
        0 <= i < index::overlapping(s, start, end, n).len(),
    ensures
        0 <= j < n,
        index::overlapping(s, start, end, n)[i] == index::without_path(s[j]),
    decreases n,
{
    let rest: Seq<SegmentMetaView> = index::overlapping(s, start, end, (n - 1) as nat);
    if i < rest.len() {
        lemma_overlapping_known(s, start, end, (n - 1) as nat, i)
    } else {
        n - 1
    }
}

/// The segments of a range stand in the index.
pub proof fn lemma_range_known(
    s: Seq<MetaView>,
    start: u64,
    end: u64,
    range: Seq<SegmentMetaView>,
    i: int,
) -> (j: int)
    requires
        index::is_range(s, start, end, range),
        0 <= i < range.len(),
    ensures
        0 <= j < s.len(),
        range[i].segment_id == s[j].id,
{
    let v: Seq<SegmentMetaView> = index::overlapping(s, start, end, s.len());
    let ranking = choose|ranking: Seq<usize>|
        {
            &&& #[trigger] order::ranks(index::last_times(v), ranking, 0, v.len() as int)
            &&& range == Seq::new(v.len(), |i: int| v[ranking[i] as int])
        };
    assert(0 <= ranking[i] < v.len());
    lemma_overlapping_known(s, start, end, s.len(), ranking[i] as int)
}

proof fn lemma_course_holds(
    fs: Seq<FileView>,
    metas: Seq<MetaView>,
    held: Map<u32, Seq<LogView>>,
    range: Seq<SegmentMetaView>,
    q: QueryView,
    limit: nat,
    dict: Option<Seq<u8>>,
    outs: Seq<Result<Seq<LogView>, DataError>>,
    n: nat,
)
    requires
        index::is_range(metas, q.start, q.end, range),
        all_hold(fs, metas, held, q, dict),
        storage_query::is_course(fs, range, q, limit, dict, outs),
        n < outs.len(),
    ensures
        outs[n as int] == Ok::<Seq<LogView>, DataError>(
            segment_query::first(held_lines(held, range, q, n), limit),
        ),
    decreases n,
{
    if n == 0 {
        assert(segment_query::first(held_lines(held, range, q, 0), limit)
            =~= Seq::<LogView>::empty());
    } else {
        let m: int = n - 1;
        lemma_course_holds(fs, metas, held, range, q, limit, dict, outs, m as nat);
        let before: Seq<LogView> = held_lines(held, range, q, m as nat);
        let id: u32 = range[m].segment_id;
        let more: Seq<LogView> = segment_query::matching(segment_law::all_kept(held[id]), q);
        let found: Seq<LogView> = segment_query::first(before, limit);
        let room: nat = (limit - found.len()) as nat;
        let j: int = lemma_range_known(metas, q.start, q.end, range, m);
        lemma_first_concat(before, more, limit);
        assert(storage_query::file_step(fs, id, q, limit, dict, outs[m], outs[m + 1]));
        if found.len() >= limit {
            assert(segment_query::first(more, room) =~= Seq::<LogView>::empty());
            assert(found + Seq::<LogView>::empty() =~= found);
        } else {
            let d: Seq<u8> = index_open::file_named(
                fs,
                names::segment_file_name(metas[j].id as nat),
            )->0;
            assert(file_holds(d, held[id], q, dict));
            let r = choose|r: Result<Seq<LogView>, DataError>|
                #[trigger] segment_query::is_found(d, q, room, dict, r) && outs[m + 1]
                    == storage_query::joined(found, r);
            assert(segment_query::is_found(d, q, room, dict, r));
        }
    }
}

/// A query never fails while the files of all segments are there and hold their
/// lines. It answers with the lines it looks for: those of the segments, the
/// segment with the latest last time first, and then the buffered ones, cut off
/// at its limit, and the latest lines first.
pub proof fn law_query_complete(
    metas: Seq<MetaView>,
    fs: Seq<FileView>,
    buffer: Seq<LogView>,
    held: Map<u32, Seq<LogView>>,
    q: QueryView,
    limit: nat,
    dict: Option<Seq<u8>>,
    r: Result<Seq<LogView>, DataError>,
)
    requires
        storage_query::answers(metas, fs, buffer, q, limit, dict, r),
        all_hold(fs, metas, held, q, dict),
    ensures
        r is Ok,
        exists|range: Seq<SegmentMetaView>|
            {
                let all: Seq<LogView> = segment_query::first(
                    held_lines(held, range, q, range.len()) + segment_query::matching(buffer, q),
                    limit,
                );
                &&& #[trigger] index::is_range(metas, q.start, q.end, range)
                &&& order::is_ranking(all, storage_query::times(all), r->Ok_0)
            },
{
    let (range, out) = choose|
        range: Seq<SegmentMetaView>,
        out: Result<Seq<LogView>, DataError>,
    |
        {
            &&& index::is_range(metas, q.start, q.end, range)
            &&& #[trigger] storage_query::files_find(fs, range, q, limit, dict, out)
            &&& storage_query::is_answer(out, buffer, q, limit, r)
        };
    let outs = choose|outs: Seq<Result<Seq<LogView>, DataError>>|
        #[trigger] storage_query::is_course(fs, range, q, limit, dict, outs) && outs.len()
            == range.len() + 1 && outs.last() == out;
    lemma_course_holds(fs, metas, held, range, q, limit, dict, outs, range.len());
    lemma_first_concat(
        held_lines(held, range, q, range.len()),
        segment_query::matching(buffer, q),
        limit,
    );
}

/// The answer of a query lists the latest lines first.
pub proof fn law_newest_first(
    metas: Seq<MetaView>,
    fs: Seq<FileView>,
    buffer: Seq<LogView>,
    q: QueryView,
    limit: nat,
    dict: Option<Seq<u8>>,
    r: Result<Seq<LogView>, DataError>,
    i: int,
    j: int,
)
    requires
        storage_query::answers(metas, fs, buffer, q, limit, dict, r),
        r is Ok,
        0 <= i < j < r->Ok_0.len(),
    ensures
        r->Ok_0[i].ts >= r->Ok_0[j].ts,
{
    let (range, out) = choose|
        range: Seq<SegmentMetaView>,
        out: Result<Seq<LogView>, DataError>,
    |
        {
            &&& index::is_range(metas, q.start, q.end, range)
            &&& #[trigger] storage_query::files_find(fs, range, q, limit, dict, out)
            &&& storage_query::is_answer(out, buffer, q, limit, r)
        };
    let found: Seq<LogView> = out->Ok_0;
    let all: Seq<LogView> = found + segment_query::first(
        segment_query::matching(buffer, q),
        (limit - found.len()) as nat,
    );
    let keys: Seq<u64> = storage_query::times(all);
    let ranking = choose|ranking: Seq<usize>|
        {
            &&& #[trigger] order::ranks(keys, ranking, 0, all.len() as int)
            &&& r->Ok_0 == Seq::new(all.len(), |i: int| all[ranking[i] as int])
        };
    assert(order::precedes(keys, ranking[i] as int, ranking[j] as int));
    assert(0 <= ranking[i] < all.len() && 0 <= ranking[j] < all.len());
}

// ---------- writing and reading ----------

pub proof fn lemma_file_added(fs: Seq<FileView>, f: FileView, name: Seq<char>)
    ensures
        index_open::file_named(fs.push(f), name) == if index_open::file_named(fs, name) is Some {
            index_open::file_named(fs, name)
        } else if f.name == name {
            Some(f.data)
        } else {
            None
        },
    decreases fs.len(),
{
    let more: Seq<FileView> = fs.push(f);
    if fs.len() == 0 {
        assert(more.drop_first() =~= Seq::<FileView>::empty());
        assert(index_open::file_named(more.drop_first(), name) is None);
    } else {
        lemma_file_added(fs.drop_first(), f, name);
        assert(more.drop_first() =~= fs.drop_first().push(f));
        assert(more[0] == fs[0]);
    }
}

pub proof fn lemma_names_differ(a: u32, b: u32)
    requires
        a != b,
    ensures
        names::segment_file_name(a as nat) != names::segment_file_name(b as nat),
{
    names::law_segment_name_roundtrip(a);
    names::law_segment_name_roundtrip(b);
}

/// The counts and lengths of a segment with these lines fit the fields of its
/// file, and no chunk of it with a line that the query looks for is passed over
/// because other chunks have the templates that hold the keyword.
pub open spec fn segment_fits(
    config: StorageConfig,
    logs: Seq<LogView>,
    data: Seq<u8>,
    q: QueryView,
) -> bool {
    let k: nat = segment_plan::chunk_span(config, logs);
    &&& k > 0
    &&& batch_fits(logs)
    &&& segment_law::services_fit(logs, k)
    &&& segment_plan::pieces(logs, k).len() <= 0xffff
    &&& data.len() < 0x1_0000_0000
    &&& chunks_allow(logs, k, q)
}

/// What was written is read: where the files of all segments hold their lines,
/// they do so after one more segment was written, and its file holds the lines
/// that were in the buffer.
pub proof fn law_flush_keeps_lines(
    before: StorageEngine,
    now: StorageEngine,
    created_at: u64,
    w: WrittenSegment,
    fs: Seq<FileView>,
    held: Map<u32, Seq<LogView>>,
    q: QueryView,
    dict: Option<Seq<u8>>,
)
    requires
        before.buffer@.len() > 0,
        storage::flushes(before, now, created_at, Ok(Some(w))),
        index_law::ids_below(index::metas(before.index.segments@), before.index.next_id),
        all_hold(fs, index::metas(before.index.segments@), held, q, dict),
        index_open::file_named(fs, w.name@) is None,
        segment_fits(before.config, log::log_views(before.buffer@), w.data@, q),
    ensures
        all_hold(
            fs.push((FileView { name: w.name@, data: w.data@ })),
            index::metas(now.index.segments@),
            held.insert(w.id, log::log_views(before.buffer@)),
            q,
            dict,
        ),
        index_law::ids_below(index::metas(now.index.segments@), now.index.next_id),
{
    let logs: Seq<LogView> = log::log_views(before.buffer@);
    let old_metas: Seq<MetaView> = index::metas(before.index.segments@);
    let metas: Seq<MetaView> = index::metas(now.index.segments@);
    let f: FileView = FileView { name: w.name@, data: w.data@ };
    let more: Seq<FileView> = fs.push(f);
    let lines: Map<u32, Seq<LogView>> = held.insert(w.id, logs);
    reveal(storage::is_noted);
    let (summary, original, compressed) = choose|
        summary: SegmentSummary,
        original: u64,
        compressed: u64,
    |
        {
            &&& #[trigger] storage::is_written(
                before.config,
                logs,
                w.id,
                created_at,
                w.data@,
                summary,
                original,
                compressed,
            )
            &&& metas == index::placed(
                old_metas,
                storage::meta_of(before.index.data_dir@, w.id, logs, summary),
            )
        };
    let meta: MetaView = storage::meta_of(before.index.data_dir@, w.id, logs, summary);
    law_written_found(
        before.config,
        logs,
        w.id,
        created_at,
        w.data@,
        summary,
        original,
        compressed,
        q,
        dict,
    );
    assert forall|i: int| 0 <= i < metas.len() implies {
        let name: Seq<char> = names::segment_file_name((#[trigger] metas[i]).id as nat);
        &&& index_open::file_named(more, name) is Some
        &&& file_holds(index_open::file_named(more, name)->0, lines[metas[i].id], q, dict)
    } by {
        let name: Seq<char> = names::segment_file_name(metas[i].id as nat);
        index_law::lemma_placed_contains(old_metas, meta, i);
        lemma_file_added(fs, f, name);
        if metas[i] != meta {
            let j: int = choose|j: int| 0 <= j < old_metas.len() && old_metas[j] == metas[i];
            assert(old_metas[j].id < before.index.next_id);
            lemma_names_differ(metas[i].id, w.id);
        }
    }
    index_law::law_ids_stay_below(old_metas, meta, before.index.next_id);
}

/// The first answer of an engine: lines that were written as its only segment
/// are all found, the latest first and up to the limit.
pub proof fn law_first_segment_found(
    before: StorageEngine,
    now: StorageEngine,
    created_at: u64,
    w: WrittenSegment,
    q: QueryView,
    limit: nat,
    dict: Option<Seq<u8>>,
    r: Result<Seq<LogView>, DataError>,
)
    requires
        before.buffer@.len() > 0,
        before.index.segments@.len() == 0,
        storage::flushes(before, now, created_at, Ok(Some(w))),
        segment_fits(before.config, log::log_views(before.buffer@), w.data@, q),
        storage_query::answers(
            index::metas(now.index.segments@),
            seq![FileView { name: w.name@, data: w.data@ }],
            Seq::empty(),
            q,
            limit,
            dict,
            r,
        ),
    ensures
        r is Ok,
        ({
            let found: Seq<LogView> = segment_query::first(
                segment_query::matching(
                    segment_law::all_kept(log::log_views(before.buffer@)),
                    q,
                ),
                limit,
            );
            order::is_ranking(found, storage_query::times(found), r->Ok_0)
        }),
{
    let logs: Seq<LogView> = log::log_views(before.buffer@);
    let none: Seq<FileView> = Seq::empty();
    let f: FileView = FileView { name: w.name@, data: w.data@ };
    let fs: Seq<FileView> = seq![f];
    let metas: Seq<MetaView> = index::metas(now.index.segments@);
    let held: Map<u32, Seq<LogView>> = Map::empty().insert(w.id, logs);
    assert(none.push(f) =~= fs);
    law_flush_keeps_lines(before, now, created_at, w, none, Map::empty(), q, dict);
    law_query_complete(metas, fs, Seq::empty(), held, q, limit, dict, r);
    let range = choose|range: Seq<SegmentMetaView>|
        {
            let all: Seq<LogView> = segment_query::first(
                held_lines(held, range, q, range.len()) + segment_query::matching(
                    Seq::empty(),
                    q,
                ),
                limit,
            );
            &&& #[trigger] index::is_range(metas, q.start, q.end, range)
            &&& order::is_ranking(all, storage_query::times(all), r->Ok_0)
        };
    let lines: Seq<LogView> = held_lines(held, range, q, range.len());
    let want: Seq<LogView> = segment_query::matching(segment_law::all_kept(logs), q);
    assert(segment_query::matching(Seq::<LogView>::empty(), q) =~= Seq::<LogView>::empty());
    assert(lines + Seq::<LogView>::empty() =~= lines);
    reveal(storage::is_noted);
    let (summary, original, compressed) = choose|
        summary: SegmentSummary,
        original: u64,
        compressed: u64,
    |
        {
            &&& #[trigger] storage::is_written(
                before.config,
                logs,
                w.id,
                created_at,
                w.data@,
                summary,
                original,
                compressed,
            )
            &&& metas == index::placed(
                index::metas(before.index.segments@),
                storage::meta_of(before.index.data_dir@, w.id, logs, summary),
            )
        };
    let meta: MetaView = storage::meta_of(before.index.data_dir@, w.id, logs, summary);
    assert(index::metas(before.index.segments@) =~= Seq::<MetaView>::empty());
    assert(metas =~= seq![meta]);
    lemma_single_range(meta, q.start, q.end, range);
    if index::overlaps(meta, q.start, q.end) {
        assert(held_lines(held, range, q, 0) =~= Seq::<LogView>::empty());
        assert(lines =~= want);
    } else {
        segment_law::lemma_out_of_time(logs, q);
        assert(lines =~= want);
    }
}

/// The range of an index with one entry.
proof fn lemma_single_range(m: MetaView, start: u64, end: u64, range: Seq<SegmentMetaView>)
    requires
        index::is_range(seq![m], start, end, range),
    ensures
        index::overlaps(m, start, end) ==> range == seq![index::without_path(m)],
        !index::overlaps(m, start, end) ==> range.len() == 0,
{
    let s: Seq<MetaView> = seq![m];
    let none: Seq<SegmentMetaView> = index::overlapping(s, start, end, 0);
    let v: Seq<SegmentMetaView> = index::overlapping(s, start, end, 1);
    assert(none =~= Seq::<SegmentMetaView>::empty());
    let ranking = choose|ranking: Seq<usize>|
        {
            &&& #[trigger] order::ranks(index::last_times(v), ranking, 0, v.len() as int)
            &&& range == Seq::new(v.len(), |i: int| v[ranking[i] as int])
        };
    if index::overlaps(m, start, end) {
        assert(v =~= seq![index::without_path(m)]);
        assert(0 <= ranking[0] < 1);
        assert(range =~= seq![index::without_path(m)]);
    }
}

// ---------- the write-ahead log ----------

/// The write-ahead log with the bytes of an appended line behind it is the
/// write-ahead log of all the lines.
pub proof fn law_wal_append(logs: Seq<LogView>, l: LogView)
    ensures
        json::json_bytes(logs.push(l)) == json::json_bytes(logs) + encode_utf8(
            json::line_json(l),
        ).push(0x0au8),
    decreases logs.len(),
{
    let b: Seq<u8> = encode_utf8(json::line_json(l)).push(0x0au8);
    if logs.len() == 0 {
        assert(logs.push(l).drop_first() =~= Seq::<LogView>::empty());
        assert(json::json_bytes(logs.push(l).drop_first()) =~= Seq::<u8>::empty());
        assert(json::json_bytes(logs.push(l)) =~= json::json_bytes(logs) + b);
    } else {
        law_wal_append(logs.drop_first(), l);
        assert(logs.push(l).drop_first() =~= logs.drop_first().push(l));
        assert(logs.push(l)[0] == logs[0]);
        let head: Seq<u8> = encode_utf8(json::line_json(logs[0])) + seq![0x0au8];
        assert(json::json_bytes(logs.push(l)) == head + json::json_bytes(
            logs.drop_first().push(l),
        ));
        assert(head + (json::json_bytes(logs.drop_first()) + b) =~= head + json::json_bytes(
            logs.drop_first(),
        ) + b);
    }
}

/// Lines that were only in the write-ahead log are not lost: an engine that is
/// opened with the log of these lines has them in its buffer before it writes
/// its first segment.
pub proof fn law_crash_recovery(
    dir: Seq<char>,
    config: StorageConfig,
    manifest: Option<&[u8]>,
    fs: Seq<FileView>,
    logs: Seq<LogView>,
    e: StorageEngine,
)
    requires
        storage_open::is_restored(dir, config, manifest, fs, json::json_bytes(logs), e),
    ensures
        log::log_views(e.buffer@) == logs,
{
}

} // verus!
