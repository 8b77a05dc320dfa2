//! The totals of an engine are sums over its segment files.

use crate::agent::index;
use crate::agent::index_law;
use crate::agent::index_open::FileView;
use crate::agent::json;
use crate::agent::records::TemplateBatch;
use crate::agent::segment_build;
use crate::agent::segment_layout;
use crate::agent::segment_plan;
use crate::agent::segment_plan::Plan;
use crate::agent::segment_query;
use crate::agent::storage;
use crate::agent::storage::{StorageEngine, WrittenSegment};
use crate::agent::storage_config::{StorageConfig, StorageStats};
use crate::agent::storage_open;
use crate::agent::storage_query;
use crate::shared::chunk::ChunkEntry;
use crate::shared::header;
use crate::shared::header::SegmentHeader;
use crate::shared::lines;
use crate::shared::log;
use crate::shared::log::LogView;
use crate::shared::names;
use crate::shared::segment;
use crate::shared::summary;
use crate::shared::summary::SegmentSummary;
use vstd::prelude::*;
use vstd::utf8::*;

verus! {

// ---------- sums over files ----------

/// The bytes of the chunks with these table entries before they are compressed.
pub open spec fn original_bytes(es: Seq<ChunkEntry>) -> nat
    decreases es.len(),
{
    if es.len() == 0 {
        0
    } else {
        original_bytes(es.drop_last()) + es.last().original_sz as nat
    }
}

/// The bytes of the chunks with these table entries after they were compressed.
pub open spec fn compressed_bytes(es: Seq<ChunkEntry>) -> nat
    decreases es.len(),
{
    if es.len() == 0 {
        0
    } else {
        compressed_bytes(es.drop_last()) + es.last().compressed_sz as nat
    }
}

/// The bytes of the chunks of several files before they are compressed.
pub open spec fn all_original(ess: Seq<Seq<ChunkEntry>>) -> nat
    decreases ess.len(),
{
    if ess.len() == 0 {
        0
    } else {
        all_original(ess.drop_last()) + original_bytes(ess.last())
    }
}

/// The bytes of the chunks of several files after they were compressed.
pub open spec fn all_compressed(ess: Seq<Seq<ChunkEntry>>) -> nat
    decreases ess.len(),
{
    if ess.len() == 0 {
        0
    } else {
        all_compressed(ess.drop_last()) + compressed_bytes(ess.last())
    }
}

/// The file is a segment file with a whole chunk table, and these are the
/// entries of the table.
pub open spec fn lists(f: FileView, es: Seq<ChunkEntry>) -> bool {
    let h: SegmentHeader = header::header_at(f.data);
    &&& f.name.len() > 5
    &&& f.name.skip(f.name.len() - 5) == seq!['.', 'm', 'o', 'b', 's']
    &&& f.data.len() >= 72
    &&& header::header_readable(f.data)
    &&& segment::table_end(h) + 8 <= f.data.len()
    &&& es.len() == h.chunk_count
    &&& forall|i: int|
        0 <= i < es.len() ==> #[trigger] es[i] == segment::table_entry(f.data, h, i)
}

proof fn lemma_chunk_sizes(data: Seq<u8>, h: SegmentHeader, es: Seq<ChunkEntry>)
    requires
        es.len() <= h.chunk_count,
        segment::table_end(h) + 8 <= data.len(),
        forall|i: int| 0 <= i < es.len() ==> #[trigger] es[i] == segment::table_entry(data, h, i),
    ensures
        storage::chunk_sizes(data, h, es.len()) == (original_bytes(es), compressed_bytes(es)),
    decreases es.len(),
{
    if es.len() > 0 {
        let front: Seq<ChunkEntry> = es.drop_last();
        assert forall|i: int| 0 <= i < front.len() implies #[trigger] front[i]
            == segment::table_entry(data, h, i) by {
            assert(front[i] == es[i]);
        }
        lemma_chunk_sizes(data, h, front);
        assert(es.last() == es[es.len() - 1]);
    }
}

/// The sizes of a segment file are the sums over its chunk table.
pub proof fn law_file_sizes(f: FileView, es: Seq<ChunkEntry>)
    requires
        lists(f, es),
    ensures
        storage::file_sizes(f.data) == Some((original_bytes(es), compressed_bytes(es))),
        storage::named_mobs(f.name),
{
    lemma_chunk_sizes(f.data, header::header_at(f.data), es);
    reveal_strlit(".mobs");
    assert(".mobs"@ =~= seq!['.', 'm', 'o', 'b', 's']);
    assert(f.name.subrange(f.name.len() - 5, f.name.len() as int) =~= f.name.skip(
        f.name.len() - 5,
    ));
}

proof fn lemma_first_files(fs: Seq<FileView>, more: Seq<FileView>, n: nat)
    requires
        n <= fs.len(),
        n <= more.len(),
        forall|i: int| 0 <= i < n ==> fs[i] == #[trigger] more[i],
    ensures
        storage::all_sizes(fs, n) == storage::all_sizes(more, n),
    decreases n,
{
    if n > 0 {
        lemma_first_files(fs, more, (n - 1) as nat);
        assert(fs[n - 1] == more[n - 1]);
    }
}

/// One more segment file adds the sizes of its chunks to both totals. Short of
/// 64 bits, no file lowers a total.
pub proof fn law_file_adds(fs: Seq<FileView>, f: FileView, es: Seq<ChunkEntry>)
    requires
        lists(f, es),
        storage::all_sizes(fs, fs.len()).0 + original_bytes(es) <= u64::MAX,
        storage::all_sizes(fs, fs.len()).1 + compressed_bytes(es) <= u64::MAX,
    ensures
        storage::all_sizes(fs.push(f), fs.len() + 1).0 == storage::all_sizes(fs, fs.len()).0
            + original_bytes(es),
        storage::all_sizes(fs.push(f), fs.len() + 1).1 == storage::all_sizes(fs, fs.len()).1
            + compressed_bytes(es),
{
    let more: Seq<FileView> = fs.push(f);
    lemma_first_files(fs, more, fs.len());
    law_file_sizes(f, es);
    assert(more[fs.len() as int] == f);
    let (a, b) = storage::all_sizes(fs, fs.len());
    let x: u64 = original_bytes(es) as u64;
    let y: u64 = compressed_bytes(es) as u64;
    assert(a.wrapping_add(x) == a + x);
    assert(b.wrapping_add(y) == b + y);
}

/// A file that is no segment file adds nothing.
pub proof fn law_other_file_adds_nothing(fs: Seq<FileView>, f: FileView)
    requires
        f.name.len() <= 5 || f.name.skip(f.name.len() - 5) != seq!['.', 'm', 'o', 'b', 's'],
    ensures
        storage::all_sizes(fs.push(f), fs.len() + 1) == storage::all_sizes(fs, fs.len()),
{
    let more: Seq<FileView> = fs.push(f);
    lemma_first_files(fs, more, fs.len());
    assert(more[fs.len() as int] == f);
    reveal_strlit(".mobs");
    assert(".mobs"@ =~= seq!['.', 'm', 'o', 'b', 's']);
    if f.name.len() > 5 {
        assert(f.name.subrange(f.name.len() - 5, f.name.len() as int) =~= f.name.skip(
            f.name.len() - 5,
        ));
    }
}

/// The totals over segment files are the sums of the sizes in all entries of all
/// their chunk tables.
pub proof fn law_totals_are_sums(fs: Seq<FileView>, ess: Seq<Seq<ChunkEntry>>)
    requires
        fs.len() == ess.len(),
        forall|i: int| 0 <= i < fs.len() ==> lists(#[trigger] fs[i], ess[i]),
        all_original(ess) <= u64::MAX,
        all_compressed(ess) <= u64::MAX,
    ensures
        storage::all_sizes(fs, fs.len()).0 == all_original(ess),
        storage::all_sizes(fs, fs.len()).1 == all_compressed(ess),
    decreases fs.len(),
{
    if fs.len() > 0 {
        let front: Seq<FileView> = fs.drop_last();
        assert forall|i: int| 0 <= i < front.len() implies lists(
            #[trigger] front[i],
            ess.drop_last()[i],
        ) by {
            assert(front[i] == fs[i]);
        }
        law_totals_are_sums(front, ess.drop_last());
        assert(lists(fs[fs.len() - 1], ess[ess.len() - 1]));
        assert(front.push(fs.last()) =~= fs);
        law_file_adds(front, fs.last(), ess.last());
    }
}

/// An opened engine has as totals the sums of the sizes in all entries of all
/// chunk tables.
pub proof fn law_opened_totals(
    dir: Seq<char>,
    config: StorageConfig,
    manifest: Option<&[u8]>,
    fs: Seq<FileView>,
    wal: Seq<u8>,
    e: StorageEngine,
    ess: Seq<Seq<ChunkEntry>>,
)
    requires
        storage_open::is_restored(dir, config, manifest, fs, wal, e),
        fs.len() == ess.len(),
        forall|i: int| 0 <= i < fs.len() ==> lists(#[trigger] fs[i], ess[i]),
        all_original(ess) <= u64::MAX,
        all_compressed(ess) <= u64::MAX,
    ensures
        e.total_original == all_original(ess),
        e.total_compressed == all_compressed(ess),
{
    law_totals_are_sums(fs, ess);
}

// ---------- writing and opening again ----------

proof fn lemma_sum_parts(ds: Seq<Seq<u8>>, n: nat, c: int)
    requires
        0 <= c < n <= ds.len(),
    ensures
        ds[c].len() <= segment_build::sum_len(ds, n),
    decreases n,
{
    if c < n - 1 {
        lemma_sum_parts(ds, (n - 1) as nat, c);
    }
}

proof fn lemma_sums(es: Seq<ChunkEntry>, bs: Seq<Seq<u8>>, ds: Seq<Seq<u8>>)
    requires
        es.len() <= bs.len(),
        es.len() <= ds.len(),
        forall|i: int|
            0 <= i < es.len() ==> (#[trigger] es[i]).original_sz == bs[i].len()
                && es[i].compressed_sz == ds[i].len(),
    ensures
        original_bytes(es) == segment_build::sum_len(bs, es.len()),
        compressed_bytes(es) == segment_build::sum_len(ds, es.len()),
    decreases es.len(),
{
    if es.len() > 0 {
        let front: Seq<ChunkEntry> = es.drop_last();
        assert forall|i: int| 0 <= i < front.len() implies (#[trigger] front[i]).original_sz
            == bs[i].len() && front[i].compressed_sz == ds[i].len() by {
            assert(front[i] == es[i]);
        }
        lemma_sums(front, bs, ds);
        assert(es[es.len() - 1] == es.last());
    }
}

proof fn lemma_segment_suffix(id: u32)
    ensures
        ({
            let name: Seq<char> = names::segment_file_name(id as nat);
            name.len() > 5 && name.skip(name.len() - 5) == seq!['.', 'm', 'o', 'b', 's']
        }),
{
    reveal_strlit("segment-");
    reveal_strlit(".mobs");
    let name: Seq<char> = names::segment_file_name(id as nat);
    assert(name.skip(name.len() - 5) =~= ".mobs"@);
    assert(".mobs"@ =~= seq!['.', 'm', 'o', 'b', 's']);
}

/// The file of a written segment lists its chunks with the sizes that the engine
/// noted for it.
pub proof fn law_written_sizes(
    config: StorageConfig,
    logs: Seq<LogView>,
    id: u32,
    created_at: u64,
    data: Seq<u8>,
    summary: SegmentSummary,
    original: u64,
    compressed: u64,
) -> (es: Seq<ChunkEntry>)
    requires
        storage::is_written(
            config,
            logs,
            id,
            created_at,
            data,
            summary,
            original,
            compressed,
        ),
        index_law::is_tellable(config, logs, data),
        original < 0x1_0000_0000,
    ensures
        lists((FileView { name: names::segment_file_name(id as nat), data }), es),
        original_bytes(es) == original,
        compressed_bytes(es) == compressed,
{
    reveal(storage::is_written);
    let (b, p, own, ds) = choose|
        b: TemplateBatch,
        p: Plan,
        own: Option<Seq<u8>>,
        ds: Seq<Seq<u8>>,
    |
        {
            let bs: Seq<Seq<u8>> = lines::byte_lists(p.binaries@);
            &&& #[trigger] storage::is_planned(config, logs, b, p)
            &&& #[trigger] storage::dict_allowed(config, p, own)
            &&& segment_build::all_packed(bs, config.compression_level, own, bs.len()) == Some(ds)
            &&& segment_build::all_unpack(ds, bs, own)
            &&& #[trigger] segment_build::is_segment(
                data,
                p,
                storage::dict_part(own),
                ds,
                id,
                created_at,
            )
            &&& original == index::clamped64(segment_build::sum_len(bs, bs.len()))
            &&& compressed == index::clamped64(segment_build::sum_len(ds, ds.len()))
            &&& summary::summarizes(summary, p.summaries@)
        };
    let bs: Seq<Seq<u8>> = lines::byte_lists(p.binaries@);
    let part: Seq<u8> = storage::dict_part(own);
    let n: nat = p.entries@.len();
    segment_layout::lemma_segment_len(data, p, part, ds, id, created_at);
    segment_layout::lemma_reads_as(data, p, part, ds, id, created_at);
    let h: SegmentHeader = header::header_at(data);
    let es: Seq<ChunkEntry> = Seq::new(n, |i: int| segment::table_entry(data, h, i));
    assert forall|i: int| 0 <= i < es.len() implies (#[trigger] es[i]).original_sz == bs[i].len()
        && es[i].compressed_sz == ds[i].len() by {
        assert(segment::table_entry(data, h, i) == segment_build::full_entry(
            p.entries@[i],
            bs,
            ds,
            i,
        ));
        lemma_sum_parts(bs, bs.len(), i);
        lemma_sum_parts(ds, ds.len(), i);
    }
    lemma_sums(es, bs, ds);
    lemma_segment_suffix(id);
    es
}

/// The totals of an engine and of its files stay equal: where they are equal
/// before a segment is written, they are so afterwards, with its file.
pub proof fn law_flush_keeps_totals(
    before: StorageEngine,
    now: StorageEngine,
    created_at: u64,
    w: WrittenSegment,
    fs: Seq<FileView>,
)
    requires
        before.buffer@.len() > 0,
        storage::flushes(before, now, created_at, Ok(Some(w))),
        index_law::is_tellable(before.config, log::log_views(before.buffer@), w.data@),
        before.total_original <= now.total_original < before.total_original + 0x1_0000_0000,
        before.total_compressed <= now.total_compressed,
        (before.total_original, before.total_compressed) == storage::all_sizes(fs, fs.len()),
    ensures
        (now.total_original, now.total_compressed) == storage::all_sizes(
            fs.push((FileView { name: w.name@, data: w.data@ })),
            fs.len() + 1,
        ),
{
    let logs: Seq<LogView> = log::log_views(before.buffer@);
    reveal(storage::is_noted);
    let (summary, original, compressed) = choose|
        summary: SegmentSummary,
        original: u64,
        compressed: u64,
    |
        {
            &&& #[trigger] storage::is_written(
                before.config,
                logs,
                w.id,
                created_at,
                w.data@,
                summary,
                original,
                compressed,
            )
            &&& now.total_original == before.total_original.wrapping_add(original)
            &&& now.total_compressed == before.total_compressed.wrapping_add(compressed)
        };
    assert(now.total_original == before.total_original + original);
    assert(now.total_compressed == before.total_compressed + compressed);
    let es: Seq<ChunkEntry> = law_written_sizes(
        before.config,
        logs,
        w.id,
        created_at,
        w.data@,
        summary,
        original,
        compressed,
    );
    law_file_adds(fs, (FileView { name: w.name@, data: w.data@ }), es);
}

/// Segments written one after the other by an engine that had none. Between two
/// of them the totals do not change; each adds less than 4 GiB, and no sum
/// exceeds 64 bits.
pub open spec fn are_written(
    befores: Seq<StorageEngine>,
    nows: Seq<StorageEngine>,
    times: Seq<u64>,
    ws: Seq<WrittenSegment>,
) -> bool {
    &&& befores.len() == ws.len()
    &&& nows.len() == ws.len()
    &&& times.len() == ws.len()
    &&& forall|i: int|
        0 <= i < ws.len() ==> {
            let before: StorageEngine = befores[i];
            let now: StorageEngine = nows[i];
            &&& before.buffer@.len() > 0
            &&& storage::flushes(before, now, times[i], Ok(Some(#[trigger] ws[i])))
            &&& index_law::is_tellable(before.config, log::log_views(before.buffer@), ws[i].data@)
            &&& before.total_original <= now.total_original < before.total_original
                + 0x1_0000_0000
            &&& before.total_compressed <= now.total_compressed
            &&& before.total_original == if i == 0 {
                0
            } else {
                nows[i - 1].total_original
            }
            &&& before.total_compressed == if i == 0 {
                0
            } else {
                nows[i - 1].total_compressed
            }
        }
}

/// The files of written segments.
pub open spec fn files_of(ws: Seq<WrittenSegment>) -> Seq<FileView> {
    Seq::new(ws.len(), |i: int| FileView { name: ws[i].name@, data: ws[i].data@ })
}

proof fn lemma_run_totals(
    befores: Seq<StorageEngine>,
    nows: Seq<StorageEngine>,
    times: Seq<u64>,
    ws: Seq<WrittenSegment>,
    n: nat,
)
    requires
        are_written(befores, nows, times, ws),
        n <= ws.len(),
    ensures
        storage::all_sizes(files_of(ws.take(n as int)), n) == if n == 0 {
            (0u64, 0u64)
        } else {
            (nows[n - 1].total_original, nows[n - 1].total_compressed)
        },
    decreases n,
{
    if n > 0 {
        let m: int = n - 1;
        lemma_run_totals(befores, nows, times, ws, m as nat);
        let fs: Seq<FileView> = files_of(ws.take(m));
        let w: WrittenSegment = ws[m];
        assert(files_of(ws.take(n as int)) =~= fs.push(
            (FileView { name: w.name@, data: w.data@ }),
        ));
        law_flush_keeps_totals(befores[m], nows[m], times[m], w, fs);
    }
}

/// Opening again keeps the totals: an engine that is opened with the files of
/// the segments that another one wrote has the totals of that one.
pub proof fn law_reopen_keeps_totals(
    befores: Seq<StorageEngine>,
    nows: Seq<StorageEngine>,
    times: Seq<u64>,
    ws: Seq<WrittenSegment>,
    dir: Seq<char>,
    config: StorageConfig,
    manifest: Option<&[u8]>,
    wal: Seq<u8>,
    e: StorageEngine,
)
    requires
        are_written(befores, nows, times, ws),
        ws.len() > 0,
        storage_open::is_restored(dir, config, manifest, files_of(ws), wal, e),
    ensures
        e.total_original == nows.last().total_original,
        e.total_compressed == nows.last().total_compressed,
{
    assert(ws.take(ws.len() as int) =~= ws);
    lemma_run_totals(befores, nows, times, ws, ws.len());
}

// ---------- numbers ----------

/// The numbers about an opened engine: the sums of the sizes in all entries of
/// all chunk tables, the segments of its index, and the lines of the write-ahead
/// log, which are in its buffer.
pub proof fn law_opened_stats(
    dir: Seq<char>,
    config: StorageConfig,
    manifest: Option<&[u8]>,
    fs: Seq<FileView>,
    logs: Seq<LogView>,
    e: StorageEngine,
    ess: Seq<Seq<ChunkEntry>>,
    stats: StorageStats,
)
    requires
        storage_open::is_restored(dir, config, manifest, fs, json::json_bytes(logs), e),
        storage_query::counts_as(e, stats),
        fs.len() == ess.len(),
        forall|i: int| 0 <= i < fs.len() ==> lists(#[trigger] fs[i], ess[i]),
        all_original(ess) <= u64::MAX,
        all_compressed(ess) <= u64::MAX,
    ensures
        stats.total_original_bytes == all_original(ess),
        stats.total_compressed_bytes == all_compressed(ess),
        stats.segment_count == e.index.segments@.len(),
        stats.buffered_lines == logs.len(),
        storage::json_len(logs, logs.len()) <= usize::MAX ==> stats.buffered_bytes
            == storage::json_len(logs, logs.len()),
{
    law_totals_are_sums(fs, ess);
    assert(log::log_views(e.buffer@) == logs);
    assert(log::log_views(e.buffer@).len() == e.buffer@.len());
}

proof fn lemma_json_len(a: Seq<LogView>, b: Seq<LogView>, n: nat)
    requires
        n <= a.len(),
        n <= b.len(),
        forall|i: int| 0 <= i < n ==> a[i] == #[trigger] b[i],
    ensures
        storage::json_len(a, n) == storage::json_len(b, n),
    decreases n,
{
    if n > 0 {
        lemma_json_len(a, b, (n - 1) as nat);
        assert(a[n - 1] == b[n - 1]);
    }
}

/// Each line adds the bytes of its JSON object to those of the lines before it.
pub proof fn law_json_bytes_add(logs: Seq<LogView>, l: LogView)
    ensures
        storage::json_len(Seq::empty(), 0) == 0,
        storage::json_len(logs.push(l), logs.len() + 1) == storage::json_len(logs, logs.len())
            + encode_utf8(json::line_json(l)).len(),
{
    lemma_json_len(logs, logs.push(l), logs.len());
}

/// A segment file has a dictionary only where it has as many chunks as a
/// dictionary needs.
pub proof fn law_few_chunks_no_dictionary(
    config: StorageConfig,
    logs: Seq<LogView>,
    id: u32,
    created_at: u64,
    data: Seq<u8>,
    summary: SegmentSummary,
    original: u64,
    compressed: u64,
)
    requires
        storage::is_written(
            config,
            logs,
            id,
            created_at,
            data,
            summary,
            original,
            compressed,
        ),
        index_law::is_tellable(config, logs, data),
        segment_plan::pieces(logs, segment_plan::chunk_span(config, logs)).len()
            < config.dict_training_min_chunks,
    ensures
        segment_query::file_dict(data, header::header_at(data)) is None,
{
    reveal(storage::is_written);
    let (b, p, own, ds) = choose|
        b: TemplateBatch,
        p: Plan,
        own: Option<Seq<u8>>,
        ds: Seq<Seq<u8>>,
    |
        {
            let bs: Seq<Seq<u8>> = lines::byte_lists(p.binaries@);
            &&& #[trigger] storage::is_planned(config, logs, b, p)
            &&& #[trigger] storage::dict_allowed(config, p, own)
            &&& segment_build::all_unpack(ds, bs, own)
            &&& #[trigger] segment_build::is_segment(
                data,
                p,
                storage::dict_part(own),
                ds,
                id,
                created_at,
            )
        };
    let part: Seq<u8> = storage::dict_part(own);
    segment_layout::lemma_segment_len(data, p, part, ds, id, created_at);
    segment_layout::lemma_reads_as(data, p, part, ds, id, created_at);
}

} // verus!
