//! The storage engine: lines are buffered, written to segments and found again.
//!
//! The engine works on values in memory. Whoever drives it reads and writes the
//! files: the write-ahead log, the segment files and the manifest.

use crate::agent::append_law;
use crate::agent::codec;
use crate::agent::compressor;
use crate::agent::compressor::Compressor;
use crate::agent::extract;
use crate::agent::index;
use crate::agent::index::{Index, MetaView};
use crate::agent::index_open;
use crate::agent::index_open::FileView;
use crate::agent::index_scan;
use crate::agent::index_scan::SegmentFile;
use crate::agent::json;
use crate::agent::keywords;
use crate::agent::parts;
use crate::agent::records::TemplateBatch;
use crate::agent::segment_build;
use crate::agent::segment_build::Assembled;
use crate::agent::segment_plan;
use crate::agent::segment_plan::Plan;
use crate::agent::segment_query;
use crate::agent::storage_config::StorageConfig;
use crate::shared::chunk::ChunkEntry;
use crate::shared::error::DataError;
use crate::shared::header;
use crate::shared::header::SegmentHeader;
use crate::shared::lines;
use crate::shared::log;
use crate::shared::log::{LogLine, LogView};
use crate::shared::names;
use crate::shared::order;
use crate::shared::segment;
use crate::shared::summary;
use crate::shared::summary::SegmentSummary;
use crate::shared::text;
use vstd::prelude::*;
use vstd::string::*;
use vstd::utf8::*;

verus! {

/// Buffers lines, writes segments and finds lines.
pub struct StorageEngine {
    pub config: StorageConfig,
    pub index: Index,
    pub compressor: Compressor,
    pub buffer: Vec<LogLine>,
    pub buffer_bytes: usize,
    /// Length of all chunks before they were compressed.
    pub total_original: u64,
    /// Length of all chunks after they were compressed.
    pub total_compressed: u64,
}

/// What is to be written for an appended line.
pub struct Appended {
    /// The bytes to add to the write-ahead log.
    pub wal: Vec<u8>,
    /// Whether the buffer is full.
    pub full: bool,
}

/// A segment that is to be written to disk. When it is there, the write-ahead
/// log can be emptied.
pub struct WrittenSegment {
    pub id: u32,
    /// Name of the segment file.
    pub name: String,
    pub data: Vec<u8>,
    /// The new manifest file.
    pub manifest: Vec<u8>,
}

// ---------- sizes ----------

/// The chunk sizes of the first `n` chunks that stand before the footer, before
/// and after compression.
pub open spec fn chunk_sizes(data: Seq<u8>, h: SegmentHeader, n: nat) -> (nat, nat)
    decreases n,
{
    if n == 0 {
        (0, 0)
    } else {
        let (a, b) = chunk_sizes(data, h, (n - 1) as nat);
        let e: ChunkEntry = segment::table_entry(data, h, n - 1);
        if index_scan::entry_fits(data, h, n - 1) {
            (a + e.original_sz as nat, b + e.compressed_sz as nat)
        } else {
            (a, b)
        }
    }
}

/// The chunk sizes of a segment file: none in a file that is too short, nothing
/// where the header cannot be read.
pub open spec fn file_sizes(data: Seq<u8>) -> Option<(nat, nat)> {
    let h: SegmentHeader = header::header_at(data);
    if data.len() < 72 {
        Some((0, 0))
    } else if !header::header_readable(data) {
        None
    } else {
        Some(chunk_sizes(data, h, h.chunk_count as nat))
    }
}

/// The chunk sizes of a segment file.
pub fn read_segment_size_stats(data: &[u8]) -> (r: Option<(u64, u64)>)
    ensures
        match r {
            Some((a, b)) => file_sizes(data@) == Some((a as nat, b as nat)),
            None => file_sizes(data@) is None,
        },
{
    let total: usize = data.len();
    if total < 72 {
        return Some((0, 0));
    }
    let h: SegmentHeader = match SegmentHeader::from_bytes(data) {
        Ok(h) => h,
        Err(_) => {
            return None;
        },
    };
    let ghost g = header::header_at(data@);
    proof {
        header::lemma_header_at(h, data@);
    }
    let start: u64 = 64 + h.pattern_table_size() as u64 + h.dict_len() as u64;
    assert(start == segment::table_start(g));
    let mut a: u64 = 0;
    let mut b: u64 = 0;
    let mut i: u64 = 0;
    let count: u64 = h.chunk_count as u64;
    while i < count
        invariant
            i <= count <= 0xffff,
            total == data@.len(),
            total >= 72,
            start == segment::table_start(g),
            start <= 0x2_0000_0040,
            a <= 0xffff_ffff * i,
            b <= 0xffff_ffff * i,
            chunk_sizes(data@, g, i as nat) == (a as nat, b as nat),
        decreases count - i,
    {
        if start + 32 * (i + 1) <= (total - 8) as u64 {
            let e: ChunkEntry = segment_query::read_entry(data, (start + 32 * i) as usize);
            assert(e == segment::table_entry(data@, g, i as int));
            a = a + e.original_sz as u64;
            b = b + e.compressed_sz as u64;
        }
        i += 1;
    }
    Some((a, b))
}

/// The name has the extension of segment files.
pub open spec fn named_mobs(name: Seq<char>) -> bool {
    name.len() > 5 && name.subrange(name.len() - 5, name.len() as int) == ".mobs"@
}

/// The chunk sizes of the first `n` files together, in 64 bits.
pub open spec fn all_sizes(fs: Seq<FileView>, n: nat) -> (u64, u64)
    decreases n,
{
    if n == 0 {
        (0, 0)
    } else {
        let (a, b) = all_sizes(fs, (n - 1) as nat);
        match file_sizes(fs[n - 1].data) {
            Some((x, y)) if named_mobs(fs[n - 1].name) => (
                a.wrapping_add(x as u64),
                b.wrapping_add(y as u64),
            ),
            _ => (a, b),
        }
    }
}

fn has_extension(name: &str) -> (r: bool)
    ensures
        r == named_mobs(name@),
{
    let chars: Vec<char> = text::chars_of(name);
    let n: usize = chars.len();
    if n <= 5 {
        return false;
    }
    let tail: &[char] = vstd::slice::slice_subrange(chars.as_slice(), n - 5, n);
    text::same_chars(tail, &text::chars_of(".mobs"))
}

pub(crate) fn sum_sizes(files: &[SegmentFile]) -> (r: (u64, u64))
    ensures
        r == all_sizes(index_open::file_views(files@), files@.len()),
{
    let ghost fs = index_open::file_views(files@);
    let mut a: u64 = 0;
    let mut b: u64 = 0;
    let mut i: usize = 0;
    while i < files.len()
        invariant
            i <= files@.len(),
            fs == index_open::file_views(files@),
            (a, b) == all_sizes(fs, i as nat),
        decreases files@.len() - i,
    {
        assert(fs[i as int].name == files@[i as int].name@);
        assert(fs[i as int].data == files@[i as int].data@);
        if has_extension(files[i].name.as_str()) {
            match read_segment_size_stats(files[i].data) {
                None => {},
                Some((x, y)) => {
                    a = a.wrapping_add(x);
                    b = b.wrapping_add(y);
                },
            }
        }
        i += 1;
    }
    (a, b)
}

// ---------- writing ----------

/// A segment may have that dictionary: where it has chunks enough, what a
/// training for its chunks gives; else none.
pub open spec fn dict_allowed(config: StorageConfig, p: Plan, dict: Option<Seq<u8>>) -> bool {
    if p.entries@.len() >= config.dict_training_min_chunks {
        segment_build::dict_made(
            lines::byte_lists(p.binaries@),
            config.dict_training_sample_chunks as nat,
            dict,
        )
    } else {
        dict is None
    }
}

/// The bytes of an optional dictionary; none without one.
pub open spec fn dict_part(dict: Option<Seq<u8>>) -> Seq<u8> {
    match dict {
        Some(d) => d,
        None => Seq::empty(),
    }
}

/// `p` is a plan of a segment with these lines, from the extraction `b`.
pub open spec fn is_planned(
    config: StorageConfig,
    logs: Seq<LogView>,
    b: TemplateBatch,
    p: Plan,
) -> bool {
    &&& extract::is_extraction(logs, b)
    &&& segment_plan::is_plan(
        p,
        parts::template_views(b.templates@),
        logs,
        segment_plan::batch_records(b),
        segment_plan::chunk_span(config, logs),
    )
}

/// `data` is a segment file with these lines and `summary` its summary; its
/// chunks have `original` bytes before and `compressed` bytes after they are
/// compressed.
#[verifier::opaque]
pub open spec fn is_written(
    config: StorageConfig,
    logs: Seq<LogView>,
    id: u32,
    created_at: u64,
    data: Seq<u8>,
    summary: SegmentSummary,
    original: u64,
    compressed: u64,
) -> bool {
    exists|b: TemplateBatch, p: Plan, dict: Option<Seq<u8>>, ds: Seq<Seq<u8>>|
        {
            let bs: Seq<Seq<u8>> = lines::byte_lists(p.binaries@);
            &&& #[trigger] is_planned(config, logs, b, p)
            &&& #[trigger] dict_allowed(config, p, dict)
            &&& segment_build::all_packed(bs, config.compression_level, dict, bs.len()) == Some(ds)
            &&& segment_build::all_unpack(ds, bs, dict)
            &&& #[trigger] segment_build::is_segment(data, p, dict_part(dict), ds, id, created_at)
            &&& original == index::clamped64(segment_build::sum_len(bs, bs.len()))
            &&& compressed == index::clamped64(segment_build::sum_len(ds, ds.len()))
            &&& summary::summarizes(summary, p.summaries@)
        }
}

/// The entry in the index of a segment with these lines.
pub open spec fn meta_of(
    dir: Seq<char>,
    id: u32,
    logs: Seq<LogView>,
    summary: SegmentSummary,
) -> MetaView {
    MetaView {
        id,
        min_ts: segment_plan::earliest(logs),
        max_ts: segment_plan::latest(logs),
        line_count: logs.len() as u32,
        path: index::segment_path(dir, names::segment_file_name(id as nat)),
        summary,
    }
}

/// Some chunk of a segment with these lines cannot be compressed.
#[verifier::opaque]
pub open spec fn not_compressed(config: StorageConfig, logs: Seq<LogView>) -> bool {
    exists|b: TemplateBatch, p: Plan, dict: Option<Seq<u8>>|
        {
            let bs: Seq<Seq<u8>> = lines::byte_lists(p.binaries@);
            &&& #[trigger] is_planned(config, logs, b, p)
            &&& #[trigger] dict_allowed(config, p, dict)
            &&& segment_build::all_packed(bs, config.compression_level, dict, bs.len()) is None
        }
}

/// `w` is the segment with these lines, and the engine has noted it.
#[verifier::opaque]
pub open spec fn is_noted(
    before: StorageEngine,
    now: StorageEngine,
    logs: Seq<LogView>,
    created_at: u64,
    w: WrittenSegment,
) -> bool {
    &&& w.id == before.index.next_id
    &&& w.name@ == names::segment_file_name(w.id as nat)
    &&& w.manifest@ == index::saved_bytes(index::metas(now.index.segments@))
    &&& now.index.keyword_to_patterns@ == keywords::all_noted(
        before.index.keyword_to_patterns@,
        index_scan::segment_words(w.id, w.data@),
    )
    &&& exists|summary: SegmentSummary, original: u64, compressed: u64|
        {
            &&& #[trigger] is_written(
                before.config,
                logs,
                w.id,
                created_at,
                w.data@,
                summary,
                original,
                compressed,
            )
            &&& index::metas(now.index.segments@) == index::placed(
                index::metas(before.index.segments@),
                meta_of(before.index.data_dir@, w.id, logs, summary),
            )
            &&& now.total_original == before.total_original.wrapping_add(original)
            &&& now.total_compressed == before.total_compressed.wrapping_add(compressed)
        }
}

/// The engine after its buffer was taken, apart from the index and the totals.
pub open spec fn drained(before: StorageEngine, now: StorageEngine) -> bool {
    &&& now.config == before.config
    &&& now.compressor == before.compressor
    &&& now.buffer@.len() == 0
    &&& now.buffer_bytes == 0
    &&& now.index.data_dir == before.index.data_dir
    &&& now.index.next_id == before.index.next_id + 1
}

/// The sum, or the largest number that fits.
pub open spec fn clamped_usize(v: nat) -> nat {
    if v <= usize::MAX {
        v
    } else {
        usize::MAX as nat
    }
}

fn add_usize(a: usize, b: usize) -> (r: usize)
    ensures
        r == clamped_usize((a + b) as nat),
{
    if b <= usize::MAX - a {
        a + b
    } else {
        usize::MAX
    }
}

/// The number of bytes of the JSON objects of the first `n` lines.
pub open spec fn json_len(logs: Seq<LogView>, n: nat) -> nat
    decreases n,
{
    if n == 0 {
        0
    } else {
        json_len(logs, (n - 1) as nat) + encode_utf8(json::line_json(logs[n - 1])).len()
    }
}

pub(crate) fn json_size(logs: &Vec<LogLine>) -> (r: usize)
    ensures
        r == clamped_usize(json_len(log::log_views(logs@), logs@.len())),
{
    let ghost lv = log::log_views(logs@);
    let mut total: usize = 0;
    let mut i: usize = 0;
    while i < logs.len()
        invariant
            i <= logs@.len(),
            lv == log::log_views(logs@),
            total == clamped_usize(json_len(lv, i as nat)),
        decreases logs@.len() - i,
    {
        assert(lv[i as int] == logs@[i as int]@);
        let s: String = json::log_json(&logs[i]);
        total = add_usize(total, s.as_str().as_bytes().len());
        i += 1;
    }
    total
}

fn build_segment(
    config: &StorageConfig,
    logs: &Vec<LogLine>,
    k: usize,
    id: u32,
    created_at: u64,
) -> (r: Result<(Assembled, SegmentSummary), DataError>)
    requires
        k > 0,
        k == segment_plan::chunk_span(*config, log::log_views(logs@)),
    ensures
        match r {
            Ok((a, summary)) => is_written(
                *config,
                log::log_views(logs@),
                id,
                created_at,
                a.data@,
                summary,
                a.original_sz,
                a.compressed_sz,
            ) && summary.flags == SegmentSummary::HAS_SUMMARY,
            Err(e) => e == DataError::Compression && not_compressed(
                *config,
                log::log_views(logs@),
            ),
        },
{
    reveal(is_written);
    reveal(not_compressed);
    let ghost lv = log::log_views(logs@);
    let p: Plan = segment_plan::plan_segment(logs.as_slice(), k);
    let ghost b = choose|b: TemplateBatch|
        #[trigger] extract::is_extraction(lv, b) && segment_plan::is_plan(
            p,
            parts::template_views(b.templates@),
            lv,
            segment_plan::batch_records(b),
            k as nat,
        );
    assert(is_planned(*config, lv, b, p));
    let trained: Option<Vec<u8>> = if p.entries.len() >= config.dict_training_min_chunks {
        segment_build::train_segment_dict(&p.binaries, config.dict_training_sample_chunks)
    } else {
        None
    };
    let dict: Option<&[u8]> = match &trained {
        Some(d) => Some(d.as_slice()),
        None => None,
    };
    let ghost dv = codec::dict_bytes(dict);
    assert(dict_allowed(*config, p, dv));
    assert(segment_build::dict_or_empty(dict) == dict_part(dv));
    match segment_build::assemble(&p, dict, config.compression_level, id, created_at) {
        Ok(a) => {
            let summary: SegmentSummary = SegmentSummary::of_chunks(p.summaries.as_slice());
            Ok((a, summary))
        },
        Err(e) => Err(e),
    }
}

proof fn lemma_noted(
    before: StorageEngine,
    now: StorageEngine,
    logs: Seq<LogView>,
    created_at: u64,
    w: WrittenSegment,
    summary: SegmentSummary,
    original: u64,
    compressed: u64,
)
    requires
        w.id == before.index.next_id,
        w.name@ == names::segment_file_name(w.id as nat),
        w.manifest@ == index::saved_bytes(index::metas(now.index.segments@)),
        now.index.keyword_to_patterns@ == keywords::all_noted(
            before.index.keyword_to_patterns@,
            index_scan::segment_words(w.id, w.data@),
        ),
        is_written(
            before.config,
            logs,
            w.id,
            created_at,
            w.data@,
            summary,
            original,
            compressed,
        ),
        index::metas(now.index.segments@) == index::placed(
            index::metas(before.index.segments@),
            meta_of(before.index.data_dir@, w.id, logs, summary),
        ),
        now.total_original == before.total_original.wrapping_add(original),
        now.total_compressed == before.total_compressed.wrapping_add(compressed),
    ensures
        is_noted(before, now, logs, created_at, w),
{
    reveal(is_noted);
}

proof fn lemma_noted_from(
    a: StorageEngine,
    b: StorageEngine,
    now: StorageEngine,
    logs: Seq<LogView>,
    created_at: u64,
    w: WrittenSegment,
)
    requires
        is_noted(a, now, logs, created_at, w),
        a.config == b.config,
        a.index == b.index,
        a.total_original == b.total_original,
        a.total_compressed == b.total_compressed,
    ensures
        is_noted(b, now, logs, created_at, w),
{
    reveal(is_noted);
}

impl StorageEngine {
    /// The index is in order.
    pub open spec fn wf(self) -> bool {
        self.index.wf()
    }

    /// Adds a line to the buffer.
    pub fn append(&mut self, l: LogLine) -> (r: Appended)
        ensures
            r.wal@ == encode_utf8(json::line_json(l@)).push(0x0au8),
            log::log_views(final(self).buffer@) == log::log_views(old(self).buffer@).push(l@),
            final(self).buffer_bytes == clamped_usize(
                (old(self).buffer_bytes + r.wal@.len()) as nat,
            ),
            append_law::appends(*old(self), *final(self), l@),
            r.full == append_law::is_full(*final(self)),
            r.full == (final(self).buffer@.len() >= old(self).config.max_buffer_lines
                || final(self).buffer_bytes >= old(self).config.max_buffer_bytes),
            final(self).config == old(self).config,
            final(self).index == old(self).index,
            final(self).compressor == old(self).compressor,
            final(self).total_original == old(self).total_original,
            final(self).total_compressed == old(self).total_compressed,
    {
        let ghost before = log::log_views(self.buffer@);
        let ghost lv = l@;
        let s: String = json::log_json(&l);
        let mut wal: Vec<u8> = Vec::new();
        wal.extend_from_slice(s.as_str().as_bytes());
        wal.push(0x0au8);
        assert(wal@ =~= encode_utf8(json::line_json(lv)).push(0x0au8));
        self.buffer.push(l);
        assert(log::log_views(self.buffer@) =~= before.push(lv));
        self.buffer_bytes = add_usize(self.buffer_bytes, wal.len());
        let full: bool = self.buffer.len() >= self.config.max_buffer_lines || self.buffer_bytes
            >= self.config.max_buffer_bytes;
        Appended { wal, full }
    }

    fn write_segment_v2(&mut self, logs: &Vec<LogLine>, k: usize, created_at: u64) -> (r: Result<
        WrittenSegment,
        DataError,
    >)
        requires
            old(self).wf(),
            old(self).index.next_id < u32::MAX,
            k > 0,
            k == segment_plan::chunk_span(old(self).config, log::log_views(logs@)),
        ensures
            final(self).wf(),
            final(self).config == old(self).config,
            final(self).compressor == old(self).compressor,
            final(self).buffer == old(self).buffer,
            final(self).buffer_bytes == old(self).buffer_bytes,
            final(self).index.data_dir == old(self).index.data_dir,
            final(self).index.next_id == old(self).index.next_id + 1,
            match r {
                Ok(w) => is_noted(
                    *old(self),
                    *final(self),
                    log::log_views(logs@),
                    created_at,
                    w,
                ),
                Err(e) => {
                    &&& e == DataError::Compression
                    &&& not_compressed(old(self).config, log::log_views(logs@))
                    &&& final(self).index.segments == old(self).index.segments
                    &&& final(self).index.keyword_to_patterns == old(
                        self,
                    ).index.keyword_to_patterns
                    &&& final(self).total_original == old(self).total_original
                    &&& final(self).total_compressed == old(self).total_compressed
                },
            },
    {
        let ghost lv = log::log_views(logs@);
        let ghost before = *self;
        let id: u32 = self.index.next_segment_id();
        let (built, summary) = match build_segment(&self.config, logs, k, id, created_at) {
            Ok(t) => t,
            Err(e) => {
                return Err(e);
            },
        };
        let (lo, hi) = segment_plan::time_span(logs.as_slice());
        proof {
            assert(1u8 & 1 != 0) by (bit_vector);
        }
        let manifest: Vec<u8> = self.index.add_segment_with_summary(
            id,
            lo,
            hi,
            logs.len() as u32,
            summary,
            Some(built.data.as_slice()),
        );
        self.total_original = self.total_original.wrapping_add(built.original_sz);
        self.total_compressed = self.total_compressed.wrapping_add(built.compressed_sz);
        let name: String = names::segment_name(id);
        let w: WrittenSegment = WrittenSegment { id, name, data: built.data, manifest };
        proof {
            lemma_noted(
                before,
                *self,
                lv,
                created_at,
                w,
                summary,
                built.original_sz,
                built.compressed_sz,
            );
        }
        Ok(w)
    }

    /// Makes a segment of the buffered lines. Without lines nothing happens. If
    /// compression fails, the lines are gone from the buffer; the write-ahead
    /// log still has them.
    pub fn flush(&mut self, created_at: u64) -> (r: Result<Option<WrittenSegment>, DataError>)
        requires
            old(self).wf(),
        ensures
            final(self).wf(),
            flushes(*old(self), *final(self), created_at, r),
    {
        if self.buffer.len() == 0 {
            return Ok(None);
        }
        if self.index.next_id == u32::MAX {
            return Err(DataError::SegmentNumbersExhausted);
        }
        let k: usize = segment_plan::chunk_length(&self.config, self.buffer.as_slice());
        if k == 0 {
            return Err(DataError::EmptyChunks);
        }
        let mut logs: Vec<LogLine> = Vec::new();
        std::mem::swap(&mut logs, &mut self.buffer);
        self.buffer_bytes = 0;
        let ghost taken = *self;
        match self.write_segment_v2(&logs, k, created_at) {
            Ok(w) => {
                proof {
                    lemma_noted_from(taken, *old(self), *self, log::log_views(logs@), created_at, w);
                }
                Ok(Some(w))
            },
            Err(e) => Err(e),
        }
    }
}

/// `r` is the outcome of making a segment of the buffered lines, and `now` the
/// engine after it.
pub open spec fn flushes(
    before: StorageEngine,
    now: StorageEngine,
    created_at: u64,
    r: Result<Option<WrittenSegment>, DataError>,
) -> bool {
    let logs: Seq<LogView> = log::log_views(before.buffer@);
    if logs.len() == 0 {
        r == Ok::<Option<WrittenSegment>, DataError>(None) && now == before
    } else if before.index.next_id == u32::MAX {
        r == Err::<Option<WrittenSegment>, DataError>(DataError::SegmentNumbersExhausted) && now
            == before
    } else if segment_plan::chunk_span(before.config, logs) == 0 {
        r == Err::<Option<WrittenSegment>, DataError>(DataError::EmptyChunks) && now == before
    } else {
        &&& drained(before, now)
        &&& match r {
            Ok(Some(w)) => is_noted(before, now, logs, created_at, w),
            Ok(None) => false,
            Err(e) => {
                &&& e == DataError::Compression
                &&& not_compressed(before.config, logs)
                &&& now.index.segments == before.index.segments
                &&& now.index.keyword_to_patterns == before.index.keyword_to_patterns
                &&& now.total_original == before.total_original
                &&& now.total_compressed == before.total_compressed
            },
        }
    }
}

} // verus!
