//! What the index learns from a segment file.

use crate::agent::keywords;
use crate::agent::keywords::{Finding, KeywordMap};
use crate::agent::parts;
use crate::agent::parts::PartView;
use crate::agent::records::TemplateBatch;
use crate::shared::bytes;
use crate::shared::chunk::{ChunkEntry, ChunkSummary};
use crate::shared::error::DataError;
use crate::shared::header;
use crate::shared::header::{
    SegmentHeader, CHUNK_ENTRY_SIZE, FORMAT_VERSION_V2, SEGMENT_FOOTER_SIZE, SEGMENT_HEADER_SIZE,
};
use crate::shared::segment;
use crate::shared::summary;
use crate::shared::summary::SegmentSummary;
use vstd::prelude::*;

verus! {

/// A segment file in memory.
pub struct SegmentFile<'a> {
    /// Name of the file, without its directory.
    pub name: String,
    pub data: &'a [u8],
}

/// What a segment file says of itself.
#[derive(Debug, Clone, Copy)]
pub struct ScannedSegment {
    pub segment_id: u32,
    pub min_ts: u64,
    pub max_ts: u64,
    pub line_count: u32,
    pub summary: SegmentSummary,
}

/// The templates in a pattern table of `len` bytes behind the header; none where
/// it cannot be read.
pub open spec fn table_words(id: u32, buf: Seq<u8>, len: nat) -> Seq<Finding> {
    if 64 + len > buf.len() {
        Seq::empty()
    } else {
        match parts::read_table(bytes::window(buf, 64, len)) {
            Ok(ts) => seq![Finding { segment: id, templates: ts }],
            Err(_) => Seq::empty(),
        }
    }
}

/// What the file of segment `id` adds to the keyword map: the templates of its
/// pattern table. Files of version 1 and files without patterns add nothing.
pub open spec fn segment_words(id: u32, buf: Seq<u8>) -> Seq<Finding> {
    let h: SegmentHeader = header::header_at(buf);
    if header::header_readable(buf) && h.version == FORMAT_VERSION_V2
        && header::reserved_number(h.reserved@, 0, 2) != 0 && header::table_len_of(h.reserved@)
        != 0 {
        table_words(id, buf, header::table_len_of(h.reserved@))
    } else {
        Seq::empty()
    }
}

/// `ts` are the templates that the file of segment `id` adds to the keyword map.
pub open spec fn has_table(id: u32, buf: Seq<u8>, ts: Seq<Seq<PartView>>) -> bool {
    segment_words(id, buf) == seq![Finding { segment: id, templates: ts }]
}

/// The entry `i` of the chunk table stands before the footer.
pub open spec fn entry_fits(buf: Seq<u8>, h: SegmentHeader, i: int) -> bool {
    segment::table_start(h) + 32 * (i + 1) <= buf.len() - 8
}

/// The entries that are counted: the first one, and those that stand before the
/// footer.
pub open spec fn entry_counts(buf: Seq<u8>, h: SegmentHeader, i: int) -> bool {
    i == 0 || entry_fits(buf, h, i)
}

/// The number of lines in the first `n` chunks.
pub open spec fn line_sum(buf: Seq<u8>, h: SegmentHeader, n: nat) -> nat
    decreases n,
{
    if n == 0 {
        0
    } else {
        line_sum(buf, h, (n - 1) as nat) + (if entry_counts(buf, h, n - 1) {
            segment::table_entry(buf, h, n - 1).line_count as nat
        } else {
            0
        })
    }
}

/// `lo` is the least of the first times of the first `n` chunks.
pub open spec fn is_min_ts(buf: Seq<u8>, h: SegmentHeader, n: nat, lo: u64) -> bool {
    &&& forall|i: int|
        0 <= i < n && entry_counts(buf, h, i) ==> lo <= (#[trigger] segment::table_entry(
            buf,
            h,
            i,
        )).min_ts
    &&& exists|i: int|
        0 <= i < n && entry_counts(buf, h, i) && lo == (#[trigger] segment::table_entry(
            buf,
            h,
            i,
        )).min_ts
}

/// `hi` is the greatest of the last times of the first `n` chunks.
pub open spec fn is_max_ts(buf: Seq<u8>, h: SegmentHeader, n: nat, hi: u64) -> bool {
    &&& forall|i: int|
        0 <= i < n && entry_counts(buf, h, i) ==> hi >= (#[trigger] segment::table_entry(
            buf,
            h,
            i,
        )).max_ts
    &&& exists|i: int|
        0 <= i < n && entry_counts(buf, h, i) && hi == (#[trigger] segment::table_entry(
            buf,
            h,
            i,
        )).max_ts
}

/// How many chunks are looked at: at least one.
pub open spec fn scanned_count(h: SegmentHeader) -> nat {
    if h.chunk_count == 0 {
        1
    } else {
        h.chunk_count as nat
    }
}

/// A segment file that can be scanned.
pub open spec fn scannable(buf: Seq<u8>) -> bool {
    &&& buf.len() >= 104
    &&& header::header_readable(buf)
    &&& segment::table_start(header::header_at(buf)) + 32 <= buf.len()
}

/// `e` is what keeps a file from being scanned.
pub open spec fn scan_error(buf: Seq<u8>, e: DataError) -> bool {
    if buf.len() < 104 {
        e == DataError::SegmentTooShort
    } else if !header::header_readable(buf) {
        e matches DataError::Format(f) && header::header_error(buf, f)
    } else {
        segment::table_start(header::header_at(buf)) + 32 > buf.len() && e
            == DataError::SegmentTruncated
    }
}

/// `v`, or the largest 32-bit number where it is larger.
pub open spec fn clamped32(v: nat) -> nat {
    if v <= u32::MAX {
        v
    } else {
        u32::MAX as nat
    }
}

/// `s` is what the segment file says of itself.
pub open spec fn scans_to(buf: Seq<u8>, s: ScannedSegment) -> bool {
    let h: SegmentHeader = header::header_at(buf);
    let n: nat = scanned_count(h);
    &&& scannable(buf)
    &&& s.segment_id == h.segment_id
    &&& s.line_count == clamped32(line_sum(buf, h, n))
    &&& is_min_ts(buf, h, n, s.min_ts)
    &&& is_max_ts(buf, h, n, s.max_ts)
    &&& if h.version == FORMAT_VERSION_V2 && h.chunk_count > 0 {
        exists|css: Seq<ChunkSummary>|
            #[trigger] segment::summaries_stand(buf, h, css) && summary::summarizes(
                s.summary,
                css,
            )
    } else {
        summary::is_empty_summary(s.summary)
    }
}

/// What scanning a segment file adds to the keyword map.
pub open spec fn scanned_words(buf: Seq<u8>) -> Seq<Finding> {
    let h: SegmentHeader = header::header_at(buf);
    if scannable(buf) && h.version == FORMAT_VERSION_V2 && h.chunk_count > 0
        && header::table_len_of(h.reserved@) > 0 {
        table_words(h.segment_id, buf, header::table_len_of(h.reserved@))
    } else {
        Seq::empty()
    }
}

fn learn_table(id: u32, data: &[u8], len: u32, map: &mut KeywordMap)
    requires
        old(map).wf(),
        data@.len() >= 64,
    ensures
        final(map).wf(),
        final(map)@ == keywords::all_noted(old(map)@, table_words(id, data@, len as nat)),
{
    if ((data.len() - 64) as u64) < len as u64 {
        return ;
    }
    let table: &[u8] = vstd::slice::slice_subrange(data, 64, 64 + len as usize);
    match TemplateBatch::deserialize_pattern_table(table) {
        Ok(templates) => {
            proof {
                keywords::lemma_one_noted(
                    map@,
                    Finding { segment: id, templates: parts::template_views(templates@) },
                );
            }
            map.learn(id, templates);
        },
        Err(_) => {},
    }
}

/// Adds the templates in the file of segment `id` to the keyword map.
pub fn learn_segment(id: u32, data: &[u8], map: &mut KeywordMap)
    requires
        old(map).wf(),
    ensures
        final(map).wf(),
        final(map)@ == keywords::all_noted(old(map)@, segment_words(id, data@)),
{
    if data.len() < SEGMENT_HEADER_SIZE {
        return ;
    }
    match SegmentHeader::from_bytes(data) {
        Err(_) => {},
        Ok(h) => {
            proof {
                header::lemma_header_at(h, data@);
            }
            if h.version == FORMAT_VERSION_V2 && h.pattern_count() != 0 && h.pattern_table_size()
                != 0 {
                learn_table(id, data, h.pattern_table_size(), map);
            }
        },
    }
}

proof fn lemma_min_step(buf: Seq<u8>, h: SegmentHeader, n: nat, before: u64, after: u64)
    requires
        n > 0 ==> is_min_ts(buf, h, n, before),
        ({
            let m: u64 = segment::table_entry(buf, h, n as int).min_ts;
            after == if entry_counts(buf, h, n as int) && (n == 0 || m < before) {
                m
            } else {
                before
            }
        }),
    ensures
        is_min_ts(buf, h, n + 1, after),
{
    if n > 0 && after == before {
        let k: int = choose|k: int|
            0 <= k < n && entry_counts(buf, h, k) && before == (#[trigger] segment::table_entry(
                buf,
                h,
                k,
            )).min_ts;
        assert(segment::table_entry(buf, h, k).min_ts == after);
    } else {
        assert(segment::table_entry(buf, h, n as int).min_ts == after);
    }
}

proof fn lemma_max_step(buf: Seq<u8>, h: SegmentHeader, n: nat, before: u64, after: u64)
    requires
        n > 0 ==> is_max_ts(buf, h, n, before),
        ({
            let m: u64 = segment::table_entry(buf, h, n as int).max_ts;
            after == if entry_counts(buf, h, n as int) && (n == 0 || m > before) {
                m
            } else {
                before
            }
        }),
    ensures
        is_max_ts(buf, h, n + 1, after),
{
    if n > 0 && after == before {
        let k: int = choose|k: int|
            0 <= k < n && entry_counts(buf, h, k) && before == (#[trigger] segment::table_entry(
                buf,
                h,
                k,
            )).max_ts;
        assert(segment::table_entry(buf, h, k).max_ts == after);
    } else {
        assert(segment::table_entry(buf, h, n as int).max_ts == after);
    }
}

/// Scans a segment file, and adds its templates to the keyword map.
pub fn scan_segment_meta(data: &[u8], map: &mut KeywordMap) -> (r: Result<
    ScannedSegment,
    DataError,
>)
    requires
        old(map).wf(),
    ensures
        final(map).wf(),
        final(map)@ == keywords::all_noted(old(map)@, scanned_words(data@)),
        match r {
            Ok(s) => scans_to(data@, s),
            Err(e) => scan_error(data@, e),
        },
{
    let total: usize = data.len();
    if total < SEGMENT_HEADER_SIZE + CHUNK_ENTRY_SIZE + SEGMENT_FOOTER_SIZE {
        return Err(DataError::SegmentTooShort);
    }
    let h: SegmentHeader = match SegmentHeader::from_bytes(data) {
        Ok(h) => h,
        Err(e) => {
            return Err(DataError::Format(e));
        },
    };
    let ghost g = header::header_at(data@);
    proof {
        header::lemma_header_at(h, data@);
    }
    let start64: u64 = 64 + h.pattern_table_size() as u64 + h.dict_len() as u64;
    assert(start64 == segment::table_start(g));
    if (total as u64) < start64 + 32 {
        return Err(DataError::SegmentTruncated);
    }
    let start: usize = start64 as usize;
    let count: usize = if h.chunk_count == 0 {
        1
    } else {
        h.chunk_count as usize
    };
    let mut lines: u64 = 0;
    let mut lo: u64 = 0;
    let mut hi: u64 = 0;
    let mut i: usize = 0;
    while i < count
        invariant
            i <= count <= 0xffff,
            total == data@.len(),
            total >= 104,
            start == segment::table_start(g),
            start + 32 <= total,
            start <= 0x2_0000_0040,
            lines == line_sum(data@, g, i as nat),
            lines <= 0xffff_ffff * i,
            i > 0 ==> is_min_ts(data@, g, i as nat, lo) && is_max_ts(data@, g, i as nat, hi),
        decreases count - i,
    {
        let ghost lo0 = lo;
        let ghost hi0 = hi;
        let off64: u64 = start as u64 + 32 * i as u64;
        if i == 0 || off64 + 32 <= (total - 8) as u64 {
            let off: usize = off64 as usize;
            let part: &[u8] = vstd::slice::slice_subrange(data, off, off + CHUNK_ENTRY_SIZE);
            assert(part@.take(32) =~= part@);
            let ghost want = segment::table_entry(data@, g, i as int);
            match ChunkEntry::from_bytes(part) {
                Ok(c) => {
                    assert(c == want);
                    assert(entry_counts(data@, g, i as int));
                    lines = lines + c.line_count as u64;
                    if i == 0 || c.min_ts < lo {
                        lo = c.min_ts;
                    }
                    if i == 0 || c.max_ts > hi {
                        hi = c.max_ts;
                    }
                },
                Err(_) => {
                    assert(false);
                },
            }
        }
        proof {
            lemma_min_step(data@, g, i as nat, lo0, lo);
            lemma_max_step(data@, g, i as nat, hi0, hi);
        }
        i += 1;
    }
    let mut summary: SegmentSummary = SegmentSummary::default();
    if h.version == FORMAT_VERSION_V2 && h.chunk_count > 0 {
        let css: Vec<ChunkSummary> = segment::read_summaries(data, &h);
        proof {
            assert(segment::summaries_stand(data@, g, css@)) by {
                assert forall|k: int| 0 <= k < css@.len() implies segment::summary_stands(
                    data@,
                    g,
                    k,
                    #[trigger] css@[k],
                ) by {
                    assert(segment::summary_stands(data@, h, k, css@[k]));
                }
            }
        }
        summary = SegmentSummary::of_chunks(&css);
        if h.pattern_table_size() > 0 {
            learn_table(h.segment_id, data, h.pattern_table_size(), map);
        }
    }
    let line_count: u32 = if lines <= 0xffff_ffff {
        lines as u32
    } else {
        0xffff_ffff
    };
    Ok(ScannedSegment { segment_id: h.segment_id, min_ts: lo, max_ts: hi, line_count, summary })
}

} // verus!
