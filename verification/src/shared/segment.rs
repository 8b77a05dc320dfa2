//! Reading the structure of a whole segment file.

use crate::shared::bytes;
use crate::shared::chunk;
use crate::shared::chunk::{ChunkEntry, ChunkSummary};
use crate::shared::crc;
use crate::shared::error::FormatError;
use crate::shared::footer;
use crate::shared::footer::SegmentFooter;
use crate::shared::header;
use crate::shared::header::{
    SegmentHeader, CHUNK_ENTRY_SIZE, CHUNK_SUMMARY_SIZE, FORMAT_VERSION_V1, FORMAT_VERSION_V2,
    MIN_SEGMENT_SIZE, SEGMENT_FOOTER_SIZE, SEGMENT_HEADER_SIZE,
};
use crate::shared::names;
use vstd::prelude::*;

verus! {

/// The structure of a segment file.
#[derive(Debug, Clone)]
pub struct ParsedSegment {
    pub header: SegmentHeader,
    pub chunks: Vec<ChunkEntry>,
    /// Empty in version 1.
    pub summaries: Vec<ChunkSummary>,
    pub data_offset: usize,
    pub data_len: usize,
    pub file_size: usize,
}

/// Where the chunk table starts: behind the pattern table and the dictionary.
pub open spec fn table_start(h: SegmentHeader) -> nat {
    64 + header::table_len_of(h.reserved@) + header::reserved_number(h.reserved@, 16, 4)
}

/// Where the chunk table ends.
pub open spec fn table_end(h: SegmentHeader) -> nat {
    table_start(h) + 32 * h.chunk_count as nat
}

/// The `i`-th entry of the chunk table.
pub open spec fn table_entry(buf: Seq<u8>, h: SegmentHeader, i: int) -> ChunkEntry {
    chunk::entry_of(buf.subrange(table_start(h) + 32 * i, table_start(h) + 32 * i + 32))
}

/// Where the `i`-th chunk summary starts.
pub open spec fn summary_at(h: SegmentHeader, i: int) -> int {
    header::reserved_number(h.reserved@, 4, 4) + 80 * i
}

/// The `i`-th chunk summary stands before the footer.
pub open spec fn summary_fits(buf: Seq<u8>, h: SegmentHeader, i: int) -> bool {
    summary_at(h, i) + 80 <= buf.len() - 8
}

/// `s` is the `i`-th chunk summary of the file.
pub open spec fn summary_stands(buf: Seq<u8>, h: SegmentHeader, i: int, s: ChunkSummary) -> bool {
    &&& summary_fits(buf, h, i)
    &&& chunk::summary_reads(buf.subrange(summary_at(h, i), summary_at(h, i) + 80), s)
}

/// `ss` are the chunk summaries of the file, up to the first one that does not
/// stand before the footer.
pub open spec fn summaries_stand(buf: Seq<u8>, h: SegmentHeader, ss: Seq<ChunkSummary>) -> bool {
    &&& ss.len() <= h.chunk_count
    &&& ss.len() < h.chunk_count ==> !summary_fits(buf, h, ss.len() as int)
    &&& forall|i: int| 0 <= i < ss.len() ==> summary_stands(buf, h, i, #[trigger] ss[i])
}

/// Where the data area starts.
pub open spec fn data_start(h: SegmentHeader) -> nat {
    if h.version == FORMAT_VERSION_V2 {
        header::reserved_number(h.reserved@, 8, 4)
    } else {
        names::aligned((64 + 32 * h.chunk_count) as nat, 4096)
    }
}

/// The checksum in the last four bytes is that of everything before the footer.
pub open spec fn footer_matches(buf: Seq<u8>) -> bool {
    footer::footer_of(buf.subrange(buf.len() - 8, buf.len() as int)).crc32 == crc::crc_of(
        buf.take(buf.len() - 8),
    )
}

/// `seg` is the structure of `buf`.
pub open spec fn parses_to(buf: Seq<u8>, seg: ParsedSegment) -> bool {
    let h: SegmentHeader = seg.header;
    &&& buf.len() >= 104
    &&& header::header_bytes(h) == buf.take(64)
    &&& header::header_valid(h)
    &&& table_end(h) + 8 <= buf.len()
    &&& footer_matches(buf)
    &&& seg.chunks@.len() == h.chunk_count
    &&& forall|i: int|
        0 <= i < h.chunk_count ==> #[trigger] seg.chunks@[i] == table_entry(buf, h, i)
    &&& h.version == FORMAT_VERSION_V1 ==> seg.summaries@.len() == 0
    &&& h.version == FORMAT_VERSION_V2 ==> summaries_stand(buf, h, seg.summaries@)
    &&& seg.data_offset == data_start(h)
    &&& seg.data_len == if buf.len() - 8 > data_start(h) {
        buf.len() - 8 - data_start(h)
    } else {
        0
    }
    &&& seg.file_size == buf.len()
}

/// `v`, or the largest `usize` where it is larger.
pub open spec fn clamped(v: nat) -> nat {
    if v <= usize::MAX {
        v
    } else {
        usize::MAX as nat
    }
}

fn clamp_to_usize(v: u64) -> (r: usize)
    ensures
        r == clamped(v as nat),
{
    if v <= usize::MAX as u64 {
        v as usize
    } else {
        usize::MAX
    }
}

/// `e` is what keeps `buf` from being read as a segment.
pub open spec fn segment_error(buf: Seq<u8>, e: FormatError) -> bool {
    if buf.len() < 104 {
        e == (FormatError::UnexpectedEof { needed: 104, got: buf.len() as usize })
    } else if !header::header_readable(buf) {
        header::header_error(buf, e)
    } else {
        exists|h: SegmentHeader|
            {
                &&& #[trigger] header::header_bytes(h) == buf.take(64)
                &&& if table_end(h) + 8 > buf.len() {
                    e == (FormatError::UnexpectedEof {
                        needed: clamped(table_end(h) + 8) as usize,
                        got: buf.len() as usize,
                    })
                } else {
                    !footer_matches(buf) && e == (FormatError::CrcMismatch {
                        expected: footer::footer_of(
                            buf.subrange(buf.len() - 8, buf.len() as int),
                        ).crc32,
                        computed: crc::crc_of(buf.take(buf.len() - 8)),
                    })
                }
            }
    }
}

proof fn lemma_header_front(buf: Seq<u8>)
    requires
        buf.len() >= 64,
    ensures
        buf.take(64).take(4) == buf.take(4),
        buf.take(64).take(20) == buf.take(20),
        buf.take(64).take(64) == buf.take(64),
        buf.take(64).subrange(20, 24) == buf.subrange(20, 24),
        header::header_readable(buf.take(64)) == header::header_readable(buf),
{
    assert(buf.take(64).take(4) =~= buf.take(4));
    assert(buf.take(64).take(20) =~= buf.take(20));
    assert(buf.take(64).take(64) =~= buf.take(64));
    assert(buf.take(64).subrange(20, 24) =~= buf.subrange(20, 24));
}

/// The chunk summaries of a file, up to the first one that does not stand
/// before the footer.
pub fn read_summaries(buf: &[u8], header: &SegmentHeader) -> (r: Vec<ChunkSummary>)
    requires
        buf@.len() >= 8,
    ensures
        summaries_stand(buf@, *header, r@),
{
    let total: usize = buf.len();
    let count: usize = header.chunk_count as usize;
    let footer_start: usize = total - SEGMENT_FOOTER_SIZE;
    let first: u64 = header.summary_offset() as u64;
    let mut summaries: Vec<ChunkSummary> = Vec::new();
    while summaries.len() < count && first + 80 * summaries.len() as u64 + 80 <= footer_start as u64
        invariant
            summaries@.len() <= count,
            count == header.chunk_count,
            total == buf@.len(),
            footer_start == total - 8,
            first == header::reserved_number(header.reserved@, 4, 4),
            first <= u32::MAX,
            forall|k: int|
                0 <= k < summaries@.len() ==> summary_stands(
                    buf@,
                    *header,
                    k,
                    #[trigger] summaries@[k],
                ),
        decreases count - summaries@.len(),
    {
        let j: usize = summaries.len();
        let off: usize = (first + 80 * j as u64) as usize;
        let part: &[u8] = vstd::slice::slice_subrange(buf, off, off + CHUNK_SUMMARY_SIZE);
        assert(part@.take(80) =~= part@);
        assert(off == summary_at(*header, j as int));
        let s: ChunkSummary = match ChunkSummary::from_bytes(part) {
            Ok(s) => s,
            Err(_) => {
                assert(false);
                return summaries;
            },
        };
        summaries.push(s);
    }
    summaries
}

/// No single damaged byte goes unnoticed: a segment file with one byte changed,
/// in front of the footer or in the stored checksum, is not read.
pub proof fn law_damage_noticed(buf: Seq<u8>, seg: ParsedSegment, j: int, x: u8)
    requires
        parses_to(buf, seg),
        0 <= j < buf.len() - 8 || buf.len() - 4 <= j < buf.len(),
        x != buf[j],
    ensures
        !footer_matches(buf.update(j, x)),
        forall|other: ParsedSegment| !#[trigger] parses_to(buf.update(j, x), other),
{
    let n: int = buf.len() as int;
    let bad: Seq<u8> = buf.update(j, x);
    let a: Seq<u8> = buf.subrange(n - 8, n).subrange(4, 8);
    let b: Seq<u8> = bad.subrange(n - 8, n).subrange(4, 8);
    if j < n - 8 {
        assert(bad.subrange(n - 8, n) =~= buf.subrange(n - 8, n));
        assert(bad.take(n - 8) =~= buf.take(n - 8).update(j, x));
        crc::law_changed_byte_noticed(buf.take(n - 8), j, x);
    } else {
        assert(bad.take(n - 8) =~= buf.take(n - 8));
        bytes::lemma_pow256();
        bytes::lemma_le_value_bound(a);
        bytes::lemma_le_value_bound(b);
        bytes::lemma_le_bytes_of_value(a);
        bytes::lemma_le_bytes_of_value(b);
        assert(a[j - (n - 4)] == buf[j]);
        assert(b[j - (n - 4)] == x);
    }
}

impl ParsedSegment {
    /// Reads the structure of a segment file of either version.
    pub fn parse(buf: &[u8]) -> (r: Result<Self, FormatError>)
        ensures
            match r {
                Ok(seg) => parses_to(buf@, seg),
                Err(e) => segment_error(buf@, e),
            },
    {
        let total: usize = buf.len();
        if total < MIN_SEGMENT_SIZE {
            return Err(FormatError::UnexpectedEof { needed: MIN_SEGMENT_SIZE, got: total });
        }
        let head: &[u8] = vstd::slice::slice_subrange(buf, 0, SEGMENT_HEADER_SIZE);
        proof {
            assert(head@ =~= buf@.take(64));
            lemma_header_front(buf@);
        }
        let header: SegmentHeader = match SegmentHeader::from_bytes(head) {
            Ok(h) => h,
            Err(e) => {
                return Err(e);
            },
        };
        let count: usize = header.chunk_count as usize;
        let start64: u64 = 64 + header.pattern_table_size() as u64 + header.dict_len() as u64;
        let end64: u64 = start64 + 32 * count as u64;
        assert(start64 == table_start(header) && end64 == table_end(header));
        if (total as u64) < end64 + 8 {
            assert(header::header_bytes(header) == buf@.take(64));
            return Err(
                FormatError::UnexpectedEof { needed: clamp_to_usize(end64 + 8), got: total },
            );
        }
        let start: usize = start64 as usize;
        let mut chunks: Vec<ChunkEntry> = Vec::new();
        let mut i: usize = 0;
        while i < count
            invariant
                i <= count,
                count == header.chunk_count,
                total == buf@.len(),
                start == table_start(header),
                start + 32 * count + 8 <= total,
                chunks@.len() == i,
                forall|k: int|
                    0 <= k < i ==> #[trigger] chunks@[k] == table_entry(buf@, header, k),
            decreases count - i,
        {
            let off: usize = start + i * CHUNK_ENTRY_SIZE;
            let part: &[u8] = vstd::slice::slice_subrange(buf, off, off + CHUNK_ENTRY_SIZE);
            assert(part@.take(32) =~= part@);
            match ChunkEntry::from_bytes(part) {
                Ok(e) => {
                    assert(e == table_entry(buf@, header, i as int));
                    chunks.push(e)
                },
                Err(e) => {
                    return Err(e);
                },
            }
            i += 1;
        }
        let footer_start: usize = total - SEGMENT_FOOTER_SIZE;
        let summaries: Vec<ChunkSummary> = if header.version == FORMAT_VERSION_V2 {
            read_summaries(buf, &header)
        } else {
            Vec::new()
        };
        let tail: &[u8] = vstd::slice::slice_subrange(buf, footer_start, total);
        assert(tail@.take(8) =~= tail@);
        let footer: SegmentFooter = match SegmentFooter::from_bytes(tail) {
            Ok(f) => f,
            Err(e) => {
                return Err(e);
            },
        };
        let content: &[u8] = vstd::slice::slice_subrange(buf, 0, footer_start);
        assert(content@ =~= buf@.take(buf@.len() - 8));
        match footer.verify(content) {
            Ok(_) => {},
            Err(e) => {
                assert(header::header_bytes(header) == buf@.take(64));
                return Err(e);
            },
        }
        let data_offset: usize = if header.version == FORMAT_VERSION_V2 {
            header.data_offset_v2() as usize
        } else {
            header.data_offset()
        };
        let data_len: usize = if footer_start > data_offset {
            footer_start - data_offset
        } else {
            0
        };
        let seg: ParsedSegment = ParsedSegment {
            header,
            chunks,
            summaries,
            data_offset,
            data_len,
            file_size: total,
        };
        Ok(seg)
    }

    /// The compressed bytes of a chunk; `None` where there is no such chunk or
    /// its bytes are not all there.
    pub fn chunk_data<'a>(&self, buf: &'a [u8], idx: usize) -> (r: Option<&'a [u8]>)
        ensures
            match r {
                Some(d) => idx < self.chunks@.len() && chunk_end(*self, idx as int) <= buf@.len()
                    && d@ == buf@.subrange(
                    chunk_begin(*self, idx as int),
                    chunk_end(*self, idx as int),
                ),
                None => idx >= self.chunks@.len() || chunk_end(*self, idx as int) > buf@.len(),
            },
    {
        if idx >= self.chunks.len() {
            return None;
        }
        let c: ChunkEntry = self.chunks[idx];
        let base: u64 = if self.header.version == FORMAT_VERSION_V1 {
            0
        } else {
            self.data_offset as u64
        };
        let total: usize = buf.len();
        if base > total as u64 {
            return None;
        }
        if c.offset as u64 > total as u64 - base {
            return None;
        }
        let begin: u64 = base + c.offset as u64;
        if c.compressed_sz as u64 > total as u64 - begin {
            return None;
        }
        let b: usize = begin as usize;
        Some(vstd::slice::slice_subrange(buf, b, b + c.compressed_sz as usize))
    }

    /// The summary of a chunk, where there is one.
    pub fn chunk_summary(&self, idx: usize) -> (r: Option<&ChunkSummary>)
        ensures
            match r {
                Some(s) => idx < self.summaries@.len() && *s == self.summaries@[idx as int],
                None => idx >= self.summaries@.len(),
            },
    {
        if idx < self.summaries.len() {
            Some(&self.summaries[idx])
        } else {
            None
        }
    }
}

/// Where a chunk's bytes begin: offsets count from the file's start in version
/// 1 and from the data area in version 2.
pub open spec fn chunk_begin(seg: ParsedSegment, i: int) -> int {
    if seg.header.version == FORMAT_VERSION_V1 {
        seg.chunks@[i].offset as int
    } else {
        seg.data_offset + seg.chunks@[i].offset
    }
}

/// Where a chunk's bytes end.
pub open spec fn chunk_end(seg: ParsedSegment, i: int) -> int {
    chunk_begin(seg, i) + seg.chunks@[i].compressed_sz
}

} // verus!
