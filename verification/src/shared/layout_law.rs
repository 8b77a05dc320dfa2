//! Where the fields of the file formats stand, byte by byte.

use crate::shared::bytes;
use crate::shared::chunk;
use crate::shared::chunk::{ChunkEntry, ChunkSummary};
use crate::shared::footer;
use crate::shared::footer::SegmentFooter;
use crate::shared::header;
use crate::shared::header::SegmentHeader;
use crate::shared::manifest;
use crate::shared::manifest::ManifestEntry;
use crate::shared::summary;
use crate::shared::summary::SegmentSummary;
use crate::shared::wal;
use vstd::prelude::*;
use vstd::utf8::*;

verus! {

/// The number in two bytes, the lower one first.
pub open spec fn u16_at(b: Seq<u8>, at: int) -> int {
    b[at] + 0x100 * b[at + 1]
}

/// The number in four bytes, the lowest one first.
pub open spec fn u32_at(b: Seq<u8>, at: int) -> int {
    b[at] + 0x100 * b[at + 1] + 0x1_0000 * b[at + 2] + 0x100_0000 * b[at + 3]
}

/// The number in eight bytes, the lowest one first.
pub open spec fn u64_at(b: Seq<u8>, at: int) -> int {
    u32_at(b, at) + 0x1_0000_0000 * u32_at(b, at + 4)
}

proof fn lemma_value2(s: Seq<u8>)
    requires
        s.len() == 2,
    ensures
        bytes::le_value(s) == u16_at(s, 0),
{
    reveal_with_fuel(bytes::le_value, 3);
    assert(s.drop_first()[0] == s[1]);
}

proof fn lemma_value4(s: Seq<u8>)
    requires
        s.len() == 4,
    ensures
        bytes::le_value(s) == u32_at(s, 0),
{
    let t: Seq<u8> = s.skip(2);
    lemma_value2(t);
    reveal_with_fuel(bytes::le_value, 3);
    assert(s.drop_first()[0] == s[1]);
    assert(s.drop_first().drop_first() =~= t);
}

proof fn lemma_value8(s: Seq<u8>)
    requires
        s.len() == 8,
    ensures
        bytes::le_value(s) == u64_at(s, 0),
{
    let t: Seq<u8> = s.skip(4);
    lemma_value4(t);
    reveal_with_fuel(bytes::le_value, 5);
    let a: Seq<u8> = s.drop_first();
    let b: Seq<u8> = a.drop_first();
    let c: Seq<u8> = b.drop_first();
    assert(a[0] == s[1] && b[0] == s[2] && c[0] == s[3]);
    assert(c.drop_first() =~= t);
    assert(u32_at(t, 0) == u32_at(s, 4));
}

/// Numbers are written with the lowest byte first.
pub proof fn law_little_endian(b: Seq<u8>, at: int, n: nat)
    requires
        0 <= at,
    ensures
        at + 2 <= b.len() && n < 0x1_0000 && b.subrange(at, at + 2) == bytes::le_bytes(n, 2)
            ==> u16_at(b, at) == n,
        at + 4 <= b.len() && n < 0x1_0000_0000 && b.subrange(at, at + 4) == bytes::le_bytes(n, 4)
            ==> u32_at(b, at) == n,
        at + 8 <= b.len() && n < 0x1_0000_0000_0000_0000 && b.subrange(at, at + 8)
            == bytes::le_bytes(n, 8) ==> u64_at(b, at) == n,
{
    bytes::lemma_pow256();
    bytes::lemma_le_value_of_bytes(n, 2);
    bytes::lemma_le_value_of_bytes(n, 4);
    bytes::lemma_le_value_of_bytes(n, 8);
    if at + 2 <= b.len() {
        lemma_value2(b.subrange(at, at + 2));
    }
    if at + 4 <= b.len() {
        lemma_value4(b.subrange(at, at + 4));
    }
    if at + 8 <= b.len() {
        lemma_value8(b.subrange(at, at + 8));
    }
}

/// The fields of a chunk table entry.
pub proof fn law_chunk_entry_layout(e: ChunkEntry)
    ensures
        ({
            let b: Seq<u8> = chunk::entry_bytes(e);
            &&& b.len() == 32
            &&& u32_at(b, 0) == e.offset
            &&& u32_at(b, 4) == e.compressed_sz
            &&& u32_at(b, 8) == e.original_sz
            &&& u32_at(b, 12) == e.line_count
            &&& u64_at(b, 16) == e.min_ts
            &&& u64_at(b, 24) == e.max_ts
        }),
{
    let b: Seq<u8> = chunk::entry_bytes(e);
    chunk::lemma_entry_bytes(e);
    law_little_endian(b, 0, e.offset as nat);
    law_little_endian(b, 4, e.compressed_sz as nat);
    law_little_endian(b, 8, e.original_sz as nat);
    law_little_endian(b, 12, e.line_count as nat);
    law_little_endian(b, 16, e.min_ts as nat);
    law_little_endian(b, 24, e.max_ts as nat);
}

/// The fields of a chunk summary.
pub proof fn law_chunk_summary_layout(s: ChunkSummary)
    ensures
        ({
            let b: Seq<u8> = chunk::summary_bytes(s);
            &&& b.len() == 80
            &&& u64_at(b, 0) == s.pattern_mask
            &&& b[8] == s.level_mask
            &&& b.subrange(9, 73) == s.param_bloom@
            &&& b.subrange(73, 80) == s.reserved@
        }),
{
    let b: Seq<u8> = chunk::summary_bytes(s);
    chunk::lemma_summary_bytes(s);
    law_little_endian(b, 0, s.pattern_mask as nat);
    assert(b.subrange(73, 80) =~= s.reserved@);
}

/// The fields of a segment summary.
pub proof fn law_segment_summary_layout(s: SegmentSummary)
    ensures
        ({
            let b: Seq<u8> = summary::segment_summary_bytes(s);
            &&& b.len() == 28
            &&& u64_at(b, 0) == s.pattern_mask
            &&& b[8] == s.level_mask
            &&& b[9] == s.flags
            &&& b.subrange(10, 22) == s.param_bloom@
            &&& b.subrange(22, 28) == s.service_bloom@
        }),
{
    let b: Seq<u8> = summary::segment_summary_bytes(s);
    bytes::lemma_le_bytes_len(s.pattern_mask as nat, 8);
    assert(b.subrange(0, 8) =~= bytes::le_bytes(s.pattern_mask as nat, 8));
    law_little_endian(b, 0, s.pattern_mask as nat);
    assert(b.subrange(10, 22) =~= s.param_bloom@);
    assert(b.subrange(22, 28) =~= s.service_bloom@);
}

/// The fields of the end of a segment file.
pub proof fn law_footer_layout(f: SegmentFooter)
    ensures
        ({
            let b: Seq<u8> = footer::footer_bytes(f);
            &&& b.len() == 8
            &&& u32_at(b, 0) == f.chunk_table_offset
            &&& u32_at(b, 4) == f.crc32
        }),
{
    let b: Seq<u8> = footer::footer_bytes(f);
    bytes::lemma_le_bytes_len(f.chunk_table_offset as nat, 4);
    bytes::lemma_le_bytes_len(f.crc32 as nat, 4);
    assert(b.subrange(0, 4) =~= bytes::le_bytes(f.chunk_table_offset as nat, 4));
    assert(b.subrange(4, 8) =~= bytes::le_bytes(f.crc32 as nat, 4));
    law_little_endian(b, 0, f.chunk_table_offset as nat);
    law_little_endian(b, 4, f.crc32 as nat);
}

/// The fields of the header of a segment file.
pub proof fn law_header_layout(h: SegmentHeader)
    ensures
        ({
            let b: Seq<u8> = header::header_bytes(h);
            &&& b.len() == 64
            &&& b.take(4) == h.magic@
            &&& b[4] == h.version
            &&& b[5] == h.flags
            &&& u16_at(b, 6) == h.chunk_count
            &&& u64_at(b, 8) == h.created_at
            &&& u32_at(b, 16) == h.segment_id
            &&& u32_at(b, 20) == h.header_crc32
            &&& b.skip(24) == h.reserved@
        }),
{
    let b: Seq<u8> = header::header_bytes(h);
    bytes::lemma_le_bytes_len(h.chunk_count as nat, 2);
    bytes::lemma_le_bytes_len(h.created_at as nat, 8);
    bytes::lemma_le_bytes_len(h.segment_id as nat, 4);
    bytes::lemma_le_bytes_len(h.header_crc32 as nat, 4);
    assert(b.take(4) =~= h.magic@);
    assert(b.subrange(6, 8) =~= bytes::le_bytes(h.chunk_count as nat, 2));
    assert(b.subrange(8, 16) =~= bytes::le_bytes(h.created_at as nat, 8));
    assert(b.subrange(16, 20) =~= bytes::le_bytes(h.segment_id as nat, 4));
    assert(b.subrange(20, 24) =~= bytes::le_bytes(h.header_crc32 as nat, 4));
    assert(b.skip(24) =~= h.reserved@);
    law_little_endian(b, 6, h.chunk_count as nat);
    law_little_endian(b, 8, h.created_at as nat);
    law_little_endian(b, 16, h.segment_id as nat);
    law_little_endian(b, 20, h.header_crc32 as nat);
}

/// The fields of a manifest entry.
pub proof fn law_manifest_entry_layout(e: ManifestEntry)
    ensures
        ({
            let b: Seq<u8> = manifest::manifest_entry_bytes(e);
            &&& b.len() == 64
            &&& u32_at(b, 0) == e.segment_id
            &&& u64_at(b, 4) == e.min_ts
            &&& u64_at(b, 12) == e.max_ts
            &&& u32_at(b, 20) == e.line_count
            &&& u64_at(b, 24) == e.path_hash
            &&& u32_at(b, 32) == e.flags
            &&& b.skip(36) == e.reserved@
        }),
{
    let b: Seq<u8> = manifest::manifest_entry_bytes(e);
    manifest::lemma_manifest_entry_bytes(e);
    bytes::lemma_le_bytes_len(e.flags as nat, 4);
    assert(b.subrange(32, 36) =~= bytes::le_bytes(e.flags as nat, 4));
    assert(b.skip(36) =~= e.reserved@);
    law_little_endian(b, 0, e.segment_id as nat);
    law_little_endian(b, 4, e.min_ts as nat);
    law_little_endian(b, 12, e.max_ts as nat);
    law_little_endian(b, 20, e.line_count as nat);
    law_little_endian(b, 24, e.path_hash as nat);
    law_little_endian(b, 32, e.flags as nat);
}

/// A record of the write-ahead log is the number of bytes of its text in four
/// bytes, and the text.
pub proof fn law_wal_layout(line: Seq<char>)
    requires
        encode_utf8(line).len() < 0x1_0000_0000,
    ensures
        ({
            let b: Seq<u8> = wal::record_bytes(line);
            &&& b.len() == 4 + encode_utf8(line).len()
            &&& u32_at(b, 0) == encode_utf8(line).len()
            &&& b.skip(4) == encode_utf8(line)
        }),
{
    let b: Seq<u8> = wal::record_bytes(line);
    bytes::lemma_le_bytes_len(encode_utf8(line).len(), 4);
    assert(b.subrange(0, 4) =~= bytes::le_bytes(encode_utf8(line).len(), 4));
    assert(b.skip(4) =~= encode_utf8(line));
    law_little_endian(b, 0, encode_utf8(line).len());
}

} // verus!
