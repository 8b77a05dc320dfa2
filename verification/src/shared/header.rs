//! The head of a segment file.

use crate::shared::bytes;
use crate::shared::crc;
use crate::shared::error::FormatError;
use crate::shared::names;
use vstd::prelude::*;

verus! {

/// First bytes of a segment file.
pub const MOBS_MAGIC: &'static [u8; 4] = &[0x4d, 0x4f, 0x42, 0x53];

/// First version of the segment format.
pub const FORMAT_VERSION_V1: u8 = 1;

/// Second version: pattern table and chunk summaries.
pub const FORMAT_VERSION_V2: u8 = 2;

/// The version that is written.
pub const FORMAT_VERSION: u8 = FORMAT_VERSION_V2;

/// Size of the segment header.
pub const SEGMENT_HEADER_SIZE: usize = 64;

/// Size of an entry of the chunk table.
pub const CHUNK_ENTRY_SIZE: usize = 32;

/// Size of a chunk summary.
pub const CHUNK_SUMMARY_SIZE: usize = 80;

/// Size of the segment footer.
pub const SEGMENT_FOOTER_SIZE: usize = 8;

/// Size of a manifest entry.
pub const MANIFEST_ENTRY_SIZE: usize = 64;

/// Size of the smallest segment: header, one chunk entry, footer.
pub const MIN_SEGMENT_SIZE: usize = 104;

/// Alignment of the data area.
pub const ALIGNMENT: usize = 4096;

/// The bytes of `MOBS_MAGIC`.
pub open spec fn mobs() -> Seq<u8> {
    seq![0x4du8, 0x4fu8, 0x42u8, 0x53u8]
}

/// Header of a segment file.
///
/// ```text
/// 0x00-0x03  magic           "MOBS"
/// 0x04       version         1 or 2
/// 0x05       flags           0
/// 0x06-0x07  chunk count     u16
/// 0x08-0x0F  created at      u64, Unix milliseconds
/// 0x10-0x13  segment id      u32
/// 0x14-0x17  header CRC-32   u32, over 0x00..0x14
/// 0x18-0x19  pattern count   u16
/// 0x1A-0x1B  pattern table length, low half   u16
/// 0x1C-0x1F  summary offset  u32
/// 0x20-0x23  data offset     u32
/// 0x24-0x27  dictionary offset   u32, 0 without a dictionary
/// 0x28-0x2B  dictionary length   u32
/// 0x2C       feature flags   u8
/// 0x2D       zero
/// 0x2E-0x2F  pattern table length, high half  u16
/// 0x30-0x3F  zero
/// ```
///
/// Integers are little-endian. In version 1 all bytes from 0x18 on are zero.
#[derive(Debug, Clone, Copy, PartialEq, Eq)]
pub struct SegmentHeader {
    pub magic: [u8; 4],
    pub version: u8,
    pub flags: u8,
    pub chunk_count: u16,
    pub created_at: u64,
    pub segment_id: u32,
    pub header_crc32: u32,
    pub reserved: [u8; 40],
}

/// The part of a header that its checksum covers.
pub open spec fn header_prefix(h: SegmentHeader) -> Seq<u8> {
    h.magic@ + seq![h.version, h.flags] + bytes::le_bytes(h.chunk_count as nat, 2)
        + bytes::le_bytes(h.created_at as nat, 8) + bytes::le_bytes(h.segment_id as nat, 4)
}

/// The 64 bytes of a header.
pub open spec fn header_bytes(h: SegmentHeader) -> Seq<u8> {
    header_prefix(h) + bytes::le_bytes(h.header_crc32 as nat, 4) + h.reserved@
}

/// The number in the reserved area at `off`, `width` bytes wide.
pub open spec fn reserved_number(reserved: Seq<u8>, off: int, width: int) -> nat {
    bytes::le_value(reserved.subrange(off, off + width))
}

/// A header that a segment file may start with.
pub open spec fn header_valid(h: SegmentHeader) -> bool {
    &&& h.magic@ == mobs()
    &&& h.version == FORMAT_VERSION_V1 || h.version == FORMAT_VERSION_V2
    &&& h.header_crc32 == crc::crc_of(header_prefix(h))
}

/// The bytes start with a header that can be read.
pub open spec fn header_readable(buf: Seq<u8>) -> bool {
    &&& buf.len() >= 64
    &&& buf.take(4) == mobs()
    &&& buf[4] == FORMAT_VERSION_V1 || buf[4] == FORMAT_VERSION_V2
    &&& bytes::le_value(buf.subrange(20, 24)) == crc::crc_of(buf.take(20))
}

/// `e` is what is wrong with the header at the front of `buf`.
pub open spec fn header_error(buf: Seq<u8>, e: FormatError) -> bool {
    match e {
        FormatError::UnexpectedEof { needed, got } => buf.len() < 64 && needed == 64 && got
            == buf.len(),
        FormatError::BadMagic { expected, got } => buf.len() >= 64 && expected@ == mobs() && got@
            == buf.take(4) && got@ != mobs(),
        FormatError::UnsupportedVersion { expected, got } => buf.len() >= 64 && buf.take(4)
            == mobs() && expected == FORMAT_VERSION && got == buf[4] && got != FORMAT_VERSION_V1
            && got != FORMAT_VERSION_V2,
        FormatError::CrcMismatch { expected, computed } => buf.len() >= 64 && buf.take(4) == mobs()
            && (buf[4] == FORMAT_VERSION_V1 || buf[4] == FORMAT_VERSION_V2) && expected
            == bytes::le_value(buf.subrange(20, 24)) && computed == crc::crc_of(buf.take(20))
            && expected != computed,
        _ => false,
    }
}

/// The length of the pattern table: two halves of 16 bits.
pub open spec fn table_len_of(reserved: Seq<u8>) -> nat {
    reserved_number(reserved, 2, 2) + 0x1_0000 * reserved_number(reserved, 22, 2)
}

pub proof fn lemma_header_prefix(h: SegmentHeader)
    ensures
        header_prefix(h).len() == 20,
        header_bytes(h).len() == 64,
        header_prefix(h).subrange(0, 4) == h.magic@,
        header_prefix(h)[4] == h.version,
        header_prefix(h)[5] == h.flags,
        header_prefix(h).subrange(6, 8) == bytes::le_bytes(h.chunk_count as nat, 2),
        header_prefix(h).subrange(8, 16) == bytes::le_bytes(h.created_at as nat, 8),
        header_prefix(h).subrange(16, 20) == bytes::le_bytes(h.segment_id as nat, 4),
        header_bytes(h).subrange(0, 20) == header_prefix(h),
        header_bytes(h).subrange(20, 24) == bytes::le_bytes(h.header_crc32 as nat, 4),
        header_bytes(h).subrange(24, 64) == h.reserved@,
{
    bytes::lemma_le_bytes_len(h.chunk_count as nat, 2);
    bytes::lemma_le_bytes_len(h.created_at as nat, 8);
    bytes::lemma_le_bytes_len(h.segment_id as nat, 4);
    bytes::lemma_le_bytes_len(h.header_crc32 as nat, 4);
    let p: Seq<u8> = header_prefix(h);
    assert(p.subrange(0, 4) =~= h.magic@);
    assert(p.subrange(6, 8) =~= bytes::le_bytes(h.chunk_count as nat, 2));
    assert(p.subrange(8, 16) =~= bytes::le_bytes(h.created_at as nat, 8));
    assert(p.subrange(16, 20) =~= bytes::le_bytes(h.segment_id as nat, 4));
    let b: Seq<u8> = header_bytes(h);
    assert(b.subrange(0, 20) =~= p);
    assert(b.subrange(20, 24) =~= bytes::le_bytes(h.header_crc32 as nat, 4));
    assert(b.subrange(24, 64) =~= h.reserved@);
}

/// Headers with the same bytes have the same fields.
pub proof fn lemma_header_bytes_injective(a: SegmentHeader, b: SegmentHeader)
    requires
        header_bytes(a) == header_bytes(b),
    ensures
        a.magic@ == b.magic@,
        a.version == b.version,
        a.flags == b.flags,
        a.chunk_count == b.chunk_count,
        a.created_at == b.created_at,
        a.segment_id == b.segment_id,
        a.header_crc32 == b.header_crc32,
        a.reserved@ == b.reserved@,
{
    lemma_header_prefix(a);
    lemma_header_prefix(b);
    bytes::lemma_pow256();
    bytes::lemma_le_value_of_bytes(a.chunk_count as nat, 2);
    bytes::lemma_le_value_of_bytes(b.chunk_count as nat, 2);
    bytes::lemma_le_value_of_bytes(a.created_at as nat, 8);
    bytes::lemma_le_value_of_bytes(b.created_at as nat, 8);
    bytes::lemma_le_value_of_bytes(a.segment_id as nat, 4);
    bytes::lemma_le_value_of_bytes(b.segment_id as nat, 4);
    bytes::lemma_le_value_of_bytes(a.header_crc32 as nat, 4);
    bytes::lemma_le_value_of_bytes(b.header_crc32 as nat, 4);
}

impl SegmentHeader {
    /// The chunks are in the enhanced layout.
    pub const FEATURE_ENHANCED_CHUNK: u8 = 1;

    /// A header of the given version, made at `created_at`, without metadata.
    pub fn with_time(version: u8, segment_id: u32, chunk_count: u16, created_at: u64) -> (h: Self)
        ensures
            h.magic@ == mobs(),
            h.version == version,
            h.flags == 0,
            h.chunk_count == chunk_count,
            h.created_at == created_at,
            h.segment_id == segment_id,
            h.header_crc32 == crc::crc_of(header_prefix(h)),
            h.reserved@ == Seq::new(40, |i: int| 0u8),
    {
        let mut h: SegmentHeader = SegmentHeader {
            magic: *MOBS_MAGIC,
            version,
            flags: 0,
            chunk_count,
            created_at,
            segment_id,
            header_crc32: 0,
            reserved: [0u8;40],
        };
        let ghost before = h;
        let crc: u32 = h.compute_crc();
        h.header_crc32 = crc;
        assert(header_prefix(h) == header_prefix(before));
        assert(h.magic@ =~= mobs());
        assert(h.reserved@ =~= Seq::new(40, |i: int| 0u8));
        h
    }

    /// A version 2 header, stamped with the current time.
    pub fn new(segment_id: u32, chunk_count: u16) -> (h: Self)
        ensures
            header_valid(h),
            h.version == FORMAT_VERSION_V2,
            h.flags == 0,
            h.chunk_count == chunk_count,
            h.segment_id == segment_id,
            h.reserved@ == Seq::new(40, |i: int| 0u8),
    {
        SegmentHeader::with_time(FORMAT_VERSION_V2, segment_id, chunk_count, names::now_ms())
    }

    /// A version 1 header, stamped with the current time.
    pub fn new_v1(segment_id: u32, chunk_count: u16) -> (h: Self)
        ensures
            header_valid(h),
            h.version == FORMAT_VERSION_V1,
            h.flags == 0,
            h.chunk_count == chunk_count,
            h.segment_id == segment_id,
            h.reserved@ == Seq::new(40, |i: int| 0u8),
    {
        SegmentHeader::with_time(FORMAT_VERSION_V1, segment_id, chunk_count, names::now_ms())
    }

    /// Sets the version 2 metadata. The checksum does not cover it.
    pub fn set_v2_meta(
        &mut self,
        pattern_count: u16,
        pattern_table_len: u16,
        summary_offset: u32,
        data_offset: u32,
    )
        ensures
            final(self).magic == old(self).magic,
            final(self).version == old(self).version,
            final(self).flags == old(self).flags,
            final(self).chunk_count == old(self).chunk_count,
            final(self).created_at == old(self).created_at,
            final(self).segment_id == old(self).segment_id,
            final(self).header_crc32 == old(self).header_crc32,
            final(self).reserved@ == bytes::le_bytes(pattern_count as nat, 2) + bytes::le_bytes(
                pattern_table_len as nat,
                2,
            ) + bytes::le_bytes(summary_offset as nat, 4) + bytes::le_bytes(data_offset as nat, 4)
                + old(self).reserved@.subrange(12, 40),
    {
        let mut meta: Vec<u8> = Vec::new();
        bytes::push_le(&mut meta, pattern_count as u64, 2);
        bytes::push_le(&mut meta, pattern_table_len as u64, 2);
        bytes::push_le(&mut meta, summary_offset as u64, 4);
        bytes::push_le(&mut meta, data_offset as u64, 4);
        proof {
            bytes::lemma_le_bytes_len(pattern_count as nat, 2);
            bytes::lemma_le_bytes_len(pattern_table_len as nat, 2);
            bytes::lemma_le_bytes_len(summary_offset as nat, 4);
            bytes::lemma_le_bytes_len(data_offset as nat, 4);
        }
        bytes::put_array(&mut self.reserved, 0, &meta);
        assert(self.reserved@ =~= bytes::le_bytes(pattern_count as nat, 2) + bytes::le_bytes(
            pattern_table_len as nat,
            2,
        ) + bytes::le_bytes(summary_offset as nat, 4) + bytes::le_bytes(data_offset as nat, 4)
            + old(self).reserved@.subrange(12, 40));
    }

    /// Sets where the dictionary stands, the feature flags and the high half
    /// of the pattern table length.
    pub fn set_extended_meta(
        &mut self,
        dict_offset: u32,
        dict_len: u32,
        feature_flags: u8,
        pattern_table_len_high: u16,
    )
        ensures
            final(self).magic == old(self).magic,
            final(self).version == old(self).version,
            final(self).flags == old(self).flags,
            final(self).chunk_count == old(self).chunk_count,
            final(self).created_at == old(self).created_at,
            final(self).segment_id == old(self).segment_id,
            final(self).header_crc32 == old(self).header_crc32,
            final(self).reserved@ == old(self).reserved@.subrange(0, 12) + bytes::le_bytes(
                dict_offset as nat,
                4,
            ) + bytes::le_bytes(dict_len as nat, 4) + seq![feature_flags, 0u8] + bytes::le_bytes(
                pattern_table_len_high as nat,
                2,
            ) + old(self).reserved@.subrange(24, 40),
    {
        let mut meta: Vec<u8> = Vec::new();
        bytes::push_le(&mut meta, dict_offset as u64, 4);
        bytes::push_le(&mut meta, dict_len as u64, 4);
        meta.push(feature_flags);
        meta.push(0u8);
        bytes::push_le(&mut meta, pattern_table_len_high as u64, 2);
        proof {
            bytes::lemma_le_bytes_len(dict_offset as nat, 4);
            bytes::lemma_le_bytes_len(dict_len as nat, 4);
            bytes::lemma_le_bytes_len(pattern_table_len_high as nat, 2);
        }
        bytes::put_array(&mut self.reserved, 12, &meta);
        assert(self.reserved@ =~= old(self).reserved@.subrange(0, 12) + bytes::le_bytes(
            dict_offset as nat,
            4,
        ) + bytes::le_bytes(dict_len as nat, 4) + seq![feature_flags, 0u8] + bytes::le_bytes(
            pattern_table_len_high as nat,
            2,
        ) + old(self).reserved@.subrange(24, 40));
    }

    /// How many patterns the pattern table holds.
    pub fn pattern_count(&self) -> (r: u16)
        ensures
            r == reserved_number(self.reserved@, 0, 2),
    {
        self.reserved_field(0, 2) as u16
    }

    /// Low half of the pattern table length.
    pub fn pattern_table_len(&self) -> (r: u16)
        ensures
            r == reserved_number(self.reserved@, 2, 2),
    {
        self.reserved_field(2, 2) as u16
    }

    /// Length of the pattern table in bytes.
    pub fn pattern_table_size(&self) -> (r: u32)
        ensures
            r == table_len_of(self.reserved@),
    {
        let low: u32 = self.reserved_field(2, 2) as u32;
        let high: u32 = self.reserved_field(22, 2) as u32;
        low + 0x1_0000 * high
    }

    /// Where the chunk summaries start.
    pub fn summary_offset(&self) -> (r: u32)
        ensures
            r == reserved_number(self.reserved@, 4, 4),
    {
        self.reserved_field(4, 4) as u32
    }

    /// Where the chunk data starts (version 2).
    pub fn data_offset_v2(&self) -> (r: u32)
        ensures
            r == reserved_number(self.reserved@, 8, 4),
    {
        self.reserved_field(8, 4) as u32
    }

    /// Where the dictionary starts; 0 without one.
    pub fn dict_offset(&self) -> (r: u32)
        ensures
            r == reserved_number(self.reserved@, 12, 4),
    {
        self.reserved_field(12, 4) as u32
    }

    /// Length of the dictionary; 0 without one.
    pub fn dict_len(&self) -> (r: u32)
        ensures
            r == reserved_number(self.reserved@, 16, 4),
    {
        self.reserved_field(16, 4) as u32
    }

    /// The feature flags.
    pub fn feature_flags(&self) -> (r: u8)
        ensures
            r == self.reserved@[20],
    {
        self.reserved[20]
    }

    /// Replaces the feature flags. The checksum does not cover them.
    pub fn set_feature_flags(&mut self, feature_flags: u8)
        ensures
            final(self).magic == old(self).magic,
            final(self).version == old(self).version,
            final(self).flags == old(self).flags,
            final(self).chunk_count == old(self).chunk_count,
            final(self).created_at == old(self).created_at,
            final(self).segment_id == old(self).segment_id,
            final(self).header_crc32 == old(self).header_crc32,
            final(self).reserved@ == old(self).reserved@.update(20, feature_flags),
    {
        self.reserved[20] = feature_flags;
    }

    fn reserved_field(&self, off: usize, width: usize) -> (r: u64)
        requires
            width == 2 || width == 4,
            off + width <= 40,
        ensures
            r == reserved_number(self.reserved@, off as int, width as int),
            width == 2 ==> r < 0x1_0000,
            width == 4 ==> r < 0x1_0000_0000,
    {
        proof {
            bytes::lemma_pow256();
        }
        bytes::read_le(self.reserved.as_slice(), off, width)
    }

    /// Reads a header. Versions 1 and 2 are accepted.
    pub fn from_bytes(buf: &[u8]) -> (r: Result<Self, FormatError>)
        ensures
            r is Ok <==> header_readable(buf@),
            match r {
                Ok(h) => header_bytes(h) == buf@.take(64) && header_valid(h),
                Err(e) => header_error(buf@, e),
            },
    {
        if buf.len() < SEGMENT_HEADER_SIZE {
            return Err(
                FormatError::UnexpectedEof { needed: SEGMENT_HEADER_SIZE, got: buf.len() },
            );
        }
        let magic: [u8; 4] = [buf[0], buf[1], buf[2], buf[3]];
        assert(magic@ =~= buf@.take(4));
        assert(MOBS_MAGIC@ =~= mobs());
        if magic[0] != 0x4d || magic[1] != 0x4f || magic[2] != 0x42 || magic[3] != 0x53 {
            assert(magic@[0] != mobs()[0] || magic@[1] != mobs()[1] || magic@[2] != mobs()[2]
                || magic@[3] != mobs()[3]);
            return Err(FormatError::BadMagic { expected: *MOBS_MAGIC, got: magic });
        }
        assert(magic@ =~= mobs());
        let version: u8 = buf[4];
        if version != FORMAT_VERSION_V1 && version != FORMAT_VERSION_V2 {
            return Err(
                FormatError::UnsupportedVersion { expected: FORMAT_VERSION, got: version },
            );
        }
        proof {
            bytes::lemma_pow256();
        }
        let mut reserved: [u8; 40] = [0u8;40];
        bytes::fill_array(&mut reserved, vstd::slice::slice_subrange(buf, 24, 64));
        let h: SegmentHeader = SegmentHeader {
            magic,
            version,
            flags: buf[5],
            chunk_count: bytes::read_le(buf, 6, 2) as u16,
            created_at: bytes::read_le(buf, 8, 8),
            segment_id: bytes::read_le(buf, 16, 4) as u32,
            header_crc32: bytes::read_le(buf, 20, 4) as u32,
            reserved,
        };
        proof {
            bytes::lemma_le_bytes_of_value(buf@.subrange(6, 8));
            bytes::lemma_le_bytes_of_value(buf@.subrange(8, 16));
            bytes::lemma_le_bytes_of_value(buf@.subrange(16, 20));
            bytes::lemma_le_bytes_of_value(buf@.subrange(20, 24));
            assert(header_prefix(h) =~= buf@.take(20));
            assert(header_bytes(h) =~= buf@.take(64));
        }
        let computed: u32 = h.compute_crc();
        if computed != h.header_crc32 {
            return Err(FormatError::CrcMismatch { expected: h.header_crc32, computed });
        }
        Ok(h)
    }

    fn prefix_bytes(&self) -> (r: Vec<u8>)
        ensures
            r@ == header_prefix(*self),
    {
        let mut buf: Vec<u8> = Vec::new();
        bytes::push_bytes(&mut buf, self.magic.as_slice());
        buf.push(self.version);
        buf.push(self.flags);
        bytes::push_le(&mut buf, self.chunk_count as u64, 2);
        bytes::push_le(&mut buf, self.created_at, 8);
        bytes::push_le(&mut buf, self.segment_id as u64, 4);
        assert(buf@ =~= header_prefix(*self));
        buf
    }

    /// The 64 bytes of the header.
    pub fn to_bytes(&self) -> (r: [u8; 64])
        ensures
            r@ == header_bytes(*self),
    {
        let mut buf: Vec<u8> = self.prefix_bytes();
        bytes::push_le(&mut buf, self.header_crc32 as u64, 4);
        bytes::push_bytes(&mut buf, self.reserved.as_slice());
        assert(buf@ =~= header_bytes(*self));
        proof {
            lemma_header_prefix(*self);
        }
        let mut r: [u8; 64] = [0u8;64];
        bytes::fill_array(&mut r, &buf);
        r
    }

    fn compute_crc(&self) -> (r: u32)
        ensures
            r == crc::crc_of(header_prefix(*self)),
    {
        let buf: Vec<u8> = self.prefix_bytes();
        crc::crc32(&buf)
    }

    /// Where the chunk data starts in version 1: behind the chunk table, on
    /// the next aligned offset.
    pub fn data_offset(&self) -> (r: usize)
        ensures
            r == names::aligned((64 + 32 * self.chunk_count) as nat, ALIGNMENT as nat),
            r % ALIGNMENT == 0,
            64 + 32 * self.chunk_count <= r < 64 + 32 * self.chunk_count + ALIGNMENT,
    {
        let table_size: usize = self.chunk_count as usize * CHUNK_ENTRY_SIZE;
        names::align_up(SEGMENT_HEADER_SIZE + table_size, ALIGNMENT)
    }
}

/// The bytes of a valid header can be read, and what is read has the same
/// fields.
pub proof fn law_header_roundtrip(h: SegmentHeader, back: SegmentHeader)
    requires
        header_valid(h),
    ensures
        header_readable(header_bytes(h)),
        header_bytes(back) == header_bytes(h).take(64) ==> {
            &&& header_valid(back)
            &&& back.magic@ == h.magic@
            &&& back.version == h.version
            &&& back.flags == h.flags
            &&& back.chunk_count == h.chunk_count
            &&& back.created_at == h.created_at
            &&& back.segment_id == h.segment_id
            &&& back.header_crc32 == h.header_crc32
            &&& back.reserved@ == h.reserved@
        },
{
    lemma_header_prefix(h);
    let b: Seq<u8> = header_bytes(h);
    assert(b.take(64) =~= b);
    assert(b.take(20) =~= header_prefix(h));
    assert(b.take(4) =~= h.magic@);
    assert(b[4] == header_prefix(h)[4]);
    bytes::lemma_pow256();
    bytes::lemma_le_value_of_bytes(h.header_crc32 as nat, 4);
    if header_bytes(back) == b.take(64) {
        lemma_header_bytes_injective(back, h);
    }
}

/// The header at the front of `buf`.
pub open spec fn header_at(buf: Seq<u8>) -> SegmentHeader {
    choose|h: SegmentHeader| #[trigger] header_bytes(h) == buf.take(64)
}

/// A header with the first bytes of `buf` is the header of `buf`.
pub proof fn lemma_header_at(h: SegmentHeader, buf: Seq<u8>)
    requires
        header_bytes(h) == buf.take(64),
    ensures
        header_at(buf).version == h.version,
        header_at(buf).chunk_count == h.chunk_count,
        header_at(buf).segment_id == h.segment_id,
        header_at(buf).reserved@ == h.reserved@,
{
    lemma_header_bytes_injective(header_at(buf), h);
}

} // verus!
