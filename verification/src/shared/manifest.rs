//! Entries and header of the index manifest.

use crate::shared::bytes;
use crate::shared::chunk;
use crate::shared::error::FormatError;
use crate::shared::header::{FORMAT_VERSION, MANIFEST_ENTRY_SIZE};
use crate::shared::manifest_flags;
use crate::shared::names;
use crate::shared::summary;
use crate::shared::summary::SegmentSummary;
use vstd::prelude::*;
use vstd::string::*;

verus! {

/// First bytes of a manifest file.
pub const MIDX_MAGIC: &'static [u8; 4] = &[0x4d, 0x49, 0x44, 0x58];

/// The bytes of `MIDX_MAGIC`.
pub open spec fn midx() -> Seq<u8> {
    seq![0x4du8, 0x49u8, 0x44u8, 0x58u8]
}

/// Describes one segment in the manifest.
///
/// ```text
/// 0x00-0x03  segment id      u32
/// 0x04-0x0B  min timestamp   u64
/// 0x0C-0x13  max timestamp   u64
/// 0x14-0x17  line count      u32
/// 0x18-0x1F  path hash       u64
/// 0x20-0x23  flags           u32
/// 0x24-0x3F  segment summary 28 bytes, zero without one
/// ```
#[derive(Debug, Clone, Copy, PartialEq, Eq)]
pub struct ManifestEntry {
    pub segment_id: u32,
    pub min_ts: u64,
    pub max_ts: u64,
    pub line_count: u32,
    pub path_hash: u64,
    pub flags: u32,
    pub reserved: [u8; 28],
}

/// The 64 bytes of an entry.
pub open spec fn manifest_entry_bytes(e: ManifestEntry) -> Seq<u8> {
    bytes::le_bytes(e.segment_id as nat, 4) + bytes::le_bytes(e.min_ts as nat, 8)
        + bytes::le_bytes(e.max_ts as nat, 8) + bytes::le_bytes(e.line_count as nat, 4)
        + bytes::le_bytes(e.path_hash as nat, 8) + bytes::le_bytes(e.flags as nat, 4)
        + e.reserved@
}

pub proof fn lemma_manifest_entry_bytes(e: ManifestEntry)
    ensures
        manifest_entry_bytes(e).len() == 64,
        manifest_entry_bytes(e).subrange(0, 4) == bytes::le_bytes(e.segment_id as nat, 4),
        manifest_entry_bytes(e).subrange(4, 12) == bytes::le_bytes(e.min_ts as nat, 8),
        manifest_entry_bytes(e).subrange(12, 20) == bytes::le_bytes(e.max_ts as nat, 8),
        manifest_entry_bytes(e).subrange(20, 24) == bytes::le_bytes(e.line_count as nat, 4),
        manifest_entry_bytes(e).subrange(24, 32) == bytes::le_bytes(e.path_hash as nat, 8),
        manifest_entry_bytes(e).subrange(32, 36) == bytes::le_bytes(e.flags as nat, 4),
        manifest_entry_bytes(e).subrange(36, 64) == e.reserved@,
{
    bytes::lemma_le_bytes_len(e.segment_id as nat, 4);
    bytes::lemma_le_bytes_len(e.min_ts as nat, 8);
    bytes::lemma_le_bytes_len(e.max_ts as nat, 8);
    bytes::lemma_le_bytes_len(e.line_count as nat, 4);
    bytes::lemma_le_bytes_len(e.path_hash as nat, 8);
    bytes::lemma_le_bytes_len(e.flags as nat, 4);
    let b: Seq<u8> = manifest_entry_bytes(e);
    assert(b.subrange(0, 4) =~= bytes::le_bytes(e.segment_id as nat, 4));
    assert(b.subrange(4, 12) =~= bytes::le_bytes(e.min_ts as nat, 8));
    assert(b.subrange(12, 20) =~= bytes::le_bytes(e.max_ts as nat, 8));
    assert(b.subrange(20, 24) =~= bytes::le_bytes(e.line_count as nat, 4));
    assert(b.subrange(24, 32) =~= bytes::le_bytes(e.path_hash as nat, 8));
    assert(b.subrange(32, 36) =~= bytes::le_bytes(e.flags as nat, 4));
    assert(b.subrange(36, 64) =~= e.reserved@);
}

/// Entries with the same bytes agree in every field: reading back an entry's
/// bytes loses nothing.
pub proof fn law_manifest_entry_roundtrip(a: ManifestEntry, b: ManifestEntry)
    requires
        manifest_entry_bytes(a) == manifest_entry_bytes(b),
    ensures
        a.segment_id == b.segment_id,
        a.min_ts == b.min_ts,
        a.max_ts == b.max_ts,
        a.line_count == b.line_count,
        a.path_hash == b.path_hash,
        a.flags == b.flags,
        a.reserved@ == b.reserved@,
{
    lemma_manifest_entry_bytes(a);
    lemma_manifest_entry_bytes(b);
    bytes::lemma_pow256();
    bytes::lemma_le_value_of_bytes(a.segment_id as nat, 4);
    bytes::lemma_le_value_of_bytes(b.segment_id as nat, 4);
    bytes::lemma_le_value_of_bytes(a.min_ts as nat, 8);
    bytes::lemma_le_value_of_bytes(b.min_ts as nat, 8);
    bytes::lemma_le_value_of_bytes(a.max_ts as nat, 8);
    bytes::lemma_le_value_of_bytes(b.max_ts as nat, 8);
    bytes::lemma_le_value_of_bytes(a.line_count as nat, 4);
    bytes::lemma_le_value_of_bytes(b.line_count as nat, 4);
    bytes::lemma_le_value_of_bytes(a.path_hash as nat, 8);
    bytes::lemma_le_value_of_bytes(b.path_hash as nat, 8);
    bytes::lemma_le_value_of_bytes(a.flags as nat, 4);
    bytes::lemma_le_value_of_bytes(b.flags as nat, 4);
}

/// A summary comes back from the 28 bytes it was packed into.
pub proof fn law_manifest_summary_roundtrip(s: SegmentSummary, back: SegmentSummary)
    requires
        summary::segment_summary_bytes(s) == summary::segment_summary_bytes(back),
    ensures
        s.pattern_mask == back.pattern_mask,
        s.level_mask == back.level_mask,
        s.flags == back.flags,
        s.param_bloom@ == back.param_bloom@,
        s.service_bloom@ == back.service_bloom@,
{
    bytes::lemma_pow256();
    bytes::lemma_le_value_of_bytes(s.pattern_mask as nat, 8);
    bytes::lemma_le_value_of_bytes(back.pattern_mask as nat, 8);
    let a: Seq<u8> = summary::segment_summary_bytes(s);
    let b: Seq<u8> = summary::segment_summary_bytes(back);
    assert(a.subrange(0, 8) =~= bytes::le_bytes(s.pattern_mask as nat, 8));
    assert(b.subrange(0, 8) =~= bytes::le_bytes(back.pattern_mask as nat, 8));
    assert(a[8] == s.level_mask && b[8] == back.level_mask);
    assert(a[9] == s.flags && b[9] == back.flags);
    assert(a.subrange(10, 22) =~= s.param_bloom@);
    assert(b.subrange(10, 22) =~= back.param_bloom@);
    assert(a.subrange(22, 28) =~= s.service_bloom@);
    assert(b.subrange(22, 28) =~= back.service_bloom@);
}

impl ManifestEntry {
    /// An ordinary entry without summary.
    pub fn new(segment_id: u32, min_ts: u64, max_ts: u64, line_count: u32, path: &str) -> (e: Self)
        ensures
            e.segment_id == segment_id,
            e.min_ts == min_ts,
            e.max_ts == max_ts,
            e.line_count == line_count,
            e.path_hash == names::fnv1a(path.spec_bytes()),
            e.flags == manifest_flags::NORMAL,
            e.reserved@ == Seq::new(28, |i: int| 0u8),
    {
        let e: ManifestEntry = ManifestEntry {
            segment_id,
            min_ts,
            max_ts,
            line_count,
            path_hash: names::hash_path(path),
            flags: manifest_flags::NORMAL,
            reserved: [0u8;28],
        };
        assert(e.reserved@ =~= Seq::new(28, |i: int| 0u8));
        e
    }

    /// The entry with a summary packed into it.
    pub fn with_summary(self, s: &SegmentSummary) -> (e: Self)
        ensures
            e.segment_id == self.segment_id,
            e.min_ts == self.min_ts,
            e.max_ts == self.max_ts,
            e.line_count == self.line_count,
            e.path_hash == self.path_hash,
            e.flags == self.flags,
            e.reserved@ == summary::segment_summary_bytes(*s),
    {
        let mut buf: Vec<u8> = Vec::new();
        bytes::push_le(&mut buf, s.pattern_mask, 8);
        buf.push(s.level_mask);
        buf.push(s.flags);
        bytes::push_bytes(&mut buf, s.param_bloom.as_slice());
        bytes::push_bytes(&mut buf, s.service_bloom.as_slice());
        proof {
            bytes::lemma_le_bytes_len(s.pattern_mask as nat, 8);
            assert(buf@ =~= summary::segment_summary_bytes(*s));
        }
        let mut reserved: [u8; 28] = [0u8;28];
        bytes::fill_array(&mut reserved, &buf);
        ManifestEntry {
            segment_id: self.segment_id,
            min_ts: self.min_ts,
            max_ts: self.max_ts,
            line_count: self.line_count,
            path_hash: self.path_hash,
            flags: self.flags,
            reserved,
        }
    }

    /// The summary packed into the entry.
    pub fn segment_summary(&self) -> (s: SegmentSummary)
        ensures
            summary::segment_summary_bytes(s) == self.reserved@,
    {
        let r: &[u8] = self.reserved.as_slice();
        let mut param_bloom: [u8; 12] = [0u8;12];
        bytes::fill_array(&mut param_bloom, vstd::slice::slice_subrange(r, 10, 22));
        let mut service_bloom: [u8; 6] = [0u8;6];
        bytes::fill_array(&mut service_bloom, vstd::slice::slice_subrange(r, 22, 28));
        let s: SegmentSummary = SegmentSummary {
            pattern_mask: bytes::read_le(r, 0, 8),
            level_mask: r[8],
            flags: r[9],
            param_bloom,
            service_bloom,
        };
        proof {
            bytes::lemma_le_bytes_of_value(r@.subrange(0, 8));
            assert(summary::segment_summary_bytes(s) =~= self.reserved@);
        }
        s
    }

    /// Reads an entry from the front of `buf`.
    pub fn from_bytes(buf: &[u8]) -> (r: Result<Self, FormatError>)
        ensures
            match r {
                Ok(e) => buf@.len() >= 64 && manifest_entry_bytes(e) == buf@.take(64),
                Err(e) => buf@.len() < 64 && e == (FormatError::UnexpectedEof {
                    needed: 64,
                    got: buf@.len() as usize,
                }),
            },
    {
        if buf.len() < MANIFEST_ENTRY_SIZE {
            return Err(
                FormatError::UnexpectedEof { needed: MANIFEST_ENTRY_SIZE, got: buf.len() },
            );
        }
        proof {
            bytes::lemma_pow256();
        }
        let mut reserved: [u8; 28] = [0u8;28];
        bytes::fill_array(&mut reserved, vstd::slice::slice_subrange(buf, 36, 64));
        let e: ManifestEntry = ManifestEntry {
            segment_id: bytes::read_le(buf, 0, 4) as u32,
            min_ts: bytes::read_le(buf, 4, 8),
            max_ts: bytes::read_le(buf, 12, 8),
            line_count: bytes::read_le(buf, 20, 4) as u32,
            path_hash: bytes::read_le(buf, 24, 8),
            flags: bytes::read_le(buf, 32, 4) as u32,
            reserved,
        };
        proof {
            bytes::lemma_le_bytes_of_value(buf@.subrange(0, 4));
            bytes::lemma_le_bytes_of_value(buf@.subrange(4, 12));
            bytes::lemma_le_bytes_of_value(buf@.subrange(12, 20));
            bytes::lemma_le_bytes_of_value(buf@.subrange(20, 24));
            bytes::lemma_le_bytes_of_value(buf@.subrange(24, 32));
            bytes::lemma_le_bytes_of_value(buf@.subrange(32, 36));
            assert(manifest_entry_bytes(e) =~= buf@.take(64));
        }
        Ok(e)
    }

    /// The 64 bytes of the entry.
    pub fn to_bytes(&self) -> (r: [u8; 64])
        ensures
            r@ == manifest_entry_bytes(*self),
    {
        let mut buf: Vec<u8> = Vec::new();
        bytes::push_le(&mut buf, self.segment_id as u64, 4);
        bytes::push_le(&mut buf, self.min_ts, 8);
        bytes::push_le(&mut buf, self.max_ts, 8);
        bytes::push_le(&mut buf, self.line_count as u64, 4);
        bytes::push_le(&mut buf, self.path_hash, 8);
        bytes::push_le(&mut buf, self.flags as u64, 4);
        bytes::push_bytes(&mut buf, self.reserved.as_slice());
        assert(buf@ =~= manifest_entry_bytes(*self));
        proof {
            lemma_manifest_entry_bytes(*self);
        }
        let mut r: [u8; 64] = [0u8;64];
        bytes::fill_array(&mut r, &buf);
        r
    }

    /// Whether the segment's time range meets `[start, end]`.
    pub fn overlaps(&self, start: u64, end: u64) -> (r: bool)
        ensures
            r == (self.max_ts >= start && self.min_ts <= end),
            self.min_ts <= self.max_ts && start <= end ==> (r <==> exists|t: u64| #[trigger]
                chunk::between(t, self.min_ts, self.max_ts) && chunk::between(t, start, end)),
    {
        proof {
            let t: u64 = if self.min_ts >= start {
                self.min_ts
            } else {
                start
            };
            if self.max_ts >= start && self.min_ts <= end && self.min_ts <= self.max_ts && start
                <= end {
                assert(chunk::between(t, self.min_ts, self.max_ts) && chunk::between(t, start, end));
            }
        }
        self.max_ts >= start && self.min_ts <= end
    }

    /// Whether the entry is marked as deleted.
    pub fn is_deleted(&self) -> (r: bool)
        ensures
            r == (self.flags & manifest_flags::TOMBSTONE != 0),
    {
        self.flags & manifest_flags::TOMBSTONE != 0
    }
}

/// Header of a manifest: magic, version, number of entries.
#[derive(Debug, Clone, Copy, PartialEq, Eq)]
pub struct ManifestHeader {
    pub magic: [u8; 4],
    pub version: u8,
    pub entry_count: u32,
}

/// The nine bytes of a manifest header.
pub open spec fn manifest_header_bytes(h: ManifestHeader) -> Seq<u8> {
    h.magic@ + seq![h.version] + bytes::le_bytes(h.entry_count as nat, 4)
}

/// The bytes start with a manifest header that can be read.
pub open spec fn manifest_header_readable(buf: Seq<u8>) -> bool {
    buf.len() >= 9 && buf.take(4) == midx() && buf[4] == FORMAT_VERSION
}

impl ManifestHeader {
    pub fn new(entry_count: u32) -> (h: Self)
        ensures
            h.magic@ == midx(),
            h.version == FORMAT_VERSION,
            h.entry_count == entry_count,
    {
        let h: ManifestHeader = ManifestHeader {
            magic: *MIDX_MAGIC,
            version: FORMAT_VERSION,
            entry_count,
        };
        assert(h.magic@ =~= midx());
        h
    }

    /// Reads a manifest header from the front of `buf`.
    pub fn from_bytes(buf: &[u8]) -> (r: Result<Self, FormatError>)
        ensures
            r is Ok <==> manifest_header_readable(buf@),
            match r {
                Ok(h) => manifest_header_bytes(h) == buf@.take(9),
                Err(FormatError::UnexpectedEof { needed, got }) => buf@.len() < 9 && needed == 9
                    && got == buf@.len(),
                Err(FormatError::BadMagic { expected, got }) => buf@.len() >= 9 && expected@
                    == midx() && got@ == buf@.take(4) && got@ != midx(),
                Err(FormatError::UnsupportedVersion { expected, got }) => buf@.len() >= 9
                    && buf@.take(4) == midx() && expected == FORMAT_VERSION && got == buf@[4]
                    && got != expected,
                Err(_) => false,
            },
    {
        if buf.len() < 9 {
            return Err(FormatError::UnexpectedEof { needed: 9, got: buf.len() });
        }
        let magic: [u8; 4] = [buf[0], buf[1], buf[2], buf[3]];
        assert(magic@ =~= buf@.take(4));
        assert(MIDX_MAGIC@ =~= midx());
        if magic[0] != 0x4d || magic[1] != 0x49 || magic[2] != 0x44 || magic[3] != 0x58 {
            assert(magic@[0] != midx()[0] || magic@[1] != midx()[1] || magic@[2] != midx()[2]
                || magic@[3] != midx()[3]);
            return Err(FormatError::BadMagic { expected: *MIDX_MAGIC, got: magic });
        }
        assert(magic@ =~= midx());
        let version: u8 = buf[4];
        if version != FORMAT_VERSION {
            return Err(
                FormatError::UnsupportedVersion { expected: FORMAT_VERSION, got: version },
            );
        }
        proof {
            bytes::lemma_pow256();
        }
        let h: ManifestHeader = ManifestHeader {
            magic,
            version,
            entry_count: bytes::read_le(buf, 5, 4) as u32,
        };
        proof {
            bytes::lemma_le_bytes_of_value(buf@.subrange(5, 9));
            assert(manifest_header_bytes(h) =~= buf@.take(9));
        }
        Ok(h)
    }

    /// The nine bytes of the header.
    pub fn to_bytes(&self) -> (r: [u8; 9])
        ensures
            r@ == manifest_header_bytes(*self),
    {
        let mut buf: Vec<u8> = Vec::new();
        bytes::push_bytes(&mut buf, self.magic.as_slice());
        buf.push(self.version);
        bytes::push_le(&mut buf, self.entry_count as u64, 4);
        assert(buf@ =~= manifest_header_bytes(*self));
        proof {
            bytes::lemma_le_bytes_len(self.entry_count as nat, 4);
        }
        let mut r: [u8; 9] = [0u8;9];
        bytes::fill_array(&mut r, &buf);
        r
    }
}

/// The bytes of a manifest header of this version can be read, and what is
/// read has the same fields.
pub proof fn law_manifest_header_roundtrip(h: ManifestHeader, back: ManifestHeader)
    requires
        h.magic@ == midx(),
        h.version == FORMAT_VERSION,
    ensures
        manifest_header_readable(manifest_header_bytes(h)),
        manifest_header_bytes(back) == manifest_header_bytes(h).take(9) ==> back.magic@ == h.magic@
            && back.version == h.version && back.entry_count == h.entry_count,
{
    bytes::lemma_pow256();
    bytes::lemma_le_value_of_bytes(h.entry_count as nat, 4);
    bytes::lemma_le_value_of_bytes(back.entry_count as nat, 4);
    let a: Seq<u8> = manifest_header_bytes(h);
    let b: Seq<u8> = manifest_header_bytes(back);
    assert(a.take(9) =~= a);
    assert(a.take(4) =~= h.magic@);
    assert(b.take(4) =~= back.magic@);
    assert(a[4] == h.version && b[4] == back.version);
    assert(a.subrange(5, 9) =~= bytes::le_bytes(h.entry_count as nat, 4));
    assert(b.subrange(5, 9) =~= bytes::le_bytes(back.entry_count as nat, 4));
}

} // verus!
