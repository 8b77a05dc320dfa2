//! Chunk table entries and chunk summaries.

use crate::shared::bloom;
use crate::shared::bytes;
use crate::shared::error::FormatError;
use crate::shared::header::{CHUNK_ENTRY_SIZE, CHUNK_SUMMARY_SIZE};
use crate::shared::text;
use vstd::prelude::*;
use vstd::string::*;

verus! {

/// Describes one compressed chunk.
///
/// ```text
/// 0x00-0x03  data offset     u32, from the data area (v2) or the file (v1)
/// 0x04-0x07  compressed size u32
/// 0x08-0x0B  original size   u32
/// 0x0C-0x0F  line count      u32
/// 0x10-0x17  min timestamp   u64
/// 0x18-0x1F  max timestamp   u64
/// ```
#[derive(Debug, Clone, Copy, PartialEq, Eq)]
pub struct ChunkEntry {
    pub offset: u32,
    pub compressed_sz: u32,
    pub original_sz: u32,
    pub line_count: u32,
    pub min_ts: u64,
    pub max_ts: u64,
}

/// The 32 bytes of an entry.
pub open spec fn entry_bytes(e: ChunkEntry) -> Seq<u8> {
    bytes::le_bytes(e.offset as nat, 4) + bytes::le_bytes(e.compressed_sz as nat, 4)
        + bytes::le_bytes(e.original_sz as nat, 4) + bytes::le_bytes(e.line_count as nat, 4)
        + bytes::le_bytes(e.min_ts as nat, 8) + bytes::le_bytes(e.max_ts as nat, 8)
}

pub proof fn lemma_entry_bytes(e: ChunkEntry)
    ensures
        entry_bytes(e).len() == 32,
        entry_bytes(e).subrange(0, 4) == bytes::le_bytes(e.offset as nat, 4),
        entry_bytes(e).subrange(4, 8) == bytes::le_bytes(e.compressed_sz as nat, 4),
        entry_bytes(e).subrange(8, 12) == bytes::le_bytes(e.original_sz as nat, 4),
        entry_bytes(e).subrange(12, 16) == bytes::le_bytes(e.line_count as nat, 4),
        entry_bytes(e).subrange(16, 24) == bytes::le_bytes(e.min_ts as nat, 8),
        entry_bytes(e).subrange(24, 32) == bytes::le_bytes(e.max_ts as nat, 8),
{
    bytes::lemma_le_bytes_len(e.offset as nat, 4);
    bytes::lemma_le_bytes_len(e.compressed_sz as nat, 4);
    bytes::lemma_le_bytes_len(e.original_sz as nat, 4);
    bytes::lemma_le_bytes_len(e.line_count as nat, 4);
    bytes::lemma_le_bytes_len(e.min_ts as nat, 8);
    bytes::lemma_le_bytes_len(e.max_ts as nat, 8);
    let b: Seq<u8> = entry_bytes(e);
    assert(b.subrange(0, 4) =~= bytes::le_bytes(e.offset as nat, 4));
    assert(b.subrange(4, 8) =~= bytes::le_bytes(e.compressed_sz as nat, 4));
    assert(b.subrange(8, 12) =~= bytes::le_bytes(e.original_sz as nat, 4));
    assert(b.subrange(12, 16) =~= bytes::le_bytes(e.line_count as nat, 4));
    assert(b.subrange(16, 24) =~= bytes::le_bytes(e.min_ts as nat, 8));
    assert(b.subrange(24, 32) =~= bytes::le_bytes(e.max_ts as nat, 8));
}

/// An entry is determined by its bytes: reading back gives the same entry.
pub proof fn law_chunk_entry_roundtrip(a: ChunkEntry, b: ChunkEntry)
    requires
        entry_bytes(a) == entry_bytes(b),
    ensures
        a == b,
{
    lemma_entry_bytes(a);
    lemma_entry_bytes(b);
    bytes::lemma_pow256();
    bytes::lemma_le_value_of_bytes(a.offset as nat, 4);
    bytes::lemma_le_value_of_bytes(b.offset as nat, 4);
    bytes::lemma_le_value_of_bytes(a.compressed_sz as nat, 4);
    bytes::lemma_le_value_of_bytes(b.compressed_sz as nat, 4);
    bytes::lemma_le_value_of_bytes(a.original_sz as nat, 4);
    bytes::lemma_le_value_of_bytes(b.original_sz as nat, 4);
    bytes::lemma_le_value_of_bytes(a.line_count as nat, 4);
    bytes::lemma_le_value_of_bytes(b.line_count as nat, 4);
    bytes::lemma_le_value_of_bytes(a.min_ts as nat, 8);
    bytes::lemma_le_value_of_bytes(b.min_ts as nat, 8);
    bytes::lemma_le_value_of_bytes(a.max_ts as nat, 8);
    bytes::lemma_le_value_of_bytes(b.max_ts as nat, 8);
}

/// The entry that 32 bytes stand for.
pub open spec fn entry_of(b: Seq<u8>) -> ChunkEntry {
    ChunkEntry {
        offset: bytes::le_value(b.subrange(0, 4)) as u32,
        compressed_sz: bytes::le_value(b.subrange(4, 8)) as u32,
        original_sz: bytes::le_value(b.subrange(8, 12)) as u32,
        line_count: bytes::le_value(b.subrange(12, 16)) as u32,
        min_ts: bytes::le_value(b.subrange(16, 24)) as u64,
        max_ts: bytes::le_value(b.subrange(24, 32)) as u64,
    }
}

pub proof fn lemma_entry_of_bytes(e: ChunkEntry)
    ensures
        entry_of(entry_bytes(e)) == e,
{
    lemma_entry_bytes(e);
    bytes::lemma_pow256();
    bytes::lemma_le_value_of_bytes(e.offset as nat, 4);
    bytes::lemma_le_value_of_bytes(e.compressed_sz as nat, 4);
    bytes::lemma_le_value_of_bytes(e.original_sz as nat, 4);
    bytes::lemma_le_value_of_bytes(e.line_count as nat, 4);
    bytes::lemma_le_value_of_bytes(e.min_ts as nat, 8);
    bytes::lemma_le_value_of_bytes(e.max_ts as nat, 8);
}

/// The time lies between the two others, or at one of them.
pub open spec fn between(t: u64, a: u64, b: u64) -> bool {
    a <= t <= b
}

impl ChunkEntry {
    pub fn new(
        offset: u32,
        compressed: u32,
        original: u32,
        lines: u32,
        min_ts: u64,
        max_ts: u64,
    ) -> (e: Self)
        ensures
            e == (ChunkEntry {
                offset,
                compressed_sz: compressed,
                original_sz: original,
                line_count: lines,
                min_ts,
                max_ts,
            }),
    {
        ChunkEntry {
            offset,
            compressed_sz: compressed,
            original_sz: original,
            line_count: lines,
            min_ts,
            max_ts,
        }
    }

    /// Reads an entry from the front of `buf`.
    pub fn from_bytes(buf: &[u8]) -> (r: Result<Self, FormatError>)
        ensures
            match r {
                Ok(e) => buf@.len() >= 32 && entry_bytes(e) == buf@.take(32) && e == entry_of(
                    buf@.take(32),
                ),
                Err(e) => buf@.len() < 32 && e == (FormatError::UnexpectedEof {
                    needed: 32,
                    got: buf@.len() as usize,
                }),
            },
    {
        if buf.len() < CHUNK_ENTRY_SIZE {
            return Err(FormatError::UnexpectedEof { needed: CHUNK_ENTRY_SIZE, got: buf.len() });
        }
        proof {
            bytes::lemma_pow256();
        }
        let e: ChunkEntry = ChunkEntry {
            offset: bytes::read_le(buf, 0, 4) as u32,
            compressed_sz: bytes::read_le(buf, 4, 4) as u32,
            original_sz: bytes::read_le(buf, 8, 4) as u32,
            line_count: bytes::read_le(buf, 12, 4) as u32,
            min_ts: bytes::read_le(buf, 16, 8),
            max_ts: bytes::read_le(buf, 24, 8),
        };
        proof {
            bytes::lemma_le_bytes_of_value(buf@.subrange(0, 4));
            bytes::lemma_le_bytes_of_value(buf@.subrange(4, 8));
            bytes::lemma_le_bytes_of_value(buf@.subrange(8, 12));
            bytes::lemma_le_bytes_of_value(buf@.subrange(12, 16));
            bytes::lemma_le_bytes_of_value(buf@.subrange(16, 24));
            bytes::lemma_le_bytes_of_value(buf@.subrange(24, 32));
            assert(entry_bytes(e) =~= buf@.take(32));
            lemma_entry_of_bytes(e);
        }
        Ok(e)
    }

    /// The 32 bytes of the entry.
    pub fn to_bytes(&self) -> (r: [u8; 32])
        ensures
            r@ == entry_bytes(*self),
    {
        let mut buf: Vec<u8> = Vec::new();
        bytes::push_le(&mut buf, self.offset as u64, 4);
        bytes::push_le(&mut buf, self.compressed_sz as u64, 4);
        bytes::push_le(&mut buf, self.original_sz as u64, 4);
        bytes::push_le(&mut buf, self.line_count as u64, 4);
        bytes::push_le(&mut buf, self.min_ts, 8);
        bytes::push_le(&mut buf, self.max_ts, 8);
        assert(buf@ =~= entry_bytes(*self));
        proof {
            lemma_entry_bytes(*self);
        }
        let mut r: [u8; 32] = [0u8;32];
        bytes::fill_array(&mut r, &buf);
        r
    }

    /// Whether the chunk's time range meets `[start, end]`.
    pub fn overlaps(&self, start: u64, end: u64) -> (r: bool)
        ensures
            r == (self.max_ts >= start && self.min_ts <= end),
            self.min_ts <= self.max_ts && start <= end ==> (r <==> exists|t: u64| #[trigger]
                between(t, self.min_ts, self.max_ts) && between(t, start, end)),
    {
        proof {
            let t: u64 = if self.min_ts >= start {
                self.min_ts
            } else {
                start
            };
            if self.max_ts >= start && self.min_ts <= end && self.min_ts <= self.max_ts && start
                <= end {
                assert(between(t, self.min_ts, self.max_ts) && between(t, start, end));
            }
        }
        self.max_ts >= start && self.min_ts <= end
    }
}

// ---------- chunk summaries ----------

/// What a chunk holds, for skipping it without unpacking.
///
/// ```text
/// 0x00-0x07  pattern mask    u64, one bit for each of the first 64 patterns
/// 0x08       level mask      bit 0 = D, 1 = I, 2 = W, 3 = E
/// 0x09-0x48  filter          512 bits
/// 0x49-0x4F  zero
/// ```
#[derive(Debug, Clone, Copy, PartialEq, Eq)]
pub struct ChunkSummary {
    pub pattern_mask: u64,
    pub level_mask: u8,
    pub param_bloom: [u8; 64],
    pub reserved: [u8; 7],
}

/// The 80 bytes of a summary.
pub open spec fn summary_bytes(s: ChunkSummary) -> Seq<u8> {
    bytes::le_bytes(s.pattern_mask as nat, 8) + seq![s.level_mask] + s.param_bloom@ + s.reserved@
}

/// Bit `k` of a 64-bit mask.
pub open spec fn mask_bit(mask: u64, k: u16) -> bool {
    (mask >> (k as u64)) & 1 != 0
}

/// The bit that stands for a level; `None` for other texts.
pub open spec fn level_bit(level: Seq<char>) -> Option<u8> {
    if level == "D"@ {
        Some(0u8)
    } else if level == "I"@ {
        Some(1u8)
    } else if level == "W"@ {
        Some(2u8)
    } else if level == "E"@ {
        Some(3u8)
    } else {
        None
    }
}

/// The bit that stands for a level; `None` for other texts.
pub fn level_bit_of(level: &str) -> (r: Option<u8>)
    ensures
        r == level_bit(level@),
        r is Some ==> r->0 < 4,
{
    if text::same_text(level, "D") {
        Some(0)
    } else if text::same_text(level, "I") {
        Some(1)
    } else if text::same_text(level, "W") {
        Some(2)
    } else if text::same_text(level, "E") {
        Some(3)
    } else {
        None
    }
}

pub proof fn lemma_summary_bytes(s: ChunkSummary)
    ensures
        summary_bytes(s).len() == 80,
        summary_bytes(s).subrange(0, 8) == bytes::le_bytes(s.pattern_mask as nat, 8),
        summary_bytes(s)[8] == s.level_mask,
        summary_bytes(s).subrange(9, 73) == s.param_bloom@,
{
    bytes::lemma_le_bytes_len(s.pattern_mask as nat, 8);
    let b: Seq<u8> = summary_bytes(s);
    assert(b.subrange(0, 8) =~= bytes::le_bytes(s.pattern_mask as nat, 8));
    assert(b.subrange(9, 73) =~= s.param_bloom@);
}

/// A summary read from the bytes of another holds the same masks and filter.
pub proof fn law_chunk_summary_roundtrip(s: ChunkSummary, back: ChunkSummary)
    requires
        summary_reads(summary_bytes(s), back),
    ensures
        back.pattern_mask == s.pattern_mask,
        back.level_mask == s.level_mask,
        back.param_bloom@ == s.param_bloom@,
{
    lemma_summary_bytes(s);
    bytes::lemma_pow256();
    bytes::lemma_le_value_of_bytes(s.pattern_mask as nat, 8);
}

/// `s` is what is read from the 80 bytes `b`.
pub open spec fn summary_reads(b: Seq<u8>, s: ChunkSummary) -> bool {
    &&& s.pattern_mask == bytes::le_value(b.subrange(0, 8))
    &&& s.level_mask == b[8]
    &&& s.param_bloom@ == b.subrange(9, 73)
    &&& s.reserved@ == Seq::new(7, |i: int| 0u8)
}

impl ChunkSummary {
    pub fn new(pattern_mask: u64, level_mask: u8, param_bloom: [u8; 64]) -> (s: Self)
        ensures
            s.pattern_mask == pattern_mask,
            s.level_mask == level_mask,
            s.param_bloom == param_bloom,
            s.reserved@ == Seq::new(7, |i: int| 0u8),
    {
        let s: ChunkSummary = ChunkSummary {
            pattern_mask,
            level_mask,
            param_bloom,
            reserved: [0u8;7],
        };
        assert(s.reserved@ =~= Seq::new(7, |i: int| 0u8));
        s
    }

    /// Reads a summary from the front of `buf`.
    pub fn from_bytes(buf: &[u8]) -> (r: Result<Self, FormatError>)
        ensures
            match r {
                Ok(s) => buf@.len() >= 80 && summary_reads(buf@.take(80), s),
                Err(e) => buf@.len() < 80 && e == (FormatError::UnexpectedEof {
                    needed: 80,
                    got: buf@.len() as usize,
                }),
            },
    {
        if buf.len() < CHUNK_SUMMARY_SIZE {
            return Err(FormatError::UnexpectedEof { needed: CHUNK_SUMMARY_SIZE, got: buf.len() });
        }
        let mut param_bloom: [u8; 64] = [0u8;64];
        bytes::fill_array(&mut param_bloom, vstd::slice::slice_subrange(buf, 9, 73));
        let s: ChunkSummary = ChunkSummary::new(bytes::read_le(buf, 0, 8), buf[8], param_bloom);
        assert(buf@.take(80).subrange(0, 8) =~= buf@.subrange(0, 8));
        assert(buf@.take(80).subrange(9, 73) =~= buf@.subrange(9, 73));
        Ok(s)
    }

    /// The 80 bytes of the summary.
    pub fn to_bytes(&self) -> (r: [u8; 80])
        ensures
            r@ == summary_bytes(*self),
    {
        let mut buf: Vec<u8> = Vec::new();
        bytes::push_le(&mut buf, self.pattern_mask, 8);
        buf.push(self.level_mask);
        bytes::push_bytes(&mut buf, self.param_bloom.as_slice());
        bytes::push_bytes(&mut buf, self.reserved.as_slice());
        assert(buf@ =~= summary_bytes(*self));
        proof {
            lemma_summary_bytes(*self);
        }
        let mut r: [u8; 80] = [0u8;80];
        bytes::fill_array(&mut r, &buf);
        r
    }

    /// Whether the chunk may hold lines of a pattern. Patterns beyond the mask
    /// may always be there.
    pub fn may_contain_pattern(&self, pat_id: u16) -> (r: bool)
        ensures
            r == (pat_id >= 64 || mask_bit(self.pattern_mask, pat_id)),
    {
        if pat_id >= 64 {
            return true;
        }
        (self.pattern_mask >> (pat_id as u64)) & 1 != 0
    }

    /// Whether the chunk may hold lines of a level. A text that names no level
    /// may always be there.
    pub fn may_contain_level(&self, level: &str) -> (r: bool)
        ensures
            r == match level_bit(level@) {
                Some(k) => (self.level_mask >> k) & 1 != 0,
                None => true,
            },
            level@ == "D"@ ==> r == ((self.level_mask >> 0u8) & 1 != 0),
            level@ == "I"@ ==> r == ((self.level_mask >> 1u8) & 1 != 0),
            level@ == "W"@ ==> r == ((self.level_mask >> 2u8) & 1 != 0),
            level@ == "E"@ ==> r == ((self.level_mask >> 3u8) & 1 != 0),
            level@ != "D"@ && level@ != "I"@ && level@ != "W"@ && level@ != "E"@ ==> r,
    {
        proof {
            reveal_strlit("D");
            reveal_strlit("I");
            reveal_strlit("W");
            reveal_strlit("E");
            assert("D"@[0] == 'D' && "I"@[0] == 'I' && "W"@[0] == 'W' && "E"@[0] == 'E');
        }
        match level_bit_of(level) {
            Some(k) => (self.level_mask >> k) & 1 != 0,
            None => true,
        }
    }

    /// Whether the filter may hold the whole text `keyword`. A negative answer
    /// is certain. The empty text may always be there.
    pub fn bloom_may_contain(&self, keyword: &str) -> (r: bool)
        ensures
            r == (keyword@.len() == 0 || bloom::marked(
                self.param_bloom@,
                keyword.spec_bytes(),
                5,
            )),
    {
        if keyword.is_empty() {
            return true;
        }
        let mut seed: u64 = 0;
        while seed < 5
            invariant
                seed <= 5,
                keyword@.len() != 0,
                forall|k: u64|
                    k < seed ==> bloom::filter_bit(
                        self.param_bloom@,
                        #[trigger] bloom::bloom_position(keyword.spec_bytes(), k),
                    ),
            decreases 5 - seed,
        {
            let pos: usize = ChunkSummary::bloom_hash(keyword, seed);
            if !bloom::has_bit(self.param_bloom.as_slice(), pos) {
                return false;
            }
            seed += 1;
        }
        true
    }

    /// The position of a text in the filter, one for each seed.
    pub fn bloom_hash(s: &str, seed: u64) -> (r: usize)
        ensures
            r == bloom::bloom_position(s.spec_bytes(), seed),
            r < 512,
    {
        bloom::position(s.as_bytes(), seed)
    }
}

/// `p` is one of the positions of `s` for the seeds below `n`.
pub open spec fn is_position(s: Seq<u8>, n: nat, p: nat) -> bool {
    exists|seed: u64| seed < n && p == #[trigger] bloom::bloom_position(s, seed)
}

/// Marks a text in a filter: its five positions are set, every other bit stays
/// as it is.
pub fn bloom_insert(filter: &mut [u8; 64], s: &str)
    ensures
        forall|p: nat|
            p < 512 ==> #[trigger] bloom::filter_bit(final(filter)@, p) == (bloom::filter_bit(
                old(filter)@,
                p,
            ) || is_position(s.spec_bytes(), 5, p)),
        bloom::marked(final(filter)@, s.spec_bytes(), 5),
{
    let mut seed: u64 = 0;
    while seed < 5
        invariant
            seed <= 5,
            filter@.len() == 64,
            forall|p: nat|
                p < 512 ==> #[trigger] bloom::filter_bit(filter@, p) == (bloom::filter_bit(
                    old(filter)@,
                    p,
                ) || is_position(s.spec_bytes(), seed as nat, p)),
        decreases 5 - seed,
    {
        let pos: usize = ChunkSummary::bloom_hash(s, seed);
        let ghost before = filter@;
        bloom::set_bit(filter, pos);
        assert forall|p: nat| p < 512 implies #[trigger] bloom::filter_bit(filter@, p) == (
        bloom::filter_bit(old(filter)@, p) || is_position(
            s.spec_bytes(),
            (seed + 1) as nat,
            p,
        )) by {
            if p == pos {
                assert(p == bloom::bloom_position(s.spec_bytes(), seed));
            }
            if bloom::filter_bit(before, p) && !bloom::filter_bit(old(filter)@, p) {
                let k: u64 = choose|k: u64|
                    k < seed && p == #[trigger] bloom::bloom_position(s.spec_bytes(), k);
                assert(k < seed + 1 && p == bloom::bloom_position(s.spec_bytes(), k));
            }
        }
        seed += 1;
    }
    assert forall|k: u64| k < 5 implies bloom::filter_bit(
        filter@,
        #[trigger] bloom::bloom_position(s.spec_bytes(), k),
    ) by {
        assert(is_position(s.spec_bytes(), 5, bloom::bloom_position(s.spec_bytes(), k)));
    }
}

/// A summary whose filter has marked a text answers that it may hold it: the
/// filter gives no false negatives.
pub proof fn law_bloom_no_false_negative(s: ChunkSummary, keyword: Seq<u8>, others: Seq<u8>)
    requires
        others.len() == 64,
        bloom::marked(others, keyword, 5),
        forall|p: nat|
            p < 512 && bloom::filter_bit(others, p) ==> #[trigger] bloom::filter_bit(
                s.param_bloom@,
                p,
            ),
    ensures
        bloom::marked(s.param_bloom@, keyword, 5),
{
    assert forall|k: u64| k < 5 implies bloom::filter_bit(
        s.param_bloom@,
        #[trigger] bloom::bloom_position(keyword, k),
    ) by {
        assert(bloom::filter_bit(others, bloom::bloom_position(keyword, k)));
    }
}

} // verus!
