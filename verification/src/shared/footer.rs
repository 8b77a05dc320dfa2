//! The end of a segment file.

use crate::shared::bytes;
use crate::shared::crc;
use crate::shared::error::FormatError;
use crate::shared::header::SEGMENT_FOOTER_SIZE;
use vstd::prelude::*;

verus! {

/// Footer of a segment file.
///
/// ```text
/// 0x00-0x03  chunk table offset  u32
/// 0x04-0x07  content CRC-32      u32, over everything before the footer
/// ```
#[derive(Debug, Clone, Copy, PartialEq, Eq)]
pub struct SegmentFooter {
    pub chunk_table_offset: u32,
    pub crc32: u32,
}

/// The eight bytes of a footer.
pub open spec fn footer_bytes(f: SegmentFooter) -> Seq<u8> {
    bytes::le_bytes(f.chunk_table_offset as nat, 4) + bytes::le_bytes(f.crc32 as nat, 4)
}

/// The footer that eight bytes stand for.
pub open spec fn footer_of(b: Seq<u8>) -> SegmentFooter {
    SegmentFooter {
        chunk_table_offset: bytes::le_value(b.subrange(0, 4)) as u32,
        crc32: bytes::le_value(b.subrange(4, 8)) as u32,
    }
}

/// Reading a footer's bytes gives the footer.
pub proof fn law_footer_roundtrip(f: SegmentFooter)
    ensures
        footer_bytes(f).len() == 8,
        footer_of(footer_bytes(f)) == f,
{
    bytes::lemma_pow256();
    bytes::lemma_le_value_of_bytes(f.chunk_table_offset as nat, 4);
    bytes::lemma_le_value_of_bytes(f.crc32 as nat, 4);
    let b: Seq<u8> = footer_bytes(f);
    assert(b.subrange(0, 4) =~= bytes::le_bytes(f.chunk_table_offset as nat, 4));
    assert(b.subrange(4, 8) =~= bytes::le_bytes(f.crc32 as nat, 4));
}

impl SegmentFooter {
    /// A footer without checksum.
    pub fn new(chunk_table_offset: u32) -> (f: Self)
        ensures
            f == (SegmentFooter { chunk_table_offset, crc32: 0 }),
    {
        SegmentFooter { chunk_table_offset, crc32: 0 }
    }

    /// Reads a footer from the front of `buf`.
    pub fn from_bytes(buf: &[u8]) -> (r: Result<Self, FormatError>)
        ensures
            match r {
                Ok(f) => buf@.len() >= 8 && f == footer_of(buf@.take(8)),
                Err(e) => buf@.len() < 8 && e == (FormatError::UnexpectedEof {
                    needed: 8,
                    got: buf@.len() as usize,
                }),
            },
    {
        if buf.len() < SEGMENT_FOOTER_SIZE {
            return Err(
                FormatError::UnexpectedEof { needed: SEGMENT_FOOTER_SIZE, got: buf.len() },
            );
        }
        proof {
            bytes::lemma_pow256();
        }
        assert(buf@.take(8).subrange(0, 4) =~= buf@.subrange(0, 4));
        assert(buf@.take(8).subrange(4, 8) =~= buf@.subrange(4, 8));
        Ok(
            SegmentFooter {
                chunk_table_offset: bytes::read_le(buf, 0, 4) as u32,
                crc32: bytes::read_le(buf, 4, 4) as u32,
            },
        )
    }

    /// The eight bytes of the footer.
    pub fn to_bytes(&self) -> (r: [u8; 8])
        ensures
            r@ == footer_bytes(*self),
    {
        let mut buf: Vec<u8> = Vec::new();
        bytes::push_le(&mut buf, self.chunk_table_offset as u64, 4);
        bytes::push_le(&mut buf, self.crc32 as u64, 4);
        assert(buf@ =~= footer_bytes(*self));
        proof {
            law_footer_roundtrip(*self);
        }
        let mut r: [u8; 8] = [0u8;8];
        bytes::fill_array(&mut r, &buf);
        r
    }

    /// Checks the content of the file, without the footer, against the
    /// checksum.
    pub fn verify(&self, content: &[u8]) -> (r: Result<(), FormatError>)
        ensures
            match r {
                Ok(_) => crc::crc_of(content@) == self.crc32,
                Err(e) => crc::crc_of(content@) != self.crc32 && e == (FormatError::CrcMismatch {
                    expected: self.crc32,
                    computed: crc::crc_of(content@),
                }),
            },
    {
        let computed: u32 = crc::crc32(content);
        if computed != self.crc32 {
            return Err(FormatError::CrcMismatch { expected: self.crc32, computed });
        }
        Ok(())
    }
}

} // verus!
