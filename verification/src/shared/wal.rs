//! Length-prefixed records of the write-ahead log.

use crate::shared::bytes;
use crate::shared::error::FormatError;
use crate::shared::text;
use vstd::prelude::*;
use vstd::string::*;
use vstd::utf8::*;

verus! {

/// Text at the front of a write-ahead log, for human readers.
pub const WAL_MAGIC: &'static [u8; 17] = &[
    0x2d, 0x2d, 0x2d, 0x20, 0x4d, 0x4f, 0x42, 0x53, 0x20, 0x57, 0x41, 0x4c, 0x20, 0x2d, 0x2d, 0x2d,
    0x0a,
];

/// A record: the length of a text in four bytes, then the text.
pub struct WalRecord;

/// The bytes of a record.
pub open spec fn record_bytes(line: Seq<char>) -> Seq<u8> {
    bytes::le_bytes(encode_utf8(line).len(), 4) + encode_utf8(line)
}

/// The length that a record's prefix claims.
pub open spec fn record_len(buf: Seq<u8>) -> nat {
    bytes::le_value(buf.subrange(0, 4))
}

/// The text bytes of the record at the front of `buf`.
pub open spec fn record_body(buf: Seq<u8>) -> Seq<u8> {
    buf.subrange(4, (4 + record_len(buf)) as int)
}

impl WalRecord {
    /// Encodes one record.
    pub fn encode(line: &str) -> (r: Vec<u8>)
        ensures
            r@ == record_bytes(line@),
    {
        let body: &[u8] = line.as_bytes();
        let mut out: Vec<u8> = Vec::new();
        bytes::push_le(&mut out, body.len() as u64, 4);
        bytes::push_bytes(&mut out, body);
        assert(out@ =~= record_bytes(line@));
        out
    }

    /// Reads the record at the front of `buf`; gives its text and the bytes
    /// behind it.
    pub fn decode(buf: &[u8]) -> (r: Result<(&str, &[u8]), FormatError>)
        ensures
            match r {
                Ok((line, rest)) => {
                    &&& buf@.len() >= 4
                    &&& buf@.len() >= 4 + record_len(buf@)
                    &&& valid_utf8(record_body(buf@))
                    &&& line@ == decode_utf8(record_body(buf@))
                    &&& rest@ == buf@.skip((4 + record_len(buf@)) as int)
                },
                Err(FormatError::UnexpectedEof { needed, got }) => {
                    &&& got == buf@.len()
                    &&& if buf@.len() < 4 {
                        needed == 4
                    } else {
                        buf@.len() < 4 + record_len(buf@) && needed == (if 4 + record_len(buf@)
                            <= usize::MAX {
                            4 + record_len(buf@)
                        } else {
                            usize::MAX as nat
                        })
                    }
                },
                Err(FormatError::InvalidField { field, value }) => {
                    &&& field@ == "wal_utf8"@
                    &&& value == 0
                    &&& buf@.len() >= 4
                    &&& buf@.len() >= 4 + record_len(buf@)
                    &&& !valid_utf8(record_body(buf@))
                },
                Err(_) => false,
            },
    {
        let total: usize = buf.len();
        if total < 4 {
            return Err(FormatError::UnexpectedEof { needed: 4, got: total });
        }
        proof {
            bytes::lemma_pow256();
        }
        let len: usize = bytes::read_le(buf, 0, 4) as usize;
        if total - 4 < len {
            return Err(FormatError::UnexpectedEof { needed: len.saturating_add(4), got: total });
        }
        let body: &[u8] = vstd::slice::slice_subrange(buf, 4, 4 + len);
        let rest: &[u8] = vstd::slice::slice_subrange(buf, 4 + len, total);
        assert(rest@ =~= buf@.skip((4 + record_len(buf@)) as int));
        match text::utf8_str(body) {
            Some(line) => Ok((line, rest)),
            None => Err(FormatError::InvalidField { field: "wal_utf8", value: 0 }),
        }
    }
}

/// Decoding what was encoded gives the text and leaves the bytes behind it.
pub proof fn law_wal_roundtrip(line: Seq<char>, rest: Seq<u8>)
    requires
        encode_utf8(line).len() < 0x1_0000_0000,
    ensures
        ({
            let buf: Seq<u8> = record_bytes(line) + rest;
            &&& buf.len() >= 4 + record_len(buf)
            &&& valid_utf8(record_body(buf))
            &&& decode_utf8(record_body(buf)) == line
            &&& buf.skip((4 + record_len(buf)) as int) == rest
        }),
{
    let body: Seq<u8> = encode_utf8(line);
    let buf: Seq<u8> = record_bytes(line) + rest;
    bytes::lemma_pow256();
    bytes::lemma_le_value_of_bytes(body.len(), 4);
    assert(buf.subrange(0, 4) =~= bytes::le_bytes(body.len(), 4));
    assert(record_body(buf) =~= body);
    text::lemma_utf8_roundtrip(line);
    assert(buf.skip((4 + record_len(buf)) as int) =~= rest);
}

} // verus!
