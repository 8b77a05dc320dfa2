//! Errors of the storage format.

use crate::shared::names;
use crate::shared::numeral;
use crate::shared::text;
use vstd::prelude::*;
use vstd::string::*;

verus! {

/// What is wrong with a piece of stored data.
#[allow(inconsistent_fields)]
#[derive(Debug, PartialEq)]
pub enum FormatError {
    /// The magic number is another one.
    BadMagic { expected: [u8; 4], got: [u8; 4] },
    /// The version is not supported.
    UnsupportedVersion { expected: u8, got: u8 },
    /// There are fewer bytes than needed.
    UnexpectedEof { needed: usize, got: usize },
    /// The stored checksum is not that of the data.
    CrcMismatch { expected: u32, computed: u32 },
    /// A field holds a value that it may not hold.
    InvalidField { field: &'static str, value: u64 },
    /// An offset is not aligned.
    Misaligned { offset: usize, alignment: usize },
}

impl Clone for FormatError {
    fn clone(&self) -> (r: Self)
        ensures
            r == *self,
    {
        match self {
            FormatError::BadMagic { expected, got } => FormatError::BadMagic {
                expected: *expected,
                got: *got,
            },
            FormatError::UnsupportedVersion { expected, got } => FormatError::UnsupportedVersion {
                expected: *expected,
                got: *got,
            },
            FormatError::UnexpectedEof { needed, got } => FormatError::UnexpectedEof {
                needed: *needed,
                got: *got,
            },
            FormatError::CrcMismatch { expected, computed } => FormatError::CrcMismatch {
                expected: *expected,
                computed: *computed,
            },
            FormatError::InvalidField { field, value } => FormatError::InvalidField {
                field: *field,
                value: *value,
            },
            FormatError::Misaligned { offset, alignment } => FormatError::Misaligned {
                offset: *offset,
                alignment: *alignment,
            },
        }
    }
}

/// A number in lower-case hexadecimal with `width` digits or more.
pub open spec fn hex_text(v: nat, width: nat) -> Seq<char> {
    names::zero_padded(numeral::numeral(v, 16), width)
}

/// Four bytes as a list of two-digit numbers.
pub open spec fn magic_text(m: Seq<u8>) -> Seq<char> {
    "["@ + hex_text(m[0] as nat, 2) + ", "@ + hex_text(m[1] as nat, 2) + ", "@ + hex_text(
        m[2] as nat,
        2,
    ) + ", "@ + hex_text(m[3] as nat, 2) + "]"@
}

/// The message of an error.
pub open spec fn error_text(e: FormatError) -> Seq<char> {
    match e {
        FormatError::BadMagic { expected, got } => "bad magic: expected "@ + magic_text(expected@)
            + ", got "@ + magic_text(got@),
        FormatError::UnsupportedVersion { expected, got } => "unsupported version: expected "@
            + numeral::numeral(expected as nat, 10) + ", got "@ + numeral::numeral(got as nat, 10),
        FormatError::UnexpectedEof { needed, got } => "unexpected eof: needed "@ + numeral::numeral(
            needed as nat,
            10,
        ) + ", got "@ + numeral::numeral(got as nat, 10),
        FormatError::CrcMismatch { expected, computed } => "crc mismatch: expected "@ + hex_text(
            expected as nat,
            8,
        ) + ", computed "@ + hex_text(computed as nat, 8),
        FormatError::InvalidField { field, value } => "invalid field "@ + field@ + ": "@
            + numeral::numeral(value as nat, 10),
        FormatError::Misaligned { offset, alignment } => "misaligned: offset "@ + numeral::numeral(
            offset as nat,
            10,
        ) + " not aligned to "@ + numeral::numeral(alignment as nat, 10),
    }
}

fn append_decimal(s: &mut String, v: u64)
    ensures
        final(s)@ == old(s)@ + numeral::numeral(v as nat, 10),
{
    let digits: String = text::string_of(&numeral::numeral_chars(v, 10));
    s.append(digits.as_str());
}

fn append_hex(s: &mut String, v: u64, width: usize)
    ensures
        final(s)@ == old(s)@ + hex_text(v as nat, width as nat),
{
    let digits: String = text::string_of(&names::padded_numeral(v, width, 16));
    s.append(digits.as_str());
}

fn append_magic(s: &mut String, m: &[u8; 4])
    ensures
        final(s)@ == old(s)@ + magic_text(m@),
{
    s.append("[");
    append_hex(s, m[0] as u64, 2);
    s.append(", ");
    append_hex(s, m[1] as u64, 2);
    s.append(", ");
    append_hex(s, m[2] as u64, 2);
    s.append(", ");
    append_hex(s, m[3] as u64, 2);
    s.append("]");
    assert(s@ =~= old(s)@ + magic_text(m@));
}

impl FormatError {
    /// The message that tells a user what is wrong.
    pub fn to_string(&self) -> (r: String)
        ensures
            r@ == error_text(*self),
    {
        let mut s: String = String::new();
        match self {
            FormatError::BadMagic { expected, got } => {
                s.append("bad magic: expected ");
                append_magic(&mut s, expected);
                s.append(", got ");
                append_magic(&mut s, got);
            },
            FormatError::UnsupportedVersion { expected, got } => {
                s.append("unsupported version: expected ");
                append_decimal(&mut s, *expected as u64);
                s.append(", got ");
                append_decimal(&mut s, *got as u64);
            },
            FormatError::UnexpectedEof { needed, got } => {
                s.append("unexpected eof: needed ");
                append_decimal(&mut s, *needed as u64);
                s.append(", got ");
                append_decimal(&mut s, *got as u64);
            },
            FormatError::CrcMismatch { expected, computed } => {
                s.append("crc mismatch: expected ");
                append_hex(&mut s, *expected as u64, 8);
                s.append(", computed ");
                append_hex(&mut s, *computed as u64, 8);
            },
            FormatError::InvalidField { field, value } => {
                s.append("invalid field ");
                s.append(field);
                s.append(": ");
                append_decimal(&mut s, *value);
            },
            FormatError::Misaligned { offset, alignment } => {
                s.append("misaligned: offset ");
                append_decimal(&mut s, *offset as u64);
                s.append(" not aligned to ");
                append_decimal(&mut s, *alignment as u64);
            },
        }
        assert(s@ =~= error_text(*self));
        s
    }
}

/// Calls `std::io::Error::new` with the kind `InvalidData` and a message. An
/// `std::io::Error` is opaque here, so nothing is stated of it.
#[verifier::external_body]
fn invalid_data(message: String) -> (r: std::io::Error) {
    std::io::Error::new(std::io::ErrorKind::InvalidData, message)
}

impl From<FormatError> for std::io::Error {
    fn from(e: FormatError) -> (r: Self) {
        invalid_data(e.to_string())
    }
}

impl vstd::std_specs::convert::FromSpecImpl<FormatError> for std::io::Error {
    open spec fn obeys_from_spec() -> bool {
        false
    }

    open spec fn from_spec(e: FormatError) -> std::io::Error {
        arbitrary()
    }
}

/// Why stored data could not be read.
#[derive(Debug, PartialEq)]
pub enum DataError {
    /// A template has no room for its part count.
    TemplateTooShort,
    /// The tag of a template part is missing.
    PartTagMissing,
    /// The length of a literal is missing.
    LiteralLenMissing,
    /// The bytes of a literal are missing.
    LiteralTruncated,
    /// The tag of a template part is unknown.
    UnknownPartTag,
    /// A chunk ends too early.
    ChunkTruncated,
    /// The service table of a chunk has an unknown layout.
    UnknownServiceMode,
    /// A chunk states two different record counts.
    RecordCountMismatch,
    /// A record of a chunk refers to a service that is not in its table.
    ServiceIndexOutOfRange,
    /// The encoded parameters of a record are malformed.
    ParamsMalformed,
    /// A segment file is too short.
    SegmentTooShort,
    /// A table of a segment reaches beyond the file.
    SegmentTruncated,
    /// The data of a chunk reaches beyond the file.
    ChunkOutOfBounds,
    /// A segment file could not be read.
    SegmentMissing,
    /// The manifest does not start with its magic number.
    BadManifestMagic,
    /// The manifest cannot be read.
    ManifestMalformed,
    /// A compressed batch ends too early.
    BatchTruncated,
    /// A record of a compressed batch is malformed.
    BatchRecordMalformed,
    /// Compressing or decompressing failed.
    Compression,
    /// A segment of more than one chunk cannot have chunks without lines.
    EmptyChunks,
    /// No segment number is left.
    SegmentNumbersExhausted,
    /// A structure of the format is wrong.
    Format(FormatError),
}

impl DataError {
    /// Whether the data ends too early.
    pub fn is_eof(&self) -> (r: bool)
        ensures
            r == error_is_eof(*self),
    {
        match self {
            DataError::TemplateTooShort => true,
            DataError::PartTagMissing => true,
            DataError::LiteralLenMissing => true,
            DataError::LiteralTruncated => true,
            DataError::ChunkTruncated => true,
            DataError::BatchTruncated => true,
            _ => false,
        }
    }
}

/// The data ends too early.
pub open spec fn error_is_eof(e: DataError) -> bool {
    ||| e is TemplateTooShort
    ||| e is PartTagMissing
    ||| e is LiteralLenMissing
    ||| e is LiteralTruncated
    ||| e is ChunkTruncated
    ||| e is BatchTruncated
}

} // verus!
