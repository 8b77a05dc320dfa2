//! Zstandard compression, with or without a dictionary.

use crate::shared::error::DataError;
use crate::shared::lines;
use std::io::{Read, Write};
use vstd::prelude::*;

verus! {

/// The error of an input or output operation.
#[verifier::external_type_specification]
#[verifier::external_body]
pub struct ExIoError(std::io::Error);

/// What `zstd::encode_all` makes of `data` at `level`; nothing where it fails.
pub uninterp spec fn zstd_encoded(data: Seq<u8>, level: i32) -> Option<Seq<u8>>;

/// What `zstd::decode_all` makes of `data`; nothing where it fails.
pub uninterp spec fn zstd_decoded(data: Seq<u8>) -> Option<Seq<u8>>;

/// What zstd's stream encoder makes of `data` with a dictionary; nothing where
/// it fails.
pub uninterp spec fn zstd_encoded_with(data: Seq<u8>, level: i32, dict: Seq<u8>) -> Option<
    Seq<u8>,
>;

/// What zstd's stream decoder makes of `data` with a dictionary; nothing where
/// it fails.
pub uninterp spec fn zstd_decoded_with(data: Seq<u8>, dict: Seq<u8>) -> Option<Seq<u8>>;

/// Calls `zstd::encode_all`. The result depends on data and level alone, and
/// `zstd::decode_all` turns it into the data again. It is a zstd frame, so it is
/// not empty.
#[verifier::external_body]
fn zstd_encode(data: &[u8], level: i32) -> (r: Result<Vec<u8>, std::io::Error>)
    ensures
        r is Ok ==> zstd_encoded(data@, level) == Some(r->Ok_0@),
        r is Err ==> zstd_encoded(data@, level) is None,
        r is Ok ==> zstd_decoded(r->Ok_0@) == Some(data@),
        r is Ok ==> r->Ok_0@.len() > 0,
{
    zstd::encode_all(data, level)
}

/// Calls `zstd::decode_all`. The result depends on the data alone.
#[verifier::external_body]
fn zstd_decode(data: &[u8]) -> (r: Result<Vec<u8>, std::io::Error>)
    ensures
        r is Ok ==> zstd_decoded(data@) == Some(r->Ok_0@),
        r is Err ==> zstd_decoded(data@) is None,
{
    zstd::decode_all(data)
}

/// Writes the data through `zstd::stream::write::Encoder::with_dictionary`. The
/// result depends on data, level and dictionary alone, and the stream decoder
/// with the same dictionary turns it into the data again. It is a zstd frame,
/// so it is not empty.
#[verifier::external_body]
fn zstd_encode_with(data: &[u8], level: i32, dict: &[u8]) -> (r: Result<Vec<u8>, std::io::Error>)
    ensures
        r is Ok ==> zstd_encoded_with(data@, level, dict@) == Some(r->Ok_0@),
        r is Err ==> zstd_encoded_with(data@, level, dict@) is None,
        r is Ok ==> zstd_decoded_with(r->Ok_0@, dict@) == Some(data@),
        r is Ok ==> r->Ok_0@.len() > 0,
{
    let mut enc = zstd::stream::write::Encoder::with_dictionary(Vec::new(), level, dict)?;
    enc.write_all(data)?;
    enc.finish()
}

/// Reads the data through `zstd::stream::read::Decoder::with_dictionary` to its
/// end. The result depends on data and dictionary alone.
#[verifier::external_body]
fn zstd_decode_with(data: &[u8], dict: &[u8]) -> (r: Result<Vec<u8>, std::io::Error>)
    ensures
        r is Ok ==> zstd_decoded_with(data@, dict@) == Some(r->Ok_0@),
        r is Err ==> zstd_decoded_with(data@, dict@) is None,
{
    let mut dec = zstd::stream::read::Decoder::with_dictionary(data, dict)?;
    let mut out = Vec::new();
    dec.read_to_end(&mut out)?;
    Ok(out)
}

/// The bytes of an optional dictionary.
pub open spec fn dict_bytes(dict: Option<&[u8]>) -> Option<Seq<u8>> {
    match dict {
        None => None,
        Some(d) => Some(d@),
    }
}

/// The compressed form of `data`.
pub open spec fn packed(data: Seq<u8>, level: i32, dict: Option<Seq<u8>>) -> Option<Seq<u8>> {
    match dict {
        None => zstd_encoded(data, level),
        Some(d) => zstd_encoded_with(data, level, d),
    }
}

/// What compressed data stands for.
pub open spec fn unpacked(data: Seq<u8>, dict: Option<Seq<u8>>) -> Option<Seq<u8>> {
    match dict {
        None => zstd_decoded(data),
        Some(d) => zstd_decoded_with(data, d),
    }
}

/// Compresses data, with a dictionary if there is one. What comes out is what
/// `decompress_with_dict` turns back into the data.
pub fn compress_with_dict(data: &[u8], level: i32, dict: Option<&[u8]>) -> (r: Result<
    Vec<u8>,
    DataError,
>)
    ensures
        match r {
            Ok(v) => packed(data@, level, dict_bytes(dict)) == Some(v@) && unpacked(
                v@,
                dict_bytes(dict),
            ) == Some(data@) && v@.len() > 0,
            Err(e) => e == DataError::Compression && packed(data@, level, dict_bytes(dict)) is None,
        },
{
    let res: Result<Vec<u8>, std::io::Error> = match dict {
        None => zstd_encode(data, level),
        Some(d) => zstd_encode_with(data, level, d),
    };
    match res {
        Ok(v) => Ok(v),
        Err(_) => Err(DataError::Compression),
    }
}

/// Decompresses data, with a dictionary if there is one.
pub fn decompress_with_dict(data: &[u8], dict: Option<&[u8]>) -> (r: Result<Vec<u8>, DataError>)
    ensures
        match r {
            Ok(v) => unpacked(data@, dict_bytes(dict)) == Some(v@),
            Err(e) => e == DataError::Compression && unpacked(data@, dict_bytes(dict)) is None,
        },
{
    let res: Result<Vec<u8>, std::io::Error> = match dict {
        None => zstd_decode(data),
        Some(d) => zstd_decode_with(data, d),
    };
    match res {
        Ok(v) => Ok(v),
        Err(_) => Err(DataError::Compression),
    }
}

/// `zstd::dict::from_samples` may make `dict` of these samples for that largest
/// size; `None` stands for a failure. Several outcomes may be possible for the
/// same samples and size.
pub uninterp spec fn may_train(
    samples: Seq<Seq<u8>>,
    max_size: nat,
    dict: Option<Seq<u8>>,
) -> bool;

/// What training gave: a dictionary, or nothing where it failed.
pub open spec fn trained_bytes(r: Result<Vec<u8>, std::io::Error>) -> Option<Seq<u8>> {
    match r {
        Ok(d) => Some(d@),
        Err(_) => None,
    }
}

/// Calls `zstd::dict::from_samples`. The contract claims only that what comes
/// out is one of the outcomes possible for these samples and this size. Which
/// one it is, and whether training succeeds, is left open: zstd fills as much
/// memory as the allocator gave it.
#[verifier::external_body]
pub(crate) fn train_dictionary(samples: &[Vec<u8>], max_size: usize) -> (r: Result<
    Vec<u8>,
    std::io::Error,
>)
    requires
        max_size <= isize::MAX,
    ensures
        may_train(lines::byte_lists(samples@), max_size as nat, trained_bytes(r)),
{
    zstd::dict::from_samples(samples, max_size)
}

} // verus!
