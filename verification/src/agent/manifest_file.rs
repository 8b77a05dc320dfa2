//! The manifest file: its magic number, a version byte and the entries.

use crate::shared::bytes;
use crate::shared::error::DataError;
use crate::shared::manifest;
use crate::shared::manifest::{ManifestEntry, MIDX_MAGIC};
use vstd::prelude::*;

verus! {

/// The fields of a manifest entry: segment, first and last time, line count,
/// path hash, flags, summary.
pub type EntryRow = (u32, u64, u64, u32, u64, u32, [u8; 28]);

/// The bytes of a row.
pub open spec fn row_bytes(r: EntryRow) -> Seq<u8> {
    bytes::le_bytes(r.0 as nat, 4) + bytes::le_bytes(r.1 as nat, 8) + bytes::le_bytes(
        r.2 as nat,
        8,
    ) + bytes::le_bytes(r.3 as nat, 4) + bytes::le_bytes(r.4 as nat, 8) + bytes::le_bytes(
        r.5 as nat,
        4,
    ) + r.6@
}

/// The bytes of the first `n` rows.
pub open spec fn rows_body(rows: Seq<EntryRow>, n: nat) -> Seq<u8>
    decreases n,
{
    if n == 0 {
        Seq::empty()
    } else {
        rows_body(rows, (n - 1) as nat) + row_bytes(rows[n - 1])
    }
}

/// The bytes of a list of rows: their number in eight bytes, then the rows.
pub open spec fn rows_bytes(rows: Seq<EntryRow>) -> Seq<u8> {
    bytes::le_bytes(rows.len(), 8) + rows_body(rows, rows.len())
}

/// Calls `bincode::serialize` on a list of rows: the number of rows in eight
/// bytes, then each row field by field, all numbers with the low byte first.
#[verifier::external_body]
fn encode_rows(rows: &Vec<EntryRow>) -> (r: Vec<u8>)
    ensures
        r@ == rows_bytes(rows@),
{
    bincode::serialize(rows).unwrap_or_default()
}

/// Calls `bincode::deserialize` for a list of rows. It reads the number of rows
/// and that many rows, ignores what follows, and fails if the data ends before.
#[verifier::external_body]
fn decode_rows(data: &[u8]) -> (r: Option<Vec<EntryRow>>)
    ensures
        match r {
            Some(rows) => rows_bytes(rows@).len() <= data@.len() && data@.take(
                rows_bytes(rows@).len() as int,
            ) == rows_bytes(rows@),
            None => data@.len() < 8 || data@.len() < 8 + 64 * bytes::le_value(data@.take(8)),
        },
{
    bincode::deserialize(data).ok()
}

/// The bytes of the first `n` entries.
pub open spec fn entries_body(es: Seq<ManifestEntry>, n: nat) -> Seq<u8>
    decreases n,
{
    if n == 0 {
        Seq::empty()
    } else {
        entries_body(es, (n - 1) as nat) + manifest::manifest_entry_bytes(es[n - 1])
    }
}

/// The bytes of a manifest file.
pub open spec fn manifest_bytes(es: Seq<ManifestEntry>) -> Seq<u8> {
    manifest::midx() + seq![1u8] + bytes::le_bytes(es.len(), 8) + entries_body(es, es.len())
}

/// The entries that a manifest file holds, whatever its version byte.
pub open spec fn manifest_reads(data: Seq<u8>, es: Seq<ManifestEntry>) -> bool {
    let body: Seq<u8> = bytes::le_bytes(es.len(), 8) + entries_body(es, es.len());
    &&& data.len() >= 5
    &&& data.take(4) == manifest::midx()
    &&& data.len() >= 5 + body.len()
    &&& data.subrange(5, (5 + body.len()) as int) == body
}

/// `e` is what keeps a manifest file from being read.
pub open spec fn manifest_error(data: Seq<u8>, e: DataError) -> bool {
    if data.len() >= 4 && data.take(4) != manifest::midx() {
        e == DataError::BadManifestMagic
    } else {
        &&& e == DataError::ManifestMalformed
        &&& data.len() < 13 || data.len() < 13 + 64 * bytes::le_value(data.subrange(5, 13))
    }
}

proof fn lemma_bodies(rows: Seq<EntryRow>, es: Seq<ManifestEntry>, n: nat)
    requires
        n <= rows.len(),
        n <= es.len(),
        forall|i: int|
            0 <= i < n ==> row_bytes(#[trigger] rows[i]) == manifest::manifest_entry_bytes(es[i]),
    ensures
        rows_body(rows, n) == entries_body(es, n),
    decreases n,
{
    if n > 0 {
        lemma_bodies(rows, es, (n - 1) as nat);
        assert(row_bytes(rows[n - 1]) == manifest::manifest_entry_bytes(es[n - 1]));
    }
}

/// The bytes of a manifest file.
pub fn write_manifest(es: &Vec<ManifestEntry>) -> (r: Vec<u8>)
    ensures
        r@ == manifest_bytes(es@),
{
    let mut rows: Vec<EntryRow> = Vec::new();
    let mut i: usize = 0;
    while i < es.len()
        invariant
            i <= es@.len(),
            rows@.len() == i,
            forall|k: int|
                0 <= k < i ==> row_bytes(#[trigger] rows@[k]) == manifest::manifest_entry_bytes(
                    es@[k],
                ),
        decreases es@.len() - i,
    {
        let e: ManifestEntry = es[i];
        rows.push(
            (e.segment_id, e.min_ts, e.max_ts, e.line_count, e.path_hash, e.flags, e.reserved),
        );
        i += 1;
    }
    proof {
        lemma_bodies(rows@, es@, es@.len());
    }
    let mut out: Vec<u8> = Vec::new();
    bytes::push_bytes(&mut out, MIDX_MAGIC);
    assert(MIDX_MAGIC@ =~= manifest::midx());
    out.push(1u8);
    let body: Vec<u8> = encode_rows(&rows);
    bytes::push_bytes(&mut out, body.as_slice());
    assert(out@ =~= manifest_bytes(es@));
    out
}

/// Reads a manifest file.
pub fn read_manifest(data: &[u8]) -> (r: Result<Vec<ManifestEntry>, DataError>)
    ensures
        match r {
            Ok(es) => manifest_reads(data@, es@),
            Err(e) => manifest_error(data@, e),
        },
{
    if data.len() < 4 {
        return Err(DataError::ManifestMalformed);
    }
    let m: &'static [u8; 4] = MIDX_MAGIC;
    if data[0] != m[0] || data[1] != m[1] || data[2] != m[2] || data[3] != m[3] {
        assert(data@.take(4)[0] == data@[0] && data@.take(4)[1] == data@[1] && data@.take(4)[2]
            == data@[2] && data@.take(4)[3] == data@[3]);
        return Err(DataError::BadManifestMagic);
    }
    assert(data@.take(4) =~= manifest::midx());
    if data.len() < 5 {
        return Err(DataError::ManifestMalformed);
    }
    let rest: &[u8] = vstd::slice::slice_subrange(data, 5, data.len());
    match decode_rows(rest) {
        None => {
            proof {
                if data@.len() >= 13 {
                    assert(rest@.take(8) =~= data@.subrange(5, 13));
                }
            }
            Err(DataError::ManifestMalformed)
        },
        Some(rows) => {
            let mut es: Vec<ManifestEntry> = Vec::new();
            let mut i: usize = 0;
            while i < rows.len()
                invariant
                    i <= rows@.len(),
                    es@.len() == i,
                    forall|k: int|
                        0 <= k < i ==> row_bytes(#[trigger] rows@[k])
                            == manifest::manifest_entry_bytes(es@[k]),
                decreases rows@.len() - i,
            {
                let row: EntryRow = rows[i];
                es.push(
                    ManifestEntry {
                        segment_id: row.0,
                        min_ts: row.1,
                        max_ts: row.2,
                        line_count: row.3,
                        path_hash: row.4,
                        flags: row.5,
                        reserved: row.6,
                    },
                );
                i += 1;
            }
            proof {
                lemma_bodies(rows@, es@, es@.len());
                let body: Seq<u8> = rows_bytes(rows@);
                assert(data@.subrange(5, (5 + body.len()) as int) =~= rest@.take(
                    body.len() as int,
                ));
            }
            Ok(es)
        },
    }
}

pub proof fn lemma_entries_body_at(es: Seq<ManifestEntry>, n: nat, i: int)
    requires
        0 <= i < n <= es.len(),
    ensures
        entries_body(es, n).len() == 64 * n,
        entries_body(es, n).subrange(64 * i, 64 * i + 64) == manifest::manifest_entry_bytes(es[i]),
    decreases n,
{
    let a: Seq<u8> = entries_body(es, (n - 1) as nat);
    let b: Seq<u8> = manifest::manifest_entry_bytes(es[n - 1]);
    manifest::lemma_manifest_entry_bytes(es[n - 1]);
    if n > 1 {
        lemma_entries_body_at(es, (n - 1) as nat, 0);
    }
    if i < n - 1 {
        lemma_entries_body_at(es, (n - 1) as nat, i);
        assert((a + b).subrange(64 * i, 64 * i + 64) =~= a.subrange(64 * i, 64 * i + 64));
    } else {
        assert((a + b).subrange(64 * i, 64 * i + 64) =~= b);
    }
}

/// A manifest file that can be read has nothing that keeps it from being read.
pub proof fn lemma_reads_no_error(data: Seq<u8>, es: Seq<ManifestEntry>)
    requires
        es.len() <= u64::MAX,
        manifest_reads(data, es),
    ensures
        forall|e: DataError| !#[trigger] manifest_error(data, e),
{
    let body: Seq<u8> = bytes::le_bytes(es.len(), 8) + entries_body(es, es.len());
    bytes::lemma_pow256();
    bytes::lemma_le_value_of_bytes(es.len(), 8);
    if es.len() > 0 {
        lemma_entries_body_at(es, es.len(), 0);
    }
    assert(data.subrange(5, 13) =~= data.subrange(5, (5 + body.len()) as int).subrange(0, 8));
    assert(body.subrange(0, 8) =~= bytes::le_bytes(es.len(), 8));
}

/// A manifest file gives back the entries written to it.
pub proof fn law_manifest_file_roundtrip(es: Seq<ManifestEntry>, back: Seq<ManifestEntry>)
    requires
        es.len() <= u64::MAX,
        back.len() <= u64::MAX,
        manifest_reads(manifest_bytes(es), back),
    ensures
        back.len() == es.len(),
        forall|i: int|
            0 <= i < es.len() ==> manifest::manifest_entry_bytes(#[trigger] back[i])
                == manifest::manifest_entry_bytes(es[i]),
{
    let data: Seq<u8> = manifest_bytes(es);
    let body: Seq<u8> = bytes::le_bytes(back.len(), 8) + entries_body(back, back.len());
    bytes::lemma_pow256();
    bytes::lemma_le_value_of_bytes(es.len(), 8);
    bytes::lemma_le_value_of_bytes(back.len(), 8);
    assert(data.subrange(5, 13) =~= bytes::le_bytes(es.len(), 8));
    assert(data.subrange(5, 13) =~= data.subrange(5, (5 + body.len()) as int).subrange(0, 8));
    assert(body.subrange(0, 8) =~= bytes::le_bytes(back.len(), 8));
    assert forall|i: int| 0 <= i < es.len() implies manifest::manifest_entry_bytes(
        #[trigger] back[i],
    ) == manifest::manifest_entry_bytes(es[i]) by {
        lemma_entries_body_at(es, es.len(), i);
        lemma_entries_body_at(back, back.len(), i);
        let a: Seq<u8> = entries_body(es, es.len());
        let b: Seq<u8> = entries_body(back, back.len());
        assert(a.subrange(64 * i, 64 * i + 64) =~= data.subrange(13 + 64 * i, 13 + 64 * i + 64));
        assert(b.subrange(64 * i, 64 * i + 64) =~= data.subrange(
            5,
            (5 + body.len()) as int,
        ).subrange(8 + 64 * i, 8 + 64 * i + 64));
        assert(data.subrange(13 + 64 * i, 13 + 64 * i + 64) =~= data.subrange(
            5,
            (5 + body.len()) as int,
        ).subrange(8 + 64 * i, 8 + 64 * i + 64));
    }
}

} // verus!
