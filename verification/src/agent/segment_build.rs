//! Making a segment file from its planned chunks:
//!
//! ```text
//! header           64 bytes
//! pattern table
//! dictionary       if the segment has one
//! chunk table      32 bytes for each chunk
//! chunk summaries  80 bytes for each chunk
//! zero bytes       up to a multiple of 4096
//! chunk data       one compressed chunk after another
//! footer           8 bytes
//! ```

use crate::agent::codec;
use crate::agent::compressor;
use crate::agent::index;
use crate::agent::segment_plan::Plan;
use crate::shared::bytes;
use crate::shared::chunk;
use crate::shared::chunk::{ChunkEntry, ChunkSummary};
use crate::shared::crc;
use crate::shared::error::DataError;
use crate::shared::footer;
use crate::shared::footer::SegmentFooter;
use crate::shared::header;
use crate::shared::header::{SegmentHeader, FORMAT_VERSION_V2};
use crate::shared::lines;
use crate::shared::names;
use vstd::prelude::*;

verus! {

// ---------- dictionaries ----------

/// The total length of the first `n` byte strings.
pub open spec fn sum_len(ds: Seq<Seq<u8>>, n: nat) -> nat
    decreases n,
{
    if n == 0 {
        0
    } else {
        sum_len(ds, (n - 1) as nat) + ds[n - 1].len()
    }
}

/// From how many of the chunks a dictionary is to be made, and how large it may
/// become: twice the mean sample or a twentieth of all samples, but at most 16
/// KiB and at least 1 KiB. Nothing where there are fewer than two chunks or no
/// samples are wanted.
pub open spec fn dict_request(bs: Seq<Seq<u8>>, samples: nat) -> Option<(nat, nat)> {
    if bs.len() < 2 || samples == 0 {
        None
    } else {
        let m: nat = if samples < bs.len() {
            samples
        } else {
            bs.len()
        };
        let total: nat = sum_len(bs, m);
        let a: nat = 2 * (total / m);
        let b: nat = total / 20;
        let c: nat = if a < b {
            a
        } else {
            b
        };
        let d: nat = if c < 16384 {
            c
        } else {
            16384
        };
        Some(
            (
                m,
                if d < 1024 {
                    1024
                } else {
                    d
                },
            ),
        )
    }
}

/// From how many of the chunks a dictionary is to be made, and how large it may
/// become.
pub fn plan_dict(binaries: &Vec<Vec<u8>>, sample_chunks: usize) -> (r: Option<(usize, usize)>)
    ensures
        match r {
            Some((m, max)) => dict_request(
                lines::byte_lists(binaries@),
                sample_chunks as nat,
            ) == Some((m as nat, max as nat)) && 0 < m <= binaries@.len() && 1024 <= max <= 16384,
            None => dict_request(lines::byte_lists(binaries@), sample_chunks as nat) is None,
        },
{
    let ghost bs = lines::byte_lists(binaries@);
    if binaries.len() < 2 || sample_chunks == 0 {
        return None;
    }
    let m: usize = if sample_chunks < binaries.len() {
        sample_chunks
    } else {
        binaries.len()
    };
    let mut total: u128 = 0;
    let mut i: usize = 0;
    while i < m
        invariant
            i <= m <= binaries@.len(),
            bs == lines::byte_lists(binaries@),
            total == sum_len(bs, i as nat),
            total <= 0xffff_ffff_ffff_ffff * i,
        decreases m - i,
    {
        assert(bs[i as int] == binaries@[i as int]@);
        total = total + binaries[i].len() as u128;
        i += 1;
    }
    assert(total / m as u128 <= 0xffff_ffff_ffff_ffff) by (nonlinear_arith)
        requires
            m > 0,
            total <= 0xffff_ffff_ffff_ffff * m,
    ;
    let a: u128 = 2 * (total / m as u128);
    let b: u128 = total / 20;
    let c: u128 = if a < b {
        a
    } else {
        b
    };
    let d: u128 = if c < 16384 {
        c
    } else {
        16384
    };
    let max: usize = if d < 1024 {
        1024
    } else {
        d as usize
    };
    Some((m, max))
}

/// What is kept of a training: the dictionary, unless it is empty.
pub open spec fn kept(trained: Option<Seq<u8>>) -> Option<Seq<u8>> {
    match trained {
        Some(d) => if d.len() > 0 {
            Some(d)
        } else {
            None
        },
        None => None,
    }
}

/// The dictionary to use after a training that ended with `trained`.
pub fn keep_dict(trained: Result<Vec<u8>, std::io::Error>) -> (r: Option<Vec<u8>>)
    ensures
        compressor::owned_dict(r) == kept(codec::trained_bytes(trained)),
{
    match trained {
        Ok(d) => if d.len() > 0 {
            Some(d)
        } else {
            None
        },
        Err(_) => None,
    }
}

/// `dict` is what is kept of an outcome that zstd may have for these samples and
/// this largest size.
pub open spec fn dict_from(samples: Seq<Seq<u8>>, max_size: nat, dict: Option<Seq<u8>>) -> bool {
    exists|t: Option<Seq<u8>>| #[trigger] codec::may_train(samples, max_size, t) && dict == kept(t)
}

/// `dict` is what a training for chunks with these bytes gives: none where none
/// is to be made, else one from the first chunks and the largest size that are
/// requested.
pub open spec fn dict_made(bs: Seq<Seq<u8>>, samples: nat, dict: Option<Seq<u8>>) -> bool {
    match dict_request(bs, samples) {
        None => dict is None,
        Some((m, max)) => dict_from(bs.take(m as int), max, dict),
    }
}

/// Makes a dictionary for the chunks of a segment. There is none where there
/// are fewer than two chunks or no samples are wanted; else zstd is given the
/// first chunks, as many as are wanted, and what it makes of them is kept unless
/// it is empty or zstd fails. Which of its possible outcomes zstd has is left
/// open.
pub fn train_segment_dict(binaries: &Vec<Vec<u8>>, sample_chunks: usize) -> (r: Option<Vec<u8>>)
    ensures
        dict_made(
            lines::byte_lists(binaries@),
            sample_chunks as nat,
            compressor::owned_dict(r),
        ),
{
    match plan_dict(binaries, sample_chunks) {
        None => None,
        Some((m, max)) => {
            let samples: &[Vec<u8>] = vstd::slice::slice_subrange(binaries.as_slice(), 0, m);
            let trained: Result<Vec<u8>, std::io::Error> = codec::train_dictionary(samples, max);
            assert(lines::byte_lists(samples@) =~= lines::byte_lists(binaries@).take(m as int));
            keep_dict(trained)
        },
    }
}

// ---------- layout ----------

/// The compressed forms of the first `n` chunks; nothing where one of them
/// cannot be compressed.
pub open spec fn all_packed(
    bs: Seq<Seq<u8>>,
    level: i32,
    dict: Option<Seq<u8>>,
    n: nat,
) -> Option<Seq<Seq<u8>>>
    decreases n,
{
    if n == 0 {
        Some(Seq::empty())
    } else {
        match (all_packed(bs, level, dict, (n - 1) as nat), codec::packed(bs[n - 1], level, dict)) {
            (Some(a), Some(b)) => Some(a.push(b)),
            _ => None,
        }
    }
}

/// The bytes of the first `n` table entries.
pub open spec fn entries_bytes(es: Seq<ChunkEntry>, n: nat) -> Seq<u8>
    decreases n,
{
    if n == 0 {
        Seq::empty()
    } else {
        entries_bytes(es, (n - 1) as nat) + chunk::entry_bytes(es[n - 1])
    }
}

/// The bytes of the first `n` summaries.
pub open spec fn summaries_bytes(ss: Seq<ChunkSummary>, n: nat) -> Seq<u8>
    decreases n,
{
    if n == 0 {
        Seq::empty()
    } else {
        summaries_bytes(ss, (n - 1) as nat) + chunk::summary_bytes(ss[n - 1])
    }
}

/// The first `n` byte strings, one after another.
pub open spec fn flat(ds: Seq<Seq<u8>>, n: nat) -> Seq<u8>
    decreases n,
{
    if n == 0 {
        Seq::empty()
    } else {
        flat(ds, (n - 1) as nat) + ds[n - 1]
    }
}

/// Where the summaries start.
pub open spec fn summaries_at(table_len: nat, dict_len: nat, n: nat) -> nat {
    64 + table_len + dict_len + 32 * n
}

/// Where the chunk data starts.
pub open spec fn data_at(table_len: nat, dict_len: nat, n: nat) -> nat {
    names::aligned(summaries_at(table_len, dict_len, n) + 80 * n, 4096)
}

/// The reserved area of the header.
pub open spec fn reserved_area(
    pattern_count: nat,
    table_len: nat,
    dict_len: nat,
    n: nat,
) -> Seq<u8> {
    let dict_at: nat = if dict_len > 0 {
        64 + table_len
    } else {
        0
    };
    bytes::le_bytes((pattern_count as u16) as nat, 2) + bytes::le_bytes(
        ((table_len as u32) % 0x1_0000) as nat,
        2,
    ) + bytes::le_bytes((summaries_at(table_len, dict_len, n) as u32) as nat, 4) + bytes::le_bytes(
        (data_at(table_len, dict_len, n) as u32) as nat,
        4,
    ) + bytes::le_bytes((dict_at as u32) as nat, 4) + bytes::le_bytes(
        (dict_len as u32) as nat,
        4,
    ) + seq![SegmentHeader::FEATURE_ENHANCED_CHUNK, 0u8] + bytes::le_bytes(
        ((table_len as u32) / 0x1_0000) as nat,
        2,
    ) + Seq::new(16, |i: int| 0u8)
}

/// `h` is the header of a segment.
pub open spec fn is_head(h: SegmentHeader, id: u32, created_at: u64, n: nat, reserved: Seq<u8>)
    -> bool {
    &&& header::header_valid(h)
    &&& h.version == FORMAT_VERSION_V2
    &&& h.flags == 0
    &&& h.chunk_count == n as u16
    &&& h.created_at == created_at
    &&& h.segment_id == id
    &&& h.reserved@ == reserved
}

/// Table entries with offsets and sizes.
pub open spec fn full_entry(
    e: ChunkEntry,
    bs: Seq<Seq<u8>>,
    ds: Seq<Seq<u8>>,
    c: int,
) -> ChunkEntry {
    ChunkEntry {
        offset: sum_len(ds, c as nat) as u32,
        compressed_sz: ds[c].len() as u32,
        original_sz: bs[c].len() as u32,
        line_count: e.line_count,
        min_ts: e.min_ts,
        max_ts: e.max_ts,
    }
}

/// All table entries with offsets and sizes.
pub open spec fn full_entries(es: Seq<ChunkEntry>, bs: Seq<Seq<u8>>, ds: Seq<Seq<u8>>) -> Seq<
    ChunkEntry,
> {
    Seq::new(es.len(), |c: int| full_entry(es[c], bs, ds, c))
}

/// Zero bytes.
pub open spec fn zeros(n: nat) -> Seq<u8> {
    Seq::new(n, |i: int| 0u8)
}

/// What stands between the header and the footer.
pub open spec fn middle(p: Plan, dict: Seq<u8>, ds: Seq<Seq<u8>>) -> Seq<u8> {
    let n: nat = p.entries@.len();
    let front: nat = summaries_at(p.table@.len(), dict.len(), n) + 80 * n;
    p.table@ + dict + entries_bytes(
        full_entries(p.entries@, lines::byte_lists(p.binaries@), ds),
        n,
    ) + summaries_bytes(p.summaries@, n) + zeros(
        (data_at(p.table@.len(), dict.len(), n) - front) as nat,
    ) + flat(ds, n)
}

/// `data` is the segment file of the plan, with the chunk data `ds`.
pub open spec fn is_segment(
    data: Seq<u8>,
    p: Plan,
    dict: Seq<u8>,
    ds: Seq<Seq<u8>>,
    id: u32,
    created_at: u64,
) -> bool {
    let n: nat = p.entries@.len();
    exists|h: SegmentHeader|
        {
            &&& #[trigger] is_head(
                h,
                id,
                created_at,
                n,
                reserved_area(p.pattern_count as nat, p.table@.len(), dict.len(), n),
            )
            &&& data == with_footer(header::header_bytes(h) + middle(p, dict, ds))
        }
}

/// Bytes with the footer behind them.
pub open spec fn with_footer(content: Seq<u8>) -> Seq<u8> {
    content + footer::footer_bytes(
        SegmentFooter { chunk_table_offset: 64, crc32: crc::crc_of(content) },
    )
}

/// The bytes of an optional dictionary; none without one.
pub open spec fn dict_or_empty(dict: Option<&[u8]>) -> Seq<u8> {
    match dict {
        Some(d) => d@,
        None => Seq::empty(),
    }
}

// ---------- assembling ----------

/// A segment file, and the total length of its chunks before and after they
/// were compressed.
pub struct Assembled {
    pub data: Vec<u8>,
    pub original_sz: u64,
    pub compressed_sz: u64,
}

proof fn lemma_all_packed_none(
    bs: Seq<Seq<u8>>,
    level: i32,
    dict: Option<Seq<u8>>,
    k: nat,
    n: nat,
)
    requires
        k <= n,
        all_packed(bs, level, dict, k) is None,
    ensures
        all_packed(bs, level, dict, n) is None,
    decreases n,
{
    if k < n {
        lemma_all_packed_none(bs, level, dict, k, (n - 1) as nat);
    }
}

/// Every chunk's data stands for the chunk.
pub open spec fn all_unpack(ds: Seq<Seq<u8>>, bs: Seq<Seq<u8>>, dict: Option<Seq<u8>>) -> bool {
    ds.len() == bs.len() && forall|c: int|
        0 <= c < ds.len() ==> codec::unpacked(#[trigger] ds[c], dict) == Some(bs[c])
}

fn pack_all(binaries: &Vec<Vec<u8>>, level: i32, dict: Option<&[u8]>) -> (r: Result<
    Vec<Vec<u8>>,
    DataError,
>)
    ensures
        match r {
            Ok(ds) => all_packed(
                lines::byte_lists(binaries@),
                level,
                codec::dict_bytes(dict),
                binaries@.len(),
            ) == Some(lines::byte_lists(ds@)) && all_unpack(
                lines::byte_lists(ds@),
                lines::byte_lists(binaries@),
                codec::dict_bytes(dict),
            ),
            Err(e) => e == DataError::Compression && all_packed(
                lines::byte_lists(binaries@),
                level,
                codec::dict_bytes(dict),
                binaries@.len(),
            ) is None,
        },
{
    let ghost bs = lines::byte_lists(binaries@);
    let ghost dv = codec::dict_bytes(dict);
    let mut out: Vec<Vec<u8>> = Vec::new();
    let mut i: usize = 0;
    assert(lines::byte_lists(out@) =~= Seq::<Seq<u8>>::empty());
    while i < binaries.len()
        invariant
            i <= binaries@.len(),
            bs == lines::byte_lists(binaries@),
            dv == codec::dict_bytes(dict),
            out@.len() == i,
            all_packed(bs, level, dv, i as nat) == Some(lines::byte_lists(out@)),
            forall|c: int| 0 <= c < i ==> codec::unpacked((#[trigger] out@[c])@, dv) == Some(bs[c]),
        decreases binaries@.len() - i,
    {
        assert(bs[i as int] == binaries@[i as int]@);
        match codec::compress_with_dict(binaries[i].as_slice(), level, dict) {
            Err(e) => {
                proof {
                    lemma_all_packed_none(bs, level, dv, (i + 1) as nat, bs.len());
                }
                return Err(e);
            },
            Ok(v) => {
                let ghost before = lines::byte_lists(out@);
                let ghost vv = v@;
                out.push(v);
                assert(lines::byte_lists(out@) =~= before.push(vv));
            },
        }
        i += 1;
    }
    Ok(out)
}

fn push_zeros(buf: &mut Vec<u8>, n: usize)
    ensures
        final(buf)@ == old(buf)@ + zeros(n as nat),
{
    let mut i: usize = 0;
    assert(buf@ =~= old(buf)@ + zeros(0));
    while i < n
        invariant
            i <= n,
            buf@ == old(buf)@ + zeros(i as nat),
        decreases n - i,
    {
        buf.push(0u8);
        i += 1;
        assert(buf@ =~= old(buf)@ + zeros(i as nat));
    }
}

fn make_head(
    id: u32,
    created_at: u64,
    n: usize,
    pattern_count: usize,
    table_len: usize,
    dict_len: usize,
) -> (r: (SegmentHeader, usize))
    ensures
        is_head(
            r.0,
            id,
            created_at,
            n as nat,
            reserved_area(pattern_count as nat, table_len as nat, dict_len as nat, n as nat),
        ),
        r.1 == data_at(table_len as nat, dict_len as nat, n as nat) - (summaries_at(
            table_len as nat,
            dict_len as nat,
            n as nat,
        ) + 80 * n as nat),
        summaries_at(table_len as nat, dict_len as nat, n as nat) + 80 * n as nat <= data_at(
            table_len as nat,
            dict_len as nat,
            n as nat,
        ),
{
    let first: u128 = 64 + table_len as u128 + dict_len as u128 + 32 * n as u128;
    let front: u128 = first + 80 * n as u128;
    let data: u128 = (front + 4095) / 4096 * 4096;
    assert(data == data_at(table_len as nat, dict_len as nat, n as nat));
    let t32: u32 = table_len as u32;
    let dict_at: u128 = if dict_len > 0 {
        64 + table_len as u128
    } else {
        0
    };
    let mut h: SegmentHeader = SegmentHeader::with_time(
        FORMAT_VERSION_V2,
        id,
        n as u16,
        created_at,
    );
    let ghost prefix = header::header_prefix(h);
    h.set_v2_meta(
        pattern_count as u16,
        (t32 % 0x1_0000) as u16,
        first as u32,
        data as u32,
    );
    h.set_extended_meta(
        dict_at as u32,
        dict_len as u32,
        SegmentHeader::FEATURE_ENHANCED_CHUNK,
        (t32 / 0x1_0000) as u16,
    );
    proof {
        assert(header::header_prefix(h) == prefix);
        bytes::lemma_le_bytes_len((pattern_count as u16) as nat, 2);
        bytes::lemma_le_bytes_len(((table_len as u32) % 0x1_0000) as nat, 2);
        bytes::lemma_le_bytes_len((first as u32) as nat, 4);
        bytes::lemma_le_bytes_len((data as u32) as nat, 4);
        assert(h.reserved@ =~= reserved_area(
            pattern_count as nat,
            table_len as nat,
            dict_len as nat,
            n as nat,
        ));
    }
    (h, (data - front) as usize)
}

/// Makes the segment file of a plan.
pub fn assemble(p: &Plan, dict: Option<&[u8]>, level: i32, id: u32, created_at: u64) -> (r: Result<
    Assembled,
    DataError,
>)
    requires
        p.summaries@.len() == p.entries@.len(),
        p.binaries@.len() == p.entries@.len(),
    ensures
        ({
            let bs: Seq<Seq<u8>> = lines::byte_lists(p.binaries@);
            match (r, all_packed(bs, level, codec::dict_bytes(dict), bs.len())) {
                (Ok(a), Some(ds)) => {
                    &&& is_segment(a.data@, *p, dict_or_empty(dict), ds, id, created_at)
                    &&& a.original_sz == index::clamped64(sum_len(bs, bs.len()))
                    &&& a.compressed_sz == index::clamped64(sum_len(ds, ds.len()))
                    &&& all_unpack(ds, bs, codec::dict_bytes(dict))
                },
                (Err(e), None) => e == DataError::Compression,
                _ => false,
            }
        }),
{
    let ghost bs = lines::byte_lists(p.binaries@);
    let packed: Vec<Vec<u8>> = match pack_all(&p.binaries, level, dict) {
        Ok(v) => v,
        Err(e) => {
            return Err(e);
        },
    };
    let ghost ds = lines::byte_lists(packed@);
    let ghost dv = dict_or_empty(dict);
    let n: usize = p.entries.len();
    let mut dict_copy: Vec<u8> = Vec::new();
    if let Some(d) = dict {
        bytes::push_bytes(&mut dict_copy, d);
    }
    assert(dict_copy@ =~= dv);
    let (h, pad) = make_head(id, created_at, n, p.pattern_count, p.table.len(), dict_copy.len());
    let mut data: Vec<u8> = Vec::new();
    bytes::push_bytes(&mut data, h.to_bytes().as_slice());
    bytes::push_bytes(&mut data, p.table.as_slice());
    bytes::push_bytes(&mut data, dict_copy.as_slice());
    let ghost fs = full_entries(p.entries@, bs, ds);
    let ghost head = header::header_bytes(h) + p.table@ + dv;
    assert(data@ =~= head);
    let mut original: u64 = 0;
    let mut compressed: u64 = 0;
    let mut offset: u128 = 0;
    let mut i: usize = 0;
    assert(data@ =~= head + entries_bytes(fs, 0));
    while i < n
        invariant
            i <= n,
            n == p.entries@.len(),
            n == p.binaries@.len(),
            n == packed@.len(),
            bs == lines::byte_lists(p.binaries@),
            ds == lines::byte_lists(packed@),
            fs == full_entries(p.entries@, bs, ds),
            data@ == head + entries_bytes(fs, i as nat),
            offset == sum_len(ds, i as nat),
            offset <= 0xffff_ffff_ffff_ffff * i,
            original == index::clamped64(sum_len(bs, i as nat)),
            compressed == index::clamped64(sum_len(ds, i as nat)),
        decreases n - i,
    {
        assert(bs[i as int] == p.binaries@[i as int]@);
        assert(ds[i as int] == packed@[i as int]@);
        let e: ChunkEntry = p.entries[i];
        let original_len: usize = p.binaries[i].len();
        let packed_len: usize = packed[i].len();
        let full: ChunkEntry = ChunkEntry::new(
            offset as u32,
            packed_len as u32,
            original_len as u32,
            e.line_count,
            e.min_ts,
            e.max_ts,
        );
        assert(full == fs[i as int]);
        bytes::push_bytes(&mut data, full.to_bytes().as_slice());
        offset = offset + packed_len as u128;
        original = index::add_clamped(original, original_len as u64);
        compressed = index::add_clamped(compressed, packed_len as u64);
        i += 1;
        assert(data@ =~= head + entries_bytes(fs, i as nat));
    }
    let ghost upto = head + entries_bytes(fs, n as nat);
    let mut j: usize = 0;
    assert(data@ =~= upto + summaries_bytes(p.summaries@, 0));
    while j < n
        invariant
            j <= n,
            n == p.summaries@.len(),
            data@ == upto + summaries_bytes(p.summaries@, j as nat),
        decreases n - j,
    {
        bytes::push_bytes(&mut data, p.summaries[j].to_bytes().as_slice());
        j += 1;
        assert(data@ =~= upto + summaries_bytes(p.summaries@, j as nat));
    }
    push_zeros(&mut data, pad);
    let ghost padded = upto + summaries_bytes(p.summaries@, n as nat) + zeros(pad as nat);
    let mut k: usize = 0;
    assert(data@ =~= padded + flat(ds, 0));
    while k < n
        invariant
            k <= n,
            n == packed@.len(),
            ds == lines::byte_lists(packed@),
            data@ == padded + flat(ds, k as nat),
        decreases n - k,
    {
        assert(ds[k as int] == packed@[k as int]@);
        bytes::push_bytes(&mut data, packed[k].as_slice());
        k += 1;
        assert(data@ =~= padded + flat(ds, k as nat));
    }
    let ghost content = header::header_bytes(h) + middle(*p, dv, ds);
    assert(data@ =~= content);
    let mut f: SegmentFooter = SegmentFooter::new(64);
    f.crc32 = crc::crc32(data.as_slice());
    bytes::push_bytes(&mut data, f.to_bytes().as_slice());
    assert(data@ =~= with_footer(content));
    proof {
        assert(is_head(
            h,
            id,
            created_at,
            n as nat,
            reserved_area(p.pattern_count as nat, p.table@.len(), dv.len(), n as nat),
        ));
    }
    Ok(Assembled { data, original_sz: original, compressed_sz: compressed })
}

} // verus!
