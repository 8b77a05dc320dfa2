//! What stands where in a segment file.

use crate::agent::chunk_law;
use crate::agent::segment_build;
use crate::agent::segment_plan::Plan;
use crate::agent::segment_query;
use crate::shared::bytes;
use crate::shared::chunk;
use crate::shared::chunk::{ChunkEntry, ChunkSummary};
use crate::shared::crc;
use crate::shared::footer;
use crate::shared::footer::SegmentFooter;
use crate::shared::header;
use crate::shared::header::{SegmentHeader, FORMAT_VERSION_V2};
use crate::shared::lines;
use crate::shared::segment;
use vstd::prelude::*;

verus! {

/// Counts, lengths and offsets fit their fields.
pub open spec fn layout_fits(p: Plan, dict: Seq<u8>, ds: Seq<Seq<u8>>) -> bool {
    let n: nat = p.entries@.len();
    &&& n <= 0xffff
    &&& p.summaries@.len() == n
    &&& p.binaries@.len() == n
    &&& ds.len() == n
    &&& p.pattern_count <= 0xffff
    &&& segment_build::data_at(p.table@.len(), dict.len(), n) < 0x1_0000_0000
    &&& segment_build::sum_len(ds, n) < 0x1_0000_0000
}

proof fn lemma_entries_len(es: Seq<ChunkEntry>, n: nat, c: int)
    requires
        0 <= c < n <= es.len(),
    ensures
        segment_build::entries_bytes(es, n).len() == 32 * n,
        segment_build::entries_bytes(es, n).subrange(32 * c, 32 * c + 32) == chunk::entry_bytes(
            es[c],
        ),
    decreases n,
{
    let a: Seq<u8> = segment_build::entries_bytes(es, (n - 1) as nat);
    let b: Seq<u8> = chunk::entry_bytes(es[n - 1]);
    chunk::lemma_entry_bytes(es[n - 1]);
    if n > 1 {
        lemma_entries_len(es, (n - 1) as nat, 0);
    }
    if c < n - 1 {
        lemma_entries_len(es, (n - 1) as nat, c);
        assert((a + b).subrange(32 * c, 32 * c + 32) =~= a.subrange(32 * c, 32 * c + 32));
    } else {
        assert((a + b).subrange(32 * c, 32 * c + 32) =~= b);
    }
}

proof fn lemma_summaries_len(ss: Seq<ChunkSummary>, n: nat, c: int)
    requires
        0 <= c < n <= ss.len(),
    ensures
        segment_build::summaries_bytes(ss, n).len() == 80 * n,
        segment_build::summaries_bytes(ss, n).subrange(80 * c, 80 * c + 80)
            == chunk::summary_bytes(ss[c]),
    decreases n,
{
    let a: Seq<u8> = segment_build::summaries_bytes(ss, (n - 1) as nat);
    let b: Seq<u8> = chunk::summary_bytes(ss[n - 1]);
    chunk::lemma_summary_bytes(ss[n - 1]);
    if n > 1 {
        lemma_summaries_len(ss, (n - 1) as nat, 0);
    }
    if c < n - 1 {
        lemma_summaries_len(ss, (n - 1) as nat, c);
        assert((a + b).subrange(80 * c, 80 * c + 80) =~= a.subrange(80 * c, 80 * c + 80));
    } else {
        assert((a + b).subrange(80 * c, 80 * c + 80) =~= b);
    }
}

pub proof fn lemma_sum_len(ds: Seq<Seq<u8>>, a: nat, b: nat)
    requires
        a <= b,
    ensures
        segment_build::sum_len(ds, a) <= segment_build::sum_len(ds, b),
    decreases b,
{
    if a < b {
        lemma_sum_len(ds, a, (b - 1) as nat);
    }
}

proof fn lemma_flat(ds: Seq<Seq<u8>>, n: nat, c: int)
    requires
        0 <= c < n <= ds.len(),
    ensures
        segment_build::flat(ds, n).len() == segment_build::sum_len(ds, n),
        segment_build::sum_len(ds, c as nat) + ds[c].len() <= segment_build::sum_len(ds, n),
        segment_build::flat(ds, n).subrange(
            segment_build::sum_len(ds, c as nat) as int,
            (segment_build::sum_len(ds, c as nat) + ds[c].len()) as int,
        ) == ds[c],
    decreases n,
{
    let a: Seq<u8> = segment_build::flat(ds, (n - 1) as nat);
    let b: Seq<u8> = ds[n - 1];
    if n > 1 {
        lemma_flat(ds, (n - 1) as nat, 0);
    }
    let lo: int = segment_build::sum_len(ds, c as nat) as int;
    let hi: int = lo + ds[c].len();
    if c < n - 1 {
        lemma_flat(ds, (n - 1) as nat, c);
        assert((a + b).subrange(lo, hi) =~= a.subrange(lo, hi));
    } else {
        assert((a + b).subrange(lo, hi) =~= b);
    }
}

proof fn lemma_number(b: Seq<u8>, off: int, width: int, v: nat)
    requires
        0 <= off,
        0 <= width,
        off + width <= b.len(),
        b.subrange(off, off + width) == bytes::le_bytes(v, width as nat),
        v < bytes::pow256(width as nat),
    ensures
        header::reserved_number(b, off, width) == v,
{
    bytes::lemma_le_value_of_bytes(v, width as nat);
}

/// The numbers in the reserved area of the header.
proof fn lemma_reserved(pattern_count: nat, table_len: nat, dict_len: nat, n: nat)
    requires
        pattern_count <= 0xffff,
        segment_build::data_at(table_len, dict_len, n) < 0x1_0000_0000,
    ensures
        ({
            let r: Seq<u8> = segment_build::reserved_area(pattern_count, table_len, dict_len, n);
            &&& r.len() == 40
            &&& header::reserved_number(r, 0, 2) == pattern_count
            &&& header::table_len_of(r) == table_len
            &&& header::reserved_number(r, 4, 4) == segment_build::summaries_at(
                table_len,
                dict_len,
                n,
            )
            &&& header::reserved_number(r, 8, 4) == segment_build::data_at(table_len, dict_len, n)
            &&& header::reserved_number(r, 12, 4) == if dict_len > 0 {
                64 + table_len
            } else {
                0
            }
            &&& header::reserved_number(r, 16, 4) == dict_len
            &&& r[20] == 1
            &&& segment_build::summaries_at(table_len, dict_len, n) + 80 * n
                <= segment_build::data_at(table_len, dict_len, n)
        }),
{
    let r: Seq<u8> = segment_build::reserved_area(pattern_count, table_len, dict_len, n);
    let s: nat = segment_build::summaries_at(table_len, dict_len, n);
    let d: nat = segment_build::data_at(table_len, dict_len, n);
    let at: nat = if dict_len > 0 {
        64 + table_len
    } else {
        0
    };
    assert(s + 80 * n <= d);
    let lo: nat = table_len % 0x1_0000;
    let hi: nat = table_len / 0x1_0000;
    bytes::lemma_pow256();
    bytes::lemma_le_bytes_len(pattern_count, 2);
    bytes::lemma_le_bytes_len(lo, 2);
    bytes::lemma_le_bytes_len(s, 4);
    bytes::lemma_le_bytes_len(d, 4);
    bytes::lemma_le_bytes_len(at, 4);
    bytes::lemma_le_bytes_len(dict_len, 4);
    bytes::lemma_le_bytes_len(hi, 2);
    assert(r.subrange(0, 2) =~= bytes::le_bytes(pattern_count, 2));
    assert(r.subrange(2, 4) =~= bytes::le_bytes(lo, 2));
    assert(r.subrange(4, 8) =~= bytes::le_bytes(s, 4));
    assert(r.subrange(8, 12) =~= bytes::le_bytes(d, 4));
    assert(r.subrange(12, 16) =~= bytes::le_bytes(at, 4));
    assert(r.subrange(16, 20) =~= bytes::le_bytes(dict_len, 4));
    assert(r.subrange(22, 24) =~= bytes::le_bytes(hi, 2));
    lemma_number(r, 0, 2, pattern_count);
    lemma_number(r, 2, 2, lo);
    lemma_number(r, 4, 4, s);
    lemma_number(r, 8, 4, d);
    lemma_number(r, 12, 4, at);
    lemma_number(r, 16, 4, dict_len);
    lemma_number(r, 22, 2, hi);
}

/// What is read from a segment file is what was put into it.
pub open spec fn reads_as(
    data: Seq<u8>,
    h: SegmentHeader,
    p: Plan,
    dict: Seq<u8>,
    ds: Seq<Seq<u8>>,
    id: u32,
) -> bool {
    let n: nat = p.entries@.len();
    let bs: Seq<Seq<u8>> = lines::byte_lists(p.binaries@);
    &&& data.len() >= 104 || n == 0
    &&& data.len() >= 72
    &&& header::header_readable(data)
    &&& h.version == FORMAT_VERSION_V2
    &&& h.chunk_count == n
    &&& h.segment_id == id
    &&& header::reserved_number(h.reserved@, 0, 2) == p.pattern_count
    &&& header::table_len_of(h.reserved@) == p.table@.len()
    &&& h.reserved@[20] == 1
    &&& 64 + p.table@.len() <= data.len()
    &&& bytes::window(data, 64, p.table@.len()) == p.table@
    &&& segment_query::file_dict(data, h) == if dict.len() > 0 {
        Some(dict)
    } else {
        None
    }
    &&& segment::table_end(h) + 8 <= data.len()
    &&& segment::summary_at(h, n as int) + 8 <= data.len()
    &&& segment::footer_matches(data)
    &&& forall|c: int|
        0 <= c < n ==> #[trigger] segment::table_entry(data, h, c) == segment_build::full_entry(
            p.entries@[c],
            bs,
            ds,
            c,
        )
    &&& forall|c: int|
        0 <= c < n ==> #[trigger] summary_read(data, h, c) == chunk::summary_bytes(
            p.summaries@[c],
        )
    &&& forall|c: int| 0 <= c < n ==> #[trigger] chunk_stands(data, h, c, ds[c])
}

/// The bytes of the summary of chunk `c`.
pub open spec fn summary_read(data: Seq<u8>, h: SegmentHeader, c: int) -> Seq<u8> {
    data.subrange(segment::summary_at(h, c), segment::summary_at(h, c) + 80)
}

/// The data of chunk `c` is `d`, and stands before the footer.
pub open spec fn chunk_stands(data: Seq<u8>, h: SegmentHeader, c: int, d: Seq<u8>) -> bool {
    &&& segment::table_entry(data, h, c).compressed_sz == d.len()
    &&& segment_query::data_begin(data, h, c) + d.len() <= data.len() - 8
    &&& bytes::window(data, segment_query::data_begin(data, h, c), d.len()) == d
}

/// The end of a file is its footer.
proof fn lemma_footer_back(content: Seq<u8>)
    ensures
        segment::footer_matches(segment_build::with_footer(content)),
        segment_build::with_footer(content).len() == content.len() + 8,
{
    let f: SegmentFooter = SegmentFooter {
        chunk_table_offset: 64,
        crc32: crc::crc_of(content),
    };
    let data: Seq<u8> = segment_build::with_footer(content);
    footer::law_footer_roundtrip(f);
    assert(data.subrange(data.len() - 8, data.len() as int) =~= footer::footer_bytes(f));
    assert(data.take(data.len() - 8) =~= content);
}

/// Byte strings written one after another stand one after another.
proof fn lemma_parts_stand(
    a: Seq<u8>,
    b: Seq<u8>,
    c: Seq<u8>,
    d: Seq<u8>,
    e: Seq<u8>,
    f: Seq<u8>,
    g: Seq<u8>,
    h: Seq<u8>,
)
    ensures
        ({
            let data: Seq<u8> = a + b + c + d + e + f + g + h;
            &&& chunk_law::stands(data, a.len(), b)
            &&& chunk_law::stands(data, a.len() + b.len(), c)
            &&& chunk_law::stands(data, a.len() + b.len() + c.len(), d)
            &&& chunk_law::stands(data, a.len() + b.len() + c.len() + d.len(), e)
            &&& chunk_law::stands(
                data,
                a.len() + b.len() + c.len() + d.len() + e.len() + f.len(),
                g,
            )
        }),
{
    let data: Seq<u8> = a + b + c + d + e + f + g + h;
    assert(bytes::window(data, 0, data.len()) =~= data);
    chunk_law::lemma_stands_split(data, 0, a + b + c + d + e + f + g, h);
    chunk_law::lemma_stands_split(data, 0, a + b + c + d + e + f, g);
    chunk_law::lemma_stands_split(data, 0, a + b + c + d + e, f);
    chunk_law::lemma_stands_split(data, 0, a + b + c + d, e);
    chunk_law::lemma_stands_split(data, 0, a + b + c, d);
    chunk_law::lemma_stands_split(data, 0, a + b, c);
    chunk_law::lemma_stands_split(data, 0, a, b);
}

/// A part of what stands in a file stands in the file.
proof fn lemma_stands_part(data: Seq<u8>, off: nat, piece: Seq<u8>, lo: nat, len: nat)
    requires
        chunk_law::stands(data, off, piece),
        lo + len <= piece.len(),
    ensures
        off + lo + len <= data.len(),
        data.subrange((off + lo) as int, (off + lo + len) as int) == piece.subrange(
            lo as int,
            (lo + len) as int,
        ),
{
    bytes::lemma_window_sub(data, off, piece.len(), lo, len);
}

proof fn lemma_entry_stands(data: Seq<u8>, start: nat, fs: Seq<ChunkEntry>, n: nat, c: int)
    requires
        chunk_law::stands(data, start, segment_build::entries_bytes(fs, n)),
        0 <= c < n <= fs.len(),
    ensures
        chunk::entry_of(data.subrange(start + 32 * c, start + 32 * c + 32)) == fs[c],
{
    lemma_entries_len(fs, n, c);
    lemma_stands_part(data, start, segment_build::entries_bytes(fs, n), (32 * c) as nat, 32);
    chunk::lemma_entry_of_bytes(fs[c]);
}

proof fn lemma_summary_stands(data: Seq<u8>, at: nat, ss: Seq<ChunkSummary>, n: nat, c: int)
    requires
        chunk_law::stands(data, at, segment_build::summaries_bytes(ss, n)),
        0 <= c < n <= ss.len(),
    ensures
        data.subrange(at + 80 * c, at + 80 * c + 80) == chunk::summary_bytes(ss[c]),
{
    lemma_summaries_len(ss, n, c);
    lemma_stands_part(data, at, segment_build::summaries_bytes(ss, n), (80 * c) as nat, 80);
}

proof fn lemma_data_stands(data: Seq<u8>, at: nat, ds: Seq<Seq<u8>>, n: nat, c: int)
    requires
        chunk_law::stands(data, at, segment_build::flat(ds, n)),
        0 <= c < n <= ds.len(),
    ensures
        segment_build::flat(ds, n).len() == segment_build::sum_len(ds, n),
        segment_build::sum_len(ds, c as nat) + ds[c].len() <= segment_build::sum_len(ds, n),
        at + segment_build::sum_len(ds, c as nat) + ds[c].len() <= data.len(),
        bytes::window(data, at + segment_build::sum_len(ds, c as nat), ds[c].len()) == ds[c],
{
    lemma_flat(ds, n, c);
    lemma_stands_part(
        data,
        at,
        segment_build::flat(ds, n),
        segment_build::sum_len(ds, c as nat),
        ds[c].len(),
    );
}

proof fn lemma_head_readable(h: SegmentHeader, data: Seq<u8>)
    requires
        header::header_valid(h),
        data.len() >= 64,
        data.take(64) == header::header_bytes(h),
    ensures
        header::header_readable(data),
{
    let b: Seq<u8> = header::header_bytes(h);
    header::lemma_header_prefix(h);
    header::law_header_roundtrip(h, h);
    assert(b.take(4) =~= data.take(4));
    assert(b.take(20) =~= data.take(20));
    assert(b.subrange(20, 24) =~= data.subrange(20, 24));
    assert(b[4] == data[4]);
}

/// The parts of a segment file stand where its header says.
proof fn lemma_segment_parts(
    data: Seq<u8>,
    p: Plan,
    dict: Seq<u8>,
    ds: Seq<Seq<u8>>,
    id: u32,
    created_at: u64,
) -> (h: SegmentHeader)
    requires
        segment_build::is_segment(data, p, dict, ds, id, created_at),
        layout_fits(p, dict, ds),
    ensures
        ({
            let n: nat = p.entries@.len();
            let t: nat = p.table@.len();
            let bs: Seq<Seq<u8>> = lines::byte_lists(p.binaries@);
            &&& segment_build::is_head(
                h,
                id,
                created_at,
                n,
                segment_build::reserved_area(p.pattern_count as nat, t, dict.len(), n),
            )
            &&& data.len() >= 64
            &&& data.take(64) == header::header_bytes(h)
            &&& chunk_law::stands(data, 64, p.table@)
            &&& chunk_law::stands(data, 64 + t, dict)
            &&& chunk_law::stands(
                data,
                64 + t + dict.len(),
                segment_build::entries_bytes(segment_build::full_entries(p.entries@, bs, ds), n),
            )
            &&& chunk_law::stands(
                data,
                segment_build::summaries_at(t, dict.len(), n),
                segment_build::summaries_bytes(p.summaries@, n),
            )
            &&& chunk_law::stands(
                data,
                segment_build::data_at(t, dict.len(), n),
                segment_build::flat(ds, n),
            )
            &&& data.len() == segment_build::data_at(t, dict.len(), n) + segment_build::flat(
                ds,
                n,
            ).len() + 8
            &&& segment::footer_matches(data)
        }),
{
    let n: nat = p.entries@.len();
    let t: nat = p.table@.len();
    let bs: Seq<Seq<u8>> = lines::byte_lists(p.binaries@);
    let area: Seq<u8> = segment_build::reserved_area(p.pattern_count as nat, t, dict.len(), n);
    let h: SegmentHeader = choose|h: SegmentHeader|
        {
            &&& #[trigger] segment_build::is_head(h, id, created_at, n, area)
            &&& data == segment_build::with_footer(
                header::header_bytes(h) + segment_build::middle(p, dict, ds),
            )
        };
    let content: Seq<u8> = header::header_bytes(h) + segment_build::middle(p, dict, ds);
    let foot: Seq<u8> = footer::footer_bytes(
        SegmentFooter { chunk_table_offset: 64, crc32: crc::crc_of(content) },
    );
    let fs: Seq<ChunkEntry> = segment_build::full_entries(p.entries@, bs, ds);
    let eb: Seq<u8> = segment_build::entries_bytes(fs, n);
    let sb: Seq<u8> = segment_build::summaries_bytes(p.summaries@, n);
    let fb: Seq<u8> = segment_build::flat(ds, n);
    let first: nat = segment_build::summaries_at(t, dict.len(), n);
    let at: nat = segment_build::data_at(t, dict.len(), n);
    let zb: Seq<u8> = segment_build::zeros((at - (first + 80 * n)) as nat);
    let hb: Seq<u8> = header::header_bytes(h);
    header::lemma_header_prefix(h);
    lemma_reserved(p.pattern_count as nat, t, dict.len(), n);
    lemma_footer_back(content);
    if n > 0 {
        lemma_entries_len(fs, n, 0);
        lemma_summaries_len(p.summaries@, n, 0);
    }
    assert(data =~= hb + p.table@ + dict + eb + sb + zb + fb + foot);
    lemma_parts_stand(hb, p.table@, dict, eb, sb, zb, fb, foot);
    assert(data.take(64) =~= hb);
    h
}

/// The length of a segment file, and the version in its header.
pub proof fn lemma_segment_len(
    data: Seq<u8>,
    p: Plan,
    dict: Seq<u8>,
    ds: Seq<Seq<u8>>,
    id: u32,
    created_at: u64,
)
    requires
        segment_build::is_segment(data, p, dict, ds, id, created_at),
        p.summaries@.len() == p.entries@.len(),
        ds.len() == p.entries@.len(),
    ensures
        data.len() == segment_build::data_at(p.table@.len(), dict.len(), p.entries@.len())
            + segment_build::sum_len(ds, ds.len()) + 8,
        data.len() >= 4104,
        header::header_at(data).version == FORMAT_VERSION_V2,
{
    let n: nat = p.entries@.len();
    let t: nat = p.table@.len();
    let area: Seq<u8> = segment_build::reserved_area(p.pattern_count as nat, t, dict.len(), n);
    let h: SegmentHeader = choose|h: SegmentHeader|
        {
            &&& #[trigger] segment_build::is_head(h, id, created_at, n, area)
            &&& data == segment_build::with_footer(
                header::header_bytes(h) + segment_build::middle(p, dict, ds),
            )
        };
    let fs: Seq<ChunkEntry> = segment_build::full_entries(
        p.entries@,
        lines::byte_lists(p.binaries@),
        ds,
    );
    header::lemma_header_prefix(h);
    lemma_footer_back(header::header_bytes(h) + segment_build::middle(p, dict, ds));
    let first: nat = segment_build::summaries_at(t, dict.len(), n);
    assert(first + 80 * n <= segment_build::data_at(t, dict.len(), n));
    if n > 0 {
        lemma_entries_len(fs, n, 0);
        lemma_summaries_len(p.summaries@, n, 0);
        lemma_flat(ds, n, 0);
    }
    assert(data.take(64) =~= header::header_bytes(h));
    header::lemma_header_at(h, data);
}

/// A segment file gives back what was put into it.
pub proof fn lemma_reads_as(
    data: Seq<u8>,
    p: Plan,
    dict: Seq<u8>,
    ds: Seq<Seq<u8>>,
    id: u32,
    created_at: u64,
)
    requires
        segment_build::is_segment(data, p, dict, ds, id, created_at),
        layout_fits(p, dict, ds),
    ensures
        reads_as(data, header::header_at(data), p, dict, ds, id),
{
    let n: nat = p.entries@.len();
    let bs: Seq<Seq<u8>> = lines::byte_lists(p.binaries@);
    let h: SegmentHeader = lemma_segment_parts(data, p, dict, ds, id, created_at);
    let g: SegmentHeader = header::header_at(data);
    header::lemma_header_at(h, data);
    lemma_head_readable(h, data);
    lemma_reserved(p.pattern_count as nat, p.table@.len(), dict.len(), n);
    let fs: Seq<ChunkEntry> = segment_build::full_entries(p.entries@, bs, ds);
    let first: nat = segment_build::summaries_at(p.table@.len(), dict.len(), n);
    let at: nat = segment_build::data_at(p.table@.len(), dict.len(), n);
    assert forall|c: int| 0 <= c < n implies #[trigger] segment::table_entry(data, g, c)
        == segment_build::full_entry(p.entries@[c], bs, ds, c) by {
        lemma_entry_stands(data, 64 + p.table@.len() + dict.len(), fs, n, c);
    }
    assert forall|c: int| 0 <= c < n implies #[trigger] summary_read(data, g, c)
        == chunk::summary_bytes(p.summaries@[c]) by {
        lemma_summary_stands(data, first, p.summaries@, n, c);
    }
    assert forall|c: int| 0 <= c < n implies #[trigger] chunk_stands(data, g, c, ds[c]) by {
        lemma_data_stands(data, at, ds, n, c);
        assert(segment::table_entry(data, g, c) == segment_build::full_entry(
            p.entries@[c],
            bs,
            ds,
            c,
        ));
    }
    if n > 0 {
        lemma_data_stands(data, at, ds, n, 0);
    }
}

} // verus!
