//! Finding lines in a segment file.

use crate::agent::chunk_legacy;
use crate::agent::chunk_read;
use crate::agent::codec;
use crate::agent::compressor;
use crate::agent::compressor::Compressor;
use crate::agent::parts;
use crate::agent::parts::{PartView, Template, TemplatePart};
use crate::agent::records::TemplateBatch;
use crate::agent::typed::ParamView;
use crate::shared::bytes;
use crate::shared::chunk;
use crate::shared::chunk::ChunkEntry;
use crate::shared::crc;
use crate::shared::error::{DataError, FormatError};
use crate::shared::footer;
use crate::shared::footer::SegmentFooter;
use crate::shared::header;
use crate::shared::header::{SegmentHeader, FORMAT_VERSION_V1, MIN_SEGMENT_SIZE};
use crate::shared::log;
use crate::shared::log::{LogLine, LogView};
use crate::shared::segment;
use crate::shared::text;
use vstd::prelude::*;
use vstd::string::*;

verus! {

// ---------- lines ----------

/// What is looked for: lines from `start` to `end` that hold the keyword.
pub struct QueryView {
    pub start: u64,
    pub end: u64,
    pub keyword: Seq<char>,
}

/// The line lies in the times, and its service, level or message holds the
/// keyword.
pub open spec fn line_matches(l: LogView, q: QueryView) -> bool {
    &&& q.start <= l.ts <= q.end
    &&& text::contains_text(l.service, q.keyword) || text::contains_text(l.level, q.keyword)
        || text::contains_text(l.message, q.keyword)
}

/// The lines that are looked for.
pub open spec fn matching(logs: Seq<LogView>, q: QueryView) -> Seq<LogView>
    decreases logs.len(),
{
    if logs.len() == 0 {
        Seq::empty()
    } else if line_matches(logs.last(), q) {
        matching(logs.drop_last(), q).push(logs.last())
    } else {
        matching(logs.drop_last(), q)
    }
}

/// The first `n` items, or all if there are fewer.
pub open spec fn first<T>(s: Seq<T>, n: nat) -> Seq<T> {
    if n <= s.len() {
        s.take(n as int)
    } else {
        s
    }
}

/// The lines found among a front of the lines come first.
pub proof fn lemma_matching_prefix(logs: Seq<LogView>, q: QueryView, i: int)
    requires
        0 <= i <= logs.len(),
    ensures
        matching(logs.take(i), q).len() <= matching(logs, q).len(),
        matching(logs, q).take(matching(logs.take(i), q).len() as int) == matching(
            logs.take(i),
            q,
        ),
    decreases logs.len(),
{
    if i == logs.len() {
        assert(logs.take(i) =~= logs);
        assert(matching(logs, q).take(matching(logs, q).len() as int) =~= matching(logs, q));
    } else {
        let t: Seq<LogView> = logs.drop_last();
        lemma_matching_prefix(t, q, i);
        assert(t.take(i) =~= logs.take(i));
        let m: int = matching(logs.take(i), q).len() as int;
        assert(matching(logs, q).take(m) =~= matching(t, q).take(m));
    }
}

fn line_hits(l: &LogLine, start: u64, end: u64, keyword: &[char]) -> (r: bool)
    ensures
        r == line_matches(l@, (QueryView { start, end, keyword: keyword@ })),
{
    l.ts >= start && l.ts <= end && (text::str_contains(l.service.as_str(), keyword)
        || text::str_contains(l.level.as_str(), keyword) || text::str_contains(
        l.message.as_str(),
        keyword,
    ))
}

/// Adds the lines that are looked for, up to `limit` lines in all.
pub fn push_matching(
    out: &mut Vec<LogLine>,
    logs: &Vec<LogLine>,
    start: u64,
    end: u64,
    keyword: &[char],
    limit: usize,
)
    requires
        old(out)@.len() <= limit,
    ensures
        log::log_views(final(out)@) == log::log_views(old(out)@) + first(
            matching(
                log::log_views(logs@),
                (QueryView { start, end, keyword: keyword@ }),
            ),
            (limit - old(out)@.len()) as nat,
        ),
        final(out)@.len() <= limit,
{
    let ghost lv = log::log_views(logs@);
    let ghost q = QueryView { start, end, keyword: keyword@ };
    let ghost base = log::log_views(out@);
    let ghost room = (limit - out@.len()) as nat;
    let ghost all = matching(lv, q);
    let mut i: usize = 0;
    proof {
        assert(matching(lv.take(0), q) =~= Seq::<LogView>::empty());
        assert(base + Seq::<LogView>::empty() =~= base);
        assert(first(Seq::<LogView>::empty(), room) =~= Seq::<LogView>::empty());
    }
    while i < logs.len() && out.len() < limit
        invariant
            i <= logs@.len(),
            lv == log::log_views(logs@),
            q == (QueryView { start, end, keyword: keyword@ }),
            room == limit - base.len(),
            out@.len() == log::log_views(out@).len(),
            out@.len() <= limit,
            log::log_views(out@) == base + matching(lv.take(i as int), q),
        decreases logs@.len() - i,
    {
        let ghost before = log::log_views(out@);
        proof {
            assert(lv.take(i as int + 1).drop_last() =~= lv.take(i as int));
            assert(lv.take(i as int + 1).last() == logs@[i as int]@);
        }
        if line_hits(&logs[i], start, end, keyword) {
            let l: LogLine = logs[i].clone();
            out.push(l);
            assert(log::log_views(out@) =~= before.push(logs@[i as int]@));
            assert(log::log_views(out@) =~= base + matching(lv.take(i as int + 1), q));
        }
        i += 1;
    }
    proof {
        let part: Seq<LogView> = matching(lv.take(i as int), q);
        lemma_matching_prefix(lv, q, i as int);
        if i == logs@.len() {
            assert(lv.take(i as int) =~= lv);
            assert(part.len() <= room);
            assert(first(all, room) =~= all);
        } else {
            assert(part.len() == room);
            assert(first(all, room) =~= part);
        }
    }
}

// ---------- the structure of a file ----------

/// A text of the template holds the keyword.
pub open spec fn template_holds(t: Seq<PartView>, keyword: Seq<char>) -> bool {
    exists|j: int| 0 <= j < t.len() && part_holds(#[trigger] t[j], keyword)
}

/// The piece is a text that holds the keyword.
pub open spec fn part_holds(p: PartView, keyword: Seq<char>) -> bool {
    match p {
        PartView::Literal(s) => text::contains_text(s, keyword),
        PartView::Param => false,
    }
}

/// The numbers of those of the first `n` templates that hold the keyword.
pub open spec fn keyword_patterns(ts: Seq<Seq<PartView>>, keyword: Seq<char>, n: nat) -> Seq<u16>
    decreases n,
{
    if n == 0 {
        Seq::empty()
    } else if template_holds(ts[n - 1], keyword) {
        keyword_patterns(ts, keyword, (n - 1) as nat).push((n - 1) as u16)
    } else {
        keyword_patterns(ts, keyword, (n - 1) as nat)
    }
}

/// A chunk with this pattern mask may use one of the templates; templates from
/// 64 on are not kept in the mask. Without templates nothing is ruled out.
pub open spec fn patterns_allow(mask: u64, ks: Seq<u16>) -> bool {
    ks.len() == 0 || exists|i: int|
        0 <= i < ks.len() && (#[trigger] ks[i] >= 64 || chunk::mask_bit(mask, ks[i]))
}

/// The templates of a file of version 2.
pub open spec fn file_templates(data: Seq<u8>, h: SegmentHeader) -> Result<
    Seq<Seq<PartView>>,
    DataError,
> {
    let len: nat = header::table_len_of(h.reserved@);
    if header::reserved_number(h.reserved@, 0, 2) > 0 && len > 0 {
        if 64 + len > data.len() {
            Err(DataError::SegmentTruncated)
        } else {
            parts::read_table(bytes::window(data, 64, len))
        }
    } else {
        Ok(Seq::empty())
    }
}

/// The dictionary of a file of version 2, if it has one.
pub open spec fn file_dict(data: Seq<u8>, h: SegmentHeader) -> Option<Seq<u8>> {
    let off: nat = header::reserved_number(h.reserved@, 12, 4);
    let len: nat = header::reserved_number(h.reserved@, 16, 4);
    if len > 0 && off >= 64 + header::table_len_of(h.reserved@) && off + len <= data.len() - 8 {
        Some(bytes::window(data, off, len))
    } else {
        None
    }
}

/// The pattern mask of chunk `i`.
pub open spec fn chunk_mask(data: Seq<u8>, h: SegmentHeader, i: int) -> u64 {
    bytes::le_value(data.subrange(segment::summary_at(h, i), segment::summary_at(h, i) + 8)) as u64
}

/// Where the data of chunk `i` begins.
pub open spec fn data_begin(data: Seq<u8>, h: SegmentHeader, i: int) -> nat {
    header::reserved_number(h.reserved@, 8, 4) + segment::table_entry(data, h, i).offset as nat
}

/// The lines of unpacked chunk data.
pub open spec fn unpacked_lines(raw: Seq<u8>, ts: Seq<Seq<PartView>>, flags: u8) -> Result<
    Seq<LogView>,
    DataError,
> {
    if flags & SegmentHeader::FEATURE_ENHANCED_CHUNK != 0 {
        chunk_read::chunk_logs(raw, ts)
    } else {
        chunk_legacy::stored_lines(raw, 0, ts, Seq::<ParamView>::empty())
    }
}

/// Chunk `i` is passed over: it lies outside the times, it cannot hold a
/// template with the keyword, or its data is not all there.
pub open spec fn passed_over(
    data: Seq<u8>,
    h: SegmentHeader,
    ks: Seq<u16>,
    q: QueryView,
    i: int,
) -> bool {
    let e: ChunkEntry = segment::table_entry(data, h, i);
    ||| e.max_ts < q.start
    ||| e.min_ts > q.end
    ||| !patterns_allow(chunk_mask(data, h, i), ks)
    ||| data_begin(data, h, i) + e.compressed_sz > data.len() - 8
}

/// What is found in chunk `i`.
pub open spec fn found_in_chunk(
    data: Seq<u8>,
    h: SegmentHeader,
    ts: Seq<Seq<PartView>>,
    q: QueryView,
    i: int,
) -> Result<Seq<LogView>, DataError> {
    if passed_over(data, h, keyword_patterns(ts, q.keyword, ts.len()), q, i) {
        Ok(Seq::empty())
    } else {
        match codec::unpacked(
            bytes::window(
                data,
                data_begin(data, h, i),
                segment::table_entry(data, h, i).compressed_sz as nat,
            ),
            file_dict(data, h),
        ) {
            None => Err(DataError::Compression),
            Some(raw) => match unpacked_lines(raw, ts, h.reserved@[20]) {
                Err(e) => Err(e),
                Ok(logs) => Ok(matching(logs, q)),
            },
        }
    }
}

/// What is found in the first `n` chunks, up to `limit` lines.
pub open spec fn found_in_chunks(
    data: Seq<u8>,
    h: SegmentHeader,
    ts: Seq<Seq<PartView>>,
    q: QueryView,
    limit: nat,
    n: nat,
) -> Result<Seq<LogView>, DataError>
    decreases n,
{
    if n == 0 {
        Ok(Seq::empty())
    } else {
        match found_in_chunks(data, h, ts, q, limit, (n - 1) as nat) {
            Err(e) => Err(e),
            Ok(found) => if found.len() >= limit {
                Ok(found)
            } else {
                match found_in_chunk(data, h, ts, q, n - 1) {
                    Err(e) => Err(e),
                    Ok(more) => Ok(found + first(more, (limit - found.len()) as nat)),
                }
            },
        }
    }
}

/// The error of a file whose checksum is wrong.
pub open spec fn checksum_error(data: Seq<u8>) -> DataError {
    DataError::Format(
        FormatError::CrcMismatch {
            expected: footer::footer_of(
                data.subrange(data.len() - 8, data.len() as int),
            ).crc32,
            computed: crc::crc_of(data.take(data.len() - 8)),
        },
    )
}

/// What is found in a file of version 2.
pub open spec fn found_v2(data: Seq<u8>, h: SegmentHeader, q: QueryView, limit: nat) -> Result<
    Seq<LogView>,
    DataError,
> {
    let n: nat = h.chunk_count as nat;
    match file_templates(data, h) {
        Err(e) => Err(e),
        Ok(ts) => if n > 0 && (segment::table_end(h) > data.len() || segment::summary_at(
            h,
            n as int,
        ) > data.len()) {
            Err(DataError::SegmentTruncated)
        } else if !segment::footer_matches(data) {
            Err(checksum_error(data))
        } else {
            found_in_chunks(data, h, ts, q, limit, n)
        },
    }
}

/// The only chunk of a file of version 1.
pub open spec fn v1_entry(data: Seq<u8>) -> ChunkEntry {
    chunk::entry_of(data.subrange(64, 96))
}

/// What is found in a file of version 1.
pub open spec fn found_v1(
    data: Seq<u8>,
    q: QueryView,
    limit: nat,
    dict: Option<Seq<u8>>,
) -> Result<Seq<LogView>, DataError> {
    let e: ChunkEntry = v1_entry(data);
    if e.max_ts < q.start || e.min_ts > q.end {
        Ok(Seq::empty())
    } else if !segment::footer_matches(data) {
        Err(checksum_error(data))
    } else if e.offset + e.compressed_sz > data.len() - 8 {
        Err(DataError::ChunkOutOfBounds)
    } else if e.compressed_sz == 0 {
        Ok(Seq::empty())
    } else {
        match codec::unpacked(
            bytes::window(data, e.offset as nat, e.compressed_sz as nat),
            dict,
        ) {
            None => Err(DataError::Compression),
            Some(raw) => Ok(first(matching(compressor::raw_logs(raw), q), limit)),
        }
    }
}

/// `r` is what is found in a segment file, up to `limit` lines.
pub open spec fn is_found(
    data: Seq<u8>,
    q: QueryView,
    limit: nat,
    dict: Option<Seq<u8>>,
    r: Result<Seq<LogView>, DataError>,
) -> bool {
    let h: SegmentHeader = header::header_at(data);
    if data.len() < 104 {
        r == Err::<Seq<LogView>, DataError>(DataError::SegmentTooShort)
    } else if !header::header_readable(data) {
        r matches Err(DataError::Format(f)) && header::header_error(data, f)
    } else if h.version == FORMAT_VERSION_V1 {
        r == found_v1(data, q, limit, dict)
    } else {
        r == found_v2(data, h, q, limit)
    }
}

// ---------- reading ----------

proof fn lemma_found_error(
    data: Seq<u8>,
    h: SegmentHeader,
    ts: Seq<Seq<PartView>>,
    q: QueryView,
    limit: nat,
    k: nat,
    n: nat,
)
    requires
        k <= n,
        found_in_chunks(data, h, ts, q, limit, k) is Err,
    ensures
        found_in_chunks(data, h, ts, q, limit, n) == found_in_chunks(data, h, ts, q, limit, k),
    decreases n,
{
    if k < n {
        lemma_found_error(data, h, ts, q, limit, k, (n - 1) as nat);
    }
}

proof fn lemma_found_full(
    data: Seq<u8>,
    h: SegmentHeader,
    ts: Seq<Seq<PartView>>,
    q: QueryView,
    limit: nat,
    k: nat,
    n: nat,
)
    requires
        k <= n,
        found_in_chunks(data, h, ts, q, limit, k) is Ok,
        found_in_chunks(data, h, ts, q, limit, k)->Ok_0.len() >= limit,
    ensures
        found_in_chunks(data, h, ts, q, limit, n) == found_in_chunks(data, h, ts, q, limit, k),
    decreases n,
{
    if k < n {
        lemma_found_full(data, h, ts, q, limit, k, (n - 1) as nat);
    }
}

pub(crate) fn template_has(t: &Template, keyword: &[char]) -> (r: bool)
    ensures
        r == template_holds(parts::part_views(t.parts@), keyword@),
{
    let ghost pv = parts::part_views(t.parts@);
    let mut j: usize = 0;
    while j < t.parts.len()
        invariant
            j <= t.parts@.len(),
            pv == parts::part_views(t.parts@),
            forall|k: int| 0 <= k < j ==> !part_holds(#[trigger] pv[k], keyword@),
        decreases t.parts@.len() - j,
    {
        assert(pv[j as int] == t.parts@[j as int]@);
        match &t.parts[j] {
            TemplatePart::Literal(s) => {
                if text::str_contains(s.as_str(), keyword) {
                    assert(part_holds(pv[j as int], keyword@));
                    return true;
                }
            },
            TemplatePart::Param => {},
        }
        j += 1;
    }
    false
}

fn find_patterns(ts: &Vec<Template>, keyword: &[char]) -> (r: Vec<u16>)
    ensures
        r@ == keyword_patterns(parts::template_views(ts@), keyword@, ts@.len()),
{
    let ghost tv = parts::template_views(ts@);
    let mut out: Vec<u16> = Vec::new();
    let mut i: usize = 0;
    while i < ts.len()
        invariant
            i <= ts@.len(),
            tv == parts::template_views(ts@),
            out@ == keyword_patterns(tv, keyword@, i as nat),
        decreases ts@.len() - i,
    {
        assert(tv[i as int] == parts::part_views(ts@[i as int].parts@));
        if template_has(&ts[i], keyword) {
            out.push(i as u16);
        }
        i += 1;
    }
    out
}

fn allows(mask: u64, ks: &Vec<u16>) -> (r: bool)
    ensures
        r == patterns_allow(mask, ks@),
{
    if ks.len() == 0 {
        return true;
    }
    let mut i: usize = 0;
    while i < ks.len()
        invariant
            i <= ks@.len(),
            forall|j: int|
                0 <= j < i ==> !(#[trigger] ks@[j] >= 64 || chunk::mask_bit(mask, ks@[j])),
        decreases ks@.len() - i,
    {
        let k: u16 = ks[i];
        if k >= 64 || (mask >> (k as u64)) & 1 != 0 {
            assert(ks@[i as int] >= 64 || chunk::mask_bit(mask, ks@[i as int]));
            return true;
        }
        i += 1;
    }
    false
}

fn footer_error(data: &[u8]) -> (r: Option<DataError>)
    requires
        data@.len() >= 8,
    ensures
        match r {
            None => segment::footer_matches(data@),
            Some(e) => !segment::footer_matches(data@) && e == checksum_error(data@),
        },
{
    let n: usize = data.len();
    let tail: &[u8] = vstd::slice::slice_subrange(data, n - 8, n);
    assert(tail@.take(8) =~= tail@);
    let content: &[u8] = vstd::slice::slice_subrange(data, 0, n - 8);
    assert(content@ =~= data@.take(n - 8));
    match SegmentFooter::from_bytes(tail) {
        Ok(f) => match f.verify(content) {
            Ok(_) => None,
            Err(e) => Some(DataError::Format(e)),
        },
        Err(e) => {
            assert(false);
            Some(DataError::Format(e))
        },
    }
}

fn read_templates(data: &[u8], h: &SegmentHeader) -> (r: Result<Vec<Template>, DataError>)
    requires
        data@.len() >= 104,
    ensures
        match (r, file_templates(data@, *h)) {
            (Ok(ts), Ok(want)) => parts::template_views(ts@) == want,
            (Err(e), Err(f)) => e == f,
            _ => false,
        },
{
    let len: u32 = h.pattern_table_size();
    if h.pattern_count() > 0 && len > 0 {
        if ((data.len() - 64) as u64) < len as u64 {
            return Err(DataError::SegmentTruncated);
        }
        let table: &[u8] = vstd::slice::slice_subrange(data, 64, 64 + len as usize);
        TemplateBatch::deserialize_pattern_table(table)
    } else {
        let none: Vec<Template> = Vec::new();
        assert(parts::template_views(none@) =~= Seq::<Seq<PartView>>::empty());
        Ok(none)
    }
}

fn read_dict<'a>(data: &'a [u8], h: &SegmentHeader) -> (r: Option<&'a [u8]>)
    requires
        data@.len() >= 104,
    ensures
        codec::dict_bytes(r) == file_dict(data@, *h),
{
    let off: u64 = h.dict_offset() as u64;
    let len: u64 = h.dict_len() as u64;
    if len > 0 && off >= 64 + h.pattern_table_size() as u64 && off + len <= (data.len() - 8) as u64 {
        Some(vstd::slice::slice_subrange(data, off as usize, (off + len) as usize))
    } else {
        None
    }
}

/// The lines of unpacked chunk data; `flags` are the feature flags of the file.
pub fn deserialize_chunk_binary(data: &[u8], templates: &[Template], flags: u8) -> (r: Result<
    Vec<LogLine>,
    DataError,
>)
    ensures
        match (r, unpacked_lines(data@, parts::template_views(templates@), flags)) {
            (Ok(logs), Ok(want)) => log::log_views(logs@) == want,
            (Err(e), Err(f)) => e == f,
            _ => false,
        },
{
    if flags & SegmentHeader::FEATURE_ENHANCED_CHUNK != 0 {
        chunk_read::read_chunk(data, templates)
    } else {
        chunk_legacy::read_legacy_chunk(data, templates)
    }
}

pub(crate) fn read_entry(data: &[u8], off: usize) -> (r: ChunkEntry)
    requires
        off + 32 <= data@.len(),
    ensures
        r == chunk::entry_of(data@.subrange(off as int, off + 32)),
{
    let total: usize = data.len();
    assert(off + 32 <= total);
    let part: &[u8] = vstd::slice::slice_subrange(data, off, off + 32);
    assert(part@.take(32) =~= part@);
    match ChunkEntry::from_bytes(part) {
        Ok(e) => e,
        Err(_) => {
            assert(false);
            ChunkEntry::new(0, 0, 0, 0, 0, 0)
        },
    }
}

fn query_segment_v2(
    data: &[u8],
    h: &SegmentHeader,
    start: u64,
    end: u64,
    keyword: &[char],
    limit: usize,
) -> (r: Result<Vec<LogLine>, DataError>)
    requires
        data@.len() >= 104,
    ensures
        match (
            r,
            found_v2(
                data@,
                *h,
                (QueryView { start, end, keyword: keyword@ }),
                limit as nat,
            ),
        ) {
            (Ok(logs), Ok(want)) => log::log_views(logs@) == want && logs@.len() <= limit,
            (Err(e), Err(f)) => e == f,
            _ => false,
        },
{
    let total: usize = data.len();
    let ghost d = data@;
    let ghost g = *h;
    let ghost q = QueryView { start, end, keyword: keyword@ };
    let templates: Vec<Template> = match read_templates(data, h) {
        Ok(ts) => ts,
        Err(e) => {
            return Err(e);
        },
    };
    let ghost tv = parts::template_views(templates@);
    let patterns: Vec<u16> = find_patterns(&templates, keyword);
    let dict: Option<&[u8]> = read_dict(data, h);
    let count: usize = h.chunk_count as usize;
    let start64: u64 = 64 + h.pattern_table_size() as u64 + h.dict_len() as u64;
    let first64: u64 = h.summary_offset() as u64;
    assert(start64 == segment::table_start(g));
    if count > 0 && (start64 + 32 * count as u64 > total as u64 || first64 + 80 * count as u64
        > total as u64) {
        return Err(DataError::SegmentTruncated);
    }
    if let Some(e) = footer_error(data) {
        return Err(e);
    }
    let data_offset: u64 = h.data_offset_v2() as u64;
    let flags: u8 = h.feature_flags();
    let mut out: Vec<LogLine> = Vec::new();
    let mut i: usize = 0;
    assert(log::log_views(out@) =~= Seq::<LogView>::empty());
    while i < count && out.len() < limit
        invariant
            i <= count,
            count == g.chunk_count,
            total == data@.len(),
            total >= 104,
            d == data@,
            g == *h,
            q == (QueryView { start, end, keyword: keyword@ }),
            tv == parts::template_views(templates@),
            patterns@ == keyword_patterns(tv, q.keyword, tv.len()),
            codec::dict_bytes(dict) == file_dict(d, g),
            start64 == segment::table_start(g),
            first64 == segment::summary_at(g, 0),
            count > 0 ==> start64 + 32 * count <= total && first64 + 80 * count <= total,
            data_offset == header::reserved_number(g.reserved@, 8, 4),
            data_offset <= u32::MAX,
            flags == g.reserved@[20],
            found_v2(d, g, q, limit as nat) == found_in_chunks(
                d,
                g,
                tv,
                q,
                limit as nat,
                count as nat,
            ),
            out@.len() <= limit,
            found_in_chunks(d, g, tv, q, limit as nat, i as nat) == Ok::<Seq<LogView>, DataError>(
                log::log_views(out@),
            ),
        decreases count - i,
    {
        proof {
            if found_in_chunks(d, g, tv, q, limit as nat, (i + 1) as nat) is Err {
                lemma_found_error(d, g, tv, q, limit as nat, (i + 1) as nat, count as nat);
            }
        }
        let off: usize = (start64 + 32 * i as u64) as usize;
        let e: ChunkEntry = read_entry(data, off);
        assert(e == segment::table_entry(d, g, i as int));
        let at: usize = (first64 + 80 * i as u64) as usize;
        assert(at == segment::summary_at(g, i as int));
        let mask: u64 = bytes::read_le(data, at, 8);
        assert(mask == chunk_mask(d, g, i as int));
        let begin: u64 = data_offset + e.offset as u64;
        let stop: u64 = begin + e.compressed_sz as u64;
        let skip: bool = e.max_ts < start || e.min_ts > end || !allows(mask, &patterns) || stop > (
        total - 8) as u64;
        let ghost before = log::log_views(out@);
        if !skip {
            let part: &[u8] = vstd::slice::slice_subrange(data, begin as usize, stop as usize);
            let raw: Vec<u8> = match codec::decompress_with_dict(part, dict) {
                Ok(raw) => raw,
                Err(e) => {
                    return Err(e);
                },
            };
            let logs: Vec<LogLine> = match deserialize_chunk_binary(
                raw.as_slice(),
                templates.as_slice(),
                flags,
            ) {
                Ok(logs) => logs,
                Err(e) => {
                    return Err(e);
                },
            };
            push_matching(&mut out, &logs, start, end, keyword, limit);
        } else {
            assert(first(Seq::<LogView>::empty(), (limit - before.len()) as nat)
                =~= Seq::<LogView>::empty());
            assert(before + Seq::<LogView>::empty() =~= before);
        }
        i += 1;
    }
    proof {
        if i < count {
            lemma_found_full(d, g, tv, q, limit as nat, i as nat, count as nat);
        }
    }
    Ok(out)
}

fn query_segment_v1(
    compressor: &Compressor,
    data: &[u8],
    start: u64,
    end: u64,
    keyword: &[char],
    limit: usize,
) -> (r: Result<Vec<LogLine>, DataError>)
    requires
        data@.len() >= 104,
    ensures
        match (
            r,
            found_v1(
                data@,
                (QueryView { start, end, keyword: keyword@ }),
                limit as nat,
                compressor::owned_dict(compressor.config.dict),
            ),
        ) {
            (Ok(logs), Ok(want)) => log::log_views(logs@) == want && logs@.len() <= limit,
            (Err(e), Err(f)) => e == f,
            _ => false,
        },
{
    let total: usize = data.len();
    let e: ChunkEntry = read_entry(data, 64);
    let mut out: Vec<LogLine> = Vec::new();
    assert(log::log_views(out@) =~= Seq::<LogView>::empty());
    if e.max_ts < start || e.min_ts > end {
        return Ok(out);
    }
    if let Some(err) = footer_error(data) {
        return Err(err);
    }
    let stop: u64 = e.offset as u64 + e.compressed_sz as u64;
    if stop > (total - 8) as u64 {
        return Err(DataError::ChunkOutOfBounds);
    }
    let part: &[u8] = vstd::slice::slice_subrange(data, e.offset as usize, stop as usize);
    match compressor.decompress_batch(part) {
        Err(err) => Err(err),
        Ok(logs) => {
            push_matching(&mut out, &logs, start, end, keyword, limit);
            proof {
                let q = QueryView { start, end, keyword: keyword@ };
                let f = first(matching(log::log_views(logs@), q), limit as nat);
                assert(Seq::<LogView>::empty() + f =~= f);
                if e.compressed_sz == 0 {
                    assert(log::log_views(logs@) =~= Seq::<LogView>::empty());
                    assert(f =~= Seq::<LogView>::empty());
                }
            }
            Ok(out)
        },
    }
}

/// Finds lines in a segment file, up to `limit` lines. `compressor` unpacks
/// files of version 1.
pub fn query_segment(
    compressor: &Compressor,
    data: &[u8],
    start: u64,
    end: u64,
    keyword: &[char],
    limit: usize,
) -> (r: Result<Vec<LogLine>, DataError>)
    ensures
        is_found(
            data@,
            (QueryView { start, end, keyword: keyword@ }),
            limit as nat,
            compressor::owned_dict(compressor.config.dict),
            result_views(r),
        ),
        r is Ok ==> r->Ok_0@.len() <= limit,
{
    if data.len() < MIN_SEGMENT_SIZE {
        return Err(DataError::SegmentTooShort);
    }
    let h: SegmentHeader = match SegmentHeader::from_bytes(data) {
        Ok(h) => h,
        Err(e) => {
            return Err(DataError::Format(e));
        },
    };
    proof {
        header::lemma_header_at(h, data@);
    }
    if h.version == FORMAT_VERSION_V1 {
        query_segment_v1(compressor, data, start, end, keyword, limit)
    } else {
        let ghost g = header::header_at(data@);
        proof {
            lemma_found_same(
                data@,
                g,
                h,
                (QueryView { start, end, keyword: keyword@ }),
                limit as nat,
            );
        }
        query_segment_v2(data, &h, start, end, keyword, limit)
    }
}

/// The lines of a result.
pub open spec fn result_views(r: Result<Vec<LogLine>, DataError>) -> Result<
    Seq<LogView>,
    DataError,
> {
    match r {
        Ok(logs) => Ok(log::log_views(logs@)),
        Err(e) => Err(e),
    }
}

/// What is found depends on the header's chunk count and reserved area alone.
pub proof fn lemma_found_same(
    data: Seq<u8>,
    a: SegmentHeader,
    b: SegmentHeader,
    q: QueryView,
    limit: nat,
)
    requires
        a.chunk_count == b.chunk_count,
        a.reserved@ == b.reserved@,
    ensures
        found_v2(data, a, q, limit) == found_v2(data, b, q, limit),
{
    match file_templates(data, a) {
        Err(_) => {},
        Ok(ts) => {
            lemma_chunks_same(data, a, b, ts, q, limit, a.chunk_count as nat);
        },
    }
}

proof fn lemma_chunks_same(
    data: Seq<u8>,
    a: SegmentHeader,
    b: SegmentHeader,
    ts: Seq<Seq<PartView>>,
    q: QueryView,
    limit: nat,
    n: nat,
)
    requires
        a.chunk_count == b.chunk_count,
        a.reserved@ == b.reserved@,
    ensures
        found_in_chunks(data, a, ts, q, limit, n) == found_in_chunks(data, b, ts, q, limit, n),
    decreases n,
{
    if n > 0 {
        lemma_chunks_same(data, a, b, ts, q, limit, (n - 1) as nat);
        assert(segment::table_entry(data, a, n - 1) == segment::table_entry(data, b, n - 1));
        assert(chunk_mask(data, a, n - 1) == chunk_mask(data, b, n - 1));
        assert(found_in_chunk(data, a, ts, q, n - 1) == found_in_chunk(data, b, ts, q, n - 1));
    }
}

} // verus!
