//! What is read of files that are damaged, incomplete or old.

use crate::agent::chunk_legacy;
use crate::agent::codec;
use crate::agent::compressor;
use crate::agent::index;
use crate::agent::index::{MetaView, SegmentMetaView};
use crate::agent::index_open;
use crate::agent::index_open::FileView;
use crate::agent::json;
use crate::agent::json_line;
use crate::agent::parts;
use crate::agent::parts::PartView;
use crate::agent::query_law;
use crate::agent::segment_query;
use crate::agent::segment_query::QueryView;
use crate::agent::storage_query;
use crate::agent::typed;
use crate::agent::typed::ParamView;
use crate::shared::bytes;
use crate::shared::chunk::ChunkEntry;
use crate::shared::crc;
use crate::shared::error::DataError;
use crate::shared::header;
use crate::shared::header::SegmentHeader;
use crate::shared::log::LogView;
use crate::shared::names;
use crate::shared::segment;
use vstd::prelude::*;

verus! {

// ---------- text lines ----------

/// Text lines are read one by one: what cannot be read keeps nothing else from
/// being read, neither before nor behind it.
pub proof fn law_lines_read_one_by_one(a: Seq<Seq<u8>>, line: Seq<u8>, b: Seq<Seq<u8>>)
    ensures
        json::lines_logs(a + b) == json::lines_logs(a) + json::lines_logs(b),
        json::line_log(line) is None ==> json::lines_logs(a + seq![line] + b) == json::lines_logs(
            a + b,
        ),
        json::line_log(line) is Some ==> json::lines_logs(a + seq![line] + b) == json::lines_logs(a)
            + seq![json::line_log(line)->0] + json::lines_logs(b),
{
    lemma_lines(a, b);
    lemma_lines(a + seq![line], b);
    lemma_lines(a, seq![line]);
    assert(seq![line].drop_first() =~= Seq::<Seq<u8>>::empty());
    assert(json::lines_logs(seq![line].drop_first()) =~= Seq::<LogView>::empty());
    if json::line_log(line) is None {
        assert(json::lines_logs(seq![line]) =~= Seq::<LogView>::empty());
        assert(json::lines_logs(a) + Seq::<LogView>::empty() =~= json::lines_logs(a));
    } else {
        assert(json::lines_logs(seq![line]) =~= seq![json::line_log(line)->0]);
    }
}

proof fn lemma_lines(a: Seq<Seq<u8>>, b: Seq<Seq<u8>>)
    ensures
        json::lines_logs(a + b) == json::lines_logs(a) + json::lines_logs(b),
    decreases a.len(),
{
    if a.len() == 0 {
        assert(a + b =~= b);
        assert(json::lines_logs(a) =~= Seq::<LogView>::empty());
        assert(Seq::<LogView>::empty() + json::lines_logs(b) =~= json::lines_logs(b));
    } else {
        lemma_lines(a.drop_first(), b);
        assert((a + b).drop_first() =~= a.drop_first() + b);
        assert((a + b)[0] == a[0]);
        assert(json::lines_logs(a + b) =~= json::lines_logs(a) + json::lines_logs(b));
    }
}

// ---------- damaged files ----------

/// No line is given out of a segment file of version 2 with one byte changed,
/// between its header and its footer or in its checksum.
pub proof fn law_damaged_file_refused(
    data: Seq<u8>,
    h: SegmentHeader,
    j: int,
    x: u8,
    q: QueryView,
    limit: nat,
    dict: Option<Seq<u8>>,
    r: Result<Seq<LogView>, DataError>,
)
    requires
        data.len() >= 104,
        segment::footer_matches(data),
        header::header_bytes(h) == data.take(64),
        h.version == 2,
        64 <= j < data.len() - 8 || data.len() - 4 <= j < data.len(),
        x != data[j],
        segment_query::is_found(data.update(j, x), q, limit, dict, r),
    ensures
        r is Err,
{
    let n: int = data.len() as int;
    let bad: Seq<u8> = data.update(j, x);
    let a: Seq<u8> = data.subrange(n - 8, n).subrange(4, 8);
    let b: Seq<u8> = bad.subrange(n - 8, n).subrange(4, 8);
    if j < n - 8 {
        assert(bad.subrange(n - 8, n) =~= data.subrange(n - 8, n));
        assert(bad.take(n - 8) =~= data.take(n - 8).update(j, x));
        crc::law_changed_byte_noticed(data.take(n - 8), j, x);
    } else {
        assert(bad.take(n - 8) =~= data.take(n - 8));
        bytes::lemma_pow256();
        bytes::lemma_le_value_bound(a);
        bytes::lemma_le_value_bound(b);
        bytes::lemma_le_bytes_of_value(a);
        bytes::lemma_le_bytes_of_value(b);
        assert(a[j - (n - 4)] == data[j]);
        assert(b[j - (n - 4)] == x);
    }
    assert(!segment::footer_matches(bad));
    assert(bad.take(64) =~= data.take(64));
    header::lemma_header_at(h, bad);
}

/// A segment file that ends too early gives no lines.
pub proof fn law_short_file_refused(
    data: Seq<u8>,
    q: QueryView,
    limit: nat,
    dict: Option<Seq<u8>>,
    r: Result<Seq<LogView>, DataError>,
)
    requires
        data.len() < 104 || data.take(4) != seq![0x4du8, 0x4fu8, 0x42u8, 0x53u8],
        segment_query::is_found(data, q, limit, dict, r),
    ensures
        r is Err,
{
}

// ---------- old files ----------

/// A file of version 1 gives the lines of its only chunk that lie within the
/// times of the query and have a service, level or message made of something,
/// the keyword, and something; all of them, where they are fewer than its limit.
pub proof fn law_old_file_lines(
    data: Seq<u8>,
    q: QueryView,
    limit: nat,
    dict: Option<Seq<u8>>,
    raw: Seq<u8>,
    i: int,
    a: Seq<char>,
    b: Seq<char>,
    k: int,
)
    requires
        segment::footer_matches(data),
        ({
            let e: ChunkEntry = segment_query::v1_entry(data);
            &&& e.min_ts <= q.end
            &&& q.start <= e.max_ts
            &&& e.compressed_sz > 0
            &&& e.offset + e.compressed_sz <= data.len() - 8
            &&& codec::unpacked(
                data.subrange(e.offset as int, e.offset + e.compressed_sz),
                dict,
            ) == Some(raw)
        }),
    ensures
        ({
            let r: Result<Seq<LogView>, DataError> = segment_query::found_v1(data, q, limit, dict);
            let logs: Seq<LogView> = compressor::raw_logs(raw);
            &&& r is Ok
            &&& r->Ok_0.len() <= limit
            &&& r->Ok_0.len() < limit && 0 <= i < logs.len() && q.start <= logs[i].ts <= q.end
                && query_law::line_made_of(logs[i], a, q.keyword, b) ==> r->Ok_0.contains(logs[i])
            &&& 0 <= k < r->Ok_0.len() ==> logs.contains(r->Ok_0[k]) && q.start <= r->Ok_0[k].ts
                <= q.end && exists|x: Seq<char>, y: Seq<char>| #[trigger]
                query_law::line_made_of(r->Ok_0[k], x, q.keyword, y)
        }),
{
    let logs: Seq<LogView> = compressor::raw_logs(raw);
    let found: Seq<LogView> = segment_query::matching(logs, q);
    let r: Result<Seq<LogView>, DataError> = segment_query::found_v1(data, q, limit, dict);
    assert(r == Ok::<Seq<LogView>, DataError>(segment_query::first(found, limit)));
    if 0 <= i < logs.len() && q.start <= logs[i].ts <= q.end && query_law::line_made_of(
        logs[i],
        a,
        q.keyword,
        b,
    ) {
        query_law::law_split_line_matches(logs, q, i, a, b);
    }
    if 0 <= k < r->Ok_0.len() {
        assert(r->Ok_0[k] == found[k]);
        let j: int = query_law::law_matching_line_splits(logs, q, k);
        assert(logs[j] == r->Ok_0[k]);
    }
}

// ---------- records without their template ----------

/// The message of an older record without its template is its parameters with
/// blanks between them.
pub proof fn law_record_without_template(
    templates: Seq<Seq<PartView>>,
    pat_id: nat,
    params: Seq<ParamView>,
    p: ParamView,
    ts: u64,
    service: Seq<char>,
    level: Seq<char>,
)
    requires
        pat_id >= templates.len(),
        params.len() > 0,
    ensures
        chunk_legacy::decoded_line(templates, pat_id, params.push(p), ts, service, level).message
            == chunk_legacy::decoded_line(templates, pat_id, params, ts, service, level).message
            + seq![' '] + typed::param_text(p),
        chunk_legacy::decoded_line(templates, pat_id, seq![p], ts, service, level).message
            == typed::param_text(p),
        chunk_legacy::decoded_line(templates, pat_id, params, ts, service, level).ts == ts,
        chunk_legacy::decoded_line(templates, pat_id, params, ts, service, level).service == service,
        chunk_legacy::decoded_line(templates, pat_id, params, ts, service, level).level == level,
{
    let more: Seq<Seq<char>> = typed::param_texts(params.push(p));
    assert(more.drop_last() =~= typed::param_texts(params));
    assert(more.last() == typed::param_text(p));
}

/// A slot for which an older record has no parameter is shown as a star.
pub proof fn law_slot_without_parameter(t: Seq<PartView>, params: Seq<Seq<char>>, n: nat)
    requires
        n < t.len(),
        t[n as int] is Param,
        parts::slots_before(t, n) >= params.len(),
    ensures
        parts::render_upto(t, params, seq!['*'], n + 1) == parts::render_upto(
            t,
            params,
            seq!['*'],
            n,
        ) + seq!['*'],
{
}

/// A message is made of its template from left to right: texts stand as they
/// are, and each slot takes the next parameter.
pub proof fn law_message_from_template(
    t: Seq<PartView>,
    params: Seq<Seq<char>>,
    filler: Seq<char>,
    n: nat,
)
    requires
        n < t.len(),
    ensures
        t[n as int] is Literal ==> parts::render_upto(t, params, filler, n + 1)
            == parts::render_upto(t, params, filler, n) + t[n as int]->Literal_0
            && parts::slots_before(t, n + 1) == parts::slots_before(t, n),
        t[n as int] is Param && parts::slots_before(t, n) < params.len() ==> parts::render_upto(
            t,
            params,
            filler,
            n + 1,
        ) == parts::render_upto(t, params, filler, n) + params[parts::slots_before(t, n) as int],
        t[n as int] is Param ==> parts::slots_before(t, n + 1) == parts::slots_before(t, n) + 1,
        parts::slots_before(t, 0) == 0,
        parts::render_upto(t, params, filler, 0) == Seq::<char>::empty(),
{
}

// ---------- JSON objects ----------

/// Member `i` is the only one of that name.
pub open spec fn only_member(ms: Seq<(Seq<char>, Seq<u8>)>, i: int, key: Seq<char>) -> bool {
    &&& 0 <= i < ms.len()
    &&& ms[i].0 == key
    &&& forall|j: int| 0 <= j < ms.len() && j != i ==> (#[trigger] ms[j]).0 != key
}

/// A member counts where it is the only one of its name; of a name that comes
/// twice, or not at all, nothing is read.
pub proof fn law_sole_member(ms: Seq<(Seq<char>, Seq<u8>)>, key: Seq<char>, i: int, j: int)
    ensures
        only_member(ms, i, key) ==> json_line::sole_value(ms, key) == Some(ms[i].1),
        0 <= i < j < ms.len() && ms[i].0 == key && ms[j].0 == key ==> json_line::sole_value(
            ms,
            key,
        ) is None,
        (forall|k: int| 0 <= k < ms.len() ==> (#[trigger] ms[k]).0 != key) ==> json_line::sole_value(
            ms,
            key,
        ) is None,
    decreases ms.len(),
{
    if ms.len() > 0 {
        let front: Seq<(Seq<char>, Seq<u8>)> = ms.drop_last();
        let n: int = ms.len() - 1;
        law_sole_member(front, key, i, j);
        if only_member(ms, i, key) {
            if i < n {
                assert(ms[n].0 != key);
                assert(front[i] == ms[i]);
                assert forall|k: int| 0 <= k < front.len() && k != i implies (
                #[trigger] front[k]).0 != key by {
                    assert(front[k] == ms[k]);
                }
            } else {
                assert forall|k: int| 0 <= k < front.len() implies (#[trigger] front[k]).0
                    != key by {
                    assert(front[k] == ms[k]);
                }
            }
        }
        if 0 <= i < j < ms.len() && ms[i].0 == key && ms[j].0 == key {
            assert(front[i] == ms[i]);
            if j < n {
                assert(front[j] == ms[j]);
            }
        }
        if forall|k: int| 0 <= k < ms.len() ==> (#[trigger] ms[k]).0 != key {
            assert(ms[n].0 != key);
            assert forall|k: int| 0 <= k < front.len() implies (#[trigger] front[k]).0 != key by {
                assert(front[k] == ms[k]);
            }
        }
    }
}

/// An object is read as a log line by its members `t`, a number, and `s`, `l` and
/// `m`, texts, in whatever order they come and whatever other members it has.
pub proof fn law_members_in_any_order(
    ms: Seq<(Seq<char>, Seq<u8>)>,
    t: int,
    s: int,
    l: int,
    m: int,
    line: LogView,
)
    requires
        only_member(ms, t, seq!['t']),
        only_member(ms, s, seq!['s']),
        only_member(ms, l, seq!['l']),
        only_member(ms, m, seq!['m']),
        json_line::json_uint(ms[t].1) == Some(line.ts),
        json_line::json_text(ms[s].1) == Some(line.service),
        json_line::json_text(ms[l].1) == Some(line.level),
        json_line::json_text(ms[m].1) == Some(line.message),
    ensures
        json_line::members_log(ms) == Some(line),
{
    law_sole_member(ms, seq!['t'], t, t);
    law_sole_member(ms, seq!['s'], s, s);
    law_sole_member(ms, seq!['l'], l, l);
    law_sole_member(ms, seq!['m'], m, m);
}

/// An object without one of the four members, or with one of them twice, is no
/// log line.
pub proof fn law_members_needed(ms: Seq<(Seq<char>, Seq<u8>)>, key: Seq<char>, i: int, j: int)
    requires
        key == seq!['t'] || key == seq!['s'] || key == seq!['l'] || key == seq!['m'],
        (forall|k: int| 0 <= k < ms.len() ==> (#[trigger] ms[k]).0 != key) || (0 <= i < j < ms.len()
            && ms[i].0 == key && ms[j].0 == key),
    ensures
        json_line::members_log(ms) is None,
{
    law_sole_member(ms, key, i, j);
}

/// Blanks, tabulators, line feeds and carriage returns between the parts of an
/// object are passed over, and nothing else is.
pub proof fn law_blanks_passed_over(b: Seq<u8>, i: nat, k: nat)
    requires
        i <= k <= b.len(),
        forall|j: int|
            i <= j < k ==> #[trigger] b[j] == 0x20 || b[j] == 0x09 || b[j] == 0x0a || b[j] == 0x0d,
        k < b.len() ==> b[k as int] != 0x20 && b[k as int] != 0x09 && b[k as int] != 0x0a
            && b[k as int] != 0x0d,
    ensures
        json_line::past_blanks(b, i) == k,
    decreases k - i,
{
    if i < k {
        assert(b[i as int] == 0x20 || b[i as int] == 0x09 || b[i as int] == 0x0a || b[i as int]
            == 0x0d);
        law_blanks_passed_over(b, i + 1, k);
    }
}

/// White space in JSON.
pub open spec fn blank(c: u8) -> bool {
    c == 0x20 || c == 0x09 || c == 0x0a || c == 0x0d
}

/// An opening brace stands at `k`, and nothing but white space before it.
pub open spec fn opens_at(b: Seq<u8>, k: int) -> bool {
    0 <= k < b.len() && b[k] == 0x7b && forall|j: int| 0 <= j < k ==> blank(#[trigger] b[j])
}

/// A closing brace stands at `k`, and nothing but white space behind it.
pub open spec fn closes_at(b: Seq<u8>, k: int) -> bool {
    0 <= k < b.len() && b[k] == 0x7d && forall|j: int| k < j < b.len() ==> blank(#[trigger] b[j])
}

proof fn lemma_passed(b: Seq<u8>, i: nat)
    requires
        i <= b.len(),
    ensures
        i <= json_line::past_blanks(b, i) <= b.len(),
        forall|j: int| i <= j < json_line::past_blanks(b, i) ==> blank(#[trigger] b[j]),
    decreases b.len() - i,
{
    if i < b.len() && json_line::is_blank(b[i as int]) {
        lemma_passed(b, i + 1);
    }
}

proof fn lemma_closed(b: Seq<u8>, i: nat) -> (k: int)
    requires
        json_line::members_from(b, i) is Some,
    ensures
        closes_at(b, k),
    decreases b.len() - i,
{
    let m = json_line::member_at(b, i)->0;
    let e: nat = json_line::past_blanks(b, m.end);
    json_line::lemma_member_end(b, i);
    if json_line::has_at(b, e, 0x2c) {
        lemma_closed(b, e + 1)
    } else {
        lemma_passed(b, e + 1);
        e as int
    }
}

/// Only a text that starts with an opening brace and ends with a closing one, but
/// for white space, is a JSON object.
pub proof fn law_object_enclosed(b: Seq<u8>)
    requires
        json_line::object_members(b) is Some,
    ensures
        exists|k: int| opens_at(b, k),
        exists|k: int| closes_at(b, k),
{
    let s: nat = json_line::past_blanks(b, 0);
    let t: nat = json_line::past_blanks(b, s + 1);
    lemma_passed(b, 0);
    assert(opens_at(b, s as int));
    if json_line::has_at(b, t, 0x7d) {
        lemma_passed(b, t + 1);
        assert(closes_at(b, t as int));
    } else {
        let k: int = lemma_closed(b, s + 1);
        assert(closes_at(b, k));
    }
}

// ---------- queries ----------

/// The file of the segment is not there, or gives nothing but errors.
pub open spec fn unreadable(
    fs: Seq<FileView>,
    id: u32,
    q: QueryView,
    dict: Option<Seq<u8>>,
) -> bool {
    match index_open::file_named(fs, names::segment_file_name(id as nat)) {
        None => true,
        Some(data) => forall|room: nat, r: Result<Seq<LogView>, DataError>| #[trigger]
            segment_query::is_found(data, q, room, dict, r) ==> r is Err,
    }
}

proof fn lemma_course_ends(
    fs: Seq<FileView>,
    range: Seq<SegmentMetaView>,
    q: QueryView,
    limit: nat,
    dict: Option<Seq<u8>>,
    outs: Seq<Result<Seq<LogView>, DataError>>,
    i: int,
    n: int,
)
    requires
        storage_query::is_course(fs, range, q, limit, dict, outs),
        0 <= i <= n < outs.len(),
        outs[i] is Err || outs[i]->Ok_0.len() >= limit,
    ensures
        outs[n] == outs[i],
    decreases n - i,
{
    if i < n {
        lemma_course_ends(fs, range, q, limit, dict, outs, i, n - 1);
        assert(storage_query::file_step(
            fs,
            range[n - 1].segment_id,
            q,
            limit,
            dict,
            outs[n - 1],
            outs[n - 1 + 1],
        ));
    }
}

/// No answer passes over a segment that cannot be read: where the times of a query
/// meet such a segment, the query fails, unless it has found as many lines as its
/// limit.
pub proof fn law_unreadable_segment_noticed(
    metas: Seq<MetaView>,
    fs: Seq<FileView>,
    buffer: Seq<LogView>,
    q: QueryView,
    limit: nat,
    dict: Option<Seq<u8>>,
    r: Result<Seq<LogView>, DataError>,
    j: int,
    t: u64,
)
    requires
        storage_query::answers(metas, fs, buffer, q, limit, dict, r),
        metas.len() <= usize::MAX,
        0 <= j < metas.len(),
        metas[j].min_ts <= t <= metas[j].max_ts,
        q.start <= t <= q.end,
        unreadable(fs, metas[j].id, q, dict),
    ensures
        r is Err || r->Ok_0.len() >= limit,
{
    let (range, out) = choose|
        range: Seq<SegmentMetaView>,
        out: Result<Seq<LogView>, DataError>,
    |
        {
            &&& index::is_range(metas, q.start, q.end, range)
            &&& #[trigger] storage_query::files_find(fs, range, q, limit, dict, out)
            &&& storage_query::is_answer(out, buffer, q, limit, r)
        };
    let outs = choose|outs: Seq<Result<Seq<LogView>, DataError>>|
        #[trigger] storage_query::is_course(fs, range, q, limit, dict, outs) && outs.len()
            == range.len() + 1 && outs.last() == out;
    let m: int = query_law::law_range_lists(metas, q.start, q.end, range, j, t);
    let n: int = outs.len() - 1;
    if outs[m] is Err || outs[m]->Ok_0.len() >= limit {
        lemma_course_ends(fs, range, q, limit, dict, outs, m, n);
    } else {
        assert(storage_query::file_step(
            fs,
            range[m].segment_id,
            q,
            limit,
            dict,
            outs[m],
            outs[m + 1],
        ));
        assert(outs[m + 1] is Err);
        lemma_course_ends(fs, range, q, limit, dict, outs, m + 1, n);
    }
}

} // verus!
