//! Which lines a query gives back, said of their texts.

use crate::agent::index;
use crate::agent::index::{MetaView, SegmentMetaView};
use crate::agent::index_law;
use crate::agent::index_open;
use crate::agent::index_open::FileView;
use crate::agent::parts::PartView;
use crate::agent::segment_law;
use crate::agent::segment_plan;
use crate::agent::segment_query;
use crate::agent::segment_query::QueryView;
use crate::agent::storage;
use crate::agent::storage::{StorageEngine, WrittenSegment};
use crate::agent::storage_config::StorageConfig;
use crate::agent::storage_law;
use crate::agent::storage_query;
use crate::shared::chunk;
use crate::shared::error::DataError;
use crate::shared::log;
use crate::shared::log::LogView;
use crate::shared::order;
use crate::shared::summary::SegmentSummary;
use crate::shared::text;
use vstd::prelude::*;

verus! {

// ---------- texts ----------

/// The text is made of `a`, the keyword and `b`.
pub open spec fn made_of(s: Seq<char>, a: Seq<char>, keyword: Seq<char>, b: Seq<char>) -> bool {
    s == a + keyword + b
}

/// One of the three texts of the line is made of `a`, the keyword and `b`.
pub open spec fn line_made_of(l: LogView, a: Seq<char>, keyword: Seq<char>, b: Seq<char>) -> bool {
    ||| made_of(l.service, a, keyword, b)
    ||| made_of(l.level, a, keyword, b)
    ||| made_of(l.message, a, keyword, b)
}

/// A text is found in another one exactly where the other is made of something,
/// the text, and something.
pub proof fn law_text_found(hay: Seq<char>, needle: Seq<char>)
    ensures
        text::contains_text(hay, needle) <==> exists|a: Seq<char>, b: Seq<char>| #[trigger]
            made_of(hay, a, needle, b),
{
    if text::contains_text(hay, needle) {
        let i: int = choose|i: int| #[trigger] text::occurs_at(hay, needle, i);
        let a: Seq<char> = hay.take(i);
        let b: Seq<char> = hay.skip(i + needle.len());
        assert(hay =~= a + hay.subrange(i, i + needle.len()) + b);
        assert(made_of(hay, a, needle, b));
    }
    if exists|a: Seq<char>, b: Seq<char>| #[trigger] made_of(hay, a, needle, b) {
        let (a, b) = choose|a: Seq<char>, b: Seq<char>| #[trigger] made_of(hay, a, needle, b);
        let i: int = a.len() as int;
        assert(hay.subrange(i, i + needle.len()) =~= needle);
        assert(text::occurs_at(hay, needle, i));
    }
}

// ---------- lists ----------

/// A line within the times of the query, one of whose texts is made of
/// something, the keyword, and something, is among the lines looked for.
pub proof fn law_split_line_matches(
    logs: Seq<LogView>,
    q: QueryView,
    i: int,
    a: Seq<char>,
    b: Seq<char>,
)
    requires
        0 <= i < logs.len(),
        q.start <= logs[i].ts <= q.end,
        line_made_of(logs[i], a, q.keyword, b),
    ensures
        segment_query::matching(logs, q).contains(logs[i]),
    decreases logs.len(),
{
    law_text_found(logs[i].service, q.keyword);
    law_text_found(logs[i].level, q.keyword);
    law_text_found(logs[i].message, q.keyword);
    assert(segment_query::line_matches(logs[i], q));
    let all: Seq<LogView> = segment_query::matching(logs, q);
    if i == logs.len() - 1 {
        assert(all.last() == logs[i]);
    } else {
        let front: Seq<LogView> = logs.drop_last();
        law_split_line_matches(front, q, i, a, b);
        let found: Seq<LogView> = segment_query::matching(front, q);
        let k: int = choose|k: int| 0 <= k < found.len() && found[k] == logs[i];
        assert(all[k] == logs[i]);
    }
}

/// Every line among the lines looked for is one of the lines, lies within the
/// times of the query, and one of its texts is made of something, the keyword,
/// and something.
pub proof fn law_matching_line_splits(logs: Seq<LogView>, q: QueryView, k: int) -> (i: int)
    requires
        0 <= k < segment_query::matching(logs, q).len(),
    ensures
        0 <= i < logs.len(),
        segment_query::matching(logs, q)[k] == logs[i],
        q.start <= logs[i].ts <= q.end,
        exists|a: Seq<char>, b: Seq<char>| #[trigger] line_made_of(logs[i], a, q.keyword, b),
    decreases logs.len(),
{
    let front: Seq<LogView> = logs.drop_last();
    let before: Seq<LogView> = segment_query::matching(front, q);
    if k < before.len() {
        law_matching_line_splits(front, q, k)
    } else {
        let l: LogView = logs.last();
        law_text_found(l.service, q.keyword);
        law_text_found(l.level, q.keyword);
        law_text_found(l.message, q.keyword);
        if text::contains_text(l.service, q.keyword) {
            let (a, b) = choose|a: Seq<char>, b: Seq<char>| #[trigger]
                made_of(l.service, a, q.keyword, b);
            assert(line_made_of(l, a, q.keyword, b));
        } else if text::contains_text(l.level, q.keyword) {
            let (a, b) = choose|a: Seq<char>, b: Seq<char>| #[trigger]
                made_of(l.level, a, q.keyword, b);
            assert(line_made_of(l, a, q.keyword, b));
        } else {
            let (a, b) = choose|a: Seq<char>, b: Seq<char>| #[trigger]
                made_of(l.message, a, q.keyword, b);
            assert(line_made_of(l, a, q.keyword, b));
        }
        logs.len() - 1
    }
}

proof fn lemma_ranked<T>(s: Seq<T>, keys: Seq<u64>, r: Seq<T>, k: int)
    requires
        order::is_ranking(s, keys, r),
        s.len() <= usize::MAX,
        0 <= k < s.len(),
    ensures
        r.contains(s[k]),
        r.len() == s.len(),
{
    let ranking = choose|ranking: Seq<usize>|
        {
            &&& #[trigger] order::ranks(keys, ranking, 0, s.len() as int)
            &&& r == Seq::new(s.len(), |i: int| s[ranking[i] as int])
        };
    assert(ranking.contains(k as usize));
    let i: int = choose|i: int| 0 <= i < ranking.len() && ranking[i] == k as usize;
    assert(r[i] == s[k]);
}

proof fn lemma_unranked<T>(s: Seq<T>, keys: Seq<u64>, r: Seq<T>, i: int) -> (k: int)
    requires
        order::is_ranking(s, keys, r),
        0 <= i < r.len(),
    ensures
        0 <= k < s.len(),
        r[i] == s[k],
{
    let ranking = choose|ranking: Seq<usize>|
        {
            &&& #[trigger] order::ranks(keys, ranking, 0, s.len() as int)
            &&& r == Seq::new(s.len(), |i: int| s[ranking[i] as int])
        };
    assert(0 <= ranking[i] < s.len());
    ranking[i] as int
}

proof fn lemma_ranking_len<T>(s: Seq<T>, keys: Seq<u64>, r: Seq<T>)
    requires
        order::is_ranking(s, keys, r),
    ensures
        r.len() == s.len(),
{
}

// ---------- the buffer ----------

/// An answer with fewer lines than its limit leaves no buffered line out: a line
/// within the times of the query whose service, level or message is made of
/// something, the keyword, and something, is in the answer.
pub proof fn law_buffered_line_found(
    metas: Seq<MetaView>,
    fs: Seq<FileView>,
    buffer: Seq<LogView>,
    q: QueryView,
    limit: usize,
    dict: Option<Seq<u8>>,
    r: Result<Seq<LogView>, DataError>,
    i: int,
    a: Seq<char>,
    b: Seq<char>,
)
    requires
        storage_query::answers(metas, fs, buffer, q, limit as nat, dict, r),
        r is Ok,
        r->Ok_0.len() < limit,
        0 <= i < buffer.len(),
        q.start <= buffer[i].ts <= q.end,
        line_made_of(buffer[i], a, q.keyword, b),
    ensures
        r->Ok_0.contains(buffer[i]),
{
    let (range, out) = choose|
        range: Seq<SegmentMetaView>,
        out: Result<Seq<LogView>, DataError>,
    |
        {
            &&& index::is_range(metas, q.start, q.end, range)
            &&& #[trigger] storage_query::files_find(fs, range, q, limit as nat, dict, out)
            &&& storage_query::is_answer(out, buffer, q, limit as nat, r)
        };
    let found: Seq<LogView> = out->Ok_0;
    let wanted: Seq<LogView> = segment_query::matching(buffer, q);
    let room: nat = (limit - found.len()) as nat;
    let all: Seq<LogView> = found + segment_query::first(wanted, room);
    let keys: Seq<u64> = storage_query::times(all);
    lemma_ranking_len(all, keys, r->Ok_0);
    law_split_line_matches(buffer, q, i, a, b);
    let k: int = choose|k: int| 0 <= k < wanted.len() && wanted[k] == buffer[i];
    assert(segment_query::first(wanted, room) == wanted);
    assert(all[found.len() + k] == buffer[i]);
    lemma_ranked(all, keys, r->Ok_0, found.len() + k);
}

// ---------- segments ----------

/// A line as it is read back from a segment: its level is kept where it is one
/// of the four letters, and is `I` otherwise.
pub open spec fn read_back(l: LogView) -> LogView {
    LogView {
        ts: l.ts,
        service: l.service,
        level: if l.level == "D"@ || l.level == "I"@ || l.level == "W"@ || l.level == "E"@ {
            l.level
        } else {
            "I"@
        },
        message: l.message,
    }
}

/// Segments keep the times, services and messages of lines, and the four levels.
pub proof fn law_kept(l: LogView)
    ensures
        segment_law::kept(l) == read_back(l),
{
    reveal_strlit("D");
    reveal_strlit("I");
    reveal_strlit("W");
    reveal_strlit("E");
    assert(chunk::level_bit(l.level) is None || chunk::level_bit(l.level)->0 < 4);
}

proof fn lemma_overlapping_listed(s: Seq<MetaView>, start: u64, end: u64, n: nat, j: int) -> (i: int)
    requires
        0 <= j < n <= s.len(),
        s[j].min_ts <= end,
        start <= s[j].max_ts,
    ensures
        0 <= i < index::overlapping(s, start, end, n).len(),
        index::overlapping(s, start, end, n)[i].segment_id == s[j].id,
        index::overlapping(s, start, end, n).len() <= n,
    decreases n,
{
    lemma_overlapping_len(s, start, end, n);
    if j == n - 1 {
        index::overlapping(s, start, end, n).len() - 1
    } else {
        lemma_overlapping_listed(s, start, end, (n - 1) as nat, j)
    }
}

proof fn lemma_overlapping_len(s: Seq<MetaView>, start: u64, end: u64, n: nat)
    requires
        n <= s.len(),
    ensures
        index::overlapping(s, start, end, n).len() <= n,
    decreases n,
{
    if n > 0 {
        lemma_overlapping_len(s, start, end, (n - 1) as nat);
    }
}

/// The segments of a time range are those that hold a time of it.
pub proof fn law_range_lists(
    s: Seq<MetaView>,
    start: u64,
    end: u64,
    range: Seq<SegmentMetaView>,
    j: int,
    t: u64,
) -> (i: int)
    requires
        index::is_range(s, start, end, range),
        s.len() <= usize::MAX,
        0 <= j < s.len(),
        s[j].min_ts <= t <= s[j].max_ts,
        start <= t <= end,
    ensures
        0 <= i < range.len(),
        range[i].segment_id == s[j].id,
{
    let v: Seq<SegmentMetaView> = index::overlapping(s, start, end, s.len());
    let k: int = lemma_overlapping_listed(s, start, end, s.len(), j);
    lemma_ranked(v, index::last_times(v), range, k);
    choose|i: int| 0 <= i < range.len() && range[i] == v[k]
}

/// The segments of a time range stand in the index, each with a time of the
/// range between its first and its last time, where neither span is empty.
pub proof fn law_range_meets(
    s: Seq<MetaView>,
    start: u64,
    end: u64,
    range: Seq<SegmentMetaView>,
    i: int,
) -> (j: int)
    requires
        index::is_range(s, start, end, range),
        0 <= i < range.len(),
        start <= end,
    ensures
        0 <= j < s.len(),
        range[i].segment_id == s[j].id,
        range[i].min_ts == s[j].min_ts,
        range[i].max_ts == s[j].max_ts,
        range[i].line_count == s[j].line_count,
        range[i].summary == s[j].summary,
        s[j].min_ts <= s[j].max_ts ==> exists|t: u64|
            start <= t <= end && #[trigger] lies_at(s[j], t),
{
    let v: Seq<SegmentMetaView> = index::overlapping(s, start, end, s.len());
    let k: int = lemma_unranked(v, index::last_times(v), range, i);
    let j: int = lemma_overlapping_source(s, start, end, s.len(), k);
    let m: MetaView = s[j];
    if m.min_ts <= m.max_ts {
        if m.min_ts >= start {
            assert(lies_at(m, m.min_ts));
        } else {
            assert(lies_at(m, start));
        }
    }
    j
}

/// The time lies between the first and the last time of the entry.
pub open spec fn lies_at(m: MetaView, t: u64) -> bool {
    m.min_ts <= t <= m.max_ts
}

proof fn lemma_overlapping_source(s: Seq<MetaView>, start: u64, end: u64, n: nat, k: int) -> (j: int)
    requires
        n <= s.len(),
        0 <= k < index::overlapping(s, start, end, n).len(),
    ensures
        0 <= j < n,
        index::overlapping(s, start, end, n)[k] == index::without_path(s[j]),
        s[j].min_ts <= end,
        start <= s[j].max_ts,
    decreases n,
{
    let before: Seq<SegmentMetaView> = index::overlapping(s, start, end, (n - 1) as nat);
    if k < before.len() {
        lemma_overlapping_source(s, start, end, (n - 1) as nat, k)
    } else {
        n - 1
    }
}

/// The segments of a time range come in the order of their last times, the
/// latest first.
pub proof fn law_range_latest_first(
    s: Seq<MetaView>,
    start: u64,
    end: u64,
    range: Seq<SegmentMetaView>,
    i: int,
    k: int,
)
    requires
        index::is_range(s, start, end, range),
        0 <= i < k < range.len(),
    ensures
        range[i].max_ts >= range[k].max_ts,
{
    let v: Seq<SegmentMetaView> = index::overlapping(s, start, end, s.len());
    let keys: Seq<u64> = index::last_times(v);
    let ranking = choose|ranking: Seq<usize>|
        {
            &&& #[trigger] order::ranks(keys, ranking, 0, v.len() as int)
            &&& range == Seq::new(v.len(), |i: int| v[ranking[i] as int])
        };
    assert(order::precedes(keys, ranking[i] as int, ranking[k] as int));
    assert(0 <= ranking[i] < v.len() && 0 <= ranking[k] < v.len());
}

/// A template holds a keyword exactly where one of its texts is made of
/// something, the keyword, and something.
pub proof fn law_template_holds(t: Seq<PartView>, keyword: Seq<char>)
    ensures
        segment_query::template_holds(t, keyword) <==> exists|
            k: int,
            a: Seq<char>,
            b: Seq<char>,
        |
            0 <= k < t.len() && #[trigger] part_made_of(t[k], a, keyword, b),
{
    if segment_query::template_holds(t, keyword) {
        let k: int = choose|k: int|
            0 <= k < t.len() && segment_query::part_holds(#[trigger] t[k], keyword);
        law_text_found(t[k]->Literal_0, keyword);
        let (a, b) = choose|a: Seq<char>, b: Seq<char>| #[trigger]
            made_of(t[k]->Literal_0, a, keyword, b);
        assert(part_made_of(t[k], a, keyword, b));
    }
    if exists|k: int, a: Seq<char>, b: Seq<char>|
        0 <= k < t.len() && #[trigger] part_made_of(t[k], a, keyword, b) {
        let (k, a, b) = choose|k: int, a: Seq<char>, b: Seq<char>|
            0 <= k < t.len() && #[trigger] part_made_of(t[k], a, keyword, b);
        law_text_found(t[k]->Literal_0, keyword);
        assert(made_of(t[k]->Literal_0, a, keyword, b));
        assert(segment_query::part_holds(t[k], keyword));
    }
}

/// The part is a text made of `a`, the keyword and `b`.
pub open spec fn part_made_of(
    p: PartView,
    a: Seq<char>,
    keyword: Seq<char>,
    b: Seq<char>,
) -> bool {
    p is Literal && made_of(p->Literal_0, a, keyword, b)
}

proof fn lemma_held_listed(
    held: Map<u32, Seq<LogView>>,
    range: Seq<SegmentMetaView>,
    q: QueryView,
    n: nat,
    m: int,
    l: LogView,
)
    requires
        0 <= m < n <= range.len(),
        segment_query::matching(segment_law::all_kept(held[range[m].segment_id]), q).contains(l),
    ensures
        storage_law::held_lines(held, range, q, n).contains(l),
    decreases n,
{
    let all: Seq<LogView> = storage_law::held_lines(held, range, q, n);
    let before: Seq<LogView> = storage_law::held_lines(held, range, q, (n - 1) as nat);
    let more: Seq<LogView> = segment_query::matching(
        segment_law::all_kept(held[range[n - 1].segment_id]),
        q,
    );
    assert(all == before + more);
    if m == n - 1 {
        let k: int = choose|k: int| 0 <= k < more.len() && more[k] == l;
        assert(all[before.len() + k] == l);
    } else {
        lemma_held_listed(held, range, q, (n - 1) as nat, m, l);
        let k: int = choose|k: int| 0 <= k < before.len() && before[k] == l;
        assert(all[k] == l);
    }
}

/// An answer with fewer lines than its limit leaves no written line out: where
/// the files hold their lines, a line within the times of the query whose
/// service, level or message, as it is read back, is made of something, the
/// keyword, and something, is in the answer.
pub proof fn law_written_line_found(
    metas: Seq<MetaView>,
    fs: Seq<FileView>,
    buffer: Seq<LogView>,
    held: Map<u32, Seq<LogView>>,
    q: QueryView,
    limit: usize,
    dict: Option<Seq<u8>>,
    r: Result<Seq<LogView>, DataError>,
    j: int,
    i: int,
    a: Seq<char>,
    b: Seq<char>,
)
    requires
        storage_query::answers(metas, fs, buffer, q, limit as nat, dict, r),
        storage_law::all_hold(fs, metas, held, q, dict),
        metas.len() <= usize::MAX,
        r is Ok ==> r->Ok_0.len() < limit,
        0 <= j < metas.len(),
        0 <= i < held[metas[j].id].len(),
        metas[j].min_ts <= held[metas[j].id][i].ts <= metas[j].max_ts,
        q.start <= held[metas[j].id][i].ts <= q.end,
        line_made_of(read_back(held[metas[j].id][i]), a, q.keyword, b),
    ensures
        r is Ok,
        r->Ok_0.contains(read_back(held[metas[j].id][i])),
{
    storage_law::law_query_complete(metas, fs, buffer, held, q, limit as nat, dict, r);
    let range = choose|range: Seq<SegmentMetaView>|
        {
            let all: Seq<LogView> = segment_query::first(
                storage_law::held_lines(held, range, q, range.len()) + segment_query::matching(
                    buffer,
                    q,
                ),
                limit as nat,
            );
            &&& #[trigger] index::is_range(metas, q.start, q.end, range)
            &&& order::is_ranking(all, storage_query::times(all), r->Ok_0)
        };
    let lines: Seq<LogView> = storage_law::held_lines(held, range, q, range.len());
    let whole: Seq<LogView> = lines + segment_query::matching(buffer, q);
    let all: Seq<LogView> = segment_query::first(whole, limit as nat);
    let logs: Seq<LogView> = held[metas[j].id];
    let l: LogView = read_back(logs[i]);
    law_kept(logs[i]);
    assert(segment_law::all_kept(logs)[i] == l);
    law_split_line_matches(segment_law::all_kept(logs), q, i, a, b);
    let m: int = law_range_lists(metas, q.start, q.end, range, j, logs[i].ts);
    lemma_held_listed(held, range, q, range.len(), m, l);
    lemma_ranking_len(all, storage_query::times(all), r->Ok_0);
    assert(all == whole);
    let k: int = choose|k: int| 0 <= k < lines.len() && lines[k] == l;
    assert(all[k] == l);
    lemma_ranked(all, storage_query::times(all), r->Ok_0, k);
}

proof fn lemma_held_source(
    held: Map<u32, Seq<LogView>>,
    range: Seq<SegmentMetaView>,
    q: QueryView,
    n: nat,
    k: int,
) -> (m: int)
    requires
        n <= range.len(),
        0 <= k < storage_law::held_lines(held, range, q, n).len(),
    ensures
        0 <= m < n,
        segment_query::matching(segment_law::all_kept(held[range[m].segment_id]), q).contains(
            storage_law::held_lines(held, range, q, n)[k],
        ),
    decreases n,
{
    let before: Seq<LogView> = storage_law::held_lines(held, range, q, (n - 1) as nat);
    if k < before.len() {
        lemma_held_source(held, range, q, (n - 1) as nat, k)
    } else {
        let more: Seq<LogView> = segment_query::matching(
            segment_law::all_kept(held[range[n - 1].segment_id]),
            q,
        );
        assert(more[k - before.len()] == storage_law::held_lines(held, range, q, n)[k]);
        n - 1
    }
}

/// The line is a buffered line, or a line of a segment as it is read back.
pub open spec fn is_known(
    metas: Seq<MetaView>,
    buffer: Seq<LogView>,
    held: Map<u32, Seq<LogView>>,
    l: LogView,
) -> bool {
    ||| buffer.contains(l)
    ||| exists|j: int, i: int|
        #![trigger held[metas[j].id][i]]
        0 <= j < metas.len() && 0 <= i < held[metas[j].id].len() && read_back(
            held[metas[j].id][i],
        ) == l
}

/// An answer holds no more lines than its limit, and none but lines that were
/// appended, within the times of the query, and with a service, level or message
/// that is made of something, the keyword, and something.
pub proof fn law_answer_holds_keyword(
    metas: Seq<MetaView>,
    fs: Seq<FileView>,
    buffer: Seq<LogView>,
    held: Map<u32, Seq<LogView>>,
    q: QueryView,
    limit: nat,
    dict: Option<Seq<u8>>,
    r: Result<Seq<LogView>, DataError>,
    p: int,
)
    requires
        storage_query::answers(metas, fs, buffer, q, limit, dict, r),
        storage_law::all_hold(fs, metas, held, q, dict),
        r is Ok ==> 0 <= p < r->Ok_0.len(),
    ensures
        r is Ok,
        r->Ok_0.len() <= limit,
        q.start <= r->Ok_0[p].ts <= q.end,
        exists|a: Seq<char>, b: Seq<char>| #[trigger]
            line_made_of(r->Ok_0[p], a, q.keyword, b),
        is_known(metas, buffer, held, r->Ok_0[p]),
{
    storage_law::law_query_complete(metas, fs, buffer, held, q, limit, dict, r);
    let range = choose|range: Seq<SegmentMetaView>|
        {
            let all: Seq<LogView> = segment_query::first(
                storage_law::held_lines(held, range, q, range.len()) + segment_query::matching(
                    buffer,
                    q,
                ),
                limit,
            );
            &&& #[trigger] index::is_range(metas, q.start, q.end, range)
            &&& order::is_ranking(all, storage_query::times(all), r->Ok_0)
        };
    let lines: Seq<LogView> = storage_law::held_lines(held, range, q, range.len());
    let wanted: Seq<LogView> = segment_query::matching(buffer, q);
    let whole: Seq<LogView> = lines + wanted;
    let all: Seq<LogView> = segment_query::first(whole, limit);
    lemma_ranking_len(all, storage_query::times(all), r->Ok_0);
    let k: int = lemma_unranked(all, storage_query::times(all), r->Ok_0, p);
    assert(all[k] == whole[k]);
    if k < lines.len() {
        let m: int = lemma_held_source(held, range, q, range.len(), k);
        let logs: Seq<LogView> = held[range[m].segment_id];
        let kept: Seq<LogView> = segment_law::all_kept(logs);
        let found: Seq<LogView> = segment_query::matching(kept, q);
        let f: int = choose|f: int| 0 <= f < found.len() && found[f] == lines[k];
        let i: int = law_matching_line_splits(kept, q, f);
        law_kept(logs[i]);
        let j: int = storage_law::lemma_range_known(metas, q.start, q.end, range, m);
        assert(held[metas[j].id][i] == logs[i]);
        assert(read_back(held[metas[j].id][i]) == r->Ok_0[p]);
    } else {
        let i: int = law_matching_line_splits(buffer, q, k - lines.len());
        assert(buffer[i] == r->Ok_0[p]);
    }
}

// ---------- writing and asking ----------

proof fn lemma_placed_listed(s: Seq<MetaView>, m: MetaView) -> (i: int)
    ensures
        0 <= i < index::placed(s, m).len(),
        index::placed(s, m)[i] == m,
    decreases s.len(),
{
    if s.len() == 0 || s.last().id <= m.id {
        s.len() as int
    } else {
        lemma_placed_listed(s.drop_last(), m)
    }
}

/// In a segment of one chunk no line is passed over: where neither the number of
/// its lines nor the bytes of their messages exceed the limits for one chunk, and
/// its counts and lengths fit their fields, every query finds its lines.
pub proof fn law_small_segment_fits(
    config: StorageConfig,
    logs: Seq<LogView>,
    data: Seq<u8>,
    q: QueryView,
)
    requires
        0 < logs.len() <= config.single_chunk_threshold_lines,
        segment_plan::message_bytes(logs, logs.len()) <= config.single_chunk_threshold_bytes,
        storage_law::batch_fits(logs),
        segment_law::services_fit(logs, logs.len()),
        data.len() < 0x1_0000_0000,
    ensures
        storage_law::segment_fits(config, logs, data, q),
{
    segment_plan::lemma_pieces_count(logs, logs.len());
    storage_law::lemma_one_chunk_allows(logs, logs.len(), q);
}

/// Lines that were just written are found: after the buffer was written as one
/// more segment, an answer with fewer lines than its limit holds each of its
/// lines within the times of the query whose service, level or message, as it is
/// read back, is made of something, the keyword, and something.
pub proof fn law_flushed_line_found(
    before: StorageEngine,
    now: StorageEngine,
    created_at: u64,
    w: WrittenSegment,
    fs: Seq<FileView>,
    held: Map<u32, Seq<LogView>>,
    q: QueryView,
    limit: usize,
    dict: Option<Seq<u8>>,
    r: Result<Seq<LogView>, DataError>,
    i: int,
    a: Seq<char>,
    b: Seq<char>,
)
    requires
        before.buffer@.len() > 0,
        storage::flushes(before, now, created_at, Ok(Some(w))),
        index_law::ids_below(index::metas(before.index.segments@), before.index.next_id),
        storage_law::all_hold(fs, index::metas(before.index.segments@), held, q, dict),
        index_open::file_named(fs, w.name@) is None,
        storage_law::segment_fits(before.config, log::log_views(before.buffer@), w.data@, q),
        storage_query::answers(
            index::metas(now.index.segments@),
            fs.push((FileView { name: w.name@, data: w.data@ })),
            log::log_views(now.buffer@),
            q,
            limit as nat,
            dict,
            r,
        ),
        now.index.segments@.len() <= usize::MAX,
        r is Ok ==> r->Ok_0.len() < limit,
        0 <= i < before.buffer@.len(),
        q.start <= before.buffer@[i]@.ts <= q.end,
        line_made_of(read_back(before.buffer@[i]@), a, q.keyword, b),
    ensures
        r is Ok,
        r->Ok_0.contains(read_back(before.buffer@[i]@)),
{
    let logs: Seq<LogView> = log::log_views(before.buffer@);
    let old_metas: Seq<MetaView> = index::metas(before.index.segments@);
    let metas: Seq<MetaView> = index::metas(now.index.segments@);
    storage_law::law_flush_keeps_lines(before, now, created_at, w, fs, held, q, dict);
    reveal(storage::is_noted);
    let (summary, original, compressed) = choose|
        summary: SegmentSummary,
        original: u64,
        compressed: u64,
    |
        {
            &&& #[trigger] storage::is_written(
                before.config,
                logs,
                w.id,
                created_at,
                w.data@,
                summary,
                original,
                compressed,
            )
            &&& metas == index::placed(
                old_metas,
                storage::meta_of(before.index.data_dir@, w.id, logs, summary),
            )
        };
    let meta: MetaView = storage::meta_of(before.index.data_dir@, w.id, logs, summary);
    let j: int = lemma_placed_listed(old_metas, meta);
    segment_plan::lemma_span(logs, i);
    let lines: Map<u32, Seq<LogView>> = held.insert(w.id, logs);
    assert(lines[metas[j].id] == logs);
    law_written_line_found(
        metas,
        fs.push((FileView { name: w.name@, data: w.data@ })),
        log::log_views(now.buffer@),
        lines,
        q,
        limit,
        dict,
        r,
        j,
        i,
        a,
        b,
    );
}

} // verus!
