//! What appending lines promises of the numbers of lines.

use crate::agent::index;
use crate::agent::index::MetaView;
use crate::agent::storage;
use crate::agent::storage::{StorageEngine, WrittenSegment};
use crate::agent::storage_config::StorageStats;
use crate::agent::storage_query;
use crate::shared::log;
use crate::shared::log::LogView;
use crate::shared::summary::SegmentSummary;
use vstd::prelude::*;

verus! {

/// `mid` is the engine after a line was appended.
pub open spec fn appends(before: StorageEngine, mid: StorageEngine, l: LogView) -> bool {
    &&& log::log_views(mid.buffer@) == log::log_views(before.buffer@).push(l)
    &&& mid.config == before.config
    &&& mid.index == before.index
}

/// The buffer of the engine is full, by its number of lines or of bytes.
pub open spec fn is_full(e: StorageEngine) -> bool {
    e.buffer@.len() >= e.config.max_buffer_lines || e.buffer_bytes >= e.config.max_buffer_bytes
}

/// `now` is the engine after a line was appended and, where that filled the
/// buffer, a segment was made of it. The number of lines of the segment fits its
/// 32 bits.
pub open spec fn takes(before: StorageEngine, now: StorageEngine, l: LogView) -> bool {
    exists|mid: StorageEngine| #[trigger]
        appends(before, mid, l) && settles(mid, now) && (is_full(mid) ==> mid.buffer@.len()
            < 0x1_0000_0000)
}

/// `now` is the engine after a segment was made of its buffer if that was full.
pub open spec fn settles(mid: StorageEngine, now: StorageEngine) -> bool {
    if is_full(mid) {
        exists|created_at: u64, w: Option<WrittenSegment>| #[trigger]
            storage::flushes(mid, now, created_at, Ok(w))
    } else {
        now == mid
    }
}

/// How many lines the engine has, in its segments and in its buffer.
pub open spec fn lines_known(e: StorageEngine) -> nat {
    index::lines_sum(index::metas(e.index.segments@), e.index.segments@.len()) + e.buffer@.len()
}

proof fn lemma_lines_of_placed(s: Seq<MetaView>, m: MetaView)
    ensures
        index::placed(s, m).len() == s.len() + 1,
        index::lines_sum(index::placed(s, m), s.len() + 1) == index::lines_sum(s, s.len())
            + m.line_count,
    decreases s.len(),
{
    let p: Seq<MetaView> = index::placed(s, m);
    if s.len() == 0 || s.last().id <= m.id {
        lemma_lines_prefix(p, s, s.len());
    } else {
        let t: Seq<MetaView> = s.drop_last();
        lemma_lines_of_placed(t, m);
        lemma_lines_prefix(p, index::placed(t, m), s.len());
        lemma_lines_prefix(s, t, t.len());
    }
}

proof fn lemma_lines_prefix(a: Seq<MetaView>, b: Seq<MetaView>, n: nat)
    requires
        n <= a.len(),
        n <= b.len(),
        forall|i: int| 0 <= i < n ==> a[i] == #[trigger] b[i],
    ensures
        index::lines_sum(a, n) == index::lines_sum(b, n),
    decreases n,
{
    if n > 0 {
        lemma_lines_prefix(a, b, (n - 1) as nat);
        assert(a[n - 1] == b[n - 1]);
    }
}

/// Making a segment of the buffer neither loses a line nor counts one twice.
pub proof fn law_flush_keeps_count(
    before: StorageEngine,
    now: StorageEngine,
    created_at: u64,
    w: Option<WrittenSegment>,
)
    requires
        storage::flushes(before, now, created_at, Ok(w)),
        before.buffer@.len() < 0x1_0000_0000,
    ensures
        lines_known(now) == lines_known(before),
        now.buffer@.len() == 0,
        now.config == before.config,
{
    let logs: Seq<LogView> = log::log_views(before.buffer@);
    if logs.len() > 0 {
        let s: Seq<MetaView> = index::metas(before.index.segments@);
        let t: Seq<MetaView> = index::metas(now.index.segments@);
        reveal(storage::is_noted);
        let id: u32 = w->0.id;
        let (summary, original, compressed) = choose|
            summary: SegmentSummary,
            original: u64,
            compressed: u64,
        |
            {
                &&& #[trigger] storage::is_written(
                    before.config,
                    logs,
                    id,
                    created_at,
                    w->0.data@,
                    summary,
                    original,
                    compressed,
                )
                &&& t == index::placed(
                    s,
                    storage::meta_of(before.index.data_dir@, id, logs, summary),
                )
            };
        lemma_lines_of_placed(s, storage::meta_of(before.index.data_dir@, id, logs, summary));
    }
}

proof fn lemma_take(before: StorageEngine, now: StorageEngine, l: LogView)
    requires
        takes(before, now, l),
        before.config.max_buffer_lines > 0,
    ensures
        lines_known(now) == lines_known(before) + 1,
        now.buffer@.len() < now.config.max_buffer_lines,
        now.config == before.config,
{
    let mid = choose|mid: StorageEngine| #[trigger]
        appends(before, mid, l) && settles(mid, now) && (is_full(mid) ==> mid.buffer@.len()
            < 0x1_0000_0000);
    assert(log::log_views(mid.buffer@).len() == log::log_views(before.buffer@).len() + 1);
    if is_full(mid) {
        let (created_at, w) = choose|created_at: u64, w: Option<WrittenSegment>| #[trigger]
            storage::flushes(mid, now, created_at, Ok(w));
        law_flush_keeps_count(mid, now, created_at, w);
    }
}

/// The buffer never stays full: after a line was taken, fewer lines and fewer
/// bytes are buffered than the buffer may hold.
pub proof fn law_buffer_never_full(before: StorageEngine, now: StorageEngine, l: LogView)
    requires
        takes(before, now, l),
        before.config.max_buffer_lines > 0,
        before.config.max_buffer_bytes > 0,
    ensures
        now.buffer@.len() < before.config.max_buffer_lines,
        now.buffer_bytes < before.config.max_buffer_bytes,
{
    let mid = choose|mid: StorageEngine| #[trigger]
        appends(before, mid, l) && settles(mid, now) && (is_full(mid) ==> mid.buffer@.len()
            < 0x1_0000_0000);
    assert(log::log_views(mid.buffer@).len() == log::log_views(before.buffer@).len() + 1);
    if is_full(mid) {
        let (created_at, w) = choose|created_at: u64, w: Option<WrittenSegment>| #[trigger]
            storage::flushes(mid, now, created_at, Ok(w));
        assert(storage::drained(mid, now));
    }
}

/// No appended line is lost or counted twice, and the buffer never stays full:
/// an engine that starts without lines and takes lines one after another, making
/// a segment whenever its buffer is full, knows as many lines as it took.
/// `states` are the engine at the start and after each line.
pub proof fn law_appended_lines_counted(
    states: Seq<StorageEngine>,
    ls: Seq<LogView>,
    stats: StorageStats,
)
    requires
        states.len() == ls.len() + 1,
        lines_known(states[0]) == 0,
        states[0].config.max_buffer_lines > 0,
        forall|i: int| 0 <= i < ls.len() ==> takes(states[i], states[i + 1], #[trigger] ls[i]),
        ls.len() <= u64::MAX,
        storage_query::counts_as(states.last(), stats),
    ensures
        stats.total_lines + stats.buffered_lines == ls.len(),
        stats.buffered_lines < states[0].config.max_buffer_lines,
{
    lemma_taken(states, ls, ls.len());
}

proof fn lemma_taken(states: Seq<StorageEngine>, ls: Seq<LogView>, n: nat)
    requires
        states.len() == ls.len() + 1,
        lines_known(states[0]) == 0,
        states[0].config.max_buffer_lines > 0,
        forall|i: int| 0 <= i < ls.len() ==> takes(states[i], states[i + 1], #[trigger] ls[i]),
        n <= ls.len(),
    ensures
        lines_known(states[n as int]) == n,
        states[n as int].buffer@.len() < states[n as int].config.max_buffer_lines,
        states[n as int].config == states[0].config,
    decreases n,
{
    if n > 0 {
        lemma_taken(states, ls, (n - 1) as nat);
        assert(takes(states[n - 1], states[n as int], ls[n - 1]));
        lemma_take(states[n - 1], states[n as int], ls[n - 1]);
    }
}

} // verus!
