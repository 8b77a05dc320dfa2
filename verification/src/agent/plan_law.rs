//! How lines are cut into chunks, and what is noted of them.

use crate::agent::chunk_text::RecordView;
use crate::agent::handle;
use crate::agent::segment_build;
use crate::agent::segment_plan;
use crate::agent::storage_config::StorageConfig;
use crate::shared::bloom;
use crate::shared::chunk;
use crate::shared::chunk::ChunkSummary;
use crate::shared::log::LogView;
use vstd::prelude::*;
use vstd::utf8::*;

verus! {

/// The span of lines is as small as can be: its ends are the times of two of the
/// lines, and no line lies outside.
pub proof fn law_span_reached(logs: Seq<LogView>) -> (ends: (int, int))
    requires
        logs.len() > 0,
    ensures
        0 <= ends.0 < logs.len(),
        0 <= ends.1 < logs.len(),
        segment_plan::earliest(logs) == logs[ends.0].ts,
        segment_plan::latest(logs) == logs[ends.1].ts,
        forall|i: int|
            0 <= i < logs.len() ==> logs[ends.0].ts <= (#[trigger] logs[i]).ts <= logs[ends.1].ts,
    decreases logs.len(),
{
    assert forall|i: int| 0 <= i < logs.len() implies segment_plan::earliest(logs) <= (
    #[trigger] logs[i]).ts <= segment_plan::latest(logs) by {
        segment_plan::lemma_span(logs, i);
    }
    let last: int = logs.len() - 1;
    if logs.len() == 1 {
        let none: Seq<LogView> = logs.drop_last();
        assert(segment_plan::latest(none) == 0);
        (0, 0)
    } else {
        let front: Seq<LogView> = logs.drop_last();
        let (a, b) = law_span_reached(front);
        assert(front[a] == logs[a] && front[b] == logs[b]);
        (
            if logs.last().ts < segment_plan::earliest(front) {
                last
            } else {
                a
            },
            if logs.last().ts > segment_plan::latest(front) {
                last
            } else {
                b
            },
        )
    }
}

proof fn lemma_message_bytes(a: Seq<LogView>, b: Seq<LogView>, n: nat)
    requires
        n <= a.len(),
        n <= b.len(),
        forall|i: int| 0 <= i < n ==> a[i] == #[trigger] b[i],
    ensures
        segment_plan::message_bytes(a, n) == segment_plan::message_bytes(b, n),
    decreases n,
{
    if n > 0 {
        lemma_message_bytes(a, b, (n - 1) as nat);
        assert(a[n - 1] == b[n - 1]);
    }
}

/// Each line adds the bytes of its message to those of the lines before it.
pub proof fn law_message_bytes_add(logs: Seq<LogView>, l: LogView)
    ensures
        segment_plan::message_bytes(Seq::empty(), 0) == 0,
        segment_plan::message_bytes(logs.push(l), logs.len() + 1) == segment_plan::message_bytes(
            logs,
            logs.len(),
        ) + encode_utf8(l.message).len(),
{
    lemma_message_bytes(logs, logs.push(l), logs.len());
}

/// Lines are kept in one chunk where neither their number nor the bytes of their
/// messages exceed the limits for that, and are cut into chunks of the
/// configured length otherwise.
pub proof fn law_one_chunk(config: StorageConfig, logs: Seq<LogView>)
    requires
        logs.len() > 0,
    ensures
        ({
            let small: bool = logs.len() <= config.single_chunk_threshold_lines
                && segment_plan::message_bytes(logs, logs.len())
                <= config.single_chunk_threshold_bytes;
            let cut: Seq<Seq<LogView>> = segment_plan::pieces(
                logs,
                segment_plan::chunk_span(config, logs),
            );
            &&& small ==> cut == seq![logs]
            &&& !small ==> cut == segment_plan::pieces(logs, config.chunk_size as nat)
        }),
{
    segment_plan::lemma_pieces_count(logs, segment_plan::chunk_span(config, logs));
}

/// Where item `j` of piece `i` stands in the whole.
pub open spec fn place(i: int, j: int, k: nat) -> int {
    i * k + j
}

/// Pieces of `k` items hold all items in their order: item `j` of piece `i` is
/// item `i * k + j` of the whole. All pieces but the last one have `k` items,
/// and the last one has what is left, at least one and at most `k`.
pub proof fn law_pieces<T>(s: Seq<T>, k: nat, i: int)
    requires
        k > 0,
        0 <= i < segment_plan::pieces(s, k).len(),
    ensures
        ({
            let p: Seq<Seq<T>> = segment_plan::pieces(s, k);
            &&& 0 < p[i].len() <= k
            &&& i < p.len() - 1 ==> p[i].len() == k
            &&& i == p.len() - 1 ==> place(i, p[i].len() as int, k) == s.len()
            &&& place(i, p[i].len() as int, k) <= s.len()
            &&& forall|j: int| 0 <= j < p[i].len() ==> #[trigger] p[i][j] == s[place(i, j, k)]
        }),
    decreases s.len(),
{
    let p: Seq<Seq<T>> = segment_plan::pieces(s, k);
    let m: nat = segment_plan::least(k, s.len());
    let rest: Seq<T> = s.skip(m as int);
    let q: Seq<Seq<T>> = segment_plan::pieces(rest, k);
    assert(p == seq![s.take(m as int)] + q);
    if i == 0 {
        assert(0 * k == 0);
        if rest.len() == 0 {
            assert(q.len() == 0);
        } else {
            assert(q.len() > 0);
        }
    } else {
        law_pieces(rest, k, i - 1);
        assert(p[i] == q[i - 1]);
        assert(rest.len() > 0);
        assert(m == k);
        assert((i - 1) * k + k == i * k) by (nonlinear_arith);
        assert forall|j: int| 0 <= j < p[i].len() implies #[trigger] p[i][j] == s[place(
            i,
            j,
            k,
        )] by {
            assert(q[i - 1][j] == rest[place(i - 1, j, k)]);
            let o: int = i - 1;
            let n: int = q[i - 1].len() as int;
            assert(0 <= o * k) by (nonlinear_arith)
                requires
                    o >= 0,
            ;
            assert(place(i - 1, j, k) < place(i - 1, n, k));
            assert(place(i - 1, j, k) + m == place(i, j, k));
        }
    }
}

/// A dictionary is asked for where there are two chunks or more and samples are
/// wanted. It is made of the first chunks, as many as are wanted or there are,
/// and has from 1 to 16 KiB; above 1 KiB it is no larger than a twentieth of the
/// samples and than twice their mean.
pub proof fn law_dict_request(bs: Seq<Seq<u8>>, samples: nat)
    ensures
        segment_build::dict_request(bs, samples) is Some <==> bs.len() >= 2 && samples >= 1,
        bs.len() >= 2 && samples >= 1 ==> {
            let (m, max) = segment_build::dict_request(bs, samples)->0;
            let total: nat = segment_build::sum_len(bs, m);
            &&& m <= samples && m <= bs.len() && (m == samples || m == bs.len())
            &&& 1024 <= max <= 16384
            &&& max > 1024 ==> 20 * max <= total && max <= 2 * (total / m)
            &&& total >= 327680 && total / m >= 8192 ==> max == 16384
        },
{
}

/// With the configuration that storage has where nothing else is said, a full
/// buffer is kept in one chunk, as long as its messages have no more than 2 MiB.
pub proof fn law_default_one_chunk(config: StorageConfig, logs: Seq<LogView>)
    requires
        handle::is_default_storage(config),
        0 < logs.len() <= 4096,
        segment_plan::message_bytes(logs, logs.len()) <= 0x20_0000,
    ensures
        segment_plan::pieces(logs, segment_plan::chunk_span(config, logs)) == seq![logs],
{
    law_one_chunk(config, logs);
}

/// The filter of a chunk has five positions of each message and of each
/// parameter in it.
pub proof fn law_texts_marked(
    s: ChunkSummary,
    logs: Seq<LogView>,
    recs: Seq<RecordView>,
    i: int,
    j: int,
    seed: u64,
)
    requires
        segment_plan::chunk_summarizes(s, logs, recs),
        0 <= i < logs.len(),
        seed < 5,
    ensures
        bloom::filter_bit(
            s.param_bloom@,
            bloom::bloom_position(encode_utf8(logs[i].message), seed),
        ),
        0 <= j < recs[i].params.len() ==> bloom::filter_bit(
            s.param_bloom@,
            bloom::bloom_position(encode_utf8(recs[i].params[j]), seed),
        ),
{
    let p: nat = bloom::bloom_position(encode_utf8(logs[i].message), seed);
    assert(chunk::is_position(encode_utf8(logs[i].message), 5, p));
    assert(segment_plan::line_marks(logs[i], recs[i], p));
    assert(segment_plan::marks_bit(logs, recs, p));
    if 0 <= j < recs[i].params.len() {
        let q: nat = bloom::bloom_position(encode_utf8(recs[i].params[j]), seed);
        assert(chunk::is_position(encode_utf8(recs[i].params[j]), 5, q));
        assert(segment_plan::texts_mark(recs[i].params, recs[i].params.len(), q));
        assert(segment_plan::line_marks(logs[i], recs[i], q));
        assert(segment_plan::marks_bit(logs, recs, q));
    }
}

/// A position that is set in the filter of a chunk is one of the five of a
/// message or a parameter in it.
pub proof fn law_marks_have_texts(
    s: ChunkSummary,
    logs: Seq<LogView>,
    recs: Seq<RecordView>,
    p: nat,
) -> (i: int)
    requires
        segment_plan::chunk_summarizes(s, logs, recs),
        p < 512,
        bloom::filter_bit(s.param_bloom@, p),
    ensures
        0 <= i < logs.len(),
        (exists|seed: u64|
            seed < 5 && p == #[trigger] bloom::bloom_position(
                encode_utf8(logs[i].message),
                seed,
            )) || (exists|j: int, seed: u64|
            0 <= j < recs[i].params.len() && seed < 5 && p == #[trigger] bloom::bloom_position(
                encode_utf8(recs[i].params[j]),
                seed,
            )),
{
    assert(segment_plan::marks_bit(logs, recs, p));
    let i: int = choose|i: int|
        0 <= i < logs.len() && segment_plan::line_marks(#[trigger] logs[i], recs[i], p);
    if !chunk::is_position(encode_utf8(logs[i].message), 5, p) {
        let ps: Seq<Seq<char>> = recs[i].params;
        let j: int = choose|j: int|
            0 <= j < ps.len() && chunk::is_position(encode_utf8(#[trigger] ps[j]), 5, p);
        let seed: u64 = choose|seed: u64|
            seed < 5 && p == #[trigger] bloom::bloom_position(encode_utf8(ps[j]), seed);
        assert(p == bloom::bloom_position(encode_utf8(recs[i].params[j]), seed));
    }
    i
}

} // verus!
