//! What the entries of the index tell of the lines of their segments.

use crate::agent::chunk_text;
use crate::agent::index;
use crate::agent::index::MetaView;
use crate::agent::keywords;
use crate::agent::keywords::KeywordView;
use crate::agent::parts::PartView;
use crate::agent::segment_plan;
use crate::agent::segment_query::QueryView;
use crate::shared::chunk;
use crate::shared::log::LogView;
use crate::shared::text;
use vstd::prelude::*;

verus! {

// ---------- lines and keywords ----------

/// A line hits: it lies in the times of the query, and its message holds the
/// keyword or its level is the one that the keyword names.
pub open spec fn line_hits(l: LogView, q: QueryView, upper: Seq<char>) -> bool {
    q.start <= l.ts <= q.end && (text::contains_text(l.message, q.keyword) || index::level_named(
        upper,
    ) == Some(chunk_text::level_code(l.level)))
}

/// How many of the first `n` lines hit.
pub open spec fn hits(logs: Seq<LogView>, q: QueryView, upper: Seq<char>, n: nat) -> nat
    decreases n,
{
    if n == 0 {
        0
    } else {
        hits(logs, q, upper, (n - 1) as nat) + (if line_hits(logs[n - 1], q, upper) {
            1nat
        } else {
            0nat
        })
    }
}

/// No line of the segments hits. `held` gives the lines of a segment by its
/// number.
pub open spec fn none_hits(
    s: Seq<MetaView>,
    held: Map<u32, Seq<LogView>>,
    q: QueryView,
    upper: Seq<char>,
) -> bool {
    forall|n: int, i: int|
        #![trigger held[s[n].id][i]]
        0 <= n < s.len() && 0 <= i < held[s[n].id].len() ==> !line_hits(
            held[s[n].id][i],
            q,
            upper,
        )
}

/// How many lines of the first `n` segments hit. `held` gives the lines of a
/// segment by its number.
pub open spec fn hits_sum(
    s: Seq<MetaView>,
    held: Map<u32, Seq<LogView>>,
    q: QueryView,
    upper: Seq<char>,
    n: nat,
) -> nat
    decreases n,
{
    if n == 0 {
        0
    } else {
        hits_sum(s, held, q, upper, (n - 1) as nat) + hits(
            held[s[n - 1].id],
            q,
            upper,
            held[s[n - 1].id].len(),
        )
    }
}

// ---------- entries and lines ----------

/// The lines have these templates: `pats` gives for each line the number of its
/// template, and the entry knows of the numbers below 64 which ones are in use.
pub open spec fn templates_tell(
    m: MetaView,
    ts: Seq<Seq<PartView>>,
    pats: Seq<int>,
    logs: Seq<LogView>,
) -> bool {
    &&& pats.len() == logs.len()
    &&& forall|i: int|
        0 <= i < logs.len() ==> 0 <= #[trigger] pats[i] < ts.len() && keywords::is_message_of(
            ts[pats[i]],
            logs[i].message,
        )
    &&& forall|k: u16|
        k < 64 ==> #[trigger] chunk::mask_bit(m.summary.pattern_mask, k) == pats.contains(k as int)
}

/// The entry tells the truth of a segment with these lines: their number, their
/// times, and, where it has a summary, their levels and their templates.
pub open spec fn tells(m: MetaView, map: KeywordView, logs: Seq<LogView>) -> bool {
    &&& m.line_count == logs.len()
    &&& forall|i: int| 0 <= i < logs.len() ==> m.min_ts <= (#[trigger] logs[i]).ts <= m.max_ts
    &&& index::summarized(m) ==> {
        &&& forall|k: u8|
            k < 8 ==> #[trigger] segment_plan::level_set(m.summary.level_mask, k)
                == segment_plan::uses_level(logs, k)
        &&& logs.len() > 0 ==> m.summary.pattern_mask != 0
        &&& map.tables.contains_key(m.id) ==> exists|pats: Seq<int>|
            #[trigger] templates_tell(m, map.tables[m.id], pats, logs)
    }
}

/// Every entry tells the truth of its segment. `held` gives the lines of a
/// segment by its number.
pub open spec fn tells_all(
    s: Seq<MetaView>,
    map: KeywordView,
    held: Map<u32, Seq<LogView>>,
) -> bool {
    forall|n: int| 0 <= n < s.len() ==> tells(#[trigger] s[n], map, held[s[n].id])
}

// ---------- a certain no ----------

proof fn lemma_no_hit(
    m: MetaView,
    map: KeywordView,
    logs: Seq<LogView>,
    q: QueryView,
    upper: Seq<char>,
    i: int,
)
    requires
        tells(m, map, logs),
        0 <= i < logs.len(),
        !index::may_hold(m, map, q.keyword, upper),
    ensures
        !line_hits(logs[i], q, upper),
{
    if let Some(k) = index::level_named(upper) {
        if k == chunk_text::level_code(logs[i].level) {
            assert(segment_plan::uses_level(logs, k));
            assert(segment_plan::level_set(m.summary.level_mask, k));
        }
    }
    if text::contains_text(logs[i].message, q.keyword) {
        assert(map.tables.contains_key(m.id));
        let ts: Seq<Seq<PartView>> = map.tables[m.id];
        let pats = choose|pats: Seq<int>| #[trigger] templates_tell(m, ts, pats, logs);
        let k: int = pats[i];
        keywords::law_match_allowed(ts[k], logs[i].message, q.keyword);
        if k < 64 {
            assert(pats.contains((k as u16) as int));
            assert(chunk::mask_bit(m.summary.pattern_mask, k as u16));
        }
        assert(index::template_allows(m, ts, q.keyword, k));
    }
}

/// Where no segment may hold the keyword, no line hits.
pub proof fn lemma_none_hits(
    s: Seq<MetaView>,
    map: KeywordView,
    held: Map<u32, Seq<LogView>>,
    q: QueryView,
    upper: Seq<char>,
)
    requires
        tells_all(s, map, held),
        !index::some_may_hold(s, map, q.start, q.end, q.keyword, upper),
    ensures
        none_hits(s, held, q, upper),
{
    assert forall|n: int, i: int|
        #![trigger held[s[n].id][i]]
        0 <= n < s.len() && 0 <= i < held[s[n].id].len() implies !line_hits(
        held[s[n].id][i],
        q,
        upper,
    ) by {
        let logs: Seq<LogView> = held[s[n].id];
        assert(tells(s[n], map, logs));
        assert(s[n].min_ts <= logs[i].ts <= s[n].max_ts);
        if index::overlaps(s[n], q.start, q.end) {
            lemma_no_hit(s[n], map, logs, q, upper, i);
        }
    }
}

// ---------- a lower bound ----------

/// How many templates with numbers below `n` are known to hold the keyword and
/// stand among the numbers.
spec fn seen(m: MetaView, map: KeywordView, keyword: Seq<char>, pats: Seq<int>, n: nat) -> nat
    decreases n,
{
    if n == 0 {
        0
    } else {
        seen(m, map, keyword, pats, (n - 1) as nat) + (if index::pattern_hit(
            m,
            map,
            keyword,
            (n - 1) as u16,
        ) && pats.contains(n - 1) {
            1nat
        } else {
            0nat
        })
    }
}

proof fn lemma_seen_none(m: MetaView, map: KeywordView, keyword: Seq<char>, n: nat)
    ensures
        seen(m, map, keyword, Seq::empty(), n) == 0,
    decreases n,
{
    if n > 0 {
        lemma_seen_none(m, map, keyword, (n - 1) as nat);
    }
}

proof fn lemma_seen_step(
    m: MetaView,
    map: KeywordView,
    keyword: Seq<char>,
    pats: Seq<int>,
    p: int,
    n: nat,
)
    requires
        n <= 64,
    ensures
        seen(m, map, keyword, pats.push(p), n) <= seen(m, map, keyword, pats, n) + (if 0 <= p < n
            && index::pattern_hit(m, map, keyword, p as u16) {
            1nat
        } else {
            0nat
        }),
    decreases n,
{
    if n > 0 {
        lemma_seen_step(m, map, keyword, pats, p, (n - 1) as nat);
        if pats.push(p).contains(n - 1) && p != n - 1 {
            let i: int = choose|i: int| 0 <= i < pats.push(p).len() && pats.push(p)[i] == n - 1;
            assert(pats[i] == n - 1);
        }
    }
}

proof fn lemma_seen_bound(
    m: MetaView,
    map: KeywordView,
    logs: Seq<LogView>,
    pats: Seq<int>,
    q: QueryView,
    upper: Seq<char>,
    n: nat,
)
    requires
        n <= logs.len(),
        pats.len() == logs.len(),
        forall|i: int|
            0 <= i < logs.len() && 0 <= #[trigger] pats[i] < 64 && index::pattern_hit(
                m,
                map,
                q.keyword,
                pats[i] as u16,
            ) ==> line_hits(logs[i], q, upper),
    ensures
        seen(m, map, q.keyword, pats.take(n as int), 64) <= hits(logs, q, upper, n),
    decreases n,
{
    if n == 0 {
        assert(pats.take(0) =~= Seq::<int>::empty());
        lemma_seen_none(m, map, q.keyword, 64);
    } else {
        lemma_seen_bound(m, map, logs, pats, q, upper, (n - 1) as nat);
        assert(pats.take(n as int) =~= pats.take(n - 1).push(pats[n - 1]));
        lemma_seen_step(m, map, q.keyword, pats.take(n - 1), pats[n - 1], 64);
    }
}

proof fn lemma_seen_all(
    m: MetaView,
    map: KeywordView,
    keyword: Seq<char>,
    ts: Seq<Seq<PartView>>,
    pats: Seq<int>,
    logs: Seq<LogView>,
    n: nat,
)
    requires
        n <= 64,
        templates_tell(m, ts, pats, logs),
    ensures
        seen(m, map, keyword, pats, n) == index::hit_count(m, map, keyword, n),
    decreases n,
{
    if n > 0 {
        lemma_seen_all(m, map, keyword, ts, pats, logs, (n - 1) as nat);
        let k: u16 = (n - 1) as u16;
        assert(chunk::mask_bit(m.summary.pattern_mask, k) == pats.contains(k as int));
    }
}

proof fn lemma_bits(mask: u64, n: nat, a: u16, b: u16)
    requires
        n <= 64,
        a < n,
        b < n,
        chunk::mask_bit(mask, a),
        chunk::mask_bit(mask, b),
    ensures
        index::bit_count(mask, n) >= (if a == b {
            1nat
        } else {
            2nat
        }),
    decreases n,
{
    if a < n - 1 && b < n - 1 {
        lemma_bits(mask, (n - 1) as nat, a, b);
    } else if a < n - 1 {
        lemma_bits(mask, (n - 1) as nat, a, a);
    } else if b < n - 1 {
        lemma_bits(mask, (n - 1) as nat, b, b);
    }
}

proof fn lemma_some_hit(m: MetaView, map: KeywordView, keyword: Seq<char>, n: nat) -> (k: u16)
    requires
        n <= 64,
        index::hit_count(m, map, keyword, n) > 0,
    ensures
        k < n,
        index::pattern_hit(m, map, keyword, k),
    decreases n,
{
    if index::pattern_hit(m, map, keyword, (n - 1) as u16) {
        (n - 1) as u16
    } else {
        lemma_some_hit(m, map, keyword, (n - 1) as nat)
    }
}

proof fn lemma_all_hit(logs: Seq<LogView>, q: QueryView, upper: Seq<char>, n: nat)
    requires
        n <= logs.len(),
        forall|i: int| 0 <= i < logs.len() ==> line_hits(#[trigger] logs[i], q, upper),
    ensures
        hits(logs, q, upper, n) == n,
    decreases n,
{
    if n > 0 {
        lemma_all_hit(logs, q, upper, (n - 1) as nat);
    }
}

proof fn lemma_one_hits(logs: Seq<LogView>, q: QueryView, upper: Seq<char>, n: nat, i: int)
    requires
        0 <= i < n <= logs.len(),
        line_hits(logs[i], q, upper),
    ensures
        hits(logs, q, upper, n) >= 1,
    decreases n,
{
    if i < n - 1 {
        lemma_one_hits(logs, q, upper, (n - 1) as nat, i);
    }
}

proof fn lemma_counted(
    m: MetaView,
    map: KeywordView,
    logs: Seq<LogView>,
    q: QueryView,
    upper: Seq<char>,
)
    requires
        tells(m, map, logs),
        map.words == Map::<Seq<char>, Seq<u16>>::empty(),
        index::lies_within(m, q.start, q.end),
    ensures
        index::counted(m, map, q.keyword, upper) <= hits(logs, q, upper, logs.len()),
{
    let n: nat = index::matched(m, map, q.keyword);
    if index::summarized(m) && n > 0 {
        let k: u16 = lemma_some_hit(m, map, q.keyword, 64);
        let ts: Seq<Seq<PartView>> = map.tables[m.id];
        let pats = choose|pats: Seq<int>| #[trigger] templates_tell(m, ts, pats, logs);
        assert forall|i: int|
            0 <= i < logs.len() && 0 <= #[trigger] pats[i] < 64 && index::pattern_hit(
                m,
                map,
                q.keyword,
                pats[i] as u16,
            ) implies line_hits(logs[i], q, upper) by {
            keywords::law_message_holds_template(ts[pats[i]], logs[i].message, q.keyword);
            assert(m.min_ts <= logs[i].ts <= m.max_ts);
        }
        lemma_seen_bound(m, map, logs, pats, q, upper, logs.len());
        assert(pats.take(logs.len() as int) =~= pats);
        lemma_seen_all(m, map, q.keyword, ts, pats, logs, 64);
        if n == 1 && index::one_template(m, map) {
            assert forall|i: int| 0 <= i < logs.len() implies line_hits(
                #[trigger] logs[i],
                q,
                upper,
            ) by {
                let p: u16 = pats[i] as u16;
                assert(pats.contains(p as int));
                assert(chunk::mask_bit(m.summary.pattern_mask, p));
                lemma_bits(m.summary.pattern_mask, 64, k, p);
                assert(pats[i] == k);
            }
            lemma_all_hit(logs, q, upper, logs.len());
        }
    } else if index::summarized(m) && index::holds_level(m, upper) {
        let t: u8 = index::level_named(upper)->0;
        assert(segment_plan::level_set(m.summary.level_mask, t));
        let i: int = choose|i: int|
            0 <= i < logs.len() && chunk_text::level_code((#[trigger] logs[i]).level) == t;
        assert(m.min_ts <= logs[i].ts <= m.max_ts);
        assert(line_hits(logs[i], q, upper));
        lemma_one_hits(logs, q, upper, logs.len(), i);
    }
}

/// The count never exceeds the number of lines that hit.
pub proof fn lemma_counted_sum(
    s: Seq<MetaView>,
    map: KeywordView,
    held: Map<u32, Seq<LogView>>,
    q: QueryView,
    upper: Seq<char>,
    n: nat,
)
    requires
        tells_all(s, map, held),
        map.words == Map::<Seq<char>, Seq<u16>>::empty(),
        n <= s.len(),
    ensures
        index::counted_sum(s, map, q.start, q.end, q.keyword, upper, n) <= hits_sum(
            s,
            held,
            q,
            upper,
            n,
        ),
    decreases n,
{
    if n > 0 {
        lemma_counted_sum(s, map, held, q, upper, (n - 1) as nat);
        assert(tells(s[n - 1], map, held[s[n - 1].id]));
        if index::lies_within(s[n - 1], q.start, q.end) {
            lemma_counted(s[n - 1], map, held[s[n - 1].id], q, upper);
        }
    }
}

} // verus!
