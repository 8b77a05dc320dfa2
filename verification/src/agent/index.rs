//! The index: one entry for each segment, and their templates.

use crate::agent::index_scan;
use crate::agent::index_truth;
use crate::agent::keywords;
use crate::agent::keywords::{KeywordMap, KeywordView};
use crate::agent::manifest_file;
use crate::agent::parts;
use crate::agent::parts::{PartView, Template};
use crate::agent::segment_query;
use crate::agent::segment_query::QueryView;
use crate::shared::bytes;
use crate::shared::chunk;
use crate::shared::letters;
use crate::shared::log::LogView;
use crate::shared::manifest;
use crate::shared::manifest::ManifestEntry;
use crate::shared::manifest_flags;
use crate::shared::names;
use crate::shared::order;
use crate::shared::summary;
use crate::shared::summary::SegmentSummary;
use crate::shared::text;
use vstd::prelude::*;
use vstd::string::*;
use vstd::utf8::*;

verus! {

/// Numbers about the whole index.
#[derive(Debug, Clone, Copy)]
pub struct IndexStats {
    pub segment_count: usize,
    pub total_lines: u64,
    pub min_ts: Option<u64>,
    pub max_ts: Option<u64>,
}

impl Default for IndexStats {
    fn default() -> (r: Self)
        ensures
            r.segment_count == 0,
            r.total_lines == 0,
            r.min_ts is None,
            r.max_ts is None,
    {
        IndexStats { segment_count: 0, total_lines: 0, min_ts: None, max_ts: None }
    }
}

/// What is known of a segment.
#[derive(Debug)]
pub struct SegmentMeta {
    pub id: u32,
    pub min_ts: u64,
    pub max_ts: u64,
    pub line_count: u32,
    pub path: String,
    pub summary: SegmentSummary,
}

/// What is known of a segment, without its path.
#[derive(Debug, Clone, Copy)]
pub struct SegmentMetaView {
    pub segment_id: u32,
    pub min_ts: u64,
    pub max_ts: u64,
    pub line_count: u32,
    pub summary: SegmentSummary,
}

/// What an entry of the index says.
#[verifier::ext_equal]
pub struct MetaView {
    pub id: u32,
    pub min_ts: u64,
    pub max_ts: u64,
    pub line_count: u32,
    pub path: Seq<char>,
    pub summary: SegmentSummary,
}

impl View for SegmentMeta {
    type V = MetaView;

    open spec fn view(&self) -> MetaView {
        MetaView {
            id: self.id,
            min_ts: self.min_ts,
            max_ts: self.max_ts,
            line_count: self.line_count,
            path: self.path@,
            summary: self.summary,
        }
    }
}

/// What the entries of the index say.
pub open spec fn metas(v: Seq<SegmentMeta>) -> Seq<MetaView> {
    Seq::new(v.len(), |i: int| v[i]@)
}

/// An entry without its path.
pub open spec fn without_path(m: MetaView) -> SegmentMetaView {
    SegmentMetaView {
        segment_id: m.id,
        min_ts: m.min_ts,
        max_ts: m.max_ts,
        line_count: m.line_count,
        summary: m.summary,
    }
}

/// The entries stand in ascending order of their numbers.
pub open spec fn by_id(s: Seq<MetaView>) -> bool {
    forall|i: int, j: int| 0 <= i < j < s.len() ==> (#[trigger] s[i]).id <= (#[trigger] s[j]).id
}

/// The entries with one more, behind those with the same or a lower number.
pub open spec fn placed(s: Seq<MetaView>, m: MetaView) -> Seq<MetaView>
    decreases s.len(),
{
    if s.len() == 0 || s.last().id <= m.id {
        s.push(m)
    } else {
        placed(s.drop_last(), m).push(s.last())
    }
}

/// The entries in ascending order of their numbers; those with the same number
/// in the order in which they come.
pub open spec fn all_placed(ms: Seq<MetaView>) -> Seq<MetaView>
    decreases ms.len(),
{
    if ms.len() == 0 {
        Seq::empty()
    } else {
        placed(all_placed(ms.drop_last()), ms.last())
    }
}

/// The number after `id`, or the largest number.
pub open spec fn after(id: u32) -> u32 {
    if id < u32::MAX {
        (id + 1) as u32
    } else {
        u32::MAX
    }
}

/// The next number to give out, after entries with these numbers.
pub open spec fn next_after(next: u32, ms: Seq<MetaView>) -> u32
    decreases ms.len(),
{
    if ms.len() == 0 {
        next
    } else {
        let n: u32 = next_after(next, ms.drop_last());
        if ms.last().id >= n {
            after(ms.last().id)
        } else {
            n
        }
    }
}

/// The path of `name` in the directory `dir`.
pub open spec fn path_in(dir: Seq<char>, name: Seq<char>) -> Seq<char> {
    if dir.len() == 0 || dir.last() == '/' {
        dir + name
    } else {
        dir.push('/') + name
    }
}

/// The path of a segment file in a data directory.
pub open spec fn segment_path(dir: Seq<char>, name: Seq<char>) -> Seq<char> {
    path_in(path_in(dir, "segments"@), name)
}

/// The path of `name` in the directory `dir`.
pub fn join_path(dir: &str, name: &str) -> (r: String)
    ensures
        r@ == path_in(dir@, name@),
{
    let chars: Vec<char> = text::chars_of(dir);
    let mut out: String = String::new();
    out.append(dir);
    let n: usize = chars.len();
    if n > 0 && chars[n - 1] != '/' {
        out.push('/');
    }
    out.append(name);
    assert(out@ =~= path_in(dir@, name@));
    out
}

proof fn lemma_placed(s: Seq<MetaView>, m: MetaView, k: int)
    requires
        0 <= k <= s.len(),
        k > 0 ==> s[k - 1].id <= m.id,
        forall|i: int| k <= i < s.len() ==> (#[trigger] s[i]).id > m.id,
    ensures
        placed(s, m) == s.take(k).push(m) + s.skip(k),
    decreases s.len(),
{
    if k == s.len() {
        assert(s.take(k) =~= s);
        assert(s.take(k).push(m) + s.skip(k) =~= s.push(m));
    } else {
        assert(s[s.len() - 1].id > m.id);
        let t: Seq<MetaView> = s.drop_last();
        assert forall|i: int| k <= i < t.len() implies (#[trigger] t[i]).id > m.id by {
            assert(s[i].id > m.id);
        }
        lemma_placed(t, m, k);
        assert((t.take(k).push(m) + t.skip(k)).push(s.last()) =~= s.take(k).push(m) + s.skip(k));
    }
}

/// Placing an entry keeps the order.
pub proof fn lemma_placed_by_id(s: Seq<MetaView>, m: MetaView)
    requires
        by_id(s),
    ensures
        by_id(placed(s, m)),
        placed(s, m).len() == s.len() + 1,
        forall|i: int|
            0 <= i < placed(s, m).len() ==> (#[trigger] placed(s, m)[i] == m || s.contains(
                placed(s, m)[i],
            )),
        placed(s, m).contains(m),
        forall|i: int| 0 <= i < s.len() ==> placed(s, m).contains(#[trigger] s[i]),
    decreases s.len(),
{
    let p: Seq<MetaView> = placed(s, m);
    if s.len() == 0 || s.last().id <= m.id {
        assert forall|i: int, j: int| 0 <= i < j < p.len() implies (#[trigger] p[i]).id <= (
        #[trigger] p[j]).id by {
            if j == s.len() {
                if i < s.len() - 1 {
                    assert(s[i].id <= s[s.len() - 1].id);
                }
            } else {
                assert(s[i].id <= s[j].id);
            }
        }
        assert(p[s.len() as int] == m);
        assert forall|i: int| 0 <= i < s.len() implies p.contains(#[trigger] s[i]) by {
            assert(p[i] == s[i]);
        }
    } else {
        let t: Seq<MetaView> = s.drop_last();
        let q: Seq<MetaView> = placed(t, m);
        assert forall|i: int, j: int| 0 <= i < j < t.len() implies (#[trigger] t[i]).id <= (
        #[trigger] t[j]).id by {
            assert(s[i].id <= s[j].id);
        }
        lemma_placed_by_id(t, m);
        assert forall|i: int| 0 <= i < p.len() implies (#[trigger] p[i] == m || s.contains(
            p[i],
        )) by {
            if i < q.len() {
                assert(p[i] == q[i]);
                if q[i] != m {
                    assert(t.contains(q[i]));
                    let k: int = choose|k: int| 0 <= k < t.len() && t[k] == q[i];
                    assert(s[k] == q[i]);
                }
            } else {
                assert(s[s.len() - 1] == p[i]);
            }
        }
        assert forall|i: int, j: int| 0 <= i < j < p.len() implies (#[trigger] p[i]).id <= (
        #[trigger] p[j]).id by {
            if j < q.len() {
                assert(q[i].id <= q[j].id);
            } else {
                assert(p[i] == q[i]);
                if q[i] != m {
                    assert(t.contains(q[i]));
                    let k: int = choose|k: int| 0 <= k < t.len() && t[k] == q[i];
                    assert(s[k].id <= s[s.len() - 1].id);
                }
            }
        }
        let c: int = choose|c: int| 0 <= c < q.len() && q[c] == m;
        assert(p[c] == m);
        assert forall|i: int| 0 <= i < s.len() implies p.contains(#[trigger] s[i]) by {
            if i < t.len() {
                assert(q.contains(t[i]));
                let c: int = choose|c: int| 0 <= c < q.len() && q[c] == t[i];
                assert(p[c] == s[i]);
            } else {
                assert(p[q.len() as int] == s[i]);
            }
        }
    }
}

pub(crate) fn place(v: &mut Vec<SegmentMeta>, m: SegmentMeta)
    ensures
        metas(final(v)@) == placed(metas(old(v)@), m@),
{
    let ghost s = metas(v@);
    let ghost mv = m@;
    let n: usize = v.len();
    let mut k: usize = n;
    while k > 0 && v[k - 1].id > m.id
        invariant
            k <= n,
            n == v@.len(),
            s == metas(v@),
            forall|i: int| k <= i < s.len() ==> (#[trigger] s[i]).id > m.id,
        decreases k,
    {
        assert(s[k - 1] == v@[k - 1]@);
        k -= 1;
    }
    proof {
        if k > 0 {
            assert(s[k - 1] == v@[k - 1]@);
        }
        lemma_placed(s, mv, k as int);
    }
    v.insert(k, m);
    assert(metas(v@) =~= s.take(k as int).push(mv) + s.skip(k as int));
}

// ---------- the index ----------

/// The index of the segments in a data directory.
pub struct Index {
    pub data_dir: String,
    /// One entry for each segment, in ascending order of their numbers.
    pub segments: Vec<SegmentMeta>,
    /// The number of the next segment.
    pub next_id: u32,
    /// Which templates hold which keywords.
    pub keyword_to_patterns: KeywordMap,
}

/// The entry overlaps the times from `start` to `end`.
pub open spec fn overlaps(m: MetaView, start: u64, end: u64) -> bool {
    m.max_ts >= start && m.min_ts <= end
}

/// Those of the first `n` entries that overlap the times from `start` to `end`.
pub open spec fn overlapping(s: Seq<MetaView>, start: u64, end: u64, n: nat) -> Seq<
    SegmentMetaView,
>
    decreases n,
{
    if n == 0 {
        Seq::empty()
    } else if overlaps(s[n - 1], start, end) {
        overlapping(s, start, end, (n - 1) as nat).push(without_path(s[n - 1]))
    } else {
        overlapping(s, start, end, (n - 1) as nat)
    }
}

/// The last times of entries.
pub open spec fn last_times(v: Seq<SegmentMetaView>) -> Seq<u64> {
    Seq::new(v.len(), |i: int| v[i].max_ts)
}

/// `r` are the entries that overlap the times from `start` to `end`, those with
/// the latest last time first.
pub open spec fn is_range(
    s: Seq<MetaView>,
    start: u64,
    end: u64,
    r: Seq<SegmentMetaView>,
) -> bool {
    let v: Seq<SegmentMetaView> = overlapping(s, start, end, s.len());
    order::is_ranking(v, last_times(v), r)
}

/// The bit of the level that a keyword in capitals names.
pub open spec fn level_named(upper: Seq<char>) -> Option<u8> {
    if upper == "DEBUG"@ || upper == "D"@ {
        Some(0u8)
    } else if upper == "INFO"@ || upper == "I"@ {
        Some(1u8)
    } else if upper == "WARN"@ || upper == "W"@ || upper == "WARNING"@ {
        Some(2u8)
    } else if upper == "ERROR"@ || upper == "E"@ || upper == "ERR"@ {
        Some(3u8)
    } else {
        None
    }
}

/// The segment has a summary.
pub open spec fn summarized(m: MetaView) -> bool {
    m.summary.flags & 1 != 0
}

/// The segment holds a line of the level that the keyword names.
pub open spec fn holds_level(m: MetaView, upper: Seq<char>) -> bool {
    match level_named(upper) {
        Some(k) => (m.summary.level_mask >> k) & 1 != 0,
        None => false,
    }
}

/// Template `k` is in use in the segment; templates from 64 on are not kept.
pub open spec fn pattern_used(m: MetaView, k: u16) -> bool {
    k < 64 && chunk::mask_bit(m.summary.pattern_mask, k)
}

/// Template `k` is known to hold the keyword in segment `id`.
pub open spec fn known_for(map: KeywordView, id: u32, keyword: Seq<char>, k: u16) -> bool {
    ||| keywords::numbers_of(map.words, keyword).contains(k)
    ||| map.tables.contains_key(id) && k < map.tables[id].len() && segment_query::template_holds(
        map.tables[id][k as int],
        keyword,
    )
}

/// Template `k` is in use in the segment and known to hold the keyword.
pub open spec fn pattern_hit(m: MetaView, map: KeywordView, keyword: Seq<char>, k: u16) -> bool {
    pattern_used(m, k) && known_for(map, m.id, keyword, k)
}

/// How many templates with numbers below `n` are in use in the segment and known
/// to hold the keyword.
pub open spec fn hit_count(m: MetaView, map: KeywordView, keyword: Seq<char>, n: nat) -> nat
    decreases n,
{
    if n == 0 {
        0
    } else {
        hit_count(m, map, keyword, (n - 1) as nat) + (if pattern_hit(
            m,
            map,
            keyword,
            (n - 1) as u16,
        ) {
            1nat
        } else {
            0nat
        })
    }
}

/// How many templates are in use in the segment and known to hold the keyword.
pub open spec fn matched(m: MetaView, map: KeywordView, keyword: Seq<char>) -> nat {
    hit_count(m, map, keyword, 64)
}

/// Template `k` may be in use in the segment, and its messages may hold the
/// keyword. Of the templates from 64 on it is not kept which ones are in use.
pub open spec fn template_allows(
    m: MetaView,
    ts: Seq<Seq<PartView>>,
    keyword: Seq<char>,
    k: int,
) -> bool {
    (k < 64 ==> pattern_used(m, k as u16)) && keywords::may_match(ts[k], keyword)
}

/// Going by its templates, the segment may hold the keyword. Where they are not
/// known it may, unless none is in use.
pub open spec fn templates_allow(m: MetaView, map: KeywordView, keyword: Seq<char>) -> bool {
    if map.tables.contains_key(m.id) {
        let ts: Seq<Seq<PartView>> = map.tables[m.id];
        exists|k: int| 0 <= k < ts.len() && #[trigger] template_allows(m, ts, keyword, k)
    } else {
        m.summary.pattern_mask != 0
    }
}

/// The segment may hold the keyword: it has no summary, or a line of the level
/// that the keyword names, or a template that is known to hold the keyword or
/// whose messages may hold it, or its filter may hold the keyword.
pub open spec fn may_hold(
    m: MetaView,
    map: KeywordView,
    keyword: Seq<char>,
    upper: Seq<char>,
) -> bool {
    ||| !summarized(m)
    ||| holds_level(m, upper)
    ||| matched(m, map, keyword) > 0
    ||| templates_allow(m, map, keyword)
    ||| keyword.len() == 0
    ||| summary::folded_marked(m.summary.param_bloom@, 96, encode_utf8(keyword))
}

/// Some segment that overlaps the times from `start` to `end` may hold the
/// keyword.
pub open spec fn some_may_hold(
    s: Seq<MetaView>,
    map: KeywordView,
    start: u64,
    end: u64,
    keyword: Seq<char>,
    upper: Seq<char>,
) -> bool {
    exists|i: int|
        0 <= i < s.len() && overlaps(#[trigger] s[i], start, end) && may_hold(
            s[i],
            map,
            keyword,
            upper,
        )
}

/// How many of the bits below `n` are set.
pub open spec fn bit_count(mask: u64, n: nat) -> nat
    decreases n,
{
    if n == 0 {
        0
    } else {
        bit_count(mask, (n - 1) as nat) + (if chunk::mask_bit(mask, (n - 1) as u16) {
            1nat
        } else {
            0nat
        })
    }
}

/// All lines of the segment have the same template.
pub open spec fn one_template(m: MetaView, map: KeywordView) -> bool {
    bit_count(m.summary.pattern_mask, 64) == 1 && !(map.tables.contains_key(m.id)
        && map.tables[m.id].len() > 64)
}

/// How many lines of the segment are counted for the keyword: all of them where
/// its only template is known to hold the keyword; else one for each template in
/// use that is known to hold it; else one where the segment holds a line of the
/// level that the keyword names.
pub open spec fn counted(
    m: MetaView,
    map: KeywordView,
    keyword: Seq<char>,
    upper: Seq<char>,
) -> nat {
    let n: nat = matched(m, map, keyword);
    if !summarized(m) {
        0
    } else if n == 1 && one_template(m, map) {
        m.line_count as nat
    } else if n > 0 {
        n
    } else if holds_level(m, upper) {
        1
    } else {
        0
    }
}

/// All times of the entry lie between `start` and `end`.
pub open spec fn lies_within(m: MetaView, start: u64, end: u64) -> bool {
    start <= m.min_ts && m.max_ts <= end && overlaps(m, start, end)
}

/// The sum over those of the first `n` segments that lie within the times.
pub open spec fn counted_sum(
    s: Seq<MetaView>,
    map: KeywordView,
    start: u64,
    end: u64,
    keyword: Seq<char>,
    upper: Seq<char>,
    n: nat,
) -> nat
    decreases n,
{
    if n == 0 {
        0
    } else {
        counted_sum(s, map, start, end, keyword, upper, (n - 1) as nat) + (if lies_within(
            s[n - 1],
            start,
            end,
        ) {
            counted(s[n - 1], map, keyword, upper)
        } else {
            0
        })
    }
}

/// `v`, or the largest 64-bit number where it is larger.
pub open spec fn clamped64(v: nat) -> nat {
    if v <= u64::MAX {
        v
    } else {
        u64::MAX as nat
    }
}

/// The number of lines in the first `n` segments.
pub open spec fn lines_sum(s: Seq<MetaView>, n: nat) -> nat
    decreases n,
{
    if n == 0 {
        0
    } else {
        lines_sum(s, (n - 1) as nat) + s[n - 1].line_count as nat
    }
}

/// `r` is the least first time among the first `n` segments; nothing without
/// segments.
pub open spec fn is_first_time(s: Seq<MetaView>, n: nat, r: Option<u64>) -> bool {
    match r {
        None => n == 0,
        Some(t) => {
            &&& forall|i: int| 0 <= i < n ==> t <= (#[trigger] s[i]).min_ts
            &&& exists|i: int| 0 <= i < n && t == (#[trigger] s[i]).min_ts
        },
    }
}

/// `r` is the greatest last time among the first `n` segments; nothing without
/// segments.
pub open spec fn is_last_time(s: Seq<MetaView>, n: nat, r: Option<u64>) -> bool {
    match r {
        None => n == 0,
        Some(t) => {
            &&& forall|i: int| 0 <= i < n ==> t >= (#[trigger] s[i]).max_ts
            &&& exists|i: int| 0 <= i < n && t == (#[trigger] s[i]).max_ts
        },
    }
}

/// The bytes of the manifest entry of a segment.
pub open spec fn meta_bytes(m: MetaView) -> Seq<u8> {
    bytes::le_bytes(m.id as nat, 4) + bytes::le_bytes(m.min_ts as nat, 8) + bytes::le_bytes(
        m.max_ts as nat,
        8,
    ) + bytes::le_bytes(m.line_count as nat, 4) + bytes::le_bytes(
        names::fnv1a(encode_utf8(m.path)) as nat,
        8,
    ) + bytes::le_bytes(manifest_flags::NORMAL as nat, 4) + summary::segment_summary_bytes(
        m.summary,
    )
}

/// The bytes of the first `n` manifest entries.
pub open spec fn metas_body(s: Seq<MetaView>, n: nat) -> Seq<u8>
    decreases n,
{
    if n == 0 {
        Seq::empty()
    } else {
        metas_body(s, (n - 1) as nat) + meta_bytes(s[n - 1])
    }
}

/// The manifest file of an index.
pub open spec fn saved_bytes(s: Seq<MetaView>) -> Seq<u8> {
    manifest::midx() + seq![1u8] + bytes::le_bytes(s.len(), 8) + metas_body(s, s.len())
}

proof fn lemma_metas_body(s: Seq<MetaView>, es: Seq<ManifestEntry>, n: nat)
    requires
        n <= s.len(),
        n <= es.len(),
        forall|i: int|
            0 <= i < n ==> manifest::manifest_entry_bytes(#[trigger] es[i]) == meta_bytes(s[i]),
    ensures
        metas_body(s, n) == manifest_file::entries_body(es, n),
    decreases n,
{
    if n > 0 {
        lemma_metas_body(s, es, (n - 1) as nat);
        assert(manifest::manifest_entry_bytes(es[n - 1]) == meta_bytes(s[n - 1]));
    }
}

/// The bit of the level that a keyword in capitals names.
pub fn named_level(upper: &str) -> (r: Option<u8>)
    ensures
        r == level_named(upper@),
        r is Some ==> r->0 < 4,
{
    if text::same_text(upper, "DEBUG") || text::same_text(upper, "D") {
        Some(0)
    } else if text::same_text(upper, "INFO") || text::same_text(upper, "I") {
        Some(1)
    } else if text::same_text(upper, "WARN") || text::same_text(upper, "W") || text::same_text(
        upper,
        "WARNING",
    ) {
        Some(2)
    } else if text::same_text(upper, "ERROR") || text::same_text(upper, "E") || text::same_text(
        upper,
        "ERR",
    ) {
        Some(3)
    } else {
        None
    }
}

fn has_number(ks: &Vec<u16>, k: u16) -> (r: bool)
    ensures
        r == ks@.contains(k),
{
    let mut i: usize = 0;
    while i < ks.len()
        invariant
            i <= ks@.len(),
            forall|j: int| 0 <= j < i ==> ks@[j] != k,
        decreases ks@.len() - i,
    {
        if ks[i] == k {
            return true;
        }
        i += 1;
    }
    false
}

fn any_allows(m: &SegmentMeta, ts: &Vec<Template>, keyword: &[char]) -> (r: bool)
    ensures
        r == exists|k: int|
            0 <= k < ts@.len() && #[trigger] template_allows(
                m@,
                parts::template_views(ts@),
                keyword@,
                k,
            ),
{
    let ghost tv = parts::template_views(ts@);
    let mut k: usize = 0;
    while k < ts.len()
        invariant
            k <= ts@.len(),
            tv == parts::template_views(ts@),
            forall|j: int| 0 <= j < k ==> !#[trigger] template_allows(m@, tv, keyword@, j),
        decreases ts@.len() - k,
    {
        let kept: bool = k >= 64 || (m.summary.pattern_mask >> (k as u64)) & 1 != 0;
        if kept && keywords::template_may_match(&ts[k], keyword) {
            assert(template_allows(m@, tv, keyword@, k as int));
            return true;
        }
        k += 1;
    }
    false
}

fn count_bits(mask: u64) -> (r: u32)
    ensures
        r == bit_count(mask, 64),
{
    let mut n: u32 = 0;
    let mut k: u16 = 0;
    while k < 64
        invariant
            k <= 64,
            n <= k,
            n == bit_count(mask, k as nat),
        decreases 64 - k,
    {
        if (mask >> (k as u64)) & 1 != 0 {
            n += 1;
        }
        k += 1;
    }
    n
}

pub(crate) fn add_clamped(a: u64, b: u64) -> (r: u64)
    ensures
        r == clamped64((a + b) as nat),
{
    if b <= u64::MAX - a {
        a + b
    } else {
        u64::MAX
    }
}

impl Index {
    /// The entries stand in order, and no word stands in two entries of the
    /// keyword map.
    pub open spec fn wf(self) -> bool {
        by_id(metas(self.segments@)) && self.keyword_to_patterns.wf()
    }

    /// The segments that overlap the times from `start` to `end`, those with
    /// the latest last time first.
    pub fn query_range(&self, start: u64, end: u64) -> (r: Vec<SegmentMetaView>)
        ensures
            is_range(metas(self.segments@), start, end, r@),
    {
        let ghost s = metas(self.segments@);
        let mut found: Vec<SegmentMetaView> = Vec::new();
        let mut keys: Vec<u64> = Vec::new();
        let mut i: usize = 0;
        while i < self.segments.len()
            invariant
                i <= self.segments@.len(),
                s == metas(self.segments@),
                found@ == overlapping(s, start, end, i as nat),
                keys@ == last_times(found@),
            decreases self.segments@.len() - i,
        {
            let m: &SegmentMeta = &self.segments[i];
            assert(s[i as int] == m@);
            let ghost before = found@;
            if m.max_ts >= start && m.min_ts <= end {
                found.push(
                    SegmentMetaView {
                        segment_id: m.id,
                        min_ts: m.min_ts,
                        max_ts: m.max_ts,
                        line_count: m.line_count,
                        summary: m.summary,
                    },
                );
                keys.push(m.max_ts);
                assert(keys@ =~= last_times(found@));
            }
            i += 1;
        }
        let ghost v = overlapping(s, start, end, s.len());
        let ranking: Vec<usize> = order::rank(&keys);
        let mut out: Vec<SegmentMetaView> = Vec::new();
        let mut k: usize = 0;
        while k < ranking.len()
            invariant
                k <= ranking@.len(),
                found@ == v,
                order::ranks(keys@, ranking@, 0, v.len() as int),
                out@.len() == k,
                forall|j: int| 0 <= j < k ==> #[trigger] out@[j] == v[ranking@[j] as int],
            decreases ranking@.len() - k,
        {
            out.push(found[ranking[k]]);
            k += 1;
        }
        proof {
            assert(out@ =~= Seq::new(v.len(), |i: int| v[ranking@[i] as int]));
            assert(order::is_ranking(v, last_times(v), out@));
        }
        out
    }

    /// The segment with that number.
    pub fn query_by_id(&self, id: u32) -> (r: Option<SegmentMetaView>)
        requires
            self.wf(),
        ensures
            match r {
                Some(v) => exists|i: int|
                    0 <= i < self.segments@.len() && (#[trigger] self.segments@[i]).id == id && v
                        == without_path(self.segments@[i]@),
                None => forall|i: int|
                    0 <= i < self.segments@.len() ==> (#[trigger] self.segments@[i]).id != id,
            },
    {
        let ghost s = metas(self.segments@);
        let mut lo: usize = 0;
        let mut hi: usize = self.segments.len();
        while lo < hi
            invariant
                lo <= hi <= self.segments@.len(),
                s == metas(self.segments@),
                by_id(s),
                forall|i: int| 0 <= i < lo ==> (#[trigger] self.segments@[i]).id < id,
                forall|i: int|
                    hi <= i < self.segments@.len() ==> (#[trigger] self.segments@[i]).id > id,
            decreases hi - lo,
        {
            let mid: usize = lo + (hi - lo) / 2;
            let m: &SegmentMeta = &self.segments[mid];
            assert(s[mid as int] == m@);
            if m.id == id {
                return Some(
                    SegmentMetaView {
                        segment_id: m.id,
                        min_ts: m.min_ts,
                        max_ts: m.max_ts,
                        line_count: m.line_count,
                        summary: m.summary,
                    },
                );
            }
            if m.id < id {
                assert forall|i: int| 0 <= i < mid + 1 implies (#[trigger] self.segments@[i]).id
                    < id by {
                    assert(s[i] == self.segments@[i]@);
                    if i < mid {
                        assert(s[i].id <= s[mid as int].id);
                    }
                }
                lo = mid + 1;
            } else {
                assert forall|i: int| mid <= i < self.segments@.len() implies (
                #[trigger] self.segments@[i]).id > id by {
                    assert(s[i] == self.segments@[i]@);
                    if i > mid {
                        assert(s[mid as int].id <= s[i].id);
                    }
                }
                hi = mid;
            }
        }
        None
    }

    fn matched_count(&self, m: &SegmentMeta, keyword: &str, chars: &[char]) -> (r: u32)
        requires
            self.wf(),
            chars@ == keyword@,
        ensures
            r == matched(m@, self.keyword_to_patterns@, keyword@),
            r <= 64,
    {
        let ghost map = self.keyword_to_patterns@;
        let words: Option<&Vec<u16>> = self.keyword_to_patterns.get(keyword);
        let table: Option<&Vec<Template>> = self.keyword_to_patterns.table(m.id);
        let mut n: u32 = 0;
        let mut k: u16 = 0;
        while k < 64
            invariant
                k <= 64,
                n <= k,
                chars@ == keyword@,
                map == self.keyword_to_patterns@,
                match words {
                    Some(v) => map.words.contains_key(keyword@) && map.words[keyword@] == v@,
                    None => !map.words.contains_key(keyword@),
                },
                match table {
                    Some(v) => map.tables.contains_key(m.id) && map.tables[m.id]
                        == parts::template_views(v@),
                    None => !map.tables.contains_key(m.id),
                },
                n == hit_count(m@, map, keyword@, k as nat),
            decreases 64 - k,
        {
            if (m.summary.pattern_mask >> (k as u64)) & 1 != 0 {
                let by_word: bool = match words {
                    Some(ks) => has_number(ks, k),
                    None => false,
                };
                let by_text: bool = match table {
                    Some(ts) => (k as usize) < ts.len() && segment_query::template_has(
                        &ts[k as usize],
                        chars,
                    ),
                    None => false,
                };
                if by_word || by_text {
                    n += 1;
                }
            }
            k += 1;
        }
        n
    }

    fn allowed(&self, m: &SegmentMeta, chars: &[char]) -> (r: bool)
        ensures
            r == templates_allow(m@, self.keyword_to_patterns@, chars@),
    {
        match self.keyword_to_patterns.table(m.id) {
            Some(ts) => any_allows(m, ts, chars),
            None => m.summary.pattern_mask != 0,
        }
    }

    /// Whether a segment that overlaps the times from `start` to `end` may hold
    /// the keyword; `upper` is the keyword in capitals. `false` is certain: no
    /// line of those times in a segment that the index tells of holds the keyword
    /// or has the level that it names.
    pub fn may_exist_as(&self, start: u64, end: u64, keyword: &str, upper: &str) -> (r: bool)
        requires
            self.wf(),
        ensures
            r == some_may_hold(
                metas(self.segments@),
                self.keyword_to_patterns@,
                start,
                end,
                keyword@,
                upper@,
            ),
            forall|held: Map<u32, Seq<LogView>>| #[trigger]
                index_truth::tells_all(metas(self.segments@), self.keyword_to_patterns@, held)
                    && !r ==> index_truth::none_hits(
                    metas(self.segments@),
                    held,
                    (QueryView { start, end, keyword: keyword@ }),
                    upper@,
                ),
    {
        let ghost s = metas(self.segments@);
        let chars: Vec<char> = text::chars_of(keyword);
        let level: Option<u8> = named_level(upper);
        let mut i: usize = 0;
        while i < self.segments.len()
            invariant
                self.wf(),
                chars@ == keyword@,
                i <= self.segments@.len(),
                s == metas(self.segments@),
                level == level_named(upper@),
                level is Some ==> level->0 < 4,
                forall|k: int|
                    0 <= k < i && overlaps(#[trigger] s[k], start, end) ==> !may_hold(
                        s[k],
                        self.keyword_to_patterns@,
                        keyword@,
                        upper@,
                    ),
            decreases self.segments@.len() - i,
        {
            let m: &SegmentMeta = &self.segments[i];
            assert(s[i as int] == m@);
            if m.max_ts >= start && m.min_ts <= end {
                if !m.summary.has_summary() {
                    assert(overlaps(s[i as int], start, end));
                    return true;
                }
                if let Some(k) = level {
                    if (m.summary.level_mask >> k) & 1 != 0 {
                        assert(overlaps(s[i as int], start, end));
                        return true;
                    }
                }
                if self.matched_count(m, keyword, &chars) > 0 {
                    assert(overlaps(s[i as int], start, end));
                    return true;
                }
                if self.allowed(m, &chars) {
                    assert(overlaps(s[i as int], start, end));
                    return true;
                }
                if m.summary.bloom_may_contain_param(keyword) {
                    assert(overlaps(s[i as int], start, end));
                    return true;
                }
            }
            i += 1;
        }
        proof {
            assert forall|held: Map<u32, Seq<LogView>>| #[trigger]
                index_truth::tells_all(s, self.keyword_to_patterns@, held) implies index_truth::none_hits(
                s,
                held,
                (QueryView { start, end, keyword: keyword@ }),
                upper@,
            ) by {
                index_truth::lemma_none_hits(
                    s,
                    self.keyword_to_patterns@,
                    held,
                    (QueryView { start, end, keyword: keyword@ }),
                    upper@,
                );
            }
        }
        false
    }

    /// Whether a segment that overlaps the times from `start` to `end` may hold
    /// the keyword. `false` is certain: no line of those times in a segment that
    /// the index tells of holds the keyword or has the level that it names.
    pub fn may_exist(&self, start: u64, end: u64, keyword: &str) -> (r: bool)
        requires
            self.wf(),
        ensures
            r == some_may_hold(
                metas(self.segments@),
                self.keyword_to_patterns@,
                start,
                end,
                keyword@,
                letters::capitals(keyword@),
            ),
            forall|held: Map<u32, Seq<LogView>>| #[trigger]
                index_truth::tells_all(metas(self.segments@), self.keyword_to_patterns@, held)
                    && !r ==> index_truth::none_hits(
                    metas(self.segments@),
                    held,
                    (QueryView { start, end, keyword: keyword@ }),
                    letters::capitals(keyword@),
                ),
    {
        let upper: String = letters::upper_string(keyword);
        self.may_exist_as(start, end, keyword, upper.as_str())
    }

    /// A lower bound on the number of lines with times from `start` to `end` that
    /// hold the keyword or have the level that it names; `upper` is the keyword in
    /// capitals. Segments that do not lie within the times are not counted.
    pub fn count_at_least_as(&self, start: u64, end: u64, keyword: &str, upper: &str) -> (r: u64)
        requires
            self.wf(),
        ensures
            r == clamped64(
                counted_sum(
                    metas(self.segments@),
                    self.keyword_to_patterns@,
                    start,
                    end,
                    keyword@,
                    upper@,
                    self.segments@.len(),
                ),
            ),
            forall|held: Map<u32, Seq<LogView>>| #[trigger]
                index_truth::tells_all(metas(self.segments@), self.keyword_to_patterns@, held)
                    && self.keyword_to_patterns@.words == Map::<Seq<char>, Seq<u16>>::empty() ==> r
                    <= index_truth::hits_sum(
                    metas(self.segments@),
                    held,
                    (QueryView { start, end, keyword: keyword@ }),
                    upper@,
                    self.segments@.len(),
                ),
    {
        let ghost s = metas(self.segments@);
        let ghost map = self.keyword_to_patterns@;
        let chars: Vec<char> = text::chars_of(keyword);
        let level: Option<u8> = named_level(upper);
        let mut total: u64 = 0;
        let mut i: usize = 0;
        while i < self.segments.len()
            invariant
                self.wf(),
                chars@ == keyword@,
                i <= self.segments@.len(),
                s == metas(self.segments@),
                map == self.keyword_to_patterns@,
                level == level_named(upper@),
                level is Some ==> level->0 < 4,
                total == clamped64(counted_sum(s, map, start, end, keyword@, upper@, i as nat)),
            decreases self.segments@.len() - i,
        {
            let m: &SegmentMeta = &self.segments[i];
            assert(s[i as int] == m@);
            let within: bool = m.min_ts >= start && m.max_ts <= end && m.max_ts >= start && m.min_ts
                <= end;
            if within && m.summary.has_summary() {
                let by_level: bool = match level {
                    Some(k) => (m.summary.level_mask >> k) & 1 != 0,
                    None => false,
                };
                let n: u32 = self.matched_count(m, keyword, &chars);
                let many: bool = match self.keyword_to_patterns.table(m.id) {
                    Some(ts) => ts.len() > 64,
                    None => false,
                };
                let part: u64 = if n == 1 && count_bits(m.summary.pattern_mask) == 1 && !many {
                    m.line_count as u64
                } else if n > 0 {
                    n as u64
                } else if by_level {
                    1
                } else {
                    0
                };
                total = add_clamped(total, part);
            }
            i += 1;
        }
        proof {
            assert forall|held: Map<u32, Seq<LogView>>| #[trigger]
                index_truth::tells_all(s, map, held) && map.words == Map::<
                Seq<char>,
                Seq<u16>,
            >::empty() implies total <= index_truth::hits_sum(
                s,
                held,
                (QueryView { start, end, keyword: keyword@ }),
                upper@,
                s.len(),
            ) by {
                index_truth::lemma_counted_sum(
                    s,
                    map,
                    held,
                    (QueryView { start, end, keyword: keyword@ }),
                    upper@,
                    s.len(),
                );
            }
        }
        total
    }

    /// A lower bound on the number of lines with times from `start` to `end` that
    /// hold the keyword or have the level that it names. Segments that do not lie
    /// within the times are not counted.
    pub fn count_at_least(&self, start: u64, end: u64, keyword: &str) -> (r: u64)
        requires
            self.wf(),
        ensures
            r == clamped64(
                counted_sum(
                    metas(self.segments@),
                    self.keyword_to_patterns@,
                    start,
                    end,
                    keyword@,
                    letters::capitals(keyword@),
                    self.segments@.len(),
                ),
            ),
            forall|held: Map<u32, Seq<LogView>>| #[trigger]
                index_truth::tells_all(metas(self.segments@), self.keyword_to_patterns@, held)
                    && self.keyword_to_patterns@.words == Map::<Seq<char>, Seq<u16>>::empty() ==> r
                    <= index_truth::hits_sum(
                    metas(self.segments@),
                    held,
                    (QueryView { start, end, keyword: keyword@ }),
                    letters::capitals(keyword@),
                    self.segments@.len(),
                ),
    {
        let upper: String = letters::upper_string(keyword);
        self.count_at_least_as(start, end, keyword, upper.as_str())
    }

    /// Numbers about the whole index.
    pub fn stats(&self) -> (r: IndexStats)
        ensures
            r.segment_count == self.segments@.len(),
            r.total_lines == clamped64(lines_sum(metas(self.segments@), self.segments@.len())),
            is_first_time(metas(self.segments@), self.segments@.len(), r.min_ts),
            is_last_time(metas(self.segments@), self.segments@.len(), r.max_ts),
    {
        let ghost s = metas(self.segments@);
        let mut total: u64 = 0;
        let mut lo: Option<u64> = None;
        let mut hi: Option<u64> = None;
        let mut i: usize = 0;
        while i < self.segments.len()
            invariant
                i <= self.segments@.len(),
                s == metas(self.segments@),
                total == clamped64(lines_sum(s, i as nat)),
                is_first_time(s, i as nat, lo),
                is_last_time(s, i as nat, hi),
            decreases self.segments@.len() - i,
        {
            let m: &SegmentMeta = &self.segments[i];
            assert(s[i as int] == m@);
            total = add_clamped(total, m.line_count as u64);
            let ghost lo0 = lo;
            let ghost hi0 = hi;
            lo = match lo {
                Some(t) if t <= m.min_ts => Some(t),
                _ => Some(m.min_ts),
            };
            hi = match hi {
                Some(t) if t >= m.max_ts => Some(t),
                _ => Some(m.max_ts),
            };
            proof {
                if lo == lo0 {
                    let k: int = choose|k: int| 0 <= k < i && lo->0 == (#[trigger] s[k]).min_ts;
                    assert(s[k].min_ts == lo->0);
                } else {
                    assert(s[i as int].min_ts == lo->0);
                }
                if hi == hi0 {
                    let k: int = choose|k: int| 0 <= k < i && hi->0 == (#[trigger] s[k]).max_ts;
                    assert(s[k].max_ts == hi->0);
                } else {
                    assert(s[i as int].max_ts == hi->0);
                }
            }
            i += 1;
        }
        IndexStats { segment_count: self.segments.len(), total_lines: total, min_ts: lo, max_ts: hi }
    }

    /// Gives out the number of the next segment.
    pub fn next_segment_id(&mut self) -> (r: u32)
        requires
            old(self).next_id < u32::MAX,
        ensures
            r == old(self).next_id,
            final(self).next_id == old(self).next_id + 1,
            final(self).data_dir == old(self).data_dir,
            final(self).segments == old(self).segments,
            final(self).keyword_to_patterns == old(self).keyword_to_patterns,
    {
        let id: u32 = self.next_id;
        self.next_id = id + 1;
        id
    }

    /// The manifest file of the index.
    pub fn save(&self) -> (r: Vec<u8>)
        ensures
            r@ == saved_bytes(metas(self.segments@)),
    {
        let ghost s = metas(self.segments@);
        let mut es: Vec<ManifestEntry> = Vec::new();
        let mut i: usize = 0;
        while i < self.segments.len()
            invariant
                i <= self.segments@.len(),
                s == metas(self.segments@),
                es@.len() == i,
                forall|k: int|
                    0 <= k < i ==> manifest::manifest_entry_bytes(#[trigger] es@[k])
                        == meta_bytes(s[k]),
            decreases self.segments@.len() - i,
        {
            let m: &SegmentMeta = &self.segments[i];
            assert(s[i as int] == m@);
            let e: ManifestEntry = ManifestEntry::new(
                m.id,
                m.min_ts,
                m.max_ts,
                m.line_count,
                m.path.as_str(),
            );
            es.push(e.with_summary(&m.summary));
            i += 1;
        }
        proof {
            lemma_metas_body(s, es@, s.len());
        }
        manifest_file::write_manifest(&es)
    }

    /// Registers a segment with a summary. `file` is its file, if it is there;
    /// its templates are noted. What comes back is the new
    /// manifest file.
    pub fn add_segment_with_summary(
        &mut self,
        id: u32,
        min_ts: u64,
        max_ts: u64,
        line_count: u32,
        summary: SegmentSummary,
        file: Option<&[u8]>,
    ) -> (r: Vec<u8>)
        requires
            old(self).wf(),
        ensures
            final(self).wf(),
            final(self).data_dir == old(self).data_dir,
            final(self).next_id == old(self).next_id,
            metas(final(self).segments@) == placed(
                metas(old(self).segments@),
                (MetaView {
                    id,
                    min_ts,
                    max_ts,
                    line_count,
                    path: segment_path(
                        old(self).data_dir@,
                        names::segment_file_name(id as nat),
                    ),
                    summary,
                }),
            ),
            final(self).keyword_to_patterns@ == match file {
                Some(d) if summary.flags & 1 != 0 => keywords::all_noted(
                    old(self).keyword_to_patterns@,
                    index_scan::segment_words(id, d@),
                ),
                _ => old(self).keyword_to_patterns@,
            },
            r@ == saved_bytes(metas(final(self).segments@)),
    {
        let dir: String = join_path(self.data_dir.as_str(), "segments");
        let path: String = join_path(dir.as_str(), names::segment_name(id).as_str());
        let ghost before = metas(self.segments@);
        let m: SegmentMeta = SegmentMeta { id, min_ts, max_ts, line_count, path, summary };
        proof {
            lemma_placed_by_id(before, m@);
        }
        place(&mut self.segments, m);
        if summary.has_summary() {
            if let Some(d) = file {
                index_scan::learn_segment(id, d, &mut self.keyword_to_patterns);
            }
        }
        self.save()
    }

    /// Registers a segment without a summary. What comes back is the new
    /// manifest file.
    pub fn add_segment(&mut self, id: u32, min_ts: u64, max_ts: u64, line_count: u32) -> (r: Vec<
        u8,
    >)
        requires
            old(self).wf(),
        ensures
            final(self).wf(),
            final(self).data_dir == old(self).data_dir,
            final(self).next_id == old(self).next_id,
            final(self).keyword_to_patterns@ == old(self).keyword_to_patterns@,
            exists|summary: SegmentSummary|
                summary::is_empty_summary(summary) && metas(final(self).segments@)
                    == #[trigger] placed(
                    metas(old(self).segments@),
                    (MetaView {
                        id,
                        min_ts,
                        max_ts,
                        line_count,
                        path: segment_path(
                            old(self).data_dir@,
                            names::segment_file_name(id as nat),
                        ),
                        summary,
                    }),
                ),
            r@ == saved_bytes(metas(final(self).segments@)),
    {
        self.add_segment_with_summary(
            id,
            min_ts,
            max_ts,
            line_count,
            SegmentSummary::default(),
            None,
        )
    }
}

} // verus!
