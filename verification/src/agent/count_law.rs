//! What the index answers of templates, said of their texts.

use crate::agent::index;
use crate::agent::index::MetaView;
use crate::agent::keywords;
use crate::agent::keywords::KeywordView;
use crate::agent::parts::PartView;
use crate::agent::query_law;
use crate::agent::tokens;
use crate::shared::bloom;
use crate::shared::chunk;
use crate::shared::text;
use vstd::prelude::*;
use vstd::utf8::*;

verus! {

/// Template `k` is in use in the segment, and its part `j` is a text made of
/// `a`, the keyword and `b`.
pub open spec fn template_in_use(
    m: MetaView,
    map: KeywordView,
    keyword: Seq<char>,
    k: u16,
    j: int,
    a: Seq<char>,
    b: Seq<char>,
) -> bool {
    &&& k < 64
    &&& (m.summary.pattern_mask >> (k as u64)) & 1 != 0
    &&& map.tables.contains_key(m.id)
    &&& k < map.tables[m.id].len()
    &&& 0 <= j < map.tables[m.id][k as int].len()
    &&& query_law::part_made_of(map.tables[m.id][k as int][j], a, keyword, b)
}

proof fn lemma_hit(m: MetaView, map: KeywordView, keyword: Seq<char>, k: u16, n: nat)
    requires
        k < n <= 64,
        index::pattern_hit(m, map, keyword, k),
    ensures
        index::hit_count(m, map, keyword, n) >= 1,
    decreases n,
{
    if k < n - 1 {
        lemma_hit(m, map, keyword, k, (n - 1) as nat);
    } else {
        assert((n - 1) as u16 == k);
    }
}

proof fn lemma_sole(m: MetaView, map: KeywordView, keyword: Seq<char>, k: u16, n: nat)
    requires
        n <= 64,
        k < 64,
        index::pattern_hit(m, map, keyword, k),
        forall|i: u16|
            i < 64 && i != k ==> !#[trigger] chunk::mask_bit(m.summary.pattern_mask, i),
    ensures
        index::hit_count(m, map, keyword, n) == if k < n {
            1nat
        } else {
            0nat
        },
        index::bit_count(m.summary.pattern_mask, n) == if k < n {
            1nat
        } else {
            0nat
        },
    decreases n,
{
    if n > 0 {
        lemma_sole(m, map, keyword, k, (n - 1) as nat);
        let i: u16 = (n - 1) as u16;
        if i != k {
            assert(!chunk::mask_bit(m.summary.pattern_mask, i));
        }
    }
}

/// Where a template in use in a segment has a text with the keyword in it, the
/// keyword may exist in the segment, and at least one line is counted.
pub proof fn law_template_counted(
    m: MetaView,
    map: KeywordView,
    keyword: Seq<char>,
    upper: Seq<char>,
    k: u16,
    j: int,
    a: Seq<char>,
    b: Seq<char>,
)
    requires
        template_in_use(m, map, keyword, k, j, a, b),
        m.summary.flags & 1 != 0,
        m.line_count > 0,
    ensures
        index::may_hold(m, map, keyword, upper),
        index::counted(m, map, keyword, upper) >= 1,
{
    query_law::law_template_holds(map.tables[m.id][k as int], keyword);
    assert(query_law::part_made_of(map.tables[m.id][k as int][j], a, keyword, b));
    assert(index::known_for(map, m.id, keyword, k));
    assert(index::pattern_hit(m, map, keyword, k));
    lemma_hit(m, map, keyword, k, 64);
}

proof fn lemma_two_hits(m: MetaView, map: KeywordView, keyword: Seq<char>, k: u16, l: u16, n: nat)
    requires
        k < l < n <= 64,
        index::pattern_hit(m, map, keyword, k),
        index::pattern_hit(m, map, keyword, l),
    ensures
        index::hit_count(m, map, keyword, n) >= 2,
    decreases n,
{
    if l < n - 1 {
        lemma_two_hits(m, map, keyword, k, l, (n - 1) as nat);
    } else {
        lemma_hit(m, map, keyword, k, (n - 1) as nat);
        assert((n - 1) as u16 == l);
    }
}

/// Where two templates in use in a segment have texts with the keyword in them,
/// at least two lines are counted.
pub proof fn law_two_templates_counted(
    m: MetaView,
    map: KeywordView,
    keyword: Seq<char>,
    upper: Seq<char>,
    k: u16,
    j: int,
    a: Seq<char>,
    b: Seq<char>,
    l: u16,
    i: int,
    c: Seq<char>,
    d: Seq<char>,
)
    requires
        template_in_use(m, map, keyword, k, j, a, b),
        template_in_use(m, map, keyword, l, i, c, d),
        k < l,
        m.summary.flags & 1 != 0,
    ensures
        index::counted(m, map, keyword, upper) >= 2,
{
    query_law::law_template_holds(map.tables[m.id][k as int], keyword);
    query_law::law_template_holds(map.tables[m.id][l as int], keyword);
    assert(query_law::part_made_of(map.tables[m.id][k as int][j], a, keyword, b));
    assert(query_law::part_made_of(map.tables[m.id][l as int][i], c, keyword, d));
    assert(index::known_for(map, m.id, keyword, k));
    assert(index::known_for(map, m.id, keyword, l));
    assert(index::pattern_hit(m, map, keyword, k));
    assert(index::pattern_hit(m, map, keyword, l));
    lemma_two_hits(m, map, keyword, k, l, 64);
}

/// Where only one template is in use in a segment and has a text with the
/// keyword in it, all lines of the segment are counted.
pub proof fn law_sole_template_counts_all(
    m: MetaView,
    map: KeywordView,
    keyword: Seq<char>,
    upper: Seq<char>,
    k: u16,
    j: int,
    a: Seq<char>,
    b: Seq<char>,
)
    requires
        template_in_use(m, map, keyword, k, j, a, b),
        m.summary.flags & 1 != 0,
        map.tables[m.id].len() <= 64,
        forall|i: u16|
            i < 64 && i != k ==> !#[trigger] chunk::mask_bit(m.summary.pattern_mask, i),
    ensures
        index::counted(m, map, keyword, upper) == m.line_count,
{
    query_law::law_template_holds(map.tables[m.id][k as int], keyword);
    assert(query_law::part_made_of(map.tables[m.id][k as int][j], a, keyword, b));
    assert(index::known_for(map, m.id, keyword, k));
    assert(index::pattern_hit(m, map, keyword, k));
    lemma_sole(m, map, keyword, k, 64);
}

/// The index counts only segments that lie within the times asked for, and those
/// one by one.
pub proof fn law_counts_add(
    s: Seq<MetaView>,
    map: KeywordView,
    start: u64,
    end: u64,
    keyword: Seq<char>,
    upper: Seq<char>,
    m: MetaView,
)
    ensures
        index::counted_sum(s.push(m), map, start, end, keyword, upper, s.len() + 1)
            == index::counted_sum(s, map, start, end, keyword, upper, s.len()) + (if start
            <= m.min_ts && m.max_ts <= end && m.min_ts <= end && start <= m.max_ts {
            index::counted(m, map, keyword, upper)
        } else {
            0
        }),
{
    lemma_counted_prefix(s, s.push(m), map, start, end, keyword, upper, s.len());
}

proof fn lemma_counted_prefix(
    s: Seq<MetaView>,
    t: Seq<MetaView>,
    map: KeywordView,
    start: u64,
    end: u64,
    keyword: Seq<char>,
    upper: Seq<char>,
    n: nat,
)
    requires
        n <= s.len(),
        n <= t.len(),
        forall|i: int| 0 <= i < n ==> s[i] == #[trigger] t[i],
    ensures
        index::counted_sum(s, map, start, end, keyword, upper, n) == index::counted_sum(
            t,
            map,
            start,
            end,
            keyword,
            upper,
            n,
        ),
    decreases n,
{
    if n > 0 {
        lemma_counted_prefix(s, t, map, start, end, keyword, upper, (n - 1) as nat);
        assert(s[n - 1] == t[n - 1]);
    }
}

/// A segment without a summary may hold everything, and nothing of it is
/// counted.
pub proof fn law_unknown_segment(
    m: MetaView,
    map: KeywordView,
    keyword: Seq<char>,
    upper: Seq<char>,
)
    requires
        m.summary.flags & 1 == 0,
    ensures
        index::may_hold(m, map, keyword, upper),
        index::counted(m, map, keyword, upper) == 0,
{
}

/// Every segment may hold the empty text, and a text that its filter has marked.
pub proof fn law_marked_text_exists(
    m: MetaView,
    map: KeywordView,
    keyword: Seq<char>,
    upper: Seq<char>,
)
    ensures
        keyword.len() == 0 ==> index::may_hold(m, map, keyword, upper),
        (forall|seed: u64|
            seed < 3 ==> bloom::filter_bit(
                m.summary.param_bloom@,
                #[trigger] bloom::bloom_position(encode_utf8(keyword), seed) % 96,
            )) ==> index::may_hold(m, map, keyword, upper),
{
}

/// Where the summary of a segment knows of no level and no template, and its
/// filter has not marked a text, the text is denied, and nothing is counted.
pub proof fn law_absent_text_denied(
    m: MetaView,
    map: KeywordView,
    keyword: Seq<char>,
    upper: Seq<char>,
    seed: u64,
)
    requires
        m.summary.flags & 1 != 0,
        m.summary.pattern_mask == 0,
        m.summary.level_mask == 0,
        !map.tables.contains_key(m.id),
        keyword.len() > 0,
        seed < 3,
        !bloom::filter_bit(
            m.summary.param_bloom@,
            bloom::bloom_position(encode_utf8(keyword), seed) % 96,
        ),
    ensures
        !index::may_hold(m, map, keyword, upper),
        index::counted(m, map, keyword, upper) == 0,
{
    lemma_no_hits(m, map, keyword, 64);
    lemma_no_bits(0);
    lemma_no_bits(1);
    lemma_no_bits(2);
    lemma_no_bits(3);
}

proof fn lemma_no_bits(k: u8)
    requires
        k < 8,
    ensures
        (0u8 >> k) & 1 == 0,
{
    assert((0u8 >> k) & 1 == 0) by (bit_vector);
}

proof fn lemma_no_hits(m: MetaView, map: KeywordView, keyword: Seq<char>, n: nat)
    requires
        m.summary.pattern_mask == 0,
        n <= 64,
    ensures
        index::hit_count(m, map, keyword, n) == 0,
    decreases n,
{
    if n > 0 {
        lemma_no_hits(m, map, keyword, (n - 1) as nat);
        let k: u64 = (n - 1) as u64;
        assert((0u64 >> k) & 1 == 0) by (bit_vector);
    }
}

/// Segment files stand in the directory `segments` of the data directory.
pub proof fn law_segment_path(dir: Seq<char>, name: Seq<char>)
    ensures
        dir.len() > 0 && dir.last() != '/' ==> index::segment_path(dir, name) == dir + seq!['/']
            + "segments"@ + seq!['/'] + name,
        dir.len() > 0 && dir.last() == '/' ==> index::segment_path(dir, name) == dir + "segments"@
            + seq!['/'] + name,
{
    reveal_strlit("segments");
    let inner: Seq<char> = index::path_in(dir, "segments"@);
    assert(inner.last() == "segments"@[7]);
    if dir.len() > 0 {
        if dir.last() != '/' {
            assert(index::segment_path(dir, name) =~= dir + seq!['/'] + "segments"@ + seq!['/']
                + name);
        } else {
            assert(index::segment_path(dir, name) =~= dir + "segments"@ + seq!['/'] + name);
        }
    }
}

/// The index denies what it can: where it knows the templates of a segment with a
/// summary, and no message of a template in use holds the keyword, the segment
/// has no line of the level that the keyword names, and its filter has not marked
/// the keyword, then the keyword is denied, and nothing is counted.
pub proof fn law_known_segment_denies(
    m: MetaView,
    map: KeywordView,
    keyword: Seq<char>,
    upper: Seq<char>,
    seed: u64,
)
    requires
        m.summary.flags & 1 != 0,
        map.words == Map::<Seq<char>, Seq<u16>>::empty(),
        map.tables.contains_key(m.id),
        map.tables[m.id].len() <= 64,
        forall|k: u16, message: Seq<char>|
            k < map.tables[m.id].len() && chunk::mask_bit(m.summary.pattern_mask, k)
                && #[trigger] keywords::is_message_of(map.tables[m.id][k as int], message)
                ==> !text::contains_text(message, keyword),
        !index::holds_level(m, upper),
        keyword.len() > 0,
        seed < 3,
        !bloom::filter_bit(
            m.summary.param_bloom@,
            bloom::bloom_position(encode_utf8(keyword), seed) % 96,
        ),
    ensures
        !index::may_hold(m, map, keyword, upper),
        index::counted(m, map, keyword, upper) == 0,
{
    let ts: Seq<Seq<PartView>> = map.tables[m.id];
    assert forall|k: u16| k < ts.len() && chunk::mask_bit(m.summary.pattern_mask, k) implies
        !#[trigger] keywords::may_match(ts[k as int], keyword) by {
        keywords::law_may_match(ts[k as int], keyword);
        if keywords::may_match(ts[k as int], keyword) {
            let message: Seq<char> = choose|message: Seq<char>| #[trigger]
                keywords::is_message_of(ts[k as int], message) && text::contains_text(
                    message,
                    keyword,
                );
            assert(keywords::is_message_of(ts[k as int], message));
        }
    }
    assert(!index::templates_allow(m, map, keyword)) by {
        if index::templates_allow(m, map, keyword) {
            let k: int = choose|k: int|
                0 <= k < ts.len() && #[trigger] index::template_allows(m, ts, keyword, k);
            assert(!keywords::may_match(ts[(k as u16) as int], keyword));
        }
    }
    lemma_none_matched(m, map, keyword, 64);
}

proof fn lemma_none_matched(m: MetaView, map: KeywordView, keyword: Seq<char>, n: nat)
    requires
        n <= 64,
        map.words == Map::<Seq<char>, Seq<u16>>::empty(),
        map.tables.contains_key(m.id),
        forall|k: u16|
            k < map.tables[m.id].len() && chunk::mask_bit(m.summary.pattern_mask, k)
                ==> !#[trigger] keywords::may_match(map.tables[m.id][k as int], keyword),
    ensures
        index::hit_count(m, map, keyword, n) == 0,
    decreases n,
{
    if n > 0 {
        lemma_none_matched(m, map, keyword, (n - 1) as nat);
        let k: u16 = (n - 1) as u16;
        if index::pattern_hit(m, map, keyword, k) {
            let t: Seq<PartView> = map.tables[m.id][k as int];
            assert(!keywords::may_match(t, keyword));
            let none: Seq<char> = Seq::empty();
            let message: Seq<char> = tokens::concat(keywords::filled(t, none));
            assert(keywords::fills(t, keywords::filled(t, none)));
            assert(keywords::is_message_of(t, message));
            keywords::law_message_holds_template(t, message, keyword);
            keywords::law_match_allowed(t, message, keyword);
        }
    }
}

} // verus!
