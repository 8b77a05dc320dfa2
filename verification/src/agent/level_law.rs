//! What the names of levels stand for, said of the names themselves.

use crate::agent::chunk_text;
use crate::agent::collector;
use crate::agent::index;
use crate::agent::index::MetaView;
use crate::agent::index_truth;
use crate::agent::json;
use crate::agent::keywords::KeywordView;
use crate::agent::segment_plan;
use crate::agent::segment_query::QueryView;
use crate::shared::chunk;
use crate::shared::letters;
use crate::shared::log::LogView;
use vstd::prelude::*;

verus! {

// ---------- spelling ----------

/// The character is `c`, or `c` is a capital letter and it is the small letter
/// of it.
pub open spec fn same_letter(x: char, c: char) -> bool {
    x == c || ('A' <= c <= 'Z' && x as u32 == c as u32 + 0x20)
}

/// The text is the name, in small or capital letters.
pub open spec fn spelled(s: Seq<char>, name: Seq<char>) -> bool {
    s.len() == name.len() && forall|i: int|
        0 <= i < s.len() ==> same_letter(#[trigger] s[i], name[i])
}

/// No small letters, and ASCII characters only.
pub open spec fn is_plain(name: Seq<char>) -> bool {
    forall|i: int|
        0 <= i < name.len() ==> (#[trigger] name[i]) as u32 <= 0x7f && !('a' <= name[i] <= 'z')
}

/// In capitals, all spellings of a name are the name.
pub proof fn law_capitals(s: Seq<char>, name: Seq<char>)
    requires
        is_plain(name),
    ensures
        spelled(s, name) ==> letters::capitals(s) == name,
        letters::all_ascii(s) && letters::capitals(s) == name ==> spelled(s, name),
{
    if spelled(s, name) {
        assert forall|i: int| 0 <= i < s.len() implies (#[trigger] s[i]) as u32 <= 0x7f by {
            assert(same_letter(s[i], name[i]));
            assert(name[i] as u32 <= 0x7f);
        }
        assert forall|i: int| 0 <= i < s.len() implies letters::ascii_upper(#[trigger] s[i])
            == name[i] by {
            assert(same_letter(s[i], name[i]));
            assert(!('a' <= name[i] <= 'z'));
        }
        assert(letters::capitals(s) =~= name);
    }
    if letters::all_ascii(s) && letters::capitals(s) == name {
        assert forall|i: int| 0 <= i < s.len() implies same_letter(#[trigger] s[i], name[i]) by {
            assert(letters::capitals(s)[i] == letters::ascii_upper(s[i]));
        }
    }
}

/// The text is one of the two names of the level `D`.
pub open spec fn says_debug(s: Seq<char>) -> bool {
    spelled(s, "DEBUG"@) || spelled(s, "D"@)
}

/// The text is one of the two names of the level `I`.
pub open spec fn says_info(s: Seq<char>) -> bool {
    spelled(s, "INFO"@) || spelled(s, "I"@)
}

/// The text is one of the three names of the level `W`.
pub open spec fn says_warning(s: Seq<char>) -> bool {
    spelled(s, "WARN"@) || spelled(s, "W"@) || spelled(s, "WARNING"@)
}

/// The text is one of the three names of the level `E`.
pub open spec fn says_error(s: Seq<char>) -> bool {
    spelled(s, "ERROR"@) || spelled(s, "E"@) || spelled(s, "ERR"@)
}

/// The text is a name of the level. A level that is none of `D`, `W` and `E`
/// counts as `I`.
pub open spec fn says_level(s: Seq<char>, level: Seq<char>) -> bool {
    if level == "D"@ {
        says_debug(s)
    } else if level == "W"@ {
        says_warning(s)
    } else if level == "E"@ {
        says_error(s)
    } else {
        says_info(s)
    }
}

proof fn lemma_names()
    ensures
        is_plain("DEBUG"@),
        is_plain("D"@),
        is_plain("INFO"@),
        is_plain("I"@),
        is_plain("WARN"@),
        is_plain("W"@),
        is_plain("WARNING"@),
        is_plain("ERROR"@),
        is_plain("E"@),
        is_plain("ERR"@),
        is_plain("FATAL"@),
        is_plain("CRITICAL"@),
        "DEBUG"@.len() == 5 && "DEBUG"@[0] == 'D',
        "D"@ == seq!['D'],
        "INFO"@.len() == 4 && "INFO"@[0] == 'I',
        "I"@ == seq!['I'],
        "WARN"@.len() == 4 && "WARN"@[0] == 'W',
        "W"@ == seq!['W'],
        "WARNING"@.len() == 7 && "WARNING"@[0] == 'W',
        "ERROR"@.len() == 5 && "ERROR"@[0] == 'E',
        "E"@ == seq!['E'],
        "ERR"@.len() == 3 && "ERR"@[0] == 'E',
        "FATAL"@.len() == 5 && "FATAL"@[0] == 'F',
        "CRITICAL"@.len() == 8 && "CRITICAL"@[0] == 'C',
{
    reveal_strlit("DEBUG");
    reveal_strlit("D");
    reveal_strlit("INFO");
    reveal_strlit("I");
    reveal_strlit("WARN");
    reveal_strlit("W");
    reveal_strlit("WARNING");
    reveal_strlit("ERROR");
    reveal_strlit("E");
    reveal_strlit("ERR");
    reveal_strlit("FATAL");
    reveal_strlit("CRITICAL");
    assert("D"@ =~= seq!['D']);
    assert("I"@ =~= seq!['I']);
    assert("W"@ =~= seq!['W']);
    assert("E"@ =~= seq!['E']);
}

proof fn lemma_spellings(s: Seq<char>)
    ensures
        spelled(s, "DEBUG"@) ==> letters::capitals(s) == "DEBUG"@,
        spelled(s, "D"@) ==> letters::capitals(s) == "D"@,
        spelled(s, "INFO"@) ==> letters::capitals(s) == "INFO"@,
        spelled(s, "I"@) ==> letters::capitals(s) == "I"@,
        spelled(s, "WARN"@) ==> letters::capitals(s) == "WARN"@,
        spelled(s, "W"@) ==> letters::capitals(s) == "W"@,
        spelled(s, "WARNING"@) ==> letters::capitals(s) == "WARNING"@,
        spelled(s, "ERROR"@) ==> letters::capitals(s) == "ERROR"@,
        spelled(s, "E"@) ==> letters::capitals(s) == "E"@,
        spelled(s, "ERR"@) ==> letters::capitals(s) == "ERR"@,
        spelled(s, "FATAL"@) ==> letters::capitals(s) == "FATAL"@,
        spelled(s, "CRITICAL"@) ==> letters::capitals(s) == "CRITICAL"@,
        letters::all_ascii(s) ==> {
            &&& letters::capitals(s) == "DEBUG"@ ==> spelled(s, "DEBUG"@)
            &&& letters::capitals(s) == "D"@ ==> spelled(s, "D"@)
            &&& letters::capitals(s) == "INFO"@ ==> spelled(s, "INFO"@)
            &&& letters::capitals(s) == "I"@ ==> spelled(s, "I"@)
            &&& letters::capitals(s) == "WARN"@ ==> spelled(s, "WARN"@)
            &&& letters::capitals(s) == "W"@ ==> spelled(s, "W"@)
            &&& letters::capitals(s) == "WARNING"@ ==> spelled(s, "WARNING"@)
            &&& letters::capitals(s) == "ERROR"@ ==> spelled(s, "ERROR"@)
            &&& letters::capitals(s) == "E"@ ==> spelled(s, "E"@)
            &&& letters::capitals(s) == "ERR"@ ==> spelled(s, "ERR"@)
            &&& letters::capitals(s) == "FATAL"@ ==> spelled(s, "FATAL"@)
            &&& letters::capitals(s) == "CRITICAL"@ ==> spelled(s, "CRITICAL"@)
        },
{
    lemma_names();
    law_capitals(s, "DEBUG"@);
    law_capitals(s, "D"@);
    law_capitals(s, "INFO"@);
    law_capitals(s, "I"@);
    law_capitals(s, "WARN"@);
    law_capitals(s, "W"@);
    law_capitals(s, "WARNING"@);
    law_capitals(s, "ERROR"@);
    law_capitals(s, "E"@);
    law_capitals(s, "ERR"@);
    law_capitals(s, "FATAL"@);
    law_capitals(s, "CRITICAL"@);
}

// ---------- asking the index ----------

proof fn lemma_named(keyword: Seq<char>, level: Seq<char>)
    requires
        says_level(keyword, level),
    ensures
        index::level_named(letters::capitals(keyword)) == Some(chunk_text::level_code(level)),
{
    lemma_names();
    lemma_spellings(keyword);
    assert(seq!['D'][0] == 'D' && seq!['I'][0] == 'I' && seq!['W'][0] == 'W' && seq!['E'][0]
        == 'E');
    assert(seq!['D'].len() == 1 && seq!['I'].len() == 1 && seq!['W'].len() == 1 && seq!['E'].len()
        == 1);
    let upper: Seq<char> = letters::capitals(keyword);
    assert(upper.len() > 0);
    assert(level == "D"@ ==> chunk::level_bit(level) == Some(0u8));
    assert(level == "W"@ ==> chunk::level_bit(level) == Some(2u8));
    assert(level == "E"@ ==> chunk::level_bit(level) == Some(3u8));
}

/// Where a segment holds a line of the times asked for, the index says that each
/// name of its level may exist there: `DEBUG` and `D`, `INFO` and `I`, `WARN`,
/// `W` and `WARNING`, `ERROR`, `E` and `ERR`, in small or capital letters.
pub proof fn law_level_exists(
    s: Seq<MetaView>,
    map: KeywordView,
    held: Map<u32, Seq<LogView>>,
    start: u64,
    end: u64,
    keyword: Seq<char>,
    n: int,
    i: int,
)
    requires
        index_truth::tells_all(s, map, held),
        0 <= n < s.len(),
        0 <= i < held[s[n].id].len(),
        start <= held[s[n].id][i].ts <= end,
        ({
            let level: Seq<char> = held[s[n].id][i].level;
            ||| level == "D"@ && (spelled(keyword, "DEBUG"@) || spelled(keyword, "D"@))
            ||| level == "I"@ && (spelled(keyword, "INFO"@) || spelled(keyword, "I"@))
            ||| level == "W"@ && (spelled(keyword, "WARN"@) || spelled(keyword, "W"@) || spelled(
                keyword,
                "WARNING"@,
            ))
            ||| level == "E"@ && (spelled(keyword, "ERROR"@) || spelled(keyword, "E"@) || spelled(
                keyword,
                "ERR"@,
            ))
        }),
    ensures
        index::some_may_hold(s, map, start, end, keyword, letters::capitals(keyword)),
{
    let l: LogView = held[s[n].id][i];
    let upper: Seq<char> = letters::capitals(keyword);
    let q: QueryView = QueryView { start, end, keyword };
    lemma_names();
    assert(seq!['D'][0] == 'D' && seq!['I'][0] == 'I' && seq!['W'][0] == 'W' && seq!['E'][0]
        == 'E');
    assert(says_level(keyword, l.level));
    lemma_named(keyword, l.level);
    if !index::some_may_hold(s, map, start, end, keyword, upper) {
        index_truth::lemma_none_hits(s, map, held, q, upper);
        assert(!index_truth::line_hits(held[s[n].id][i], q, upper));
    }
}

proof fn lemma_counted_sum(
    s: Seq<MetaView>,
    map: KeywordView,
    start: u64,
    end: u64,
    keyword: Seq<char>,
    upper: Seq<char>,
    k: int,
    n: nat,
)
    requires
        0 <= k < n <= s.len(),
        index::lies_within(s[k], start, end),
    ensures
        index::counted_sum(s, map, start, end, keyword, upper, n) >= index::counted(
            s[k],
            map,
            keyword,
            upper,
        ),
    decreases n,
{
    if k < n - 1 {
        lemma_counted_sum(s, map, start, end, keyword, upper, k, (n - 1) as nat);
    }
}

/// Where a segment with a summary lies within the times asked for and holds a
/// line of a level, the index counts at least one line for each name of the
/// level.
pub proof fn law_level_counted(
    s: Seq<MetaView>,
    map: KeywordView,
    held: Map<u32, Seq<LogView>>,
    start: u64,
    end: u64,
    keyword: Seq<char>,
    n: int,
    i: int,
)
    requires
        index_truth::tells_all(s, map, held),
        0 <= n < s.len(),
        s[n].summary.flags & 1 != 0,
        start <= s[n].min_ts,
        s[n].max_ts <= end,
        0 <= i < held[s[n].id].len(),
        ({
            let level: Seq<char> = held[s[n].id][i].level;
            ||| level == "D"@ && (spelled(keyword, "DEBUG"@) || spelled(keyword, "D"@))
            ||| level == "I"@ && (spelled(keyword, "INFO"@) || spelled(keyword, "I"@))
            ||| level == "W"@ && (spelled(keyword, "WARN"@) || spelled(keyword, "W"@) || spelled(
                keyword,
                "WARNING"@,
            ))
            ||| level == "E"@ && (spelled(keyword, "ERROR"@) || spelled(keyword, "E"@) || spelled(
                keyword,
                "ERR"@,
            ))
        }),
    ensures
        index::counted_sum(
            s,
            map,
            start,
            end,
            keyword,
            letters::capitals(keyword),
            s.len(),
        ) >= 1,
{
    let m: MetaView = s[n];
    let logs: Seq<LogView> = held[m.id];
    let upper: Seq<char> = letters::capitals(keyword);
    assert(index_truth::tells(m, map, logs));
    assert(m.min_ts <= logs[i].ts <= m.max_ts);
    lemma_names();
    assert(seq!['D'][0] == 'D' && seq!['I'][0] == 'I' && seq!['W'][0] == 'W' && seq!['E'][0]
        == 'E');
    assert(says_level(keyword, logs[i].level));
    lemma_named(keyword, logs[i].level);
    let k: u8 = chunk_text::level_code(logs[i].level);
    assert(k < 4);
    assert(segment_plan::uses_level(logs, k));
    assert(segment_plan::level_set(m.summary.level_mask, k));
    assert(index::holds_level(m, upper));
    assert(index::lies_within(m, start, end));
    assert(index::counted(m, map, keyword, upper) >= 1);
    lemma_counted_sum(s, map, start, end, keyword, upper, n, s.len());
}

/// The index holds a keyword of ASCII characters for the name of a level only
/// where it is one of the names, and sees the level in a segment only where the
/// segment holds a line of it.
pub proof fn law_level_denied(
    m: MetaView,
    map: KeywordView,
    logs: Seq<LogView>,
    keyword: Seq<char>,
)
    requires
        index_truth::tells(m, map, logs),
        m.summary.flags & 1 != 0,
        letters::all_ascii(keyword),
        forall|i: int|
            0 <= i < logs.len() ==> !says_level(keyword, (#[trigger] logs[i]).level),
    ensures
        !index::holds_level(m, letters::capitals(keyword)),
{
    let upper: Seq<char> = letters::capitals(keyword);
    lemma_names();
    lemma_spellings(keyword);
    if index::holds_level(m, upper) {
        let k: u8 = index::level_named(upper)->0;
        assert(segment_plan::level_set(m.summary.level_mask, k));
        assert(segment_plan::uses_level(logs, k));
        let i: int = choose|i: int|
            0 <= i < logs.len() && chunk_text::level_code((#[trigger] logs[i]).level) == k;
        let level: Seq<char> = logs[i].level;
        assert(seq!['D'][0] == 'D' && seq!['I'][0] == 'I' && seq!['W'][0] == 'W' && seq!['E'][0]
            == 'E');
        assert(k == 0 <==> level == "D"@);
        assert(k == 2 <==> level == "W"@);
        assert(k == 3 <==> level == "E"@);
        assert(says_level(keyword, level));
    }
}

// ---------- normalizing ----------

/// The level is one of the four letters.
pub open spec fn is_letter(level: Seq<char>) -> bool {
    level == "D"@ || level == "I"@ || level == "W"@ || level == "E"@
}

/// The names that levels have in the lines that come in: in small or capital
/// letters `DEBUG` and `D` stand for `D`, `WARN`, `WARNING` and `W` for `W`,
/// `ERROR`, `ERR`, `E`, `FATAL` and `CRITICAL` for `E`, and all else of ASCII
/// characters for `I`.
pub proof fn law_level_names(s: Seq<char>)
    ensures
        spelled(s, "DEBUG"@) || spelled(s, "D"@) ==> collector::normal_level(letters::capitals(s))
            == "D"@,
        spelled(s, "WARN"@) || spelled(s, "WARNING"@) || spelled(s, "W"@)
            ==> collector::normal_level(letters::capitals(s)) == "W"@,
        spelled(s, "ERROR"@) || spelled(s, "ERR"@) || spelled(s, "E"@) || spelled(s, "FATAL"@)
            || spelled(s, "CRITICAL"@) ==> collector::normal_level(letters::capitals(s)) == "E"@,
        spelled(s, "INFO"@) || spelled(s, "I"@) ==> collector::normal_level(letters::capitals(s))
            == "I"@,
        letters::all_ascii(s) && !says_debug(s) && !says_warning(s) && !says_error(s) && !spelled(
            s,
            "FATAL"@,
        ) && !spelled(s, "CRITICAL"@) ==> collector::normal_level(letters::capitals(s)) == "I"@,
{
    lemma_names();
    lemma_spellings(s);
    assert(seq!['D'][0] == 'D' && seq!['I'][0] == 'I' && seq!['W'][0] == 'W' && seq!['E'][0]
        == 'E');
    assert(seq!['D'].len() == 1 && seq!['I'].len() == 1 && seq!['W'].len() == 1 && seq!['E'].len()
        == 1);
}

/// Normalizing gives one of the four letters, and leaves the four letters as
/// they are.
pub proof fn law_letters_kept(s: Seq<char>)
    ensures
        is_letter(collector::normal_level(letters::capitals(s))),
        s == "D"@ ==> collector::normal_level(letters::capitals(s)) == "D"@,
        s == "I"@ ==> collector::normal_level(letters::capitals(s)) == "I"@,
        s == "W"@ ==> collector::normal_level(letters::capitals(s)) == "W"@,
        s == "E"@ ==> collector::normal_level(letters::capitals(s)) == "E"@,
        ({
            let once: Seq<char> = collector::normal_level(letters::capitals(s));
            collector::normal_level(letters::capitals(once)) == once
        }),
{
    let once: Seq<char> = collector::normal_level(letters::capitals(s));
    law_level_names(s);
    law_level_names(once);
    assert(s == "D"@ ==> spelled(s, "D"@));
    assert(s == "I"@ ==> spelled(s, "I"@));
    assert(s == "W"@ ==> spelled(s, "W"@));
    assert(s == "E"@ ==> spelled(s, "E"@));
    assert(once == "D"@ ==> spelled(once, "D"@));
    assert(once == "I"@ ==> spelled(once, "I"@));
    assert(once == "W"@ ==> spelled(once, "W"@));
    assert(once == "E"@ ==> spelled(once, "E"@));
}

/// A log line whose level is one of the four letters is what the fields of its
/// own JSON object give, level included.
pub proof fn law_own_fields_kept(l: LogView, service: Seq<char>, line: Seq<char>, now: u64)
    requires
        l.level == "D"@ || l.level == "I"@ || l.level == "W"@ || l.level == "E"@,
    ensures
        collector::fields_line(json::line_fields(l), service, line, now) == l,
{
    collector::law_own_fields(l, service, line, now);
    law_letters_kept(l.level);
}

} // verus!
