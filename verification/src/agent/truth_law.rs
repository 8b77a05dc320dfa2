//! The entries of the index tell the truth, from the first segment on and after
//! the index was opened again.

use crate::agent::index;
use crate::agent::index::{Index, MetaView};
use crate::agent::index_law;
use crate::agent::index_open;
use crate::agent::index_open::FileView;
use crate::agent::index_scan;
use crate::agent::index_scan::ScannedSegment;
use crate::agent::index_truth;
use crate::agent::keywords;
use crate::agent::keywords::{Finding, KeywordView};
use crate::agent::manifest_file;
use crate::agent::parts::PartView;
use crate::agent::rescan_law;
use crate::agent::segment_query::QueryView;
use crate::agent::storage;
use crate::agent::storage::{StorageEngine, WrittenSegment};
use crate::agent::storage_config::StorageConfig;
use crate::agent::storage_law;
use crate::shared::bytes;
use crate::shared::error::DataError;
use crate::shared::header;
use crate::shared::log;
use crate::shared::log::LogView;
use crate::shared::names;
use crate::shared::summary;
use crate::shared::summary::SegmentSummary;
use vstd::prelude::*;

verus! {

/// The segment files hold the templates that the keyword map knows.
pub open spec fn files_agree(fs: Seq<FileView>, s: Seq<MetaView>, map: KeywordView) -> bool {
    forall|i: int|
        0 <= i < s.len() ==> file_agrees(
            index_open::file_named(fs, names::segment_file_name((#[trigger] s[i]).id as nat)),
            s[i].id,
            map,
        )
}

/// The file of a segment holds the templates that the keyword map knows, or it
/// is not there.
pub open spec fn file_agrees(file: Option<Seq<u8>>, id: u32, map: KeywordView) -> bool {
    match file {
        Some(d) => map.tables.contains_key(id) && index_scan::has_table(id, d, map.tables[id]),
        None => true,
    }
}

proof fn lemma_tells_elsewhere(
    m: MetaView,
    map: KeywordView,
    more: KeywordView,
    logs: Seq<LogView>,
)
    requires
        index_truth::tells(m, map, logs),
        more.tables.contains_key(m.id) ==> map.tables.contains_key(m.id) && more.tables[m.id]
            == map.tables[m.id],
    ensures
        index_truth::tells(m, more, logs),
{
}

/// What noting a written segment does to the index.
proof fn lemma_noted_meta(
    before: StorageEngine,
    now: StorageEngine,
    created_at: u64,
    w: WrittenSegment,
) -> (r: (MetaView, Seq<Seq<PartView>>))
    requires
        before.buffer@.len() > 0,
        storage::flushes(before, now, created_at, Ok(Some(w))),
        index_law::is_tellable(before.config, log::log_views(before.buffer@), w.data@),
    ensures
        r.0.id == w.id == before.index.next_id,
        w.name@ == names::segment_file_name(w.id as nat),
        now.index.next_id == before.index.next_id + 1,
        index::metas(now.index.segments@) == index::placed(
            index::metas(before.index.segments@),
            r.0,
        ),
        index_scan::has_table(w.id, w.data@, r.1),
        now.index.keyword_to_patterns@ == keywords::noted(
            before.index.keyword_to_patterns@,
            (Finding { segment: w.id, templates: r.1 }),
        ),
        index_truth::tells(
            r.0,
            now.index.keyword_to_patterns@,
            log::log_views(before.buffer@),
        ),
{
    let logs: Seq<LogView> = log::log_views(before.buffer@);
    reveal(storage::is_noted);
    let (summary, original, compressed) = choose|
        summary: SegmentSummary,
        original: u64,
        compressed: u64,
    |
        {
            &&& #[trigger] storage::is_written(
                before.config,
                logs,
                w.id,
                created_at,
                w.data@,
                summary,
                original,
                compressed,
            )
            &&& index::metas(now.index.segments@) == index::placed(
                index::metas(before.index.segments@),
                storage::meta_of(before.index.data_dir@, w.id, logs, summary),
            )
        };
    index_law::law_written_tells(
        before.config,
        logs,
        before.index.data_dir@,
        w.id,
        created_at,
        w.data@,
        summary,
        original,
        compressed,
        before.index.keyword_to_patterns@,
    );
    let ts = choose|ts: Seq<Seq<PartView>>| #[trigger] index_scan::has_table(w.id, w.data@, ts);
    keywords::lemma_one_noted(
        before.index.keyword_to_patterns@,
        Finding { segment: w.id, templates: ts },
    );
    (storage::meta_of(before.index.data_dir@, w.id, logs, summary), ts)
}

proof fn lemma_flush_tells(
    before: StorageEngine,
    now: StorageEngine,
    created_at: u64,
    w: WrittenSegment,
    held: Map<u32, Seq<LogView>>,
)
    requires
        before.buffer@.len() > 0,
        storage::flushes(before, now, created_at, Ok(Some(w))),
        index_law::ids_below(index::metas(before.index.segments@), before.index.next_id),
        index_truth::tells_all(
            index::metas(before.index.segments@),
            before.index.keyword_to_patterns@,
            held,
        ),
        index_law::is_tellable(before.config, log::log_views(before.buffer@), w.data@),
    ensures
        w.id == before.index.next_id,
        index_truth::tells_all(
            index::metas(now.index.segments@),
            now.index.keyword_to_patterns@,
            held.insert(w.id, log::log_views(before.buffer@)),
        ),
        now.index.keyword_to_patterns@.words == before.index.keyword_to_patterns@.words,
        index_law::ids_below(index::metas(now.index.segments@), now.index.next_id),
{
    let logs: Seq<LogView> = log::log_views(before.buffer@);
    let old_metas: Seq<MetaView> = index::metas(before.index.segments@);
    let metas: Seq<MetaView> = index::metas(now.index.segments@);
    let map: KeywordView = before.index.keyword_to_patterns@;
    let more: KeywordView = now.index.keyword_to_patterns@;
    let (meta, ts) = lemma_noted_meta(before, now, created_at, w);
    assert forall|i: int| 0 <= i < metas.len() implies index_truth::tells(
        #[trigger] metas[i],
        more,
        held.insert(w.id, logs)[metas[i].id],
    ) by {
        index_law::lemma_placed_contains(old_metas, meta, i);
        if metas[i] != meta {
            let j: int = choose|j: int| 0 <= j < old_metas.len() && old_metas[j] == metas[i];
            assert(old_metas[j].id < before.index.next_id);
            assert(index_truth::tells(old_metas[j], map, held[old_metas[j].id]));
            lemma_tells_elsewhere(metas[i], map, more, held[metas[i].id]);
        }
    }
    index_law::law_ids_stay_below(old_metas, meta, before.index.next_id);
}

/// The index never lies of what the engine wrote: after a segment was written,
/// every entry tells the truth of its segment, if every entry did before; and
/// the files hold the templates that the keyword map knows, if they did before.
pub proof fn law_flush_tells(
    before: StorageEngine,
    now: StorageEngine,
    created_at: u64,
    w: WrittenSegment,
    fs: Seq<FileView>,
    held: Map<u32, Seq<LogView>>,
)
    requires
        before.buffer@.len() > 0,
        storage::flushes(before, now, created_at, Ok(Some(w))),
        index_law::ids_below(index::metas(before.index.segments@), before.index.next_id),
        index_truth::tells_all(
            index::metas(before.index.segments@),
            before.index.keyword_to_patterns@,
            held,
        ),
        files_agree(fs, index::metas(before.index.segments@), before.index.keyword_to_patterns@),
        index_open::file_named(fs, w.name@) is None,
        index_law::is_tellable(before.config, log::log_views(before.buffer@), w.data@),
    ensures
        index_truth::tells_all(
            index::metas(now.index.segments@),
            now.index.keyword_to_patterns@,
            held.insert(w.id, log::log_views(before.buffer@)),
        ),
        files_agree(
            fs.push((FileView { name: w.name@, data: w.data@ })),
            index::metas(now.index.segments@),
            now.index.keyword_to_patterns@,
        ),
        now.index.keyword_to_patterns@.words == before.index.keyword_to_patterns@.words,
        index_law::ids_below(index::metas(now.index.segments@), now.index.next_id),
{
    let old_metas: Seq<MetaView> = index::metas(before.index.segments@);
    let metas: Seq<MetaView> = index::metas(now.index.segments@);
    let more: KeywordView = now.index.keyword_to_patterns@;
    let f: FileView = FileView { name: w.name@, data: w.data@ };
    let (meta, ts) = lemma_noted_meta(before, now, created_at, w);
    lemma_flush_tells(before, now, created_at, w, held);
    assert forall|i: int| 0 <= i < metas.len() implies file_agrees(
        index_open::file_named(
            fs.push(f),
            names::segment_file_name((#[trigger] metas[i]).id as nat),
        ),
        metas[i].id,
        more,
    ) by {
        let name: Seq<char> = names::segment_file_name(metas[i].id as nat);
        index_law::lemma_placed_contains(old_metas, meta, i);
        storage_law::lemma_file_added(fs, f, name);
        if metas[i] != meta {
            let j: int = choose|j: int| 0 <= j < old_metas.len() && old_metas[j] == metas[i];
            assert(old_metas[j].id < before.index.next_id);
            storage_law::lemma_names_differ(metas[i].id, w.id);
        }
    }
}

// ---------- opening again ----------

proof fn lemma_same_summary(a: SegmentSummary, b: SegmentSummary)
    requires
        summary::segment_summary_bytes(a) == summary::segment_summary_bytes(b),
    ensures
        a.pattern_mask == b.pattern_mask,
        a.level_mask == b.level_mask,
        a.flags == b.flags,
{
    let x: Seq<u8> = summary::segment_summary_bytes(a);
    let y: Seq<u8> = summary::segment_summary_bytes(b);
    bytes::lemma_pow256();
    bytes::lemma_le_bytes_len(a.pattern_mask as nat, 8);
    bytes::lemma_le_bytes_len(b.pattern_mask as nat, 8);
    bytes::lemma_le_value_of_bytes(a.pattern_mask as nat, 8);
    bytes::lemma_le_value_of_bytes(b.pattern_mask as nat, 8);
    assert(x.subrange(0, 8) =~= bytes::le_bytes(a.pattern_mask as nat, 8));
    assert(y.subrange(0, 8) =~= bytes::le_bytes(b.pattern_mask as nat, 8));
    assert(x[8] == a.level_mask && x[9] == a.flags);
    assert(y[8] == b.level_mask && y[9] == b.flags);
}

/// An entry that says the same of its segment tells the truth as well.
proof fn lemma_tells_same(
    a: MetaView,
    b: MetaView,
    map: KeywordView,
    more: KeywordView,
    logs: Seq<LogView>,
)
    requires
        index_truth::tells(a, map, logs),
        index_law::same_segment(b, a),
        more.tables.contains_key(a.id) ==> map.tables.contains_key(a.id) && more.tables[a.id]
            == map.tables[a.id],
    ensures
        index_truth::tells(b, more, logs),
{
    lemma_same_summary(b.summary, a.summary);
    if index::summarized(a) && more.tables.contains_key(a.id) {
        let ts: Seq<Seq<PartView>> = map.tables[a.id];
        let pats = choose|pats: Seq<int>| #[trigger]
            index_truth::templates_tell(a, ts, pats, logs);
        assert(index_truth::templates_tell(b, ts, pats, logs));
    }
}

proof fn lemma_loaded_tables(fs: Seq<FileView>, s: Seq<MetaView>, map: KeywordView, n: nat, id: u32)
    requires
        n <= s.len(),
        files_agree(fs, s, map),
    ensures
        ({
            let found: KeywordView = keywords::all_noted(
                keywords::nothing_known(),
                index_open::metas_words(fs, s, n),
            );
            &&& found.words == Map::<Seq<char>, Seq<u16>>::empty()
            &&& found.tables.contains_key(id) ==> map.tables.contains_key(id) && found.tables[id]
                == map.tables[id]
        }),
    decreases n,
{
    if n > 0 {
        let m: MetaView = s[n - 1];
        let front: Seq<Finding> = index_open::metas_words(fs, s, (n - 1) as nat);
        let known: KeywordView = keywords::all_noted(keywords::nothing_known(), front);
        let words: Seq<Finding> = index_open::meta_words(fs, m);
        lemma_loaded_tables(fs, s, map, (n - 1) as nat, id);
        keywords::lemma_all_noted_concat(keywords::nothing_known(), front, words);
        let file: Option<Seq<u8>> = index_open::file_named(
            fs,
            names::segment_file_name(m.id as nat),
        );
        assert(file_agrees(file, m.id, map));
        if index::summarized(m) && file is Some {
            keywords::lemma_one_noted(
                known,
                Finding { segment: m.id, templates: map.tables[m.id] },
            );
        } else {
            assert(words =~= Seq::<Finding>::empty());
        }
    }
}

/// An index that is opened again from the manifest that it saved tells the truth
/// of the same lines, and its keyword map holds nothing but the templates of the
/// segment files.
pub proof fn law_reopen_tells(
    dir: Seq<char>,
    manifest: &[u8],
    fs: Seq<FileView>,
    s: Seq<MetaView>,
    map: KeywordView,
    held: Map<u32, Seq<LogView>>,
    idx: Index,
)
    requires
        index::by_id(s),
        s.len() <= u64::MAX,
        manifest@ == index::saved_bytes(s),
        index_truth::tells_all(s, map, held),
        files_agree(fs, s, map),
        index_open::opens_as(dir, Some(manifest), fs, idx),
    ensures
        index_truth::tells_all(index::metas(idx.segments@), idx.keyword_to_patterns@, held),
        files_agree(fs, index::metas(idx.segments@), map),
        idx.keyword_to_patterns@.words == Map::<Seq<char>, Seq<u16>>::empty(),
{
    let t: Seq<MetaView> = index::metas(idx.segments@);
    let found: KeywordView = idx.keyword_to_patterns@;
    assert(index_open::manifest_readable(Some(manifest))) by {
        assert forall|e: DataError| !#[trigger]
            manifest_file::manifest_error(manifest@, e) by {
            index_law::law_saved_readable(s, e);
        }
    }
    let ms = choose|ms: Seq<MetaView>|
        {
            &&& #[trigger] index_open::is_source(dir, Some(manifest), fs, ms)
            &&& t == index::all_placed(ms)
            &&& idx.next_id == index::next_after(1, ms)
        };
    index_law::lemma_all_placed_len(ms);
    assert(idx.segments@.len() == idx.segments.len());
    index_law::law_reload(s, ms);
    assert(files_agree(fs, t, map)) by {
        assert forall|i: int| 0 <= i < t.len() implies file_agrees(
            index_open::file_named(fs, names::segment_file_name((#[trigger] t[i]).id as nat)),
            t[i].id,
            map,
        ) by {
            assert(index_law::same_segment(ms[i], s[i]));
        }
    }
    assert forall|i: int| 0 <= i < t.len() implies index_truth::tells(
        #[trigger] t[i],
        found,
        held[t[i].id],
    ) by {
        assert(index_law::same_segment(ms[i], s[i]));
        lemma_loaded_tables(fs, t, map, t.len(), t[i].id);
        assert(index_truth::tells(s[i], map, held[s[i].id]));
        lemma_tells_same(s[i], t[i], map, found, held[s[i].id]);
    }
    lemma_loaded_tables(fs, t, map, t.len(), 0);
}

/// Scanning the file of a written segment gives an entry that tells the truth of
/// its lines.
pub proof fn law_rescan_tells(
    config: StorageConfig,
    logs: Seq<LogView>,
    dir: Seq<char>,
    name: Seq<char>,
    id: u32,
    created_at: u64,
    data: Seq<u8>,
    summary: SegmentSummary,
    original: u64,
    compressed: u64,
    map: KeywordView,
    found: ScannedSegment,
)
    requires
        storage::is_written(
            config,
            logs,
            id,
            created_at,
            data,
            summary,
            original,
            compressed,
        ),
        index_law::is_tellable(config, logs, data),
        index_scan::scans_to(data, found),
    ensures
        index_truth::tells(
            index_open::scanned_meta(dir, name, found),
            keywords::all_noted(map, index_scan::scanned_words(data)),
            logs,
        ),
{
    let meta: MetaView = storage::meta_of(dir, id, logs, summary);
    let more: KeywordView = keywords::all_noted(map, index_scan::segment_words(id, data));
    rescan_law::law_rescan(
        config,
        logs,
        dir,
        name,
        id,
        created_at,
        data,
        summary,
        original,
        compressed,
    );
    index_law::law_written_tells(
        config,
        logs,
        dir,
        id,
        created_at,
        data,
        summary,
        original,
        compressed,
        map,
    );
    let ts = choose|ts: Seq<Seq<PartView>>| #[trigger] index_scan::has_table(id, data, ts);
    assert(index_law::same_segment(index_open::scanned_meta(dir, name, found), meta));
    assert(header::header_at(data).segment_id == id);
    assert(index_scan::segment_words(id, data).len() == 1);
    assert(index_scan::scanned_words(data) =~= index_scan::segment_words(id, data));
    lemma_tells_same(meta, index_open::scanned_meta(dir, name, found), more, more, logs);
}

// ---------- a whole run ----------

/// Nothing happened to the entries of the index.
pub open spec fn rests(before: StorageEngine, now: StorageEngine) -> bool {
    &&& now.index.segments == before.index.segments
    &&& now.index.keyword_to_patterns == before.index.keyword_to_patterns
    &&& before.index.next_id <= now.index.next_id
}

/// A segment was made of the buffered lines, and its counts and lengths fit.
pub open spec fn writes(before: StorageEngine, now: StorageEngine) -> bool {
    before.buffer@.len() > 0 && exists|created_at: u64, w: WrittenSegment| #[trigger]
        storage::flushes(before, now, created_at, Ok(Some(w))) && index_law::is_tellable(
            before.config,
            log::log_views(before.buffer@),
            w.data@,
        )
}

/// The lines of the segments that were made in the first `n` steps, by the
/// numbers of the segments.
pub open spec fn written_lines(states: Seq<StorageEngine>, n: nat) -> Map<u32, Seq<LogView>>
    decreases n,
{
    if n == 0 {
        Map::empty()
    } else if rests(states[n - 1], states[n as int]) {
        written_lines(states, (n - 1) as nat)
    } else {
        written_lines(states, (n - 1) as nat).insert(
            states[n - 1].index.next_id,
            log::log_views(states[n - 1].buffer@),
        )
    }
}

/// Each state follows from the one before: the index rests, or a segment is made
/// of the buffered lines.
pub open spec fn is_run(states: Seq<StorageEngine>) -> bool {
    &&& states.len() > 0
    &&& states[0].index.segments@.len() == 0
    &&& states[0].index.keyword_to_patterns@ == keywords::nothing_known()
    &&& forall|i: int|
        0 < i < states.len() ==> rests(states[i - 1], #[trigger] states[i]) || writes(
            states[i - 1],
            states[i],
        )
}

proof fn lemma_run_tells(states: Seq<StorageEngine>, n: nat)
    requires
        is_run(states),
        n < states.len(),
    ensures
        index_truth::tells_all(
            index::metas(states[n as int].index.segments@),
            states[n as int].index.keyword_to_patterns@,
            written_lines(states, n),
        ),
        states[n as int].index.keyword_to_patterns@.words == Map::<Seq<char>, Seq<u16>>::empty(),
        index_law::ids_below(
            index::metas(states[n as int].index.segments@),
            states[n as int].index.next_id,
        ),
    decreases n,
{
    if n > 0 {
        let a: StorageEngine = states[n - 1];
        let b: StorageEngine = states[n as int];
        let held: Map<u32, Seq<LogView>> = written_lines(states, (n - 1) as nat);
        lemma_run_tells(states, (n - 1) as nat);
        assert(rests(a, b) || writes(a, b));
        if rests(a, b) {
            let s: Seq<MetaView> = index::metas(a.index.segments@);
            assert forall|i: int| 0 <= i < s.len() implies (#[trigger] s[i]).id
                < b.index.next_id by {
                assert(s[i].id < a.index.next_id);
            }
        } else {
            let (created_at, w) = choose|created_at: u64, w: WrittenSegment| #[trigger]
                storage::flushes(a, b, created_at, Ok(Some(w))) && index_law::is_tellable(
                    a.config,
                    log::log_views(a.buffer@),
                    w.data@,
                );
            lemma_flush_tells(a, b, created_at, w, held);
        }
    }
}

/// What the index says of all lines that an engine has made segments of: where
/// it denies a keyword, no such line of those times holds the keyword or has the
/// level that it names; and its count is at most the number of such lines.
pub proof fn law_index_certain(states: Seq<StorageEngine>, q: QueryView, upper: Seq<char>)
    requires
        is_run(states),
    ensures
        ({
            let s: Seq<MetaView> = index::metas(states.last().index.segments@);
            let map: KeywordView = states.last().index.keyword_to_patterns@;
            let held: Map<u32, Seq<LogView>> = written_lines(states, (states.len() - 1) as nat);
            &&& !index::some_may_hold(s, map, q.start, q.end, q.keyword, upper)
                ==> index_truth::none_hits(s, held, q, upper)
            &&& index::counted_sum(s, map, q.start, q.end, q.keyword, upper, s.len())
                <= index_truth::hits_sum(s, held, q, upper, s.len())
        }),
{
    let n: nat = (states.len() - 1) as nat;
    let s: Seq<MetaView> = index::metas(states.last().index.segments@);
    let map: KeywordView = states.last().index.keyword_to_patterns@;
    let held: Map<u32, Seq<LogView>> = written_lines(states, n);
    lemma_run_tells(states, n);
    if !index::some_may_hold(s, map, q.start, q.end, q.keyword, upper) {
        index_truth::lemma_none_hits(s, map, held, q, upper);
    }
    index_truth::lemma_counted_sum(s, map, held, q, upper, s.len());
}

// ---------- making the index anew ----------

/// The number in the name of a segment file.
pub open spec fn file_id(f: FileView) -> u32 {
    names::segment_name_id(f.name)->0 as u32
}

/// The file is that of a segment that was written with these lines.
pub open spec fn is_file_of(f: FileView, logs: Seq<LogView>) -> bool {
    names::segment_name_id(f.name) is Some && exists|
        config: StorageConfig,
        created_at: u64,
        summary: SegmentSummary,
        original: u64,
        compressed: u64,
    |
        #[trigger] storage::is_written(
            config,
            logs,
            file_id(f),
            created_at,
            f.data,
            summary,
            original,
            compressed,
        ) && index_law::is_tellable(config, logs, f.data)
}

/// The files are those of segments with different numbers. `held` gives the
/// lines of a segment by its number.
pub open spec fn are_files_of(fs: Seq<FileView>, held: Map<u32, Seq<LogView>>) -> bool {
    &&& forall|i: int| 0 <= i < fs.len() ==> is_file_of(#[trigger] fs[i], held[file_id(fs[i])])
    &&& forall|i: int, j: int|
        0 <= i < j < fs.len() ==> file_id(#[trigger] fs[i]) != file_id(#[trigger] fs[j])
}

/// What scanning the file of a written segment gives.
proof fn lemma_file_scanned(
    dir: Seq<char>,
    f: FileView,
    logs: Seq<LogView>,
    map: KeywordView,
    o: Option<MetaView>,
) -> (ts: Seq<Seq<PartView>>)
    requires
        is_file_of(f, logs),
        index_open::scans_as(dir, f, o),
    ensures
        o is Some,
        o->0.id == file_id(f),
        index_scan::scanned_words(f.data) == seq![Finding { segment: file_id(f), templates: ts }],
        map.tables.contains_key(file_id(f)) && map.tables[file_id(f)] == ts ==> index_truth::tells(
            o->0,
            map,
            logs,
        ),
{
    let (config, created_at, summary, original, compressed) = choose|
        config: StorageConfig,
        created_at: u64,
        summary: SegmentSummary,
        original: u64,
        compressed: u64,
    |
        #[trigger] storage::is_written(
            config,
            logs,
            file_id(f),
            created_at,
            f.data,
            summary,
            original,
            compressed,
        ) && index_law::is_tellable(config, logs, f.data);
    let id: u32 = file_id(f);
    rescan_law::law_rescan(
        config,
        logs,
        dir,
        f.name,
        id,
        created_at,
        f.data,
        summary,
        original,
        compressed,
    );
    index_law::law_written_tells(
        config,
        logs,
        dir,
        id,
        created_at,
        f.data,
        summary,
        original,
        compressed,
        map,
    );
    let ts = choose|ts: Seq<Seq<PartView>>| #[trigger] index_scan::has_table(id, f.data, ts);
    let found = choose|found: ScannedSegment|
        #[trigger] index_scan::scans_to(f.data, found) && o == Some(
            index_open::scanned_meta(dir, f.name, found),
        );
    assert(index_law::same_segment(
        index_open::scanned_meta(dir, f.name, found),
        storage::meta_of(dir, id, logs, summary),
    ));
    assert(header::header_at(f.data).segment_id == id);
    assert(index_scan::segment_words(id, f.data).len() == 1);
    assert(index_scan::scanned_words(f.data) =~= index_scan::segment_words(id, f.data));
    law_rescan_tells(
        config,
        logs,
        dir,
        f.name,
        id,
        created_at,
        f.data,
        summary,
        original,
        compressed,
        map,
        found,
    );
    keywords::lemma_one_noted(map, Finding { segment: id, templates: ts });
    if map.tables.contains_key(id) && map.tables[id] == ts {
        lemma_tells_elsewhere(
            o->0,
            keywords::all_noted(map, index_scan::scanned_words(f.data)),
            map,
            logs,
        );
    }
    ts
}

/// The templates of file `i` are known after the first `n` files were scanned.
proof fn lemma_files_known(
    dir: Seq<char>,
    fs: Seq<FileView>,
    held: Map<u32, Seq<LogView>>,
    os: Seq<Option<MetaView>>,
    base: KeywordView,
    n: nat,
    i: int,
    ts: Seq<Seq<PartView>>,
)
    requires
        are_files_of(fs, held),
        os.len() == fs.len(),
        forall|k: int| 0 <= k < fs.len() ==> index_open::scans_as(dir, fs[k], #[trigger] os[k]),
        0 <= i < n <= fs.len(),
        index_scan::scanned_words(fs[i].data) == seq![
            Finding { segment: file_id(fs[i]), templates: ts },
        ],
    ensures
        ({
            let map: KeywordView = keywords::all_noted(
                base,
                index_open::files_words(fs, n),
            );
            map.tables.contains_key(file_id(fs[i])) && map.tables[file_id(fs[i])] == ts
        }),
    decreases n,
{
    let m: nat = (n - 1) as nat;
    let front: Seq<Finding> = index_open::files_words(fs, m);
    let known: KeywordView = keywords::all_noted(base, front);
    let f: FileView = fs[m as int];
    assert(is_file_of(f, held[file_id(f)]));
    let us: Seq<Seq<PartView>> = lemma_file_scanned(
        dir,
        f,
        held[file_id(f)],
        known,
        os[m as int],
    );
    keywords::lemma_all_noted_concat(
        base,
        front,
        index_scan::scanned_words(f.data),
    );
    keywords::lemma_one_noted(known, Finding { segment: file_id(f), templates: us });
    if i < m {
        lemma_files_known(dir, fs, held, os, base, m, i, ts);
        assert(file_id(fs[i]) != file_id(fs[m as int]));
    } else {
        let a: Finding = Finding { segment: file_id(f), templates: us };
        let b: Finding = Finding { segment: file_id(f), templates: ts };
        assert(seq![a][0] == seq![b][0]);
    }
}

proof fn lemma_same_words(base: KeywordView, fs: Seq<Finding>)
    ensures
        keywords::all_noted(base, fs).words == base.words,
    decreases fs.len(),
{
    if fs.len() > 0 {
        lemma_same_words(base, fs.drop_last());
    }
}

proof fn lemma_present_known(os: Seq<Option<MetaView>>, n: nat, j: int) -> (i: int)
    requires
        n <= os.len(),
        0 <= j < index_open::present(os, n).len(),
    ensures
        0 <= i < n,
        os[i] == Some(index_open::present(os, n)[j]),
    decreases n,
{
    let rest: Seq<MetaView> = index_open::present(os, (n - 1) as nat);
    if j < rest.len() {
        lemma_present_known(os, (n - 1) as nat, j)
    } else {
        n - 1
    }
}

proof fn lemma_all_placed_known(ms: Seq<MetaView>, i: int) -> (j: int)
    requires
        0 <= i < index::all_placed(ms).len(),
    ensures
        0 <= j < ms.len(),
        index::all_placed(ms)[i] == ms[j],
    decreases ms.len(),
{
    let t: Seq<MetaView> = ms.drop_last();
    let r: Seq<MetaView> = index::all_placed(t);
    index_law::lemma_placed_contains(r, ms.last(), i);
    if index::all_placed(ms)[i] == ms.last() {
        ms.len() - 1
    } else {
        let k: int = choose|k: int| 0 <= k < r.len() && r[k] == index::all_placed(ms)[i];
        lemma_all_placed_known(t, k)
    }
}

/// The entries that scanning the files of written segments gives tell the truth.
proof fn lemma_scan_tells(
    dir: Seq<char>,
    fs: Seq<FileView>,
    held: Map<u32, Seq<LogView>>,
    ms: Seq<MetaView>,
    base: KeywordView,
)
    requires
        index_open::is_scan(dir, fs, ms),
        are_files_of(fs, held),
    ensures
        ({
            let map: KeywordView = keywords::all_noted(
                base,
                index_open::files_words(fs, fs.len()),
            );
            &&& index_truth::tells_all(index::all_placed(ms), map, held)
            &&& map.words == base.words
            &&& ms.len() > 0 ==> map != keywords::nothing_known()
        }),
{
    let s: Seq<MetaView> = index::all_placed(ms);
    let map: KeywordView = keywords::all_noted(base, index_open::files_words(fs, fs.len()));
    let os = choose|os: Seq<Option<MetaView>>|
        {
            &&& os.len() == fs.len()
            &&& forall|i: int|
                0 <= i < fs.len() ==> index_open::scans_as(dir, fs[i], #[trigger] os[i])
            &&& ms == #[trigger] index_open::present(os, os.len())
        };
    lemma_same_words(base, index_open::files_words(fs, fs.len()));
    assert forall|j: int| 0 <= j < ms.len() implies {
        &&& index_truth::tells(#[trigger] ms[j], map, held[ms[j].id])
        &&& map.tables.contains_key(ms[j].id)
    } by {
        let i: int = lemma_present_known(os, os.len(), j);
        let f: FileView = fs[i];
        assert(is_file_of(f, held[file_id(f)]));
        let ts: Seq<Seq<PartView>> = lemma_file_scanned(dir, f, held[file_id(f)], map, os[i]);
        lemma_files_known(dir, fs, held, os, base, fs.len(), i, ts);
    }
    assert forall|n: int| 0 <= n < s.len() implies index_truth::tells(
        #[trigger] s[n],
        map,
        held[s[n].id],
    ) by {
        let j: int = lemma_all_placed_known(ms, n);
        assert(index_truth::tells(ms[j], map, held[ms[j].id]));
    }
    if ms.len() > 0 {
        assert(map.tables.contains_key(ms[0].id));
        assert(!keywords::nothing_known().tables.contains_key(ms[0].id));
    }
}

/// An index that is opened from the files of written segments, because there is
/// no manifest that can be read, tells the truth of their lines.
pub proof fn law_rescan_all_tells(
    dir: Seq<char>,
    manifest: Option<&[u8]>,
    fs: Seq<FileView>,
    held: Map<u32, Seq<LogView>>,
    idx: Index,
)
    requires
        !index_open::manifest_readable(manifest),
        index_open::opens_as(dir, manifest, fs, idx),
        are_files_of(fs, held),
    ensures
        index_truth::tells_all(index::metas(idx.segments@), idx.keyword_to_patterns@, held),
        idx.keyword_to_patterns@.words == Map::<Seq<char>, Seq<u16>>::empty(),
{
    let s: Seq<MetaView> = index::metas(idx.segments@);
    let map: KeywordView = keywords::all_noted(
        keywords::nothing_known(),
        index_open::files_words(fs, fs.len()),
    );
    let ms = choose|ms: Seq<MetaView>|
        {
            &&& #[trigger] index_open::is_source(dir, manifest, fs, ms)
            &&& s == index::all_placed(ms)
            &&& idx.next_id == index::next_after(1, ms)
        };
    lemma_scan_tells(dir, fs, held, ms, keywords::nothing_known());
    index_law::lemma_all_placed_len(ms);
    lemma_same_words(map, index_open::metas_words(fs, s, s.len()));
}

/// An index that is made anew from the files of written segments tells the truth
/// of their lines, whatever it said before, and keeps the words that were known
/// for every segment.
pub proof fn law_rebuild_tells(
    before: Index,
    now: Index,
    fs: Seq<FileView>,
    held: Map<u32, Seq<LogView>>,
)
    requires
        index_open::rebuilds_as(before, now, fs),
        are_files_of(fs, held),
    ensures
        index_truth::tells_all(index::metas(now.segments@), now.keyword_to_patterns@, held),
        now.keyword_to_patterns@.words == before.keyword_to_patterns@.words,
{
    let ms = choose|ms: Seq<MetaView>|
        {
            &&& #[trigger] index_open::is_scan(before.data_dir@, fs, ms)
            &&& index::metas(now.segments@) == index::all_placed(ms)
        };
    lemma_scan_tells(before.data_dir@, fs, held, ms, before.keyword_to_patterns@);
}

} // verus!
