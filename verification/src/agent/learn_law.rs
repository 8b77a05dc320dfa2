//! What an opened index knows of the templates of its segments.

use crate::agent::index;
use crate::agent::index::{Index, MetaView};
use crate::agent::index_open;
use crate::agent::index_open::FileView;
use crate::agent::index_scan;
use crate::agent::keywords;
use crate::agent::keywords::{Finding, KeywordView};
use crate::agent::parts::PartView;
use crate::shared::names;
use vstd::prelude::*;

verus! {

/// The findings do not speak of the segment.
pub open spec fn silent(fs: Seq<Finding>, id: u32) -> bool {
    forall|i: int| 0 <= i < fs.len() ==> (#[trigger] fs[i]).segment != id
}

proof fn lemma_silent(m: KeywordView, fs: Seq<Finding>, id: u32)
    requires
        silent(fs, id),
    ensures
        keywords::all_noted(m, fs).tables.contains_key(id) == m.tables.contains_key(id),
        m.tables.contains_key(id) ==> keywords::all_noted(m, fs).tables[id] == m.tables[id],
    decreases fs.len(),
{
    if fs.len() > 0 {
        let front: Seq<Finding> = fs.drop_last();
        assert forall|i: int| 0 <= i < front.len() implies (#[trigger] front[i]).segment != id by {
            assert(front[i] == fs[i]);
        }
        lemma_silent(m, front, id);
        assert(fs[fs.len() - 1].segment != id);
    }
}

proof fn lemma_known(
    m: KeywordView,
    a: Seq<Finding>,
    f: Finding,
    b: Seq<Finding>,
)
    requires
        silent(b, f.segment),
    ensures
        keywords::all_noted(m, a + seq![f] + b).tables.contains_key(f.segment),
        keywords::all_noted(m, a + seq![f] + b).tables[f.segment] == f.templates,
{
    let before: KeywordView = keywords::all_noted(m, a);
    let after: KeywordView = keywords::noted(before, f);
    keywords::lemma_all_noted_concat(m, a + seq![f], b);
    keywords::lemma_all_noted_concat(m, a, seq![f]);
    keywords::lemma_one_noted(before, f);
    lemma_silent(after, b, f.segment);
}

/// What the file of one segment adds speaks of that segment only.
pub open spec fn speaks_of(fs: Seq<Finding>, id: u32) -> bool {
    forall|i: int| 0 <= i < fs.len() ==> (#[trigger] fs[i]).segment == id
}

proof fn lemma_words_split(fs: Seq<FileView>, s: Seq<MetaView>, k: int, n: nat) -> (ends: (
    Seq<Finding>,
    Seq<Finding>,
))
    requires
        0 <= k < n <= s.len(),
        forall|i: int| k < i < n ==> (#[trigger] s[i]).id != s[k].id,
    ensures
        index_open::metas_words(fs, s, n) == ends.0 + index_open::meta_words(fs, s[k]) + ends.1,
        silent(ends.1, s[k].id),
    decreases n,
{
    let last: Seq<Finding> = index_open::meta_words(fs, s[n - 1]);
    let front: Seq<Finding> = index_open::metas_words(fs, s, (n - 1) as nat);
    if k == n - 1 {
        let none: Seq<Finding> = Seq::empty();
        assert(front + last + none =~= front + last);
        (front, none)
    } else {
        let (a, b) = lemma_words_split(fs, s, k, (n - 1) as nat);
        let mid: Seq<Finding> = index_open::meta_words(fs, s[k]);
        assert(a + mid + b + last =~= a + mid + (b + last));
        assert(s[n - 1].id != s[k].id);
        assert(speaks_of(last, s[n - 1].id));
        let rest: Seq<Finding> = b + last;
        assert forall|i: int| 0 <= i < rest.len() implies (#[trigger] rest[i]).segment
            != s[k].id by {
            if i < b.len() {
                assert(rest[i] == b[i]);
            } else {
                assert(rest[i] == last[i - b.len()]);
            }
        }
        (a, rest)
    }
}

/// An index that is read from its manifest knows the templates of every segment
/// with a summary whose file is there and has a table of them.
pub proof fn law_opened_index_knows_templates(
    dir: Seq<char>,
    manifest: Option<&[u8]>,
    fs: Seq<FileView>,
    idx: Index,
    k: int,
    data: Seq<u8>,
    ts: Seq<Seq<PartView>>,
)
    requires
        index_open::opens_as(dir, manifest, fs, idx),
        index_open::manifest_readable(manifest),
        0 <= k < idx.segments@.len(),
        forall|i: int|
            0 <= i < idx.segments@.len() && i != k ==> (#[trigger] idx.segments@[i]).id
                != idx.segments@[k].id,
        idx.segments@[k].summary.flags & 1 != 0,
        index_open::file_named(fs, names::segment_file_name(idx.segments@[k].id as nat)) == Some(
            data,
        ),
        index_scan::has_table(idx.segments@[k].id, data, ts),
    ensures
        idx.keyword_to_patterns@.tables.contains_key(idx.segments@[k].id),
        idx.keyword_to_patterns@.tables[idx.segments@[k].id] == ts,
{
    let s: Seq<MetaView> = index::metas(idx.segments@);
    let id: u32 = idx.segments@[k].id;
    assert(s[k].id == id);
    assert forall|i: int| k < i < s.len() implies (#[trigger] s[i]).id != s[k].id by {
        assert(s[i].id == idx.segments@[i].id);
    }
    let (a, b) = lemma_words_split(fs, s, k, s.len());
    let f: Finding = Finding { segment: id, templates: ts };
    assert(index_open::meta_words(fs, s[k]) == seq![f]);
    lemma_known(keywords::nothing_known(), a, f, b);
}

// ---------- scanning ----------

/// What scanning one file adds to the keyword map.
pub open spec fn file_words(f: FileView) -> Seq<Finding> {
    if names::segment_name_id(f.name) is Some {
        index_scan::scanned_words(f.data)
    } else {
        Seq::empty()
    }
}

proof fn lemma_files_split(fs: Seq<FileView>, k: int, n: nat, id: u32) -> (ends: (
    Seq<Finding>,
    Seq<Finding>,
))
    requires
        0 <= k < n <= fs.len(),
        forall|i: int| k < i < n ==> silent(file_words(#[trigger] fs[i]), id),
    ensures
        index_open::files_words(fs, n) == ends.0 + file_words(fs[k]) + ends.1,
        silent(ends.1, id),
    decreases n,
{
    let last: Seq<Finding> = file_words(fs[n - 1]);
    let front: Seq<Finding> = index_open::files_words(fs, (n - 1) as nat);
    assert(index_open::files_words(fs, n) == front + last);
    if k == n - 1 {
        let none: Seq<Finding> = Seq::empty();
        assert(front + last + none =~= front + last);
        (front, none)
    } else {
        let (a, b) = lemma_files_split(fs, k, (n - 1) as nat, id);
        let mid: Seq<Finding> = file_words(fs[k]);
        assert(a + mid + b + last =~= a + mid + (b + last));
        assert(silent(file_words(fs[n - 1]), id));
        let rest: Seq<Finding> = b + last;
        assert forall|i: int| 0 <= i < rest.len() implies (#[trigger] rest[i]).segment != id by {
            if i < b.len() {
                assert(rest[i] == b[i]);
            } else {
                assert(rest[i] == last[i - b.len()]);
            }
        }
        (a, rest)
    }
}

/// An index that is made anew from segment files knows the templates of every
/// file with a table of them, unless a later file has the same number.
pub proof fn law_rebuilt_index_knows_templates(
    before: Index,
    now: Index,
    fs: Seq<FileView>,
    k: int,
    id: u32,
    ts: Seq<Seq<PartView>>,
)
    requires
        index_open::rebuilds_as(before, now, fs),
        0 <= k < fs.len(),
        names::segment_name_id(fs[k].name) is Some,
        index_scan::scanned_words(fs[k].data) == seq![Finding { segment: id, templates: ts }],
        forall|i: int| k < i < fs.len() ==> silent(file_words(#[trigger] fs[i]), id),
    ensures
        now.keyword_to_patterns@.tables.contains_key(id),
        now.keyword_to_patterns@.tables[id] == ts,
{
    let (a, b) = lemma_files_split(fs, k, fs.len(), id);
    lemma_known(before.keyword_to_patterns@, a, Finding { segment: id, templates: ts }, b);
}

proof fn lemma_present(os: Seq<Option<MetaView>>, n: nat, i: int)
    requires
        0 <= i < n <= os.len(),
        os[i] is Some,
    ensures
        index_open::present(os, n).contains(os[i]->0),
    decreases n,
{
    let all: Seq<MetaView> = index_open::present(os, n);
    if i == n - 1 {
        assert(all.last() == os[i]->0);
    } else {
        lemma_present(os, (n - 1) as nat, i);
        let front: Seq<MetaView> = index_open::present(os, (n - 1) as nat);
        let k: int = choose|k: int| 0 <= k < front.len() && front[k] == os[i]->0;
        assert(all[k] == os[i]->0);
    }
}

proof fn lemma_present_from(os: Seq<Option<MetaView>>, n: nat, k: int) -> (i: int)
    requires
        n <= os.len(),
        0 <= k < index_open::present(os, n).len(),
    ensures
        0 <= i < n,
        os[i] == Some(index_open::present(os, n)[k]),
    decreases n,
{
    let front: Seq<MetaView> = index_open::present(os, (n - 1) as nat);
    if k < front.len() {
        lemma_present_from(os, (n - 1) as nat, k)
    } else {
        n - 1
    }
}

/// A scan leaves no segment file out: each file with the name of a segment file
/// that can be scanned has an entry with its path.
pub proof fn law_scan_lists_all(
    dir: Seq<char>,
    fs: Seq<FileView>,
    ms: Seq<MetaView>,
    i: int,
) -> (k: int)
    requires
        index_open::is_scan(dir, fs, ms),
        0 <= i < fs.len(),
        names::segment_name_id(fs[i].name) is Some,
        index_scan::scannable(fs[i].data),
    ensures
        0 <= k < ms.len(),
        ms[k].path == index::segment_path(dir, fs[i].name),
{
    let os = choose|os: Seq<Option<MetaView>>|
        {
            &&& os.len() == fs.len()
            &&& forall|i: int|
                0 <= i < fs.len() ==> index_open::scans_as(dir, fs[i], #[trigger] os[i])
            &&& ms == #[trigger] index_open::present(os, os.len())
        };
    assert(index_open::scans_as(dir, fs[i], os[i]));
    lemma_present(os, os.len(), i);
    choose|k: int| 0 <= k < ms.len() && ms[k] == os[i]->0
}

/// A scan makes no entry up: each one stands for a file with the name of a
/// segment file that can be scanned.
pub proof fn law_scan_lists_files(
    dir: Seq<char>,
    fs: Seq<FileView>,
    ms: Seq<MetaView>,
    k: int,
) -> (i: int)
    requires
        index_open::is_scan(dir, fs, ms),
        0 <= k < ms.len(),
    ensures
        0 <= i < fs.len(),
        names::segment_name_id(fs[i].name) is Some,
        index_scan::scannable(fs[i].data),
        ms[k].path == index::segment_path(dir, fs[i].name),
{
    let os = choose|os: Seq<Option<MetaView>>|
        {
            &&& os.len() == fs.len()
            &&& forall|i: int|
                0 <= i < fs.len() ==> index_open::scans_as(dir, fs[i], #[trigger] os[i])
            &&& ms == #[trigger] index_open::present(os, os.len())
        };
    let i: int = lemma_present_from(os, os.len(), k);
    assert(index_open::scans_as(dir, fs[i], os[i]));
    i
}

} // verus!
