//! Opening an index from its manifest, or from the segment files.

use crate::agent::index;
use crate::agent::index::{Index, MetaView, SegmentMeta};
use crate::agent::index_scan;
use crate::agent::index_scan::{ScannedSegment, SegmentFile};
use crate::agent::keywords;
use crate::agent::keywords::{Finding, KeywordMap, KeywordView};
use crate::agent::manifest_file;
use crate::shared::error::DataError;
use crate::shared::manifest::ManifestEntry;
use crate::shared::names;
use crate::shared::summary;
use crate::shared::text;
use vstd::prelude::*;
use vstd::string::*;

verus! {

/// What a segment file is.
pub struct FileView {
    pub name: Seq<char>,
    pub data: Seq<u8>,
}

/// What segment files are.
pub open spec fn file_views(fs: Seq<SegmentFile>) -> Seq<FileView> {
    Seq::new(fs.len(), |i: int| FileView { name: fs[i].name@, data: fs[i].data@ })
}

// ---------- scanning ----------

/// The entry of a scanned segment file.
pub open spec fn scanned_meta(dir: Seq<char>, name: Seq<char>, s: ScannedSegment) -> MetaView {
    MetaView {
        id: s.segment_id,
        min_ts: s.min_ts,
        max_ts: s.max_ts,
        line_count: s.line_count,
        path: index::segment_path(dir, name),
        summary: s.summary,
    }
}

/// `o` is the entry that a file adds: none where its name is not that of a
/// segment file, or where it cannot be scanned.
pub open spec fn scans_as(dir: Seq<char>, f: FileView, o: Option<MetaView>) -> bool {
    if names::segment_name_id(f.name) is Some && index_scan::scannable(f.data) {
        exists|s: ScannedSegment|
            #[trigger] index_scan::scans_to(f.data, s) && o == Some(scanned_meta(dir, f.name, s))
    } else {
        o is None
    }
}

/// The entries among the first `n`.
pub open spec fn present(os: Seq<Option<MetaView>>, n: nat) -> Seq<MetaView>
    decreases n,
{
    if n == 0 {
        Seq::empty()
    } else {
        match os[n - 1] {
            Some(m) => present(os, (n - 1) as nat).push(m),
            None => present(os, (n - 1) as nat),
        }
    }
}

/// `ms` are the entries that the files add, in their order.
pub open spec fn is_scan(dir: Seq<char>, fs: Seq<FileView>, ms: Seq<MetaView>) -> bool {
    exists|os: Seq<Option<MetaView>>|
        {
            &&& os.len() == fs.len()
            &&& forall|i: int| 0 <= i < fs.len() ==> scans_as(dir, fs[i], #[trigger] os[i])
            &&& ms == #[trigger] present(os, os.len())
        }
}

/// What scanning the first `n` files adds to the keyword map.
pub open spec fn files_words(fs: Seq<FileView>, n: nat) -> Seq<Finding>
    decreases n,
{
    if n == 0 {
        Seq::empty()
    } else {
        files_words(fs, (n - 1) as nat) + (if names::segment_name_id(fs[n - 1].name) is Some {
            index_scan::scanned_words(fs[n - 1].data)
        } else {
            Seq::empty()
        })
    }
}

/// The result of scanning segment files.
struct Scan {
    segments: Vec<SegmentMeta>,
    next_id: u32,
}

fn scan_all_segments(dir: &str, files: &[SegmentFile], next: u32, map: &mut KeywordMap) -> (r: Scan)
    requires
        old(map).wf(),
    ensures
        final(map).wf(),
        final(map)@ == keywords::all_noted(
            old(map)@,
            files_words(file_views(files@), files@.len()),
        ),
        exists|ms: Seq<MetaView>|
            {
                &&& #[trigger] is_scan(dir@, file_views(files@), ms)
                &&& index::metas(r.segments@) == index::all_placed(ms)
                &&& r.next_id == index::next_after(next, ms)
            },
        index::by_id(index::metas(r.segments@)),
{
    let ghost fs = file_views(files@);
    let ghost m0 = map@;
    let seg_dir: String = index::join_path(dir, "segments");
    let mut segments: Vec<SegmentMeta> = Vec::new();
    let mut next_id: u32 = next;
    let ghost mut os = Seq::<Option<MetaView>>::empty();
    let mut i: usize = 0;
    assert(index::metas(segments@) =~= Seq::<MetaView>::empty());
    while i < files.len()
        invariant
            i <= files@.len(),
            fs == file_views(files@),
            seg_dir@ == index::path_in(dir@, "segments"@),
            map.wf(),
            map@ == keywords::all_noted(m0, files_words(fs, i as nat)),
            os.len() == i,
            forall|k: int| 0 <= k < i ==> scans_as(dir@, fs[k], #[trigger] os[k]),
            index::metas(segments@) == index::all_placed(present(os, i as nat)),
            index::by_id(index::metas(segments@)),
            next_id == index::next_after(next, present(os, i as nat)),
        decreases files@.len() - i,
    {
        let f: &SegmentFile = &files[i];
        let ghost fv = fs[i as int];
        let ghost sofar = files_words(fs, i as nat);
        let ghost before = present(os, i as nat);
        let ghost mut o: Option<MetaView> = None;
        if names::parse_segment_name(f.name.as_str()).is_some() {
            let res: Result<ScannedSegment, DataError> = index_scan::scan_segment_meta(f.data, map);
            match res {
                Ok(s) => {
                    let path: String = index::join_path(seg_dir.as_str(), f.name.as_str());
                    let m: SegmentMeta = SegmentMeta {
                        id: s.segment_id,
                        min_ts: s.min_ts,
                        max_ts: s.max_ts,
                        line_count: s.line_count,
                        path,
                        summary: s.summary,
                    };
                    let ghost mv = m@;
                    proof {
                        o = Some(mv);
                        assert(index_scan::scans_to(fv.data, s));
                        assert(mv == scanned_meta(dir@, fv.name, s));
                        index::lemma_placed_by_id(index::metas(segments@), mv);
                        assert(before.push(mv).drop_last() =~= before);
                    }
                    if s.segment_id >= next_id {
                        next_id = if s.segment_id < u32::MAX {
                            s.segment_id + 1
                        } else {
                            u32::MAX
                        };
                    }
                    index::place(&mut segments, m);
                },
                Err(_) => {},
            }
            proof {
                keywords::lemma_all_noted_concat(m0, sofar, index_scan::scanned_words(fv.data));
            }
        } else {
            assert(sofar + Seq::<Finding>::empty() =~= sofar);
        }
        proof {
            let next_os: Seq<Option<MetaView>> = os.push(o);
            lemma_present_prefix(os, next_os, i as nat);
            assert(scans_as(dir@, fv, o));
            os = next_os;
        }
        i += 1;
    }
    proof {
        assert(is_scan(dir@, fs, present(os, os.len())));
    }
    Scan { segments, next_id }
}

proof fn lemma_present_prefix(a: Seq<Option<MetaView>>, b: Seq<Option<MetaView>>, n: nat)
    requires
        n <= a.len(),
        n <= b.len(),
        forall|k: int| 0 <= k < n ==> a[k] == #[trigger] b[k],
    ensures
        present(a, n) == present(b, n),
    decreases n,
{
    if n > 0 {
        lemma_present_prefix(a, b, (n - 1) as nat);
        assert(a[n - 1] == b[n - 1]);
    }
}

// ---------- the manifest ----------

/// `m` is the entry that a manifest entry stands for.
pub open spec fn loads_as(e: ManifestEntry, m: MetaView) -> bool {
    &&& m.id == e.segment_id
    &&& m.min_ts == e.min_ts
    &&& m.max_ts == e.max_ts
    &&& m.line_count == e.line_count
    &&& m.path == "segments/"@ + names::segment_file_name(e.segment_id as nat)
    &&& summary::segment_summary_bytes(m.summary) == e.reserved@
}

/// `ms` are the entries that a manifest file stands for.
pub open spec fn is_load(data: Seq<u8>, ms: Seq<MetaView>) -> bool {
    exists|es: Seq<ManifestEntry>|
        {
            &&& #[trigger] manifest_file::manifest_reads(data, es)
            &&& ms.len() == es.len()
            &&& forall|i: int| 0 <= i < es.len() ==> loads_as(es[i], #[trigger] ms[i])
        }
}

fn load_manifest(data: &[u8]) -> (r: Result<Scan, DataError>)
    ensures
        match r {
            Ok(scan) => index::by_id(index::metas(scan.segments@)) && exists|ms: Seq<MetaView>|
                {
                    &&& #[trigger] is_load(data@, ms)
                    &&& index::metas(scan.segments@) == index::all_placed(ms)
                    &&& scan.next_id == index::next_after(1, ms)
                } && forall|e: DataError| !#[trigger] manifest_file::manifest_error(data@, e),
            Err(e) => manifest_file::manifest_error(data@, e),
        },
{
    let es: Vec<ManifestEntry> = match manifest_file::read_manifest(data) {
        Ok(es) => es,
        Err(e) => {
            return Err(e);
        },
    };
    proof {
        assert(es@.len() == es.len());
        manifest_file::lemma_reads_no_error(data@, es@);
    }
    let mut segments: Vec<SegmentMeta> = Vec::new();
    let mut next_id: u32 = 1;
    let ghost mut ms = Seq::<MetaView>::empty();
    let mut i: usize = 0;
    assert(index::metas(segments@) =~= Seq::<MetaView>::empty());
    while i < es.len()
        invariant
            i <= es@.len(),
            ms.len() == i,
            forall|k: int| 0 <= k < i ==> loads_as(es@[k], #[trigger] ms[k]),
            index::metas(segments@) == index::all_placed(ms),
            index::by_id(index::metas(segments@)),
            next_id == index::next_after(1, ms),
        decreases es@.len() - i,
    {
        let e: ManifestEntry = es[i];
        let mut path: String = String::new();
        path.append("segments/");
        path.append(names::segment_name(e.segment_id).as_str());
        let m: SegmentMeta = SegmentMeta {
            id: e.segment_id,
            min_ts: e.min_ts,
            max_ts: e.max_ts,
            line_count: e.line_count,
            path,
            summary: e.segment_summary(),
        };
        let ghost mv = m@;
        proof {
            assert(mv.path =~= "segments/"@ + names::segment_file_name(e.segment_id as nat));
            index::lemma_placed_by_id(index::metas(segments@), mv);
            assert(ms.push(mv).drop_last() =~= ms);
        }
        if e.segment_id >= next_id {
            next_id = if e.segment_id < u32::MAX {
                e.segment_id + 1
            } else {
                u32::MAX
            };
        }
        index::place(&mut segments, m);
        proof {
            ms = ms.push(mv);
        }
        i += 1;
    }
    assert(is_load(data@, ms));
    Ok(Scan { segments, next_id })
}

// ---------- keywords ----------

/// The file of that name.
pub open spec fn file_named(fs: Seq<FileView>, name: Seq<char>) -> Option<Seq<u8>>
    decreases fs.len(),
{
    if fs.len() == 0 {
        None
    } else if fs[0].name == name {
        Some(fs[0].data)
    } else {
        file_named(fs.drop_first(), name)
    }
}

/// What the file of an entry adds to the keyword map; nothing without a summary
/// or a file.
pub open spec fn meta_words(fs: Seq<FileView>, m: MetaView) -> Seq<Finding> {
    if index::summarized(m) {
        match file_named(fs, names::segment_file_name(m.id as nat)) {
            Some(d) => index_scan::segment_words(m.id, d),
            None => Seq::empty(),
        }
    } else {
        Seq::empty()
    }
}

/// What the files of the first `n` entries add to the keyword map.
pub open spec fn metas_words(fs: Seq<FileView>, s: Seq<MetaView>, n: nat) -> Seq<Finding>
    decreases n,
{
    if n == 0 {
        Seq::empty()
    } else {
        metas_words(fs, s, (n - 1) as nat) + meta_words(fs, s[n - 1])
    }
}

pub(crate) fn find_file(files: &[SegmentFile], name: &str) -> (r: Option<usize>)
    ensures
        match r {
            Some(i) => i < files@.len() && file_named(file_views(files@), name@) == Some(
                files@[i as int].data@,
            ),
            None => file_named(file_views(files@), name@) is None,
        },
{
    let ghost fs = file_views(files@);
    let mut i: usize = 0;
    assert(fs.skip(0) =~= fs);
    while i < files.len()
        invariant
            i <= files@.len(),
            fs == file_views(files@),
            file_named(fs, name@) == file_named(fs.skip(i as int), name@),
        decreases files@.len() - i,
    {
        assert(fs.skip(i as int)[0] == fs[i as int]);
        assert(fs.skip(i as int).drop_first() =~= fs.skip(i as int + 1));
        if text::same_text(files[i].name.as_str(), name) {
            return Some(i);
        }
        i += 1;
    }
    assert(fs.skip(i as int).len() == 0);
    None
}

fn rebuild_keyword_map(files: &[SegmentFile], segments: &Vec<SegmentMeta>, map: &mut KeywordMap)
    requires
        old(map).wf(),
    ensures
        final(map).wf(),
        final(map)@ == keywords::all_noted(
            old(map)@,
            metas_words(file_views(files@), index::metas(segments@), segments@.len()),
        ),
{
    let ghost fs = file_views(files@);
    let ghost s = index::metas(segments@);
    let ghost m0 = map@;
    let mut i: usize = 0;
    while i < segments.len()
        invariant
            i <= segments@.len(),
            fs == file_views(files@),
            s == index::metas(segments@),
            map.wf(),
            map@ == keywords::all_noted(m0, metas_words(fs, s, i as nat)),
        decreases segments@.len() - i,
    {
        let m: &SegmentMeta = &segments[i];
        assert(s[i as int] == m@);
        let ghost sofar = metas_words(fs, s, i as nat);
        if m.summary.has_summary() {
            let name: String = names::segment_name(m.id);
            match find_file(files, name.as_str()) {
                None => {},
                Some(k) => {
                    index_scan::learn_segment(m.id, files[k].data, map);
                },
            }
        }
        proof {
            keywords::lemma_all_noted_concat(m0, sofar, meta_words(fs, s[i as int]));
        }
        i += 1;
    }
}

// ---------- opening ----------

/// The keyword map of an index that was read from its manifest.
pub open spec fn loaded_words(fs: Seq<FileView>, s: Seq<MetaView>) -> KeywordView {
    keywords::all_noted(keywords::nothing_known(), metas_words(fs, s, s.len()))
}

/// The keyword map of an index that was made from the segment files.
pub open spec fn rescanned_words(fs: Seq<FileView>, s: Seq<MetaView>) -> KeywordView {
    let map: KeywordView = keywords::all_noted(
        keywords::nothing_known(),
        files_words(fs, fs.len()),
    );
    if map == keywords::nothing_known() {
        keywords::all_noted(map, metas_words(fs, s, s.len()))
    } else {
        map
    }
}

/// A manifest file can be read.
pub open spec fn manifest_readable(manifest: Option<&[u8]>) -> bool {
    manifest is Some && !exists|e: DataError|
        #[trigger] manifest_file::manifest_error(manifest->0@, e)
}

/// `ms` are the entries of an index: those of its manifest where it can be read,
/// else those of the segment files.
pub open spec fn is_source(
    dir: Seq<char>,
    manifest: Option<&[u8]>,
    fs: Seq<FileView>,
    ms: Seq<MetaView>,
) -> bool {
    if manifest_readable(manifest) {
        is_load(manifest->0@, ms)
    } else {
        is_scan(dir, fs, ms)
    }
}

/// `idx` is the index of a data directory with that manifest and these files.
pub open spec fn opens_as(
    dir: Seq<char>,
    manifest: Option<&[u8]>,
    fs: Seq<FileView>,
    idx: Index,
) -> bool {
    &&& idx.wf()
    &&& idx.data_dir@ == dir
    &&& exists|ms: Seq<MetaView>|
        {
            &&& #[trigger] is_source(dir, manifest, fs, ms)
            &&& index::metas(idx.segments@) == index::all_placed(ms)
            &&& idx.next_id == index::next_after(1, ms)
        }
    &&& idx.keyword_to_patterns@ == if manifest_readable(manifest) {
        loaded_words(fs, index::metas(idx.segments@))
    } else {
        rescanned_words(fs, index::metas(idx.segments@))
    }
}

/// The manifest file that is to be written for an opened index: one if there was
/// none and there are segments.
pub open spec fn saved_as(manifest: Option<&[u8]>, idx: Index, saved: Option<Vec<u8>>) -> bool {
    match saved {
        Some(s) => manifest is None && idx.segments@.len() > 0 && s@ == index::saved_bytes(
            index::metas(idx.segments@),
        ),
        None => manifest is Some || idx.segments@.len() == 0,
    }
}

/// `now` is the index after it was made anew from these files.
pub open spec fn rebuilds_as(before: Index, now: Index, fs: Seq<FileView>) -> bool {
    &&& now.wf()
    &&& now.data_dir == before.data_dir
    &&& exists|ms: Seq<MetaView>|
        {
            &&& #[trigger] is_scan(before.data_dir@, fs, ms)
            &&& index::metas(now.segments@) == index::all_placed(ms)
        }
    &&& now.next_id == if now.segments@.len() == 0 {
        1
    } else {
        index::after(now.segments@.last().id)
    }
    &&& now.keyword_to_patterns@ == keywords::all_noted(
        before.keyword_to_patterns@,
        files_words(fs, fs.len()),
    )
}

impl Index {
    /// Opens the index of a data directory. `manifest` is its manifest file, if
    /// there is one, and `files` the files in its segment directory. Where the
    /// manifest is missing or cannot be read, the index is made from the
    /// segment files. What comes back with the index is the manifest file that
    /// is to be written, if there was none and there are segments.
    pub fn open(data_dir: &str, manifest: Option<&[u8]>, files: &[SegmentFile]) -> (r: (
        Index,
        Option<Vec<u8>>,
    ))
        ensures
            opens_as(data_dir@, manifest, file_views(files@), r.0),
            saved_as(manifest, r.0, r.1),
    {
        let ghost fs = file_views(files@);
        let mut map: KeywordMap = KeywordMap::new();
        let loaded: Option<Scan> = match manifest {
            None => None,
            Some(d) => match load_manifest(d) {
                Ok(scan) => {
                    assert(manifest_readable(manifest));
                    Some(scan)
                },
                Err(e) => {
                    assert(manifest_file::manifest_error(d@, e));
                    None
                },
            },
        };
        let ghost ok = loaded is Some;
        assert(ok == manifest_readable(manifest));
        let scan: Scan = match loaded {
            Some(scan) => scan,
            None => scan_all_segments(data_dir, files, 1, &mut map),
        };
        assert(exists|ms: Seq<MetaView>|
            {
                &&& #[trigger] is_source(data_dir@, manifest, fs, ms)
                &&& index::metas(scan.segments@) == index::all_placed(ms)
                &&& scan.next_id == index::next_after(1, ms)
            }) by {
            if ok {
                let ms = choose|ms: Seq<MetaView>|
                    {
                        &&& #[trigger] is_load(manifest->0@, ms)
                        &&& index::metas(scan.segments@) == index::all_placed(ms)
                        &&& scan.next_id == index::next_after(1, ms)
                    };
                assert(is_source(data_dir@, manifest, fs, ms));
            } else {
                let ms = choose|ms: Seq<MetaView>|
                    {
                        &&& #[trigger] is_scan(data_dir@, fs, ms)
                        &&& index::metas(scan.segments@) == index::all_placed(ms)
                        &&& scan.next_id == index::next_after(1, ms)
                    };
                assert(is_source(data_dir@, manifest, fs, ms));
            }
        }
        if map.is_empty() {
            rebuild_keyword_map(files, &scan.segments, &mut map);
        }
        let idx: Index = Index {
            data_dir: data_dir.to_string(),
            segments: scan.segments,
            next_id: scan.next_id,
            keyword_to_patterns: map,
        };
        let saved: Option<Vec<u8>> = if manifest.is_none() && idx.segments.len() > 0 {
            Some(idx.save())
        } else {
            None
        };
        (idx, saved)
    }

    /// Makes the index anew from the segment files. What comes back is the new
    /// manifest file.
    pub fn rebuild(&mut self, files: &[SegmentFile]) -> (r: Vec<u8>)
        requires
            old(self).wf(),
        ensures
            rebuilds_as(*old(self), *final(self), file_views(files@)),
            r@ == index::saved_bytes(index::metas(final(self).segments@)),
    {
        let scan: Scan = scan_all_segments(
            self.data_dir.as_str(),
            files,
            self.next_id,
            &mut self.keyword_to_patterns,
        );
        self.segments = scan.segments;
        let n: usize = self.segments.len();
        self.next_id = if n == 0 {
            1
        } else {
            let last: u32 = self.segments[n - 1].id;
            if last < u32::MAX {
                last + 1
            } else {
                u32::MAX
            }
        };
        self.save()
    }
}

} // verus!
