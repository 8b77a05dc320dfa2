//! Finding lines with the storage engine.

use crate::agent::compressor;
use crate::agent::index;
use crate::agent::index::{IndexStats, MetaView, SegmentMetaView};
use crate::agent::index_open;
use crate::agent::index_open::FileView;
use crate::agent::index_scan::SegmentFile;
use crate::agent::segment_query;
use crate::agent::segment_query::QueryView;
use crate::agent::storage::StorageEngine;
use crate::agent::storage_config::StorageStats;
use crate::shared::error::DataError;
use crate::shared::log;
use crate::shared::log::{LogLine, LogView};
use crate::shared::names;
use crate::shared::order;
use crate::shared::text;
use vstd::prelude::*;

verus! {

/// What was found, with what a further segment file gave.
pub open spec fn joined(found: Seq<LogView>, more: Result<Seq<LogView>, DataError>) -> Result<
    Seq<LogView>,
    DataError,
> {
    match more {
        Ok(m) => Ok(found + m),
        Err(e) => Err(e),
    }
}

/// What was found, unless there was an error.
pub open spec fn outcome(r: Result<(), DataError>, found: Seq<LogView>) -> Result<
    Seq<LogView>,
    DataError,
> {
    match r {
        Ok(_) => Ok(found),
        Err(e) => Err(e),
    }
}

/// `out` is what was found, with what a segment file gives: up to `room` lines.
pub open spec fn file_gives(
    data: Seq<u8>,
    q: QueryView,
    room: nat,
    dict: Option<Seq<u8>>,
    found: Seq<LogView>,
    out: Result<Seq<LogView>, DataError>,
) -> bool {
    exists|more: Result<Seq<LogView>, DataError>|
        #[trigger] segment_query::is_found(data, q, room, dict, more) && out == joined(found, more)
}

/// `out` is what is found up to and with the segment `id`, where `prev` was
/// found before it. An error and a full result stay as they are.
pub open spec fn file_step(
    fs: Seq<FileView>,
    id: u32,
    q: QueryView,
    limit: nat,
    dict: Option<Seq<u8>>,
    prev: Result<Seq<LogView>, DataError>,
    out: Result<Seq<LogView>, DataError>,
) -> bool {
    match prev {
        Err(_) => out == prev,
        Ok(found) => if found.len() >= limit {
            out == prev
        } else {
            match index_open::file_named(fs, names::segment_file_name(id as nat)) {
                None => out == Err::<Seq<LogView>, DataError>(DataError::SegmentMissing),
                Some(d) => file_gives(d, q, (limit - found.len()) as nat, dict, found, out),
            }
        },
    }
}

/// `outs` are what is found before the first, behind the first, and behind each
/// further one of the segments.
pub open spec fn is_course(
    fs: Seq<FileView>,
    range: Seq<SegmentMetaView>,
    q: QueryView,
    limit: nat,
    dict: Option<Seq<u8>>,
    outs: Seq<Result<Seq<LogView>, DataError>>,
) -> bool {
    &&& 0 < outs.len() <= range.len() + 1
    &&& outs[0] == Ok::<Seq<LogView>, DataError>(Seq::empty())
    &&& forall|i: int|
        0 <= i < outs.len() - 1 ==> file_step(
            fs,
            (#[trigger] range[i]).segment_id,
            q,
            limit,
            dict,
            outs[i],
            outs[i + 1],
        )
}

/// `out` is what is found in the segments, one after another.
pub open spec fn files_find(
    fs: Seq<FileView>,
    range: Seq<SegmentMetaView>,
    q: QueryView,
    limit: nat,
    dict: Option<Seq<u8>>,
    out: Result<Seq<LogView>, DataError>,
) -> bool {
    exists|outs: Seq<Result<Seq<LogView>, DataError>>|
        #[trigger] is_course(fs, range, q, limit, dict, outs) && outs.len() == range.len() + 1
            && outs.last() == out
}

/// The times of lines.
pub open spec fn times(logs: Seq<LogView>) -> Seq<u64> {
    Seq::new(logs.len(), |i: int| logs[i].ts)
}

/// `r` is the answer where `out` was found in the segment files: the buffered
/// lines fill it up to the limit, and the latest lines come first.
pub open spec fn is_answer(
    out: Result<Seq<LogView>, DataError>,
    buffer: Seq<LogView>,
    q: QueryView,
    limit: nat,
    r: Result<Seq<LogView>, DataError>,
) -> bool {
    match out {
        Err(_) => r == out,
        Ok(found) => {
            let all: Seq<LogView> = found + segment_query::first(
                segment_query::matching(buffer, q),
                (limit - found.len()) as nat,
            );
            r is Ok && order::is_ranking(all, times(all), r->Ok_0)
        },
    }
}

/// `r` is the answer of an engine with these index entries, segment files and
/// buffered lines. Segments are looked through in the order of their last time,
/// the latest first.
pub open spec fn answers(
    metas: Seq<MetaView>,
    fs: Seq<FileView>,
    buffer: Seq<LogView>,
    q: QueryView,
    limit: nat,
    dict: Option<Seq<u8>>,
    r: Result<Seq<LogView>, DataError>,
) -> bool {
    exists|range: Seq<SegmentMetaView>, out: Result<Seq<LogView>, DataError>|
        {
            &&& index::is_range(metas, q.start, q.end, range)
            &&& #[trigger] files_find(fs, range, q, limit, dict, out)
            &&& is_answer(out, buffer, q, limit, r)
        }
}

proof fn lemma_course_push(
    fs: Seq<FileView>,
    range: Seq<SegmentMetaView>,
    q: QueryView,
    limit: nat,
    dict: Option<Seq<u8>>,
    outs: Seq<Result<Seq<LogView>, DataError>>,
    out: Result<Seq<LogView>, DataError>,
)
    requires
        is_course(fs, range, q, limit, dict, outs),
        outs.len() <= range.len(),
        file_step(fs, range[outs.len() - 1].segment_id, q, limit, dict, outs.last(), out),
    ensures
        is_course(fs, range, q, limit, dict, outs.push(out)),
{
    let more: Seq<Result<Seq<LogView>, DataError>> = outs.push(out);
    assert forall|i: int| 0 <= i < more.len() - 1 implies file_step(
        fs,
        (#[trigger] range[i]).segment_id,
        q,
        limit,
        dict,
        more[i],
        more[i + 1],
    ) by {
        if i < outs.len() - 1 {
            assert(more[i] == outs[i] && more[i + 1] == outs[i + 1]);
        }
    }
}

proof fn lemma_course_stays(
    fs: Seq<FileView>,
    range: Seq<SegmentMetaView>,
    q: QueryView,
    limit: nat,
    dict: Option<Seq<u8>>,
    outs: Seq<Result<Seq<LogView>, DataError>>,
)
    requires
        is_course(fs, range, q, limit, dict, outs),
        outs.len() == range.len() + 1 || outs.last() is Err || outs.last()->Ok_0.len() >= limit,
    ensures
        files_find(fs, range, q, limit, dict, outs.last()),
    decreases range.len() + 1 - outs.len(),
{
    if outs.len() <= range.len() {
        lemma_course_push(fs, range, q, limit, dict, outs, outs.last());
        lemma_course_stays(fs, range, q, limit, dict, outs.push(outs.last()));
    }
}

fn newest_first(logs: &Vec<LogLine>) -> (r: Vec<LogLine>)
    ensures
        order::is_ranking(
            log::log_views(logs@),
            times(log::log_views(logs@)),
            log::log_views(r@),
        ),
        r@.len() == logs@.len(),
{
    let ghost lv = log::log_views(logs@);
    let mut keys: Vec<u64> = Vec::new();
    let mut i: usize = 0;
    while i < logs.len()
        invariant
            i <= logs@.len(),
            keys@.len() == i,
            forall|k: int| 0 <= k < i ==> #[trigger] keys@[k] == logs@[k].ts,
        decreases logs@.len() - i,
    {
        keys.push(logs[i].ts);
        i += 1;
    }
    assert(keys@ =~= times(lv));
    let ranking: Vec<usize> = order::rank(&keys);
    let mut out: Vec<LogLine> = Vec::new();
    let mut k: usize = 0;
    while k < ranking.len()
        invariant
            k <= ranking@.len(),
            order::ranks(keys@, ranking@, 0, logs@.len() as int),
            out@.len() == k,
            forall|j: int| 0 <= j < k ==> #[trigger] out@[j] == logs@[ranking@[j] as int],
        decreases ranking@.len() - k,
    {
        out.push(logs[ranking[k]].clone());
        k += 1;
    }
    proof {
        assert(log::log_views(out@) =~= Seq::new(lv.len(), |i: int| lv[ranking@[i] as int]));
        assert(order::is_ranking(lv, times(lv), log::log_views(out@)));
    }
    out
}

/// `r` are the numbers about an engine.
pub open spec fn counts_as(e: StorageEngine, r: StorageStats) -> bool {
    &&& r.segment_count == e.index.segments@.len()
    &&& r.total_lines == index::clamped64(
        index::lines_sum(index::metas(e.index.segments@), e.index.segments@.len()),
    )
    &&& r.buffered_lines == e.buffer@.len()
    &&& r.buffered_bytes == e.buffer_bytes
    &&& r.total_original_bytes == e.total_original
    &&& r.total_compressed_bytes == e.total_compressed
}

impl StorageEngine {
    fn query_file(
        &self,
        id: u32,
        start: u64,
        end: u64,
        keyword: &[char],
        limit: usize,
        files: &[SegmentFile],
        found: &mut Vec<LogLine>,
    ) -> (r: Result<(), DataError>)
        requires
            old(found)@.len() < limit,
        ensures
            final(found)@.len() <= limit,
            file_step(
                index_open::file_views(files@),
                id,
                (QueryView { start, end, keyword: keyword@ }),
                limit as nat,
                compressor::owned_dict(self.compressor.config.dict),
                Ok(log::log_views(old(found)@)),
                outcome(r, log::log_views(final(found)@)),
            ),
    {
        let name: String = names::segment_name(id);
        match index_open::find_file(files, name.as_str()) {
            None => Err(DataError::SegmentMissing),
            Some(at) => {
                let more: Result<Vec<LogLine>, DataError> = segment_query::query_segment(
                    &self.compressor,
                    files[at].data,
                    start,
                    end,
                    keyword,
                    limit - found.len(),
                );
                let ghost mv = segment_query::result_views(more);
                match more {
                    Err(e) => {
                        assert(joined(log::log_views(old(found)@), mv) == Err::<
                            Seq<LogView>,
                            DataError,
                        >(e));
                        Err(e)
                    },
                    Ok(mut lines) => {
                        let ghost added = lines@;
                        found.append(&mut lines);
                        assert(log::log_views(found@) =~= log::log_views(old(found)@)
                            + log::log_views(added));
                        assert(joined(log::log_views(old(found)@), mv) == Ok::<
                            Seq<LogView>,
                            DataError,
                        >(log::log_views(found@)));
                        Ok(())
                    },
                }
            },
        }
    }

    fn query_files(
        &self,
        range: &Vec<SegmentMetaView>,
        start: u64,
        end: u64,
        keyword: &[char],
        limit: usize,
        files: &[SegmentFile],
    ) -> (r: Result<Vec<LogLine>, DataError>)
        ensures
            files_find(
                index_open::file_views(files@),
                range@,
                (QueryView { start, end, keyword: keyword@ }),
                limit as nat,
                compressor::owned_dict(self.compressor.config.dict),
                segment_query::result_views(r),
            ),
            r is Ok ==> r->Ok_0@.len() <= limit,
    {
        let ghost fs = index_open::file_views(files@);
        let ghost q = QueryView { start, end, keyword: keyword@ };
        let ghost dict = compressor::owned_dict(self.compressor.config.dict);
        let mut found: Vec<LogLine> = Vec::new();
        let mut i: usize = 0;
        assert(log::log_views(found@) =~= Seq::<LogView>::empty());
        let ghost mut outs = seq![Ok::<Seq<LogView>, DataError>(log::log_views(found@))];
        while i < range.len() && found.len() < limit
            invariant
                i <= range@.len(),
                fs == index_open::file_views(files@),
                q == (QueryView { start, end, keyword: keyword@ }),
                dict == compressor::owned_dict(self.compressor.config.dict),
                found@.len() <= limit,
                is_course(fs, range@, q, limit as nat, dict, outs),
                outs.len() == i + 1,
                outs.last() == Ok::<Seq<LogView>, DataError>(log::log_views(found@)),
            decreases range@.len() - i,
        {
            let r: Result<(), DataError> = self.query_file(
                range[i].segment_id,
                start,
                end,
                keyword,
                limit,
                files,
                &mut found,
            );
            proof {
                let out: Result<Seq<LogView>, DataError> = outcome(r, log::log_views(found@));
                lemma_course_push(fs, range@, q, limit as nat, dict, outs, out);
                outs = outs.push(out);
            }
            if let Err(e) = r {
                proof {
                    lemma_course_stays(fs, range@, q, limit as nat, dict, outs);
                }
                return Err(e);
            }
            i += 1;
        }
        proof {
            lemma_course_stays(fs, range@, q, limit as nat, dict, outs);
        }
        Ok(found)
    }

    /// Finds the lines from `start` to `end` that hold the keyword, up to
    /// `limit` lines, the latest first. `files` are the segment files.
    pub fn query(&self, start: u64, end: u64, keyword: &str, limit: usize, files: &[SegmentFile])
        -> (r: Result<Vec<LogLine>, DataError>)
        ensures
            answers(
                index::metas(self.index.segments@),
                index_open::file_views(files@),
                log::log_views(self.buffer@),
                (QueryView { start, end, keyword: keyword@ }),
                limit as nat,
                compressor::owned_dict(self.compressor.config.dict),
                segment_query::result_views(r),
            ),
            r is Ok ==> r->Ok_0@.len() <= limit,
    {
        let ghost q = QueryView { start, end, keyword: keyword@ };
        let chars: Vec<char> = text::chars_of(keyword);
        let range: Vec<SegmentMetaView> = self.index.query_range(start, end);
        let found: Result<Vec<LogLine>, DataError> = self.query_files(
            &range,
            start,
            end,
            chars.as_slice(),
            limit,
            files,
        );
        let ghost out = segment_query::result_views(found);
        match found {
            Err(e) => {
                assert(is_answer(out, log::log_views(self.buffer@), q, limit as nat, Err(e)));
                Err(e)
            },
            Ok(mut logs) => {
                segment_query::push_matching(
                    &mut logs,
                    &self.buffer,
                    start,
                    end,
                    chars.as_slice(),
                    limit,
                );
                let r: Vec<LogLine> = newest_first(&logs);
                assert(is_answer(
                    out,
                    log::log_views(self.buffer@),
                    q,
                    limit as nat,
                    Ok(log::log_views(r@)),
                ));
                Ok(r)
            },
        }
    }

    /// Numbers about the engine.
    pub fn stats(&self) -> (r: StorageStats)
        ensures
            counts_as(*self, r),
    {
        let stats: IndexStats = self.index.stats();
        StorageStats {
            segment_count: stats.segment_count,
            total_lines: stats.total_lines,
            buffered_lines: self.buffer.len(),
            buffered_bytes: self.buffer_bytes,
            total_original_bytes: self.total_original,
            total_compressed_bytes: self.total_compressed,
        }
    }
}

} // verus!
