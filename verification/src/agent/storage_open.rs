//! Opening the storage engine.

use crate::agent::compressor;
use crate::agent::compressor::{Compressor, CompressorConfig};
use crate::agent::index;
use crate::agent::index::Index;
use crate::agent::index_open;
use crate::agent::index_open::FileView;
use crate::agent::index_scan::SegmentFile;
use crate::agent::json;
use crate::agent::storage;
use crate::agent::storage::{StorageEngine, WrittenSegment};
use crate::agent::storage_config::StorageConfig;
use crate::shared::error::DataError;
use crate::shared::lines;
use crate::shared::log;
use crate::shared::log::{LogLine, LogView};
use vstd::prelude::*;

verus! {

/// An opened engine, and what is to be written to disk for it.
pub struct Opened {
    pub engine: StorageEngine,
    /// The manifest file, if there was none.
    pub manifest: Option<Vec<u8>>,
    /// The segment with the lines of the write-ahead log, if there were any.
    pub segment: Option<WrittenSegment>,
}

/// `e` is an engine as it is found in a data directory: with the index of the
/// segments, the lines of the write-ahead log in its buffer, and the sizes of
/// the segment files as totals.
pub open spec fn is_restored(
    dir: Seq<char>,
    config: StorageConfig,
    manifest: Option<&[u8]>,
    fs: Seq<FileView>,
    wal: Seq<u8>,
    e: StorageEngine,
) -> bool {
    let logs: Seq<LogView> = log::log_views(e.buffer@);
    &&& e.wf()
    &&& e.config == config
    &&& e.compressor.config.zstd_level == config.compression_level
    &&& e.compressor.config.enable_template
    &&& e.compressor.config.xor_ref_reset == 16
    &&& compressor::owned_dict(e.compressor.config.dict) == compressor::owned_dict(config.dict)
    &&& index_open::opens_as(dir, manifest, fs, e.index)
    &&& logs == json::lines_logs(lines::byte_lines(wal))
    &&& forall|ls: Seq<LogView>| wal == #[trigger] json::json_bytes(ls) ==> logs == ls
    &&& e.buffer_bytes == storage::clamped_usize(storage::json_len(logs, logs.len()))
    &&& (e.total_original, e.total_compressed) == storage::all_sizes(fs, fs.len())
}

impl StorageEngine {
    /// Opens the engine of a data directory. `manifest` is the manifest file, if
    /// there is one, `files` the files in the segment directory, and `wal` the
    /// write-ahead log. The lines of the write-ahead log become a segment at
    /// once.
    pub fn open(
        data_dir: &str,
        config: StorageConfig,
        manifest: Option<&[u8]>,
        files: &[SegmentFile],
        wal: &[u8],
        created_at: u64,
    ) -> (r: Result<Opened, DataError>)
        ensures
            exists|e: StorageEngine|
                {
                    &&& #[trigger] is_restored(
                        data_dir@,
                        config,
                        manifest,
                        index_open::file_views(files@),
                        wal@,
                        e,
                    )
                    &&& match r {
                        Ok(o) => {
                            &&& o.engine.wf()
                            &&& storage::flushes(e, o.engine, created_at, Ok(o.segment))
                            &&& index_open::saved_as(manifest, e.index, o.manifest)
                        },
                        Err(x) => exists|now: StorageEngine|
                            #[trigger] storage::flushes(e, now, created_at, Err(x)),
                    }
                },
    {
        let (idx, saved) = Index::open(data_dir, manifest, files);
        let compressor: Compressor = Compressor::new(
            CompressorConfig {
                zstd_level: config.compression_level,
                enable_template: true,
                xor_ref_reset: 16,
                dict: compressor::copy_dict(&config.dict),
            },
        );
        let (original, compressed) = storage::sum_sizes(files);
        let buffer: Vec<LogLine> = json::read_logs(wal);
        let buffer_bytes: usize = storage::json_size(&buffer);
        let mut engine: StorageEngine = StorageEngine {
            config,
            index: idx,
            compressor,
            buffer,
            buffer_bytes,
            total_original: original,
            total_compressed: compressed,
        };
        let ghost restored = engine;
        assert(is_restored(
            data_dir@,
            config,
            manifest,
            index_open::file_views(files@),
            wal@,
            restored,
        ));
        match engine.flush(created_at) {
            Ok(segment) => Ok(Opened { engine, manifest: saved, segment }),
            Err(x) => {
                assert(storage::flushes(restored, engine, created_at, Err(x)));
                Err(x)
            },
        }
    }
}

} // verus!
