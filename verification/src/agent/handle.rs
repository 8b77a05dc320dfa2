//! The parts of an agent, put together.

use crate::agent::compressor;
use crate::agent::compressor::{Compressor, CompressorConfig};
use crate::agent::index::Index;
use crate::agent::index_open;
use crate::agent::index_scan::SegmentFile;
use crate::agent::storage_config::StorageConfig;
use vstd::prelude::*;

verus! {

/// Where log lines come from.
#[derive(Debug, Clone)]
pub enum SourceType {
    /// A log file that is followed, also when it is replaced.
    File { path: String },
    /// The standard input.
    Stdin,
    /// Made-up lines.
    Mock { rate_per_sec: u32, duration_sec: u32 },
}

/// How log lines are collected.
#[derive(Debug, Clone)]
pub struct CollectorConfig {
    pub source: SourceType,
    /// How often a file is looked at, in milliseconds.
    pub poll_interval_ms: u64,
    /// The service of lines that do not name one.
    pub service_name: String,
}

/// How an agent works.
pub struct AgentConfig {
    pub data_dir: String,
    pub service_name: String,
    /// How often a file is looked at, in milliseconds.
    pub collector_interval_ms: u64,
    pub storage_config: StorageConfig,
}

/// The configuration of storage where nothing else is said.
pub open spec fn is_default_storage(c: StorageConfig) -> bool {
    &&& c.max_buffer_lines == 4096
    &&& c.max_buffer_bytes == 262144
    &&& c.compression_level == 3
    &&& c.chunk_size == 1024
    &&& c.dict is None
    &&& c.single_chunk_threshold_lines == 4096
    &&& c.single_chunk_threshold_bytes == 2097152
    &&& c.dict_training_min_chunks == usize::MAX
    &&& c.dict_training_sample_chunks == 8
}

impl Default for AgentConfig {
    fn default() -> (r: Self)
        ensures
            r.data_dir@ == "/var/lib/mini-obs"@,
            r.service_name@ == "app"@,
            r.collector_interval_ms == 100,
            is_default_storage(r.storage_config),
    {
        AgentConfig {
            data_dir: "/var/lib/mini-obs".to_string(),
            service_name: "app".to_string(),
            collector_interval_ms: 100,
            storage_config: StorageConfig::default(),
        }
    }
}

impl Clone for AgentConfig {
    fn clone(&self) -> (r: Self)
        ensures
            r.data_dir@ == self.data_dir@,
            r.service_name@ == self.service_name@,
            r.collector_interval_ms == self.collector_interval_ms,
            r.storage_config.max_buffer_lines == self.storage_config.max_buffer_lines,
            r.storage_config.max_buffer_bytes == self.storage_config.max_buffer_bytes,
            r.storage_config.compression_level == self.storage_config.compression_level,
            r.storage_config.chunk_size == self.storage_config.chunk_size,
            compressor::owned_dict(r.storage_config.dict) == compressor::owned_dict(
                self.storage_config.dict,
            ),
            r.storage_config.single_chunk_threshold_lines
                == self.storage_config.single_chunk_threshold_lines,
            r.storage_config.single_chunk_threshold_bytes
                == self.storage_config.single_chunk_threshold_bytes,
            r.storage_config.dict_training_min_chunks
                == self.storage_config.dict_training_min_chunks,
            r.storage_config.dict_training_sample_chunks
                == self.storage_config.dict_training_sample_chunks,
    {
        AgentConfig {
            data_dir: self.data_dir.clone(),
            service_name: self.service_name.clone(),
            collector_interval_ms: self.collector_interval_ms,
            storage_config: self.storage_config.clone(),
        }
    }
}

/// An agent: its configuration, from which its parts are made.
pub struct AgentHandle {
    pub config: AgentConfig,
}

impl AgentHandle {
    /// Makes an agent for a data directory. `manifest` is the manifest file of
    /// its index, if there is one, and `files` the files in its segment
    /// directory. What comes back with the agent is the manifest file that is to
    /// be written, if there was none and there are segments.
    pub fn open(data_dir: &str, service: &str, manifest: Option<&[u8]>, files: &[SegmentFile])
        -> (r: (Self, Option<Vec<u8>>))
        ensures
            r.0.config.data_dir@ == data_dir@,
            r.0.config.service_name@ == service@,
            r.0.config.collector_interval_ms == 100,
            is_default_storage(r.0.config.storage_config),
            exists|idx: Index|
                #[trigger] index_open::opens_as(
                    data_dir@,
                    manifest,
                    index_open::file_views(files@),
                    idx,
                ) && index_open::saved_as(manifest, idx, r.1),
    {
        let (_, saved) = Index::open(data_dir, manifest, files);
        let config: AgentConfig = AgentConfig {
            data_dir: data_dir.to_string(),
            service_name: service.to_string(),
            collector_interval_ms: 100,
            storage_config: StorageConfig::default(),
        };
        (AgentHandle { config }, saved)
    }

    /// How lines from that source are to be collected.
    pub fn create_collector(&self, source: SourceType) -> (r: CollectorConfig)
        ensures
            r.source == source,
            r.poll_interval_ms == self.config.collector_interval_ms,
            r.service_name@ == self.config.service_name@,
    {
        CollectorConfig {
            source,
            poll_interval_ms: self.config.collector_interval_ms,
            service_name: self.config.service_name.clone(),
        }
    }

    /// Makes a compressor, with or without a dictionary.
    pub fn create_compressor(&self, dict: Option<Vec<u8>>) -> (r: Compressor)
        ensures
            r.config.zstd_level == self.config.storage_config.compression_level,
            r.config.enable_template,
            r.config.xor_ref_reset == 16,
            r.config.dict == dict,
    {
        Compressor::new(
            CompressorConfig {
                zstd_level: self.config.storage_config.compression_level,
                enable_template: true,
                xor_ref_reset: 16,
                dict,
            },
        )
    }
}

} // verus!
