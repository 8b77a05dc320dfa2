//! The agent: templates, compression, storage, index and line parsing.

pub mod append_law;
pub mod batch_text;
pub mod chunk_law;
pub mod chunk_legacy;
pub mod chunk_read;
pub mod chunk_text;
pub mod codec;
pub mod collector;
pub mod collector_law;
pub mod compressor;
pub mod count_law;
pub mod extract;
pub mod format_law;
pub mod handle;
pub mod index;
pub mod index_law;
pub mod index_open;
pub mod index_scan;
pub mod index_truth;
pub mod json;
pub mod json_line;
pub mod keywords;
pub mod learn_law;
pub mod level_law;
pub mod manifest_file;
pub mod mock;
pub mod order_law;
pub mod parts;
pub mod plan_law;
pub mod query_law;
pub mod records;
pub mod recovery_law;
pub mod rescan_law;
pub mod segment_build;
pub mod segment_law;
pub mod segment_layout;
pub mod segment_plan;
pub mod segment_query;
pub mod storage;
pub mod storage_config;
pub mod storage_law;
pub mod storage_open;
pub mod storage_query;
pub mod tail;
pub mod template;
pub mod template_law;
pub mod tokens;
pub mod totals_law;
pub mod truth_law;
pub mod typed;
pub mod typed_law;
pub mod xor;

pub use compressor::{Compressor, CompressorConfig};
pub use handle::{AgentConfig, AgentHandle, CollectorConfig, SourceType};
pub use index::{Index, IndexStats};
pub use storage::StorageEngine;
pub use storage_config::{StorageConfig, StorageStats};
