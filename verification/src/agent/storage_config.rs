//! How the storage engine works, and numbers about it.

use crate::agent::compressor;
use vstd::prelude::*;

verus! {

/// How the storage engine works.
#[derive(Debug)]
pub struct StorageConfig {
    /// How many lines are buffered at most.
    pub max_buffer_lines: usize,
    /// How many bytes of log are buffered at most.
    pub max_buffer_bytes: usize,
    /// Compression level of zstd.
    pub compression_level: i32,
    /// How many lines a chunk holds, in segments of more than one chunk.
    pub chunk_size: usize,
    /// Dictionary of zstd for batches.
    pub dict: Option<Vec<u8>>,
    /// Segments of up to that many lines have one chunk,
    pub single_chunk_threshold_lines: usize,
    /// if their messages have up to that many bytes.
    pub single_chunk_threshold_bytes: usize,
    /// From how many chunks on a segment gets a dictionary of its own.
    pub dict_training_min_chunks: usize,
    /// From how many chunks that dictionary is made.
    pub dict_training_sample_chunks: usize,
}

impl Default for StorageConfig {
    fn default() -> (r: Self)
        ensures
            r.max_buffer_lines == 4096,
            r.max_buffer_bytes == 262144,
            r.compression_level == 3,
            r.chunk_size == 1024,
            r.dict is None,
            r.single_chunk_threshold_lines == 4096,
            r.single_chunk_threshold_bytes == 2097152,
            r.dict_training_min_chunks == usize::MAX,
            r.dict_training_sample_chunks == 8,
    {
        StorageConfig {
            max_buffer_lines: 4096,
            max_buffer_bytes: 256 * 1024,
            compression_level: 3,
            chunk_size: 1024,
            dict: None,
            single_chunk_threshold_lines: 4096,
            single_chunk_threshold_bytes: 2 * 1024 * 1024,
            dict_training_min_chunks: usize::MAX,
            dict_training_sample_chunks: 8,
        }
    }
}

impl Clone for StorageConfig {
    fn clone(&self) -> (r: Self)
        ensures
            r.max_buffer_lines == self.max_buffer_lines,
            r.max_buffer_bytes == self.max_buffer_bytes,
            r.compression_level == self.compression_level,
            r.chunk_size == self.chunk_size,
            compressor::owned_dict(r.dict) == compressor::owned_dict(self.dict),
            r.single_chunk_threshold_lines == self.single_chunk_threshold_lines,
            r.single_chunk_threshold_bytes == self.single_chunk_threshold_bytes,
            r.dict_training_min_chunks == self.dict_training_min_chunks,
            r.dict_training_sample_chunks == self.dict_training_sample_chunks,
    {
        StorageConfig {
            max_buffer_lines: self.max_buffer_lines,
            max_buffer_bytes: self.max_buffer_bytes,
            compression_level: self.compression_level,
            chunk_size: self.chunk_size,
            dict: compressor::copy_dict(&self.dict),
            single_chunk_threshold_lines: self.single_chunk_threshold_lines,
            single_chunk_threshold_bytes: self.single_chunk_threshold_bytes,
            dict_training_min_chunks: self.dict_training_min_chunks,
            dict_training_sample_chunks: self.dict_training_sample_chunks,
        }
    }
}

/// Numbers about the storage engine.
#[derive(Debug, Clone, Copy)]
pub struct StorageStats {
    pub segment_count: usize,
    pub total_lines: u64,
    pub buffered_lines: usize,
    pub buffered_bytes: usize,
    pub total_original_bytes: u64,
    pub total_compressed_bytes: u64,
}

impl Default for StorageStats {
    fn default() -> (r: Self)
        ensures
            r.segment_count == 0,
            r.total_lines == 0,
            r.buffered_lines == 0,
            r.buffered_bytes == 0,
            r.total_original_bytes == 0,
            r.total_compressed_bytes == 0,
    {
        StorageStats {
            segment_count: 0,
            total_lines: 0,
            buffered_lines: 0,
            buffered_bytes: 0,
            total_original_bytes: 0,
            total_compressed_bytes: 0,
        }
    }
}

} // verus!
