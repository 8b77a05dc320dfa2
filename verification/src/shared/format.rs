//! The MOBS storage format.
//!
//! ```text
//! segment v1 = header (64) + chunk table (N x 32) + padding + data + footer (8)
//! segment v2 = header (64) + pattern table + [dictionary] + chunk table (N x 32)
//!              + chunk summaries (N x 80) + padding + data + footer (8)
//! WAL        = JSON lines
//! ```

pub use crate::shared::chunk::{ChunkEntry, ChunkSummary};
pub use crate::shared::crc::crc32;
pub use crate::shared::error::FormatError;
pub use crate::shared::footer::SegmentFooter;
pub use crate::shared::header::{
    SegmentHeader, ALIGNMENT, CHUNK_ENTRY_SIZE, CHUNK_SUMMARY_SIZE, FORMAT_VERSION,
    FORMAT_VERSION_V1, FORMAT_VERSION_V2, MANIFEST_ENTRY_SIZE, MIN_SEGMENT_SIZE, MOBS_MAGIC,
    SEGMENT_FOOTER_SIZE, SEGMENT_HEADER_SIZE,
};
pub use crate::shared::log::LogLine;
pub use crate::shared::manifest::{ManifestEntry, ManifestHeader, MIDX_MAGIC};
pub use crate::shared::manifest_flags;
pub use crate::shared::names::{
    align_up, hash_path, now_ms, padding_needed, parse_segment_name, segment_name,
};
pub use crate::shared::segment::ParsedSegment;
pub use crate::shared::summary::{bloom_hash, SegmentSummary};
pub use crate::shared::wal::{WalRecord, WAL_MAGIC};
