//! Pieces shared by every component: byte codecs, text helpers and the
//! on-disk format.

pub mod bloom;
pub mod bytes;
pub mod chunk;
pub mod crc;
pub mod error;
pub mod footer;
pub mod format;
pub mod header;
pub mod layout_law;
pub mod letters;
pub mod lines;
pub mod log;
pub mod manifest;
pub mod manifest_flags;
pub mod names;
pub mod numeral;
pub mod order;
pub mod segment;
pub mod summary;
pub mod text;
pub mod wal;
