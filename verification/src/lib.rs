//! mini-obs: a lightweight log store for edge devices.
//!
//! The crate holds the storage format, template extraction, compression,
//! indexing, query and line-parsing logic as pure functions over bytes, text
//! and in-memory state. Files, clocks, threads and sockets live outside it.

pub mod agent;
pub mod cli;
pub mod shared;
