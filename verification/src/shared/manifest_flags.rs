//! Flags of manifest entries.

use vstd::prelude::*;

verus! {

/// An ordinary entry.
pub const NORMAL: u32 = 0;

/// The entry is marked as deleted.
pub const TOMBSTONE: u32 = 1;

} // verus!
