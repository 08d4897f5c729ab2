//! Limits of the in-memory caches of decrypted entries.
use vstd::prelude::*;

verus! {

/// Upper bound on the total size, in bytes, of the entries a cache holds.
pub const TOTAL_MAX_BYTES: usize = 8 * 1024 * 1024;

/// Entries larger than this many bytes are never cached.
pub const PER_ITEM_MAX_BYTES: usize = 2 * 1024 * 1024;

/// Upper bound on the number of entries in the full-content cache.
pub const MAX_ITEMS: usize = 100;

} // verus!
