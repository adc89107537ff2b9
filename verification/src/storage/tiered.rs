//! Data structures that live in memory or on disk.

use vstd::prelude::*;

verus! {

/// The storage tier of a data structure.
#[derive(Debug, Clone, Copy, PartialEq, Eq, Structural, Hash)]
#[non_exhaustive]
pub enum StorageTier {
    /// Fully in memory. Fastest for reads and writes.
    InMemory,
    /// On disk, mapped into memory. The page cache keeps reads warm.
    OnDisk,
    /// Not yet initialized: the structure exists but has no data.
    Uninitialized,
}

impl StorageTier {
    /// Whether the data is fully in memory.
    #[must_use]
    pub fn is_in_memory(self) -> (r: bool)
        ensures
            r == (self == StorageTier::InMemory),
    {
        self == Self::InMemory
    }

    /// Whether the data is served from disk.
    #[must_use]
    pub fn is_on_disk(self) -> (r: bool)
        ensures
            r == (self == StorageTier::OnDisk),
    {
        self == Self::OnDisk
    }
}

/// Why data could not be moved between tiers.
#[derive(Debug)]
pub struct TierError {
    /// What went wrong.
    pub message: String,
}

/// A storage subsystem that can move between memory and disk.
pub trait TieredStore: Send + Sync {
    /// Estimated memory in bytes if the structure is built entirely in memory;
    /// zero when it is on disk or uninitialized.
    fn estimated_ram_bytes(&self) -> usize;

    /// The current tier.
    fn tier(&self) -> StorageTier;

    /// Writes the state in memory to the given path, without freeing it.
    fn persist(&self, path: &str) -> Result<(), TierError>;

    /// Drops the data in memory and serves reads from a file written before.
    fn open_mmap(&self, path: &str) -> Result<(), TierError>;

    /// Loads the data back into memory.
    fn reload_to_ram(&self) -> Result<(), TierError>;
}

} // verus!
