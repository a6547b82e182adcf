//! Sorted string tables: the on-disk runs of the store, and the in-memory
//! table that collects writes before they are flushed.
pub mod format;
pub mod memtable;
pub mod write;
pub mod read;
pub mod laws;
use vstd::prelude::*;

verus! {

/// An immutable sorted table on disk. It carries no state: writing one is
/// `SSTableWriter`'s work and reading one `SSTableReader`'s.
pub struct SSTable {}

} // verus!
