//! An inverted-index storage engine.
//!
//! The engine accepts batches of `(partition, key, value)` triples and
//! answers point lookups that, given keys scoped to a partition, return
//! the values previously indexed under those keys.  Each partition is a
//! tiered segment map: a queue of immutable in-memory segments in front
//! of a queue of immutable on-disk segments, each disk segment being six
//! binary files fronted by a bloom filter.
//!
//! The crate itself performs no I/O: disk segments are modelled as the
//! byte images of their files, and the surrounding binary (argument
//! handling, the HTTP surface, reading and writing the actual files)
//! hands byte buffers in and out.

pub mod order;
pub mod entry;
pub mod bloom;
pub mod model;
pub mod memory;
pub mod disk;
pub mod segment;
pub mod partition;

pub use entry::{Entry, EntryError};
pub use memory::CachedSegment;
pub use disk::{DiskSegment, DiskResolutionError, SegmentFiles};
pub use segment::{TieredSegmentMap, SegmentMapError};
pub use partition::{PartitionMap, PartitionError};
