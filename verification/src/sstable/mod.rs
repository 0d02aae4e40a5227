//! Sorted tables on disk.
//!
//! - [`layout`]: the bytes of a table.
//! - [`bloom`]: the filter that spares reads for absent keys.
//! - [`writer`] and [`reader`]: writing a table, lookups and walks.
//! - [`roundtrip`]: what was written is what is read.
//! - [`laws`]: what tables and filters promise of their entries.
//! - [`merge`]: the merge of tables.

pub mod bloom;
pub mod laws;
pub mod layout;
pub mod merge;
pub mod reader;
pub mod roundtrip;
pub mod writer;

pub use bloom::BloomFilter;
pub use merge::{MergeSource, MergingIterator, SortedEntryIter};
pub use reader::{SsTableIterator, SsTableLookup, SsTableReader};
pub use writer::SsTableWriter;
