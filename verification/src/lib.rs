//! Bounded top-K selection of the largest files seen in a stream of
//! directory entries.
//!
//! The core of the library is [`top_k::TopKTracker`]: a fixed-capacity
//! collection that is fed `(path, size)` records one at a time and can be
//! read at any point as the K largest-size records seen so far, in
//! descending size order. The tracker fills unsorted up to its capacity,
//! sorts once on reaching it, and from then on maintains order with a
//! binary-search insertion per offer, so a stream of `n` records costs
//! `O(n log K)` comparisons rather than a full sort.
//!
//! [`file_data::FileData`] is the record type, together with its
//! human-readable size rendering (`1.50 KB`, `999 Bytes`, ...).

pub mod file_data;
pub mod top_k;

pub use file_data::FileData;
pub use file_data::FileDataTable;
pub use top_k::TopKTracker;
pub use top_k::reverse_binary_search_insert_index;
pub use top_k::sort_by_size_desc;
