//! A k-way merge over sorted key/value sources, with duplicate keys resolved
//! in favour of the source that was listed first.
pub mod iterator;
pub mod key;
pub mod merge_iterator;
pub mod merge_model;

pub use iterator::StorageIterator;
pub use merge_iterator::MergeIterator;
