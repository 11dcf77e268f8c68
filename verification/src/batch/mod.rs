//! Batches of filter sets over one dataset.
pub mod interface;
pub use interface::{BatchError, DatasetSource, FilterIndex};
