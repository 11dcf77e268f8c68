//! Event-data filtering and binning logic for muon event files.
//!
//! The library decides which frames of an event file are kept by a set of
//! time and sample-log filters, and how the kept events are grouped; reading
//! and writing the files themselves is left to its callers.
pub mod bits;
pub mod filters;
pub mod utils;
pub mod data;
pub mod stats;
pub mod text;
pub mod batch;
pub mod batch_interface;
pub mod gpu;
pub mod coverage;
pub mod histogram;
pub mod run_info;
pub mod binning;
