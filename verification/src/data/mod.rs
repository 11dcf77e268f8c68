//! The event data: frames of events, run-length encoded arrays and sample logs.
pub mod frame_data;
pub use frame_data::FrameData;
pub mod sample_logs;
pub mod rle_array;
