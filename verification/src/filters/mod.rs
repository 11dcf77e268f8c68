//! Filtering of frames: weights and the functions that compute them.
pub mod weights;
pub use weights::Weights;
pub mod filtering;
pub use filtering::{get_log_weights, get_weights};
pub mod api;
