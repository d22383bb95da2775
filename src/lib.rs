//! A small text archive format: an optional comment followed by named files,
//! each introduced by a marker line of the form `-- name --`.
pub mod archive;
pub mod model;
pub mod scan;

pub use archive::{Archive, File};
pub mod laws;
