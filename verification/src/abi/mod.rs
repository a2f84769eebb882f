//! Contract metadata.
pub mod substrate;
