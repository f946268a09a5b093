//! Typed, path-addressed access to YAML value trees.

pub mod error;
pub mod value;
pub mod yutil;
