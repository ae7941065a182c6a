//! Classifies loosely structured file names into destination paths.
//!
//! A `%var%` template language describes output names, a `{...}`/`?` pattern
//! language is compiled to a capturing regular expression that decomposes
//! existing file names, and a catalog of named schemas with typed fields is
//! resolved recursively into a linear classification chain that renders back
//! into a target path.

pub mod config;
pub mod error;
pub mod format;
pub mod helper;
pub mod mover;
pub mod numbers;
pub mod outside;
pub mod parser;
pub mod path;
pub mod schema;
pub mod strutil;
