//! An in-memory configuration store: a mapping from string keys to string
//! values, reached through a small contract (existence check, lookup,
//! insert-or-overwrite, enumeration), together with a parser for
//! `key=value` configuration lines.

pub mod config;
pub mod loader;
