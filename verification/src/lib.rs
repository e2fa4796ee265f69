//! A file-backed ticket tracker: the record format, identifiers, the
//! dependency graph with its readiness rules, and the store that holds it all.

pub mod commands;
pub mod cycles;
pub mod document;
pub mod error;
pub mod header;
pub mod id;
pub mod number;
pub mod ready;
pub mod storage;
pub mod text;
pub mod tree;
pub mod types;
