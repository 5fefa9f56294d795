//! Indexes the tags of a versioned binary archive set: scans every tag's raw
//! bytes for embedded identifiers and string hashes, inverts the discovered
//! references into a bidirectional graph, decides when a persisted cache of
//! that graph may be reused, and decodes the localized-text sub-format with
//! its relative-offset pointers and byte-substitution cipher.

pub mod cache;
pub mod chars;
pub mod endian;
pub mod graph;
pub mod hashes;
pub mod ids;
pub mod scanner;
pub mod table;
pub mod text;
