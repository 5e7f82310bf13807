//! A minimal single-file table store: schema-driven fixed-width row encoding,
//! append-only row storage, full-table predicate scans, and a secondary index
//! laid out as a binary-search tree flattened into a flat array of fixed-width
//! records.
//!
//! Every operation here works on plain values: schema files, data files and
//! index files are byte or character sequences handed in and out by the
//! caller, which owns the actual file I/O.

pub mod codec;
pub mod domain;
pub mod error;
pub mod index;
pub mod index_util;
pub mod numerals;
pub mod random;
pub mod store;
pub mod utils;
pub mod text;
