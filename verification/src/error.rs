use vstd::prelude::*;

verus! {

/// The error taxonomy of the storage and indexing engine.
///
/// Every failure surfaces to the caller as a typed result; the engine performs
/// no local recovery or partial-failure masking.
#[derive(Clone, Copy, Debug, PartialEq, Eq, Structural)]
pub enum StoreError {
    /// The table's schema record does not exist.
    SchemaNotFound,
    /// The schema record does not parse: wrong field count, a bad number, an
    /// unknown column-type token, or a row width that is not the sum of the
    /// per-column widths.
    SchemaCorrupt,
    /// A column name does not occur in the schema.
    UnknownColumn,
    /// An INT column's value does not parse as a signed integer.
    NotAnInteger,
    /// An encoded form exceeds the declared fixed width.
    ValueTooWide,
    /// A stored field is not valid base-16 text, or its decoded bytes are not
    /// valid UTF-8.
    MalformedField,
    /// A positional read lies beyond the end of the stored data.
    SlotOutOfRange,
    /// Navigating the serialized index ran past the end of the index file.
    IndexLookupFailed,
    /// The underlying storage medium failed.
    IOFailure,
}

} // verus!
