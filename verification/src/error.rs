//! The error type of the engine.

use vstd::prelude::*;

verus! {

/// What can go wrong while a table is read or an iterator advances.
#[derive(Clone, Copy, Debug, PartialEq, Eq, Structural)]
pub enum Error {
    /// A read reached past the end of the file, or the file holds no data.
    Io,
    /// The bytes are not the encoding of a well-formed block, block-meta
    /// region, filter or table.
    Corruption,
    /// Entries were handed to a table builder out of ascending key order, or
    /// an entry cannot be represented in the table format.
    InvalidEntry,
    /// The table would exceed what the file format can address.
    TooLarge,
    /// The iterator failed before and refuses to advance.
    Fused,
    /// The tables of the store are not those that the work was done on.
    Stale,
}

impl Error {
    /// A short description of the error.
    pub fn message(&self) -> (s: &'static str)
        ensures
            s@ == match *self {
                Error::Io => "i/o error: short read"@,
                Error::Corruption => "corruption: malformed table data"@,
                Error::InvalidEntry => "invalid entry: out of order or oversized"@,
                Error::TooLarge => "table too large for the file format"@,
                Error::Fused => "has errored"@,
                Error::Stale => "the tables of the store have changed"@,
            },
    {
        match self {
            Error::Io => "i/o error: short read",
            Error::Corruption => "corruption: malformed table data",
            Error::InvalidEntry => "invalid entry: out of order or oversized",
            Error::TooLarge => "table too large for the file format",
            Error::Fused => "has errored",
            Error::Stale => "the tables of the store have changed",
        }
    }
}

} // verus!
