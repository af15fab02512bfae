use vstd::prelude::*;

verus! {

/// Every way a query can fail. All are fatal to the one query in flight;
/// nothing is retried.
#[derive(Clone, Copy, Debug, PartialEq, Eq, Structural)]
pub enum Error {
    /// The caller handed no database path or no command.
    BadArgs,
    /// The underlying read of the database file failed.
    Io,
    /// The file ends before the bytes that were asked for.
    ShortRead,
    /// A variable-length integer runs past the end of its buffer.
    MalformedVarint,
    /// A record names a serial type outside the supported set.
    UnknownSerialType,
    /// A page's leading byte names no supported B-tree page type, or the
    /// page's structure breaks an invariant of the format.
    UnsupportedPageType,
    /// The named table is not in the schema.
    UnknownTable,
    /// The named column is not in the table's declaration.
    UnknownColumn,
    /// The command is none of the supported shapes.
    UnknownCommand,
}

} // verus!
