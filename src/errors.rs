use vstd::prelude::*;

verus! {

/// Why the log or the store refuses an operation.
#[derive(Clone, Copy, Debug, PartialEq, Eq, Structural)]
pub enum ErrorKind {
    /// A file's magic number is not the one its format has.
    BadMagic,
    /// The log's header names another page size than the caller's.
    PageSizeMismatch,
    /// A header ended before all of its fields.
    ShortRead,
    /// An operation that the library's rules forbid (the frame space or the
    /// epoch counter is used up).
    LogicError,
}

} // verus!
