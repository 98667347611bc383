use vstd::prelude::*;

verus! {

/// The closed set of failures the store can report. Callers branch on the
/// variant rather than on message text.
#[derive(Clone, Copy, Debug, PartialEq, Eq, Structural)]
pub enum TodoError {
    /// `initialize_plan` when a store file is already present.
    AlreadyExists,
    /// A lookup or mutation names an identifier no task has, or a load
    /// finds no store file.
    NotFound,
    /// The store file exists but could not be read.
    ReadFailure,
    /// The store file could not be written.
    WriteFailure,
    /// The file's contents are not a valid serialized store.
    MalformedData,
}

} // verus!
