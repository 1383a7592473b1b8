use vstd::prelude::*;

verus! {

/// Why an operation on the store did not succeed. Absence of a value is not
/// an error and has no variant here.
#[derive(Debug, PartialEq, Eq, Clone)]
pub enum StoreError {
    /// A scan was asked to start after a key rather than at it.
    UnsupportedStartBound,
    /// The store failed to read, with its diagnostic text.
    ReadFailed(String),
    /// The store failed to apply a batch, with its diagnostic text.
    WriteFailed(String),
}

} // verus!
