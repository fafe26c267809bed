use vstd::prelude::*;

verus! {

/// The error conditions the library reports to its callers.
#[derive(Debug, Clone, Copy, PartialEq, Eq)]
pub enum DodoError {
    /// A read asked for a key the store does not hold.
    NotFound,
    /// A snapshot text that is not well-formed JSON, or not a JSON object;
    /// such a load is abandoned whole.
    SnapshotParse,
}

} // verus!
