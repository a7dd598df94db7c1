use vstd::prelude::*;

verus! {

/// Why an index could not be built.
#[derive(Debug, PartialEq, Eq, Structural)]
pub enum Error {
    /// There are projects, but none of them carries any topic, so the
    /// index would have no level to branch on.
    SearchNodeEmptyTopics,
}

} // verus!
