use vstd::prelude::*;

verus! {

/// Why an index refused a `put`.
#[derive(Clone, Copy, PartialEq, Eq, Structural, Debug)]
pub enum Error {
    /// The arena has too little room left for what the `put` has to store.
    /// The index is as it was before the call.
    CapacityExceeded,
}

} // verus!
