//! What can go wrong.
use vstd::prelude::*;

verus! {

#[derive(Clone, Copy, PartialEq, Eq, Structural, Debug)]
pub enum Error {
    /// There is not enough memory, for the map or for an entry.
    TooLargeError,
}

} // verus!
