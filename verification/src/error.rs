use vstd::prelude::*;

verus! {

/// Why an operation of the page store did not succeed.
#[derive(Clone, Copy, Debug, PartialEq, Eq, Structural)]
pub enum Error {
    /// The database holds no block that is large enough, and cannot grow to make one.
    OutOfSpace,
    /// Work on the backing file (a flush or a resize) failed.
    Io,
}

} // verus!
