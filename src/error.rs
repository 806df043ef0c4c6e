use vstd::prelude::*;

verus! {

/// Enumerates the different types of errors.
#[derive(Clone, Copy, Debug, PartialEq, Eq, Structural)]
pub enum TfError {
    /// The requested time precedes the oldest sample kept on some edge of the path.
    AttemptedLookupInPast,
    /// The requested time is newer than the newest sample kept on some edge of the path.
    AttemptedLookUpInFuture,
    /// There is no path between the two frames.
    CouldNotFindTransform,
    /// The shared buffer could not be locked for the operation.
    CouldNotAcquireLock,
}

} // verus!
