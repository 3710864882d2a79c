//! Failures of a refresh cycle.

use vstd::prelude::*;

verus! {

/// What went wrong while refreshing the mirror.
#[derive(Clone, Copy, Debug, PartialEq, Eq, Structural)]
pub enum SyncError {
    /// The remote API could not be read (network, timeout, malformed reply).
    Fetch,
    /// The cache could not be read or written.
    Store,
    /// A file's transport encoding was malformed.
    Decode,
}

} // verus!
