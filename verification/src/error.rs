//! The one way a lookup can fail.

use vstd::prelude::*;

verus! {

/// Why a partition could not be computed.
#[derive(Clone, Copy, Debug, PartialEq, Eq, Structural)]
pub enum PartitionError {
    /// The partition count was zero or negative.
    InvalidPartitionCount,
}

} // verus!
