//! Promise identifiers.
//!
//! A [`PromiseId`] is unique for the lifetime of the process: it carries the
//! tag of the execution lane that issued it together with a locally
//! incrementing serial number, so identifiers issued on different lanes never
//! collide.  Identifiers are immutable once issued.

use vstd::prelude::*;

verus! {

/// The identity of one promise: the issuing lane's tag plus that lane's
/// serial counter at the moment of issue.
#[derive(Clone, Copy, PartialEq, Eq, Hash, Debug, Structural)]
pub struct PromiseId {
    pub lane: u64,
    pub serial: u64,
}

impl PromiseId {
    /// Build an identifier from its two components.
    pub fn new(lane: u64, serial: u64) -> (id: PromiseId)
        ensures
            id == (PromiseId { lane, serial }),
    {
        PromiseId { lane, serial }
    }
}

} // verus!
