//! The error kinds that operations surface. Absence of a key is not an
//! error: reads report it as `None`.

use vstd::prelude::*;

verus! {

#[derive(Clone, Copy, Debug, PartialEq, Eq, Structural)]
pub enum VsError {
    /// A disk or store failure; fatal to the operation it interrupted.
    BackendIo,
    /// A branch or version that does not exist, or a write aimed at a
    /// coordinate that is not the tip of its branch.
    InvalidCoordinate,
    /// A branch cannot be removed or popped while another branch forks
    /// from it at or above the affected version.
    BranchHasDescendants,
    /// A new branch would exceed the ancestor-chain bound.
    AncestorsExceeded,
    /// The process-wide base directory was set a second time.
    AllocatorReinit,
    /// Stored bytes did not decode back to a value of the expected type.
    DecodeError,
    /// A branch or version name is already registered.
    Conflict,
}

} // verus!
