//! Errors reported by the topology engine and the command interpreter.
//!
//! Every failure is surfaced to the immediate caller; no operation is applied
//! partially. An error either names a violated precondition (a caller bug,
//! such as an unknown handle) or a machine limit that the edit would exceed.

use vstd::prelude::*;

verus! {

#[derive(Clone, Copy, Debug, PartialEq, Eq, Structural)]
pub enum EditError {
    /// A command needs a selected handle but the selection stack is empty.
    EmptySelection,
    /// The given selection handle was never allocated.
    UnknownHandle,
    /// The given command key is not in the log.
    UnknownKey,
    /// A corner index lies beyond the face-corner array.
    CornerOutOfRange,
    /// A split ratio lies outside `[0, RATIO_ONE]`.
    RatioOutOfRange,
    /// A translated coordinate would leave the `i64` range.
    PositionOverflow,
    /// The tied-vertex walk did not return to its starting corner.
    RingNotClosed,
    /// A vertex index does not name a live vertex.
    UnknownVertex,
    /// The vertex is already on the free-list of pending deletions.
    AlreadyDeleted,
    /// The vertex is still referenced by a face corner.
    VertexInUse,
    /// Growing the mesh or the command log would exceed a machine limit.
    CapacityExceeded,
}

} // verus!
