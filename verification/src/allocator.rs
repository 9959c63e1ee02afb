//! Rotation allocator: the decision protocol that resolves which index the
//! caller uses when naming the active file, and how the index advances when
//! the active file is promoted into the archive sequence.
//!
//! The one filesystem effect of a rotation — renaming the active file to its
//! archive name — is performed by the caller between the two steps here:
//! first [`working_index`] fixes the slot to rotate into, then
//! [`resolve_index`] turns the rename's outcome into the index to use going
//! forward, or into the propagated error.  This crate itself performs no
//! filesystem operation.

use vstd::prelude::*;

verus! {

/// The outcome of the caller's attempt to rename the active file to its
/// archive name.
pub enum RenameOutcome<E> {
    /// The rename succeeded: the working slot is now occupied.
    Renamed,
    /// The file to rotate was not there (nothing was ever written, or a
    /// concurrent rotation won the race): benign, nothing happened.
    SourceMissing,
    /// The rename failed for any other reason; the error propagates.
    Failed(E),
}

/// The working index: a previously-known index is trusted as-is; otherwise
/// the slot after the highest index found on disk, or slot `0` when no
/// archive exists yet.
pub open spec fn working_index_spec(o_index: Option<u32>, o_highest: Option<u32>) -> u32 {
    match o_index {
        Option::Some(idx) => idx,
        Option::None => match o_highest {
            Option::Some(h) => (h + 1) as u32,
            Option::None => 0u32,
        },
    }
}

/// Determines the working index from an optional previously-known index and
/// the optional highest index discovered on disk (consulted only when no
/// index was known).
pub fn working_index(o_index: Option<u32>, o_highest: Option<u32>) -> (r: u32)
    requires
        o_index is None ==> (o_highest matches Some(h) ==> h < u32::MAX),
    ensures
        r == working_index_spec(o_index, o_highest),
{
    match o_index {
        Some(idx) => idx,
        None => match o_highest {
            Some(h) => h + 1,
            None => 0,
        },
    }
}

/// Resolves the index to hand back after a rotation request.  `rotation` is
/// `None` when no rotation was requested, and otherwise carries the outcome
/// of the caller's rename of the active file into the working slot:
/// - no rotation requested: the working index is returned unchanged;
/// - the rename succeeded: the slot is filled, the next index is returned;
/// - the source was missing: benign, the working index is returned unchanged;
/// - any other failure: the error propagates unchanged.
pub fn resolve_index<E>(working: u32, rotation: Option<RenameOutcome<E>>) -> (r: Result<u32, E>)
    requires
        rotation matches Some(RenameOutcome::Renamed) ==> working < u32::MAX,
    ensures
        match rotation {
            Option::None => r == Ok::<u32, E>(working),
            Option::Some(RenameOutcome::Renamed) => r == Ok::<u32, E>((working + 1) as u32),
            Option::Some(RenameOutcome::SourceMissing) => r == Ok::<u32, E>(working),
            Option::Some(RenameOutcome::Failed(e)) => r == Err::<u32, E>(e),
        },
{
    match rotation {
        None => Ok(working),
        Some(RenameOutcome::Renamed) => Ok(working + 1),
        Some(RenameOutcome::SourceMissing) => Ok(working),
        Some(RenameOutcome::Failed(e)) => Err(e),
    }
}

} // verus!
