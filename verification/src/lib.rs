//! Rotation-index allocation for a rolling log-file writer.
//!
//! The crate decides which numeric suffix identifies the next archived log
//! segment.  It covers the textual encoding of a rotation index into a
//! filename infix, the discovery of the highest index already in use from a
//! list of on-disk file stems, and the decision protocol that resolves the
//! index to use when the active file is promoted into the archive sequence.
//! Directory listing and the rename itself are performed by the caller; this
//! crate works on plain values and is verified.

pub mod allocator;
pub mod codec;
pub mod discovery;
pub mod naming;
