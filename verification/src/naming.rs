//! The naming specification: which optional components take part in a log
//! file's name.
//!
//! Path composition itself (directory, extension, the components' text) is
//! the caller's business; discovery only needs to know whether any component
//! precedes the infix in a file's stem, because that decides where the infix
//! is found.

use vstd::prelude::*;

verus! {

/// The shape of the naming pattern for log files: whether a user-chosen
/// basename, a discriminant tag, or an embedded timestamp is part of a
/// file's stem.
#[derive(Clone, Copy, PartialEq, Eq, Structural)]
pub struct FileSpec {
    pub basename: bool,
    pub discriminant: bool,
    pub timestamp: bool,
}

impl FileSpec {
    /// Whether any component precedes the infix, so that the infix is the
    /// trailing stem segment after the last `"_r"` marker; otherwise the stem
    /// is the bare infix.
    pub open spec fn uses_marker_spec(&self) -> bool {
        self.basename || self.discriminant || self.timestamp
    }

    pub fn new(basename: bool, discriminant: bool, timestamp: bool) -> (r: FileSpec)
        ensures
            r == (FileSpec { basename, discriminant, timestamp }),
    {
        FileSpec { basename, discriminant, timestamp }
    }

    pub fn has_basename(&self) -> (r: bool)
        ensures
            r == self.basename,
    {
        self.basename
    }

    pub fn has_discriminant(&self) -> (r: bool)
        ensures
            r == self.discriminant,
    {
        self.discriminant
    }

    pub fn uses_timestamp(&self) -> (r: bool)
        ensures
            r == self.timestamp,
    {
        self.timestamp
    }

    pub fn uses_marker(&self) -> (r: bool)
        ensures
            r == self.uses_marker_spec(),
    {
        self.basename || self.discriminant || self.timestamp
    }
}

} // verus!
