//! The errors of tree and backend operations.

use vstd::prelude::*;

verus! {

/// Why an operation on a tree or a backend failed.
#[derive(Clone, Copy, Debug, PartialEq, Eq, Structural)]
pub enum Error {
    /// An index of zero, or a position outside a container.
    InvalidIndex,
    /// The backend holds nothing under a key that was looked up.
    NotFound,
    /// A leaf stands where an inner node was needed, the metadata of a container
    /// does not fit its tree, or a key is already taken by another pair.
    CorruptedDatabase,
    /// A compact proof does not hash back to the root it was made for.
    CorruptedProof,
    /// A failure of the backend's own, passed on with the backend's code for it.
    Backend(u32),
}

impl Error {
    /// A short description of the error.
    pub fn describe(&self) -> (r: &'static str)
        ensures
            r@ == (match *self {
                Error::InvalidIndex => "invalid index"@,
                Error::NotFound => "intermediate not found"@,
                Error::CorruptedDatabase => "corrupted database"@,
                Error::CorruptedProof => "corrupted proof"@,
                Error::Backend(_) => "backend error"@,
            }),
    {
        match self {
            Error::InvalidIndex => "invalid index",
            Error::NotFound => "intermediate not found",
            Error::CorruptedDatabase => "corrupted database",
            Error::CorruptedProof => "corrupted proof",
            Error::Backend(_) => "backend error",
        }
    }
}

} // verus!
