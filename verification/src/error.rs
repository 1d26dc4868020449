//! The error type shared by the whole library.
use vstd::prelude::*;

verus! {

/// An error when translating to `tmpfiles.d`.
#[derive(Debug, PartialEq, Eq)]
pub enum Error {
    /// A path could not be written as text: it was empty.
    Fmt,
    /// No user is known under this id.
    UserNotFound(u32),
    /// No group is known under this id.
    GroupNotFound(u32),
    /// The user's name is not UTF-8; `name` is a lossy rendering of it.
    NonUtf8User { uid: u32, name: String },
    /// The group's name is not UTF-8; `name` is a lossy rendering of it.
    NonUtf8Group { gid: u32, name: String },
    /// The `tmpfiles.d` directory is missing.
    MissingTmpfilesDir,
    /// `/var/run` exists and is not a symbolic link.
    FoundVarRunNonSymlink,
    /// An escaped path is malformed.
    MalformedTmpfilesPath,
    /// A `tmpfiles.d` line is malformed; the line is carried along.
    MalformedTmpfilesEntry(String),
}

} // verus!
