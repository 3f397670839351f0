//! Filesystem effects requested by repository operations.
//!
//! The repository itself never touches the disk: every operation that needs a
//! directory created, renamed or deleted records the request as an [`FsOp`]
//! value instead. The embedding program drains the queue with
//! [`crate::repo::Repository::take_fs_ops`] and performs the actual I/O.
//! Directory work therefore happens outside the store mutation, which is the
//! accepted gap for a single-user desktop tool: a crash between the two can
//! leave store and filesystem diverged.
use vstd::prelude::*;

verus! {

/// Permission setting applied to a directory tree.
#[derive(Debug, Clone, Copy, PartialEq, Eq, Structural)]
pub enum Permissions {
    ReadOnly,
}

/// One filesystem request, with all paths given as plain strings.
#[derive(Debug, Clone)]
pub enum FsOp {
    /// Create the directory and any missing parents.
    CreateDirAll(String),
    /// Delete the directory tree.
    RemoveDirAll(String),
    /// Rename the first path to the second.
    Rename(String, String),
    /// Unpack the archive at the first path into the directory at the second.
    ExtractArchive(String, String),
    /// Set permissions on every file under the directory.
    SetTreePermissions(String, Permissions),
}

} // verus!
