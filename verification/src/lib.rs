//! An in-process, in-memory virtual filesystem: a registry maps canonical
//! absolute paths to storage slots (byte buffers or directory markers), and
//! file handles give stream-like read/write access to those slots. A pure
//! resolver turns a current directory plus a typed path fragment into a
//! canonical absolute path.

use vstd::prelude::*;

pub mod laws;
pub mod path;
pub mod vfs;

verus! {

/// Failure kinds of the storage engine. Every operation reports its outcome
/// synchronously; no failure is fatal to the process.
#[derive(Clone, Copy, Debug, PartialEq, Eq, Structural)]
pub enum FsError {
    /// The path has no registry entry, or a handle's slot no longer exists.
    NotFound,
    /// A content operation (read/write) was attempted on a directory slot.
    PermissionDenied,
}

/// The kind of entry a canonical path denotes, as reported by listings.
#[derive(Clone, Copy, Debug, PartialEq, Eq, PartialOrd, Ord, Structural)]
pub enum EntryKind {
    File,
    Dir,
}

} // verus!
