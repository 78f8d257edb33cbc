//! The modes that tree entries carry.

use vstd::prelude::*;

verus! {

/// A file that nobody may execute.
pub const REGULAR: u32 = 0o100644;

/// A file that somebody may execute.
pub const EXECUTABLE: u32 = 0o100755;

/// A directory.
pub const DIRECTORY: u32 = 0o040000;

/// A symbolic link.
pub const SYMLINK: u32 = 0o120000;

} // verus!
