//! What the file system says of a path.

use vstd::prelude::*;
use vstd::slice::*;

use crate::file_modes;

verus! {

/// The kind of thing that stands at a path.
#[derive(Clone, Copy, Debug, PartialEq, Eq, Structural)]
pub enum FileType {
    File,
    Directory,
    Symlink,
    /// A socket, a pipe or a device.
    Other,
}

/// Type, permission bits and length of what stands at a path.
#[derive(Clone, Copy, Debug, PartialEq, Eq, Structural)]
pub struct Metadata {
    pub file_type: FileType,
    pub mode: u32,
    pub len: u64,
}

/// Somebody, be it the owner, the group or the others, may execute the file.
pub open spec fn executable(metadata: Metadata) -> bool {
    metadata.mode & 0o111 != 0
}

/// The mode that the tree entry of a file gets.
pub open spec fn file_mode(metadata: Metadata) -> u32 {
    if executable(metadata) {
        file_modes::EXECUTABLE
    } else {
        file_modes::REGULAR
    }
}

/// The mode of a file's tree entry: only whether anybody may execute the file
/// is kept of its permissions.
pub fn get_file_mode(metadata: &Metadata) -> (mode: u32)
    ensures
        mode == file_mode(*metadata),
{
    if metadata.mode & 0o111 != 0 {
        file_modes::EXECUTABLE
    } else {
        file_modes::REGULAR
    }
}

/// The bytes that are stored for a symbolic link: its target, unchanged.
pub fn symlink_target_bytes(target: &[u8]) -> (bytes: Vec<u8>)
    ensures
        bytes@ == target@,
{
    slice_to_vec(target)
}

/// Any one of the three execute bits makes a file executable, and no other bit
/// does.
pub proof fn execute_bits_decide(metadata: Metadata)
    ensures
        executable(metadata) <==> (metadata.mode & 0o100 != 0 || metadata.mode & 0o010 != 0
            || metadata.mode & 0o001 != 0),
{
    let mode = metadata.mode;
    assert(mode & 0o111 != 0 <==> (mode & 0o100 != 0 || mode & 0o010 != 0 || mode & 0o001 != 0))
        by (bit_vector);
}

/// A file's tree entry has one of two modes: that of an executable file if any
/// one of the three execute bits is set, and otherwise that of a regular file.
pub proof fn files_have_one_of_two_modes(metadata: Metadata)
    ensures
        metadata.mode & 0o100 != 0 || metadata.mode & 0o010 != 0 || metadata.mode & 0o001 != 0
            ==> file_mode(metadata) == 0o100755,
        metadata.mode & 0o100 == 0 && metadata.mode & 0o010 == 0 && metadata.mode & 0o001 == 0
            ==> file_mode(metadata) == 0o100644,
{
    execute_bits_decide(metadata);
}

} // verus!
