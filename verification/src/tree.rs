//! Trees: the stored form of directories.

use vstd::prelude::*;

use crate::error::Error;
use crate::error::ErrorView;

verus! {

/// What a tree entry points at.
#[derive(Clone, Copy, Debug, PartialEq, Eq, Structural)]
pub enum EntryType {
    /// The content of a file.
    Blob,
    /// Another tree.
    Tree,
    /// The target of a symbolic link, stored as a blob.
    Symlink,
}

impl EntryType {
    /// The byte that tells the types apart in a stored tree.
    pub open spec fn spec_code(self) -> u8 {
        match self {
            EntryType::Blob => 1,
            EntryType::Tree => 2,
            EntryType::Symlink => 3,
        }
    }

    /// The byte that tells the types apart in a stored tree.
    pub fn code(self) -> (code: u8)
        ensures
            code == self.spec_code(),
    {
        match self {
            EntryType::Blob => 1,
            EntryType::Tree => 2,
            EntryType::Symlink => 3,
        }
    }
}

/// The most bytes that the name of a tree entry can have.
pub const MAX_NAME_LEN: usize = 255;

/// One entry of a directory.
#[derive(Debug, PartialEq, Eq)]
pub struct TreeEntry {
    pub entry_type: EntryType,
    pub mode: u32,
    pub hash: crate::hash::Hash,
    pub name: String,
}

/// A tree entry with its name as a sequence of characters.
pub struct TreeEntryView {
    pub entry_type: EntryType,
    pub mode: u32,
    pub hash: crate::hash::Hash,
    pub name: Seq<char>,
}

impl View for TreeEntry {
    type V = TreeEntryView;

    open spec fn view(&self) -> TreeEntryView {
        TreeEntryView {
            entry_type: self.entry_type,
            mode: self.mode,
            hash: self.hash,
            name: self.name@,
        }
    }
}

impl Clone for TreeEntry {
    fn clone(&self) -> (copy: Self)
        ensures
            copy@ == self@,
    {
        TreeEntry {
            entry_type: self.entry_type,
            mode: self.mode,
            hash: self.hash,
            name: self.name.clone(),
        }
    }
}

/// The bytes of a name.
pub open spec fn name_bytes(name: Seq<char>) -> Seq<u8> {
    vstd::utf8::encode_utf8(name)
}

/// The entry with the given parts, or the error for a name that is too long.
pub open spec fn tree_entry<E>(
    entry_type: EntryType,
    mode: u32,
    hash: crate::hash::Hash,
    name: Seq<char>,
) -> Result<TreeEntryView, ErrorView<E>> {
    if name_bytes(name).len() > MAX_NAME_LEN {
        Err(ErrorView::NameTooLong { name })
    } else {
        Ok(TreeEntryView { entry_type, mode, hash, name })
    }
}

/// The views of a list of tree entries.
pub open spec fn entries_view(entries: Seq<TreeEntry>) -> Seq<TreeEntryView> {
    entries.map_values(|entry: TreeEntry| entry@)
}

impl TreeEntry {
    /// Makes an entry; refuses a name of more than 255 bytes.
    pub fn new<E>(
        entry_type: EntryType,
        mode: u32,
        hash: crate::hash::Hash,
        name: String,
    ) -> (result: Result<TreeEntry, Error<E>>)
        ensures
            match result {
                Ok(entry) => tree_entry::<E>(entry_type, mode, hash, name@) == Ok::<
                    TreeEntryView,
                    ErrorView<E>,
                >(entry@),
                Err(error) => tree_entry::<E>(entry_type, mode, hash, name@) == Err::<
                    TreeEntryView,
                    ErrorView<E>,
                >(error@),
            },
    {
        if name.as_str().as_bytes().len() > MAX_NAME_LEN {
            Err(Error::NameTooLong { name })
        } else {
            Ok(TreeEntry { entry_type, mode, hash, name })
        }
    }
}

/// An entry is made of exactly the parts that it is given, if the name has at
/// most 255 bytes; a longer name is refused, and reported.
pub proof fn entries_hold_their_parts<E>(
    entry_type: EntryType,
    mode: u32,
    hash: crate::hash::Hash,
    name: Seq<char>,
)
    ensures
        match tree_entry::<E>(entry_type, mode, hash, name) {
            Ok(entry) => {
                &&& vstd::utf8::encode_utf8(name).len() <= 255
                &&& entry.entry_type == entry_type
                &&& entry.mode == mode
                &&& entry.hash == hash
                &&& entry.name == name
            },
            Err(error) => {
                &&& vstd::utf8::encode_utf8(name).len() > 255
                &&& error == (ErrorView::<E>::NameTooLong { name })
            },
        },
{
}

/// In a stored tree, blobs, trees and links have the bytes 1, 2 and 3.
pub proof fn types_have_their_bytes(entry_type: EntryType)
    ensures
        entry_type.spec_code() == 1 <==> entry_type is Blob,
        entry_type.spec_code() == 2 <==> entry_type is Tree,
        entry_type.spec_code() == 3 <==> entry_type is Symlink,
{
}

/// Nothing of an entry is lost in its view, nor any entry of a list.
pub proof fn views_show_entries(entries: Seq<TreeEntry>)
    ensures
        entries_view(entries).len() == entries.len(),
        forall|i: int|
            #![trigger entries[i]]
            #![trigger entries_view(entries)[i]]
            0 <= i < entries.len() ==> {
                &&& entries_view(entries)[i].entry_type == entries[i].entry_type
                &&& entries_view(entries)[i].mode == entries[i].mode
                &&& entries_view(entries)[i].hash == entries[i].hash
                &&& entries_view(entries)[i].name == entries[i].name@
            },
{
}

} // verus!
