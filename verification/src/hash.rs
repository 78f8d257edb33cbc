//! The names of stored objects.

use vstd::prelude::*;

verus! {

/// The hash of an object's content, by which the store knows the object.
#[derive(Clone, Copy, Debug, PartialEq, Eq)]
pub struct Hash {
    pub bytes: [u8; 32],
}

} // verus!
