//! The entries of an archive: directories and files, and their name hash.

use vstd::prelude::*;

pub mod directory;
pub mod file;

pub use directory::Directory;
pub use file::File;

verus! {

/// The name hash of `name`, as written into the `hash` field of a record.
pub fn calc_hash(name: &str) -> (result: u16)
    ensures
        result == crate::hash::spec_name_hash(name@),
{
    crate::hash::calchash(name)
}

} // verus!
