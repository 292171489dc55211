//! Where the payload of a file is loaded.

use vstd::prelude::*;
use crate::nodes::file::FileAttr;

verus! {

/// The place to which a payload is loaded.
#[derive(Clone, Copy, Debug, PartialEq, Eq, Structural)]
pub enum JKRPreloadType {
    /// The attributes name no place.
    NONE,
    /// Main RAM.
    MRAM,
    /// Auxiliary RAM.
    ARAM,
    /// The payload is read from the disc when it is needed.
    DVD,
}

/// The place that attributes name: the first of main RAM, auxiliary RAM and
/// disc whose bit is set.
pub open spec fn spec_preload_type(attr: FileAttr) -> JKRPreloadType {
    if attr.spec_contains(FileAttr::LOAD_TO_MRAM) {
        JKRPreloadType::MRAM
    } else if attr.spec_contains(FileAttr::LOAD_TO_ARAM) {
        JKRPreloadType::ARAM
    } else if attr.spec_contains(FileAttr::LOAD_FROM_DVD) {
        JKRPreloadType::DVD
    } else {
        JKRPreloadType::NONE
    }
}

impl FileAttr {
    /// The place to which a payload with these attributes is loaded.
    pub fn preload_type(&self) -> (place: JKRPreloadType)
        ensures
            place == spec_preload_type(*self),
    {
        if self.contains(FileAttr::LOAD_TO_MRAM) {
            JKRPreloadType::MRAM
        } else if self.contains(FileAttr::LOAD_TO_ARAM) {
            JKRPreloadType::ARAM
        } else if self.contains(FileAttr::LOAD_FROM_DVD) {
            JKRPreloadType::DVD
        } else {
            JKRPreloadType::NONE
        }
    }
}

} // verus!
