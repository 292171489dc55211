//! The position of the last item of a slice.

use vstd::prelude::*;

verus! {

/// A collection that can tell the position of its last item.
pub trait LastPos {
    /// The number of items.
    spec fn count(&self) -> nat;

    /// The position of the last item, and zero for an empty collection.
    fn lastpos(&self) -> (pos: usize)
        ensures
            pos == (if self.count() == 0 {
                0
            } else {
                self.count() - 1
            }),
    ;
}

impl<T> LastPos for &[T] {
    open spec fn count(&self) -> nat {
        self@.len()
    }

    fn lastpos(&self) -> (pos: usize) {
        if self.len() == 0 {
            0
        } else {
            self.len() - 1
        }
    }
}

} // verus!
