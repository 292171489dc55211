//! The position of the last item of a vector.

use vstd::prelude::*;

verus! {

/// A collection that can tell the position of its last item.
pub trait LastPos {
    /// The number of items.
    spec fn count(&self) -> nat;

    /// The position of the last item of a collection that is not empty.
    fn lastpos(&self) -> (pos: usize)
        requires
            self.count() > 0,
        ensures
            pos == self.count() - 1,
    ;
}

impl<T> LastPos for Vec<T> {
    open spec fn count(&self) -> nat {
        self@.len()
    }

    fn lastpos(&self) -> (pos: usize) {
        self.len() - 1
    }
}

} // verus!
