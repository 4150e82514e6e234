//! Values that are either borrowed or owned.

use vstd::prelude::*;

verus! {

/// Either a borrowed `B`, or an owned `O` that stands for one (a `String` for a `str`).
pub enum MaybeOwned<'a, B: ?Sized, O> {
    Borrowed(&'a B),
    Owned(O),
}

} // verus!
