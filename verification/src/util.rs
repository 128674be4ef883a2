use vstd::prelude::*;

verus! {

/// A point in source text: zero-based (column, row).
pub type Location = (i32, i32);

/// Anything that occurs at a place in source text can report that place.
pub trait Spannable {
    /// The place this entity occurs at, as a mathematical value.
    spec fn spec_loc(&self) -> Location;

    /// Report the place this entity occurs at.
    fn get_loc(&self) -> (loc: Location)
        ensures
            loc == self.spec_loc(),
    ;
}

} // verus!
