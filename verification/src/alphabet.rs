use vstd::prelude::*;

verus! {

/// A symbol type usable as a transition label: it can be copied and it can
/// decide equality of two symbols. An implementation must answer exactly
/// whether the two symbols are equal values.
pub trait Alphabet: Sized + Copy {
    /// Decide whether two symbols are the same.
    fn sym_eq(&self, other: &Self) -> (r: bool)
        ensures
            r <==> *self == *other,
    ;
}

impl Alphabet for char {
    fn sym_eq(&self, other: &char) -> (r: bool)
        ensures
            r <==> *self == *other,
    {
        *self == *other
    }
}

} // verus!
