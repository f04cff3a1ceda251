use vstd::prelude::*;

verus! {

/// A running minimum: offering a value keeps it only if it is smaller than
/// what is held so far.
pub trait CompareSmallest<T>: Sized {
    /// What `self` holds once `value` has been offered to it.
    spec fn smallest_with(self, value: T) -> Self;

    fn set_if_smallest(&mut self, value: T)
        ensures
            *final(self) == old(self).smallest_with(value),
    ;
}

/// A distance that compares as the non-negative length it stands for.
impl CompareSmallest<u32> for Option<u32> {
    /// An empty minimum takes any value; a held one is replaced only by a
    /// strictly smaller value, so among equal values the first one stays.
    open spec fn smallest_with(self, value: u32) -> Option<u32> {
        match self {
            Some(v) => if value < v { Some(value) } else { Some(v) },
            None => Some(value),
        }
    }

    fn set_if_smallest(&mut self, value: u32) {
        let set = match self {
            Some(v) => value < *v,
            None => true,
        };
        if set {
            *self = Some(value);
        }
    }
}

} // verus!
