use vstd::prelude::*;
use vstd::std_specs::cmp::PartialEqSpec;

verus! {

/// Passes a value on only when it differs from the one seen last.
pub struct ValueOnChange<T> {
    last_value: Option<T>,
}

impl<T: Copy + PartialEq> ValueOnChange<T> {
    /// The value seen last, if any.
    pub closed spec fn last(&self) -> Option<T> {
        self.last_value
    }

    /// Nothing seen yet: the first value offered always passes.
    pub fn new() -> (r: ValueOnChange<T>)
        ensures
            r.last() is None,
    {
        ValueOnChange { last_value: None }
    }

    /// Offers `value`: returns it, and remembers it, if it differs from the
    /// value seen last (or none was seen); returns `None` and keeps the state
    /// otherwise. Whether two values differ is decided by `T`'s `==`.
    pub fn value(&mut self, value: T) -> (r: Option<T>)
        ensures
            r is None ==> final(self).last() == old(self).last(),
            r is Some ==> r == Some(value) && final(self).last() == Some(value),
            old(self).last() is None ==> r == Some(value),
            T::obeys_eq_spec() ==> (r is None <==> (old(self).last() matches Some(o)
                && value.eq_spec(&o))),
    {
        let changed = match self.last_value {
            Some(o) => !value.eq(&o),
            None => true,
        };
        if changed {
            self.last_value = Some(value);
            Some(value)
        } else {
            None
        }
    }
}

} // verus!
