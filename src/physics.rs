use vstd::prelude::*;

verus! {

/// A scalar that drifts by `change` per second, where `change` itself decays.
///
/// `decay` ranges from 0 to 1: the share of `change` lost over one second
/// (0: none, 1: all of it).
pub struct ScalarMotion<T> {
    pub scalar: T,
    pub change: T,
    pub decay: T,
}

impl<T> ScalarMotion<T> {
    pub fn new(scalar: T, change: T, decay: T) -> (r: ScalarMotion<T>)
        ensures
            r.scalar == scalar,
            r.change == change,
            r.decay == decay,
    {
        ScalarMotion { scalar, change, decay }
    }
}

} // verus!
