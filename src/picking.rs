use vstd::prelude::*;

use crate::compare::CompareSmallest;

verus! {

/// A sub-cube hit by a ray: its index in the cube and the distance to the hit.
///
/// Distances are non-negative and carried as keys that order as the lengths
/// they stand for (the bit pattern of a non-negative single-precision length
/// orders this way).
#[derive(Clone, Copy, Debug, PartialEq, Eq, Structural)]
pub struct SubcubeDistance {
    pub index: usize,
    pub distance: u32,
}

impl CompareSmallest<SubcubeDistance> for Option<SubcubeDistance> {
    /// Hits are compared by distance alone; an equally distant later hit does
    /// not displace the one already held.
    open spec fn smallest_with(self, value: SubcubeDistance) -> Option<SubcubeDistance> {
        match self {
            Some(v) => if value.distance < v.distance { Some(value) } else { Some(v) },
            None => Some(value),
        }
    }

    fn set_if_smallest(&mut self, value: SubcubeDistance) {
        let set = match self {
            Some(v) => value.distance < v.distance,
            None => true,
        };
        if set {
            *self = Some(value);
        }
    }
}

/// No sub-cube was hit.
pub open spec fn no_hit(distances: Seq<Option<u32>>) -> bool {
    forall|j: int| 0 <= j < distances.len() ==> #[trigger] distances[j] is None
}

/// Sub-cube `i` was hit, no hit is nearer, and every earlier hit is farther.
pub open spec fn is_closest(distances: Seq<Option<u32>>, i: int) -> bool {
    &&& 0 <= i < distances.len()
    &&& distances[i] is Some
    &&& forall|j: int|
        0 <= j < distances.len() && #[trigger] distances[j] is Some ==> distances[i]->0
            <= distances[j]->0
    &&& forall|j: int|
        0 <= j < i && #[trigger] distances[j] is Some ==> distances[i]->0 < distances[j]->0
}

/// The index of the nearest sub-cube that a ray hits, given for each
/// sub-cube, by index, the distance to its nearest hit face or `None` when the
/// ray misses it. Among equally near sub-cubes the first one wins.
pub fn closest_subcube(distances: &Vec<Option<u32>>) -> (r: Option<usize>)
    ensures
        r is None <==> no_hit(distances@),
        r matches Some(i) ==> is_closest(distances@, i as int),
{
    let mut closest: Option<SubcubeDistance> = None;
    let mut index: usize = 0;
    while index < distances.len()
        invariant
            index <= distances.len(),
            closest is None <==> no_hit(distances@.subrange(0, index as int)),
            closest matches Some(c) ==> c.index < index && distances@[c.index as int] == Some(
                c.distance,
            ) && is_closest(distances@.subrange(0, index as int), c.index as int),
        decreases distances.len() - index,
    {
        proof {
            let prev = distances@.subrange(0, index as int);
            let next = distances@.subrange(0, index + 1);
            assert forall|j: int| 0 <= j < index implies next[j] == prev[j] by {}
            assert(next[index as int] == distances@[index as int]);
        }
        if let Some(distance) = distances[index] {
            closest.set_if_smallest(SubcubeDistance { index, distance });
        }
        index += 1;
    }
    assert(distances@.subrange(0, distances.len() as int) =~= distances@);
    match closest {
        Some(c) => Some(c.index),
        None => None,
    }
}

} // verus!
