use cubes::compare::CompareSmallest;
use cubes::picking::{closest_subcube, SubcubeDistance};

fn key(d: f32) -> u32 {
    d.to_bits()
}

#[test]
fn single_hit_is_picked() {
    // a unit cube hit through the centre of a face from inside: half its size
    let d = vec![Some(key(0.5))];
    assert_eq!(closest_subcube(&d), Some(0));
}

#[test]
fn miss_everywhere_is_none() {
    let d: Vec<Option<u32>> = vec![None, None, None];
    assert_eq!(closest_subcube(&d), None);
    let empty: Vec<Option<u32>> = Vec::new();
    assert_eq!(closest_subcube(&empty), None);
}

#[test]
fn nearest_hit_wins() {
    let d = vec![Some(key(2.0)), None, Some(key(0.25)), Some(key(1.0))];
    assert_eq!(closest_subcube(&d), Some(2));
}

#[test]
fn first_of_equal_hits_wins() {
    let d = vec![None, Some(key(0.75)), Some(key(3.0)), Some(key(0.75))];
    assert_eq!(closest_subcube(&d), Some(1));
}

#[test]
fn keys_order_as_lengths() {
    let d = vec![Some(key(1.5)), Some(key(0.0)), Some(key(1.0e-3))];
    assert_eq!(closest_subcube(&d), Some(1));
}

#[test]
fn set_if_smallest_keeps_minimum() {
    let mut m: Option<u32> = None;
    m.set_if_smallest(7);
    assert_eq!(m, Some(7));
    m.set_if_smallest(9);
    assert_eq!(m, Some(7));
    m.set_if_smallest(3);
    assert_eq!(m, Some(3));
    m.set_if_smallest(3);
    assert_eq!(m, Some(3));
}

#[test]
fn set_if_smallest_keeps_first_of_equal_distances() {
    let mut m: Option<SubcubeDistance> = None;
    m.set_if_smallest(SubcubeDistance { index: 4, distance: 10 });
    m.set_if_smallest(SubcubeDistance { index: 1, distance: 10 });
    assert_eq!(m, Some(SubcubeDistance { index: 4, distance: 10 }));
    m.set_if_smallest(SubcubeDistance { index: 2, distance: 9 });
    assert_eq!(m, Some(SubcubeDistance { index: 2, distance: 9 }));
}
