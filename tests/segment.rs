use cubes::segment::Segment;

#[test]
fn subdivide_unit_cube_into_eight() {
    let whole = Segment::whole();
    let mut parts = Vec::new();
    for z in 0..2 {
        for y in 0..2 {
            for x in 0..2 {
                parts.push(whole.subdivide(2, (x, y, z)));
            }
        }
    }
    assert_eq!(parts.len(), 8);
    for p in &parts {
        assert_eq!(p.divisions, 2);
    }
    // every cell of the 2×2×2 grid appears exactly once
    for z in 0..2u64 {
        for y in 0..2u64 {
            for x in 0..2u64 {
                let n = parts.iter().filter(|p| (p.x, p.y, p.z) == (x, y, z)).count();
                assert_eq!(n, 1);
            }
        }
    }
}

#[test]
fn subdivide_refines_a_part() {
    let part = Segment { x: 1, y: 0, z: 2, divisions: 3 };
    let child = part.subdivide(4, (3, 1, 0));
    assert_eq!(child, Segment { x: 7, y: 1, z: 8, divisions: 12 });
}

#[test]
fn subdivide_into_three_tiles_27_cells() {
    let whole = Segment::whole();
    let mut seen = vec![false; 27];
    for z in 0..3 {
        for y in 0..3 {
            for x in 0..3 {
                let p = whole.subdivide(3, (x, y, z));
                assert_eq!(p.divisions, 3);
                let k = (p.x + 3 * p.y + 9 * p.z) as usize;
                assert!(!seen[k]);
                seen[k] = true;
            }
        }
    }
    assert!(seen.iter().all(|s| *s));
}

#[test]
fn min_length_comparison() {
    let s = Segment { x: 0, y: 0, z: 0, divisions: 16 };
    assert!(s.is_at_least(16));
    assert!(!s.is_at_least(15));
}
