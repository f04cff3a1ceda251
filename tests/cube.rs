use cubes::cube::{CommandEffect, Cube, CubeState, NextState, PieceMotion, REARRANGE_MICROS};
use cubes::segment::Segment;

const TICK: u64 = 16_667;

fn whole() -> Segment {
    Segment { x: 0, y: 0, z: 0, divisions: 1 }
}

#[test]
fn new_cube_is_one_whole_piece() {
    let cube = Cube::new();
    assert_eq!(cube.segments().as_slice(), &[whole()]);
    assert_eq!(cube.state(), CubeState::Simulating);
}

#[test]
fn explode_with_two_adds_seven_pieces() {
    let mut cube = Cube::new();
    let locs = cube.explode_subcube(0, 2);
    assert_eq!(cube.segments().len(), 8);
    assert_eq!(locs.len(), 8);
    assert_eq!(locs[0], (0, 0, 0));
    assert_eq!(locs[1], (1, 0, 0));
    assert_eq!(locs[2], (0, 1, 0));
    assert_eq!(locs[4], (0, 0, 1));
    assert_eq!(locs[7], (1, 1, 1));
    assert_eq!(cube.segments()[0], Segment { x: 0, y: 0, z: 0, divisions: 2 });
    assert_eq!(cube.segments()[7], Segment { x: 1, y: 1, z: 1, divisions: 2 });

    let before = cube.segments().clone();
    cube.explode_subcube(3, 2);
    assert_eq!(cube.segments().len(), 15);
    for j in 0..8 {
        if j != 3 {
            assert_eq!(cube.segments()[j], before[j]);
        }
    }
    // piece 3 was (1, 1, 0) of 2: its first part is (2, 2, 0) of 4
    assert_eq!(cube.segments()[3], Segment { x: 2, y: 2, z: 0, divisions: 4 });
    assert_eq!(cube.segments()[14], Segment { x: 3, y: 3, z: 1, divisions: 4 });
}

#[test]
fn explode_with_three_orders_parts_x_first() {
    let mut cube = Cube::new();
    let locs = cube.explode_subcube(0, 3);
    assert_eq!(locs.len(), 27);
    assert_eq!(cube.segments().len(), 27);
    assert_eq!(locs[5], (2, 1, 0));
    assert_eq!(locs[26], (2, 2, 2));
    assert_eq!(cube.segments()[5 - 1 + 1], Segment { x: 2, y: 1, z: 0, divisions: 3 });
}

#[test]
fn explode_if_at_least_stops_at_min_length() {
    let mut cube = Cube::new();
    // 1 → 1/2 → 1/4 → 1/8 → 1/16 → 1/32 by always splitting piece 0
    for _ in 0..5 {
        assert!(cube.explode_subcube_if_at_least(0, 2, 16).is_some());
    }
    assert_eq!(cube.segments()[0].divisions, 32);
    let len = cube.segments().len();
    assert_eq!(len, 1 + 5 * 7);
    assert!(cube.explode_subcube_if_at_least(0, 2, 16).is_none());
    assert_eq!(cube.segments().len(), len);
}

#[test]
fn rearrange_lasts_one_and_a_half_seconds() {
    let mut cube = Cube::new();
    cube.explode_subcube(0, 2);
    assert!(cube.try_rearrange());
    for _ in 0..89 {
        assert_eq!(cube.step(TICK), PieceMotion::Approach);
        assert!(matches!(cube.state(), CubeState::Rearranging { .. }));
    }
    assert_eq!(cube.step(TICK), PieceMotion::ApproachThenRest);
    assert_eq!(cube.state(), CubeState::Simulating);
    assert_eq!(cube.segments().len(), 8);
    assert_eq!(cube.step(TICK), PieceMotion::Integrate);
}

#[test]
fn rearrange_window_boundary_is_inclusive() {
    let mut cube = Cube::new();
    assert!(cube.try_rearrange());
    assert_eq!(cube.step(REARRANGE_MICROS), PieceMotion::Approach);
    assert_eq!(
        cube.state(),
        CubeState::Rearranging { elapsed: REARRANGE_MICROS, next: NextState::Simulating }
    );
    assert_eq!(cube.step(0), PieceMotion::Approach);
    assert_eq!(cube.step(1), PieceMotion::ApproachThenRest);
    assert_eq!(cube.state(), CubeState::Simulating);
}

#[test]
fn hurl_all_ignored_while_rearranging() {
    let mut cube = Cube::new();
    assert!(cube.try_hurl_all());
    assert!(cube.try_rearrange());
    let state = cube.state();
    assert!(!cube.try_hurl_all());
    assert!(!cube.try_rearrange());
    assert!(!cube.try_reset());
    assert_eq!(cube.state(), state);
}

#[test]
fn reset_twice_collapses_once() {
    let mut cube = Cube::new();
    cube.explode_subcube(0, 2);
    cube.explode_subcube(5, 2);
    assert!(cube.try_reset());
    assert!(!cube.try_reset());
    assert_eq!(
        cube.state(),
        CubeState::Rearranging { elapsed: 0, next: NextState::Resetting }
    );
    for _ in 0..89 {
        assert_eq!(cube.step(TICK), PieceMotion::Approach);
    }
    assert_eq!(cube.segments().len(), 15);
    assert_eq!(cube.step(TICK), PieceMotion::ApproachThenRest);
    assert_eq!(cube.state(), CubeState::Resetting);
    assert!(!cube.try_hurl_all());
    assert_eq!(cube.step(TICK), PieceMotion::Collapse);
    assert_eq!(cube.state(), CubeState::Simulating);
    assert_eq!(cube.segments().as_slice(), &[whole()]);
}

#[test]
fn simulating_integrates() {
    let mut cube = Cube::new();
    assert_eq!(cube.step(TICK), PieceMotion::Integrate);
    assert_eq!(cube.state(), CubeState::Simulating);
}

#[test]
fn commands_take_precedence_in_order() {
    let mut cube = Cube::new();
    assert_eq!(cube.apply_commands(false, false, false), CommandEffect::Unchanged);
    assert_eq!(cube.apply_commands(true, true, true), CommandEffect::HurlAll);
    assert_eq!(cube.state(), CubeState::Simulating);
    assert_eq!(cube.apply_commands(false, true, true), CommandEffect::CancelMomentum);
    assert_eq!(
        cube.state(),
        CubeState::Rearranging { elapsed: 0, next: NextState::Simulating }
    );
    assert_eq!(cube.apply_commands(true, false, true), CommandEffect::Unchanged);
    assert_eq!(cube.apply_commands(false, false, true), CommandEffect::Unchanged);

    let mut other = Cube::new();
    assert_eq!(other.apply_commands(false, false, true), CommandEffect::CancelMomentum);
    assert_eq!(
        other.state(),
        CubeState::Rearranging { elapsed: 0, next: NextState::Resetting }
    );
}

fn contains(s: &Segment, p: (u64, u64, u64), scale: u64) -> bool {
    let axis = |c: u64, q: u64| c * scale <= q * s.divisions && q * s.divisions < (c + 1) * scale;
    axis(s.x, p.0) && axis(s.y, p.1) && axis(s.z, p.2)
}

#[test]
fn pieces_tile_after_explosions() {
    let mut cube = Cube::new();
    cube.explode_subcube(0, 2);
    cube.explode_subcube(6, 2);
    cube.explode_subcube(0, 2);
    cube.explode_subcube(20, 3);
    let scale = 48;
    for x in 0..scale {
        for y in 0..scale {
            for z in 0..scale {
                let n = cube
                    .segments()
                    .iter()
                    .filter(|s| contains(s, (x, y, z), scale))
                    .count();
                assert_eq!(n, 1);
            }
        }
    }
}
