use poisson_disk::grid::{check_session, Grid};
use poisson_disk::vec2::Vec2;

#[test]
fn occupancy_query_rejects_near_and_accepts_far() {
    let mut g = Grid::new(1000, [Vec2::new(0, 0), Vec2::new(10_000, 10_000)]);
    let p = Vec2::new(5_000, 5_000);
    assert!(g.can_insert(p));
    let idx = g.insert(p);
    assert!(idx.is_some());
    // closer than the radius: squared distance 2 * 200^2 = 80_000 <= 1_000_000
    assert!(!g.can_insert(Vec2::new(5_200, 5_200)));
    // exactly the occupied position
    assert!(!g.can_insert(p));
    // far from every stored point and inside the box
    assert!(g.can_insert(Vec2::new(9_000, 9_000)));
    assert!(g.can_insert(Vec2::new(1_000, 1_000)));
}

#[test]
fn occupancy_query_rejects_out_of_bounds() {
    let g = Grid::new(1000, [Vec2::new(0, 0), Vec2::new(10_000, 10_000)]);
    assert!(!g.can_insert(Vec2::new(0, 5_000)));
    assert!(!g.can_insert(Vec2::new(10_000, 5_000)));
    assert!(!g.can_insert(Vec2::new(5_000, 0)));
    assert!(!g.can_insert(Vec2::new(5_000, 10_000)));
    assert!(!g.can_insert(Vec2::new(-3, 5_000)));
}

#[test]
fn insert_get_roundtrip() {
    let mut g = Grid::new(1000, [Vec2::new(0, 0), Vec2::new(10_000, 10_000)]);
    let p = Vec2::new(2_500, 7_500);
    let idx = g.insert(p).expect("an interior point gets a cell");
    assert_eq!(g.get(idx), Some(p));
    assert_eq!(g.get(usize::MAX), None);
}

#[test]
fn insert_outside_the_box_is_refused() {
    let mut g = Grid::new(1000, [Vec2::new(0, 0), Vec2::new(10_000, 10_000)]);
    assert_eq!(g.insert(Vec2::new(0, 0)), None);
    assert_eq!(g.insert(Vec2::new(10_000, 10_000)), None);
    assert_eq!(g.insert(Vec2::new(5_000, 10_000)), None);
    assert_eq!(g.insert(Vec2::new(-100, 5_000)), None);
}

#[test]
fn cell_addressing_follows_the_cell_size() {
    // radius 1000 gives cell side isqrt(500_000) = 707
    let g = Grid::new(1000, [Vec2::new(0, 0), Vec2::new(10_000, 10_000)]);
    assert_eq!(g.get_cell(Vec2::new(1, 1)), Some((0, 0)));
    assert_eq!(g.get_cell(Vec2::new(707, 1)), Some((1, 0)));
    assert_eq!(g.get_cell(Vec2::new(1, 1_414)), Some((0, 2)));
    assert_eq!(g.get_cell(Vec2::new(0, 1)), None);
    assert_eq!(g.get_cell(Vec2::new(10_000, 1)), None);
}

#[test]
fn check_session_accepts_and_rejects() {
    let bl = Vec2::new(0, 0);
    let tr = Vec2::new(10_000, 10_000);
    assert!(check_session(1000, bl, tr));
    // the radius must be at least 2
    assert!(!check_session(1, bl, tr));
    // the box must have a strict interior
    assert!(!check_session(1000, tr, bl));
    assert!(!check_session(1000, bl, Vec2::new(1, 10_000)));
    // a tiny radius over a huge box needs more cells than allowed
    assert!(!check_session(2, Vec2::new(-1_000_000, -1_000_000), Vec2::new(1_000_000, 1_000_000)));
    // coordinates beyond the limit are refused
    assert!(!check_session(1000, bl, Vec2::new(2_000_000, 10_000)));
}
