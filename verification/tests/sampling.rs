use poisson_disk::poisson::{PoissonDisk, PoissonDiskAlgorithm, RobertBridson};
use poisson_disk::vec2::Vec2;
use rand::rngs::StdRng;
use rand::SeedableRng;

fn dist_sq(p: Vec2, q: Vec2) -> i64 {
    let dx: i64 = p.x - q.x;
    let dy: i64 = p.y - q.y;
    dx * dx + dy * dy
}

/// Runs one full session and returns every emitted point, in order.
fn collect_session(seed: u64, radius: i64, bl: Vec2, tr: Vec2, cap: usize) -> (Vec<Vec2>, bool) {
    let rng = StdRng::seed_from_u64(seed);
    let alg = RobertBridson::new(radius, [bl, tr]);
    let mut seq = PoissonDisk::new(rng, alg);
    let mut out = Vec::new();
    let mut terminated = false;
    for _ in 0..cap {
        match seq.next() {
            Some(p) => out.push(p),
            None => {
                terminated = true;
                break;
            },
        }
    }
    (out, terminated)
}

#[test]
fn session_emits_separated_points() {
    let (points, _) = collect_session(
        7,
        1000,
        Vec2::new(0, 0),
        Vec2::new(10_000, 10_000),
        100_000,
    );
    assert!(points.len() > 10);
    for i in 0..points.len() {
        for j in 0..points.len() {
            if i != j {
                assert!(dist_sq(points[i], points[j]) > 1000 * 1000);
            }
        }
    }
}

#[test]
fn points_strictly_inside_domain() {
    let (points, _) = collect_session(
        11,
        1500,
        Vec2::new(-5_000, 2_000),
        Vec2::new(5_000, 9_000),
        100_000,
    );
    assert!(!points.is_empty());
    for p in &points {
        assert!(-5_000 < p.x && p.x < 5_000);
        assert!(2_000 < p.y && p.y < 9_000);
    }
}

#[test]
fn identical_seeds_reproduce_sequence() {
    let (a, _) = collect_session(42, 1000, Vec2::new(0, 0), Vec2::new(10_000, 10_000), 100_000);
    let (b, _) = collect_session(42, 1000, Vec2::new(0, 0), Vec2::new(10_000, 10_000), 100_000);
    assert!(!a.is_empty());
    assert_eq!(a, b);
}

#[test]
fn different_seeds_usually_differ() {
    let (a, _) = collect_session(1, 1000, Vec2::new(0, 0), Vec2::new(10_000, 10_000), 100_000);
    let (b, _) = collect_session(2, 1000, Vec2::new(0, 0), Vec2::new(10_000, 10_000), 100_000);
    assert!(!a.is_empty() && !b.is_empty());
    assert_ne!(a[0], b[0]);
}

#[test]
fn session_is_finite() {
    let (points, terminated) = collect_session(
        3,
        1000,
        Vec2::new(0, 0),
        Vec2::new(10_000, 10_000),
        100_000,
    );
    assert!(terminated);
    // a 10 x 10 box cannot hold more unit-separated points than grid cells
    assert!(points.len() <= 15 * 15);
}

#[test]
fn termination_is_stable() {
    let rng = StdRng::seed_from_u64(5);
    let alg = RobertBridson::new(2000, [Vec2::new(0, 0), Vec2::new(6_000, 6_000)]);
    let mut seq = PoissonDisk::new(rng, alg);
    let mut pulls: usize = 0;
    while seq.next().is_some() {
        pulls += 1;
        assert!(pulls < 100_000);
    }
    for _ in 0..5 {
        assert!(seq.next().is_none());
    }
}

#[test]
fn init_emits_one_seed_point() {
    let mut rng = StdRng::seed_from_u64(9);
    let mut alg = RobertBridson::new(1000, [Vec2::new(0, 0), Vec2::new(10_000, 10_000)]);
    let first = alg.init(&mut rng);
    let p = first.expect("the seed pull yields a point");
    assert!(0 < p.x && p.x < 10_000);
    assert!(0 < p.y && p.y < 10_000);
}

#[test]
fn candidate_decision_is_exact() {
    let mut rng = StdRng::seed_from_u64(31);
    let mut alg = RobertBridson::new(1000, [Vec2::new(0, 0), Vec2::new(10_000, 10_000)]);
    let seed = alg.init(&mut rng).expect("the seed pull yields a point");
    // an offset shorter than the radius conflicts with the seed itself
    assert_eq!(alg.try_candidate(seed, Vec2::new(500, 0)), None);
    // an offset longer than the radius that stays inside the box is accepted
    let off = if seed.x + 1_500 < 10_000 {
        Vec2::new(1_500, 0)
    } else {
        Vec2::new(-1_500, 0)
    };
    let accepted = alg.try_candidate(seed, off);
    assert!(accepted.is_some());
    // the same throw now lands on the point it just added, so it conflicts
    assert_eq!(alg.try_candidate(seed, off), None);
}

#[test]
fn candidate_outside_the_box_is_rejected() {
    let mut rng = StdRng::seed_from_u64(37);
    let mut alg = RobertBridson::new(1000, [Vec2::new(0, 0), Vec2::new(10_000, 10_000)]);
    let seed = alg.init(&mut rng).expect("the seed pull yields a point");
    // pushing past the right edge leaves the domain
    let past_edge = 10_000 - seed.x + 1;
    if past_edge <= 2_000 {
        assert_eq!(alg.try_candidate(seed, Vec2::new(past_edge, 0)), None);
    } else {
        assert_eq!(alg.try_candidate(seed, Vec2::new(-(seed.x + 1), 0)), None);
    }
}
