use poisson_disk::distributions::AnnulusDistribution;
use rand::rngs::StdRng;
use rand::SeedableRng;

#[test]
fn sample_lengths_lie_in_the_ring() {
    let d = AnnulusDistribution::new(1_000, 2_000);
    let mut rng = StdRng::seed_from_u64(13);
    for _ in 0..2_000 {
        let v = d.sample(&mut rng);
        let len_sq: i64 = v.x * v.x + v.y * v.y;
        assert!(1_000 * 1_000 <= len_sq);
        assert!(len_sq <= 2_000 * 2_000);
    }
}

#[test]
fn sample_directions_cover_all_quadrants() {
    let d = AnnulusDistribution::new(1_000, 2_000);
    let mut rng = StdRng::seed_from_u64(17);
    let mut quadrants = [0usize; 4];
    for _ in 0..2_000 {
        let v = d.sample(&mut rng);
        let q: usize = match (v.x >= 0, v.y >= 0) {
            (true, true) => 0,
            (false, true) => 1,
            (false, false) => 2,
            (true, false) => 3,
        };
        quadrants[q] += 1;
    }
    // a ring sampled uniformly by area puts a fair share in each quadrant
    for count in quadrants {
        assert!(count > 300);
    }
}

#[test]
fn degenerate_ring_still_respects_bounds() {
    let d = AnnulusDistribution::new(5, 5);
    let mut rng = StdRng::seed_from_u64(23);
    for _ in 0..200 {
        let v = d.sample(&mut rng);
        let len_sq: i64 = v.x * v.x + v.y * v.y;
        assert_eq!(len_sq, 25);
    }
}
