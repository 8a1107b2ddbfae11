//! Tests of the affordance tree: construction, scalar and batched
//! radius-collision queries, and the observability helpers.

use pkdt::AffordanceTree;
use rand::SeedableRng;
use rand_chacha::ChaCha20Rng;

fn fx(x: f64) -> i32 {
    (x * 65536.0).round() as i32
}

fn sq(x: i64) -> u128 {
    (x * x) as u128
}

fn pts2(raw: &[[f64; 2]]) -> Vec<Vec<i32>> {
    raw.iter().map(|p| vec![fx(p[0]), fx(p[1])]).collect()
}

fn three_points() -> Vec<Vec<i32>> {
    pts2(&[[0.0, 0.1], [0.4, -0.2], [-0.2, -0.1]])
}

fn rsq_range_004() -> (u128, u128) {
    // squared radii from 0 to 0.04 = 0.2^2, in fixed-point squared units
    (0, sq(fx(0.2) as i64))
}

#[test]
fn build_simple() {
    let points = three_points();
    let mut rng = ChaCha20Rng::seed_from_u64(7);
    let t = AffordanceTree::new(&points, rsq_range_004(), &mut rng);
    assert!(t.affordance_size() >= 1);
}

#[test]
fn exact_query_single() {
    let points = three_points();
    let mut rng = ChaCha20Rng::seed_from_u64(7);
    let t = AffordanceTree::new(&points, rsq_range_004(), &mut rng);

    let q0 = vec![fx(0.0), fx(-0.01)];
    assert!(t.collides(&q0, sq(fx(0.12) as i64)));
}

#[test]
fn miss_is_reported() {
    let points = three_points();
    let mut rng = ChaCha20Rng::seed_from_u64(7);
    let t = AffordanceTree::new(&points, rsq_range_004(), &mut rng);

    // a center far from every input point, radius far too small to reach
    let q = vec![fx(5.0), fx(5.0)];
    assert!(!t.collides(&q, sq(fx(0.1) as i64)));
}

#[test]
fn simd_matches_scalar_small() {
    let points = three_points();
    let mut rng = ChaCha20Rng::seed_from_u64(7);
    let t = AffordanceTree::new(&points, rsq_range_004(), &mut rng);

    let rsq = sq(fx(0.12) as i64);
    // lane 0 misses, lane 1 hits
    let centers = vec![vec![fx(5.0), fx(0.0)], vec![fx(5.0), fx(-0.01)]];
    let radii = vec![rsq, rsq];
    assert!(t.collides_simd(&centers, &radii));
    assert!(!t.collides(&vec![centers[0][0], centers[1][0]], radii[0]));
    assert!(t.collides(&vec![centers[0][1], centers[1][1]], radii[1]));

    // both lanes miss
    let centers2 = vec![vec![fx(5.0), fx(-5.0)], vec![fx(5.0), fx(-5.0)]];
    assert!(!t.collides_simd(&centers2, &radii));
}

#[test]
fn single_point_sizes() {
    let points = vec![vec![fx(0.5)]];
    let mut rng = ChaCha20Rng::seed_from_u64(1);
    let t = AffordanceTree::new(&points, (0, 4), &mut rng);
    // one leaf, whose list holds exactly the point itself
    assert_eq!(t.affordance_size(), 1);
    // header + 0 tests * 4 + 2 region boundaries * 8 + 1 coordinate * 4
    assert_eq!(t.memory_used(), 128 + 0 + 16 + 4);
    assert!(t.collides(&vec![fx(0.5) + 1], 4));
    assert!(!t.collides(&vec![fx(0.5) + 3], 4));
}

#[test]
fn coincident_points_collide() {
    let points = vec![vec![fx(0.25), fx(0.25)]; 5];
    let mut rng = ChaCha20Rng::seed_from_u64(3);
    let t = AffordanceTree::new(&points, (0, sq(fx(0.5) as i64)), &mut rng);
    assert!(t.collides(&vec![fx(0.3), fx(0.25)], sq(fx(0.1) as i64)));
    assert!(!t.collides(&vec![fx(0.9), fx(0.25)], sq(fx(0.1) as i64)));
}
