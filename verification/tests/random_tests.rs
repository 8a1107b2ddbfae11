//! Randomised agreement tests: the exact search against a brute-force scan,
//! and the batched collision query against the scalar one.

use pkdt::AffordanceTree;
use pkdt::PkdTree;
use rand::Rng;
use rand::SeedableRng;
use rand_chacha::ChaCha20Rng;

const SCALE: i32 = 65536;

fn dist_sq(a: &[i32], b: &[i32]) -> u128 {
    let mut acc: u128 = 0;
    for c in 0..a.len() {
        let d = (a[c] as i64) - (b[c] as i64);
        acc += (d * d) as u128;
    }
    acc
}

fn random_points(rng: &mut ChaCha20Rng, n: usize, dims: usize) -> Vec<Vec<i32>> {
    (0..n).map(|_| (0..dims).map(|_| rng.gen_range(0..SCALE)).collect()).collect()
}

#[test]
fn exact_matches_brute_force() {
    let mut rng = ChaCha20Rng::seed_from_u64(0xC0FFEE);
    let n = 4096;
    let points = random_points(&mut rng, n, 3);
    let kdt = PkdTree::new(&points);

    for _ in 0..1024 {
        let needle: Vec<i32> = (0..3).map(|_| rng.gen_range(0..SCALE)).collect();
        let exact = kdt.query1_exact(&needle);
        let found = dist_sq(&kdt.get_point(exact), &needle);
        let best = points.iter().map(|p| dist_sq(p, &needle)).min().unwrap();
        assert_eq!(found, best);
    }
}

#[test]
fn simd_matches_scalar_random() {
    let mut rng = ChaCha20Rng::seed_from_u64(0xBEEF);
    let n = 256;
    let dims = 3;
    let lanes = 8;
    let points = random_points(&mut rng, n, dims);
    let rsq_max: u128 = {
        let r = (SCALE / 8) as i64;
        (r * r) as u128
    };
    let tree = AffordanceTree::new(&points, (0, rsq_max), &mut rng);

    for _ in 0..128 {
        // one group of `lanes` queries, in lane-major layout
        let group: Vec<Vec<i32>> =
            (0..lanes).map(|_| (0..dims).map(|_| rng.gen_range(0..SCALE)).collect()).collect();
        let mut centers: Vec<Vec<i32>> = vec![vec![0; lanes]; dims];
        for (i, q) in group.iter().enumerate() {
            for d in 0..dims {
                centers[d][i] = q[d];
            }
        }
        let radii: Vec<u128> = (0..lanes).map(|_| rng.gen_range(0..rsq_max + 1)).collect();
        let batched = tree.collides_simd(&centers, &radii);
        let any_scalar = (0..lanes).any(|i| tree.collides(&group[i], radii[i]));
        assert_eq!(batched, any_scalar);
    }
}

#[test]
fn collides_never_false_positive() {
    // whenever the tree reports a collision, some input point really is
    // within the queried radius
    let mut rng = ChaCha20Rng::seed_from_u64(42);
    let n = 100;
    let points = random_points(&mut rng, n, 2);
    let rsq_max: u128 = {
        let r = (SCALE / 4) as i64;
        (r * r) as u128
    };
    let tree = AffordanceTree::new(&points, (0, rsq_max), &mut rng);
    for _ in 0..500 {
        let q: Vec<i32> = (0..2).map(|_| rng.gen_range(-SCALE..2 * SCALE)).collect();
        let rsq = rng.gen_range(0..rsq_max + 1);
        if tree.collides(&q, rsq) {
            assert!(points.iter().any(|p| dist_sq(p, &q) <= rsq));
        }
    }
}

#[test]
fn collides_finds_near_points() {
    // whenever an input point is within the queried radius (strictly within
    // the declared maximum), the tree reports a collision
    let mut rng = ChaCha20Rng::seed_from_u64(99);
    let n = 100;
    let points = random_points(&mut rng, n, 2);
    let rsq_max: u128 = {
        let r = (SCALE / 4) as i64;
        (r * r) as u128
    };
    let tree = AffordanceTree::new(&points, (0, rsq_max), &mut rng);
    for _ in 0..500 {
        let q: Vec<i32> = (0..2).map(|_| rng.gen_range(-SCALE..2 * SCALE)).collect();
        let rsq = rng.gen_range(0..rsq_max);
        if points.iter().any(|p| dist_sq(p, &q) <= rsq) {
            assert!(tree.collides(&q, rsq));
        }
    }
}

#[test]
fn query1_deterministic() {
    // the descent is a pure function of the tree and the needle
    let mut rng = ChaCha20Rng::seed_from_u64(5);
    let points = random_points(&mut rng, 77, 2);
    let kdt = PkdTree::new(&points);
    for _ in 0..50 {
        let q: Vec<i32> = (0..2).map(|_| rng.gen_range(0..SCALE)).collect();
        assert_eq!(kdt.query1(&q), kdt.query1(&q));
    }
}
