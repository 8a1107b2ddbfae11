//! Tests of the k-d tree: approximate descent, batched queries, and the
//! exact backtracking search, on fixed-point coordinates (16 fractional
//! bits).

use pkdt::PkdTree;

fn fx(x: f64) -> i32 {
    (x * 65536.0).round() as i32
}

fn pts2(raw: &[[f64; 2]]) -> Vec<Vec<i32>> {
    raw.iter().map(|p| vec![fx(p[0]), fx(p[1])]).collect()
}

fn pts1(raw: &[f64]) -> Vec<Vec<i32>> {
    raw.iter().map(|p| vec![fx(*p)]).collect()
}

fn eight_points() -> Vec<Vec<i32>> {
    pts2(&[
        [0.1, 0.1],
        [0.1, 0.2],
        [0.5, 0.0],
        [0.3, 0.9],
        [1.0, 1.0],
        [0.35, 0.75],
        [0.6, 0.2],
        [0.7, 0.8],
    ])
}

#[test]
fn single_query() {
    let points = eight_points();
    let kdt = PkdTree::new(&points);

    println!("testing for correctness...");

    let neg1 = vec![fx(-1.0), fx(-1.0)];
    let neg1_idx = kdt.query1(&neg1);
    assert_eq!(neg1_idx, 0);

    let pos1 = vec![fx(1.0), fx(1.0)];
    let pos1_idx = kdt.query1(&pos1);
    assert_eq!(pos1_idx, points.len() - 1);
}

#[test]
fn multi_query() {
    let points = eight_points();
    let kdt = PkdTree::new(&points);

    let needles = vec![vec![fx(-1.0), fx(2.0)], vec![fx(-1.0), fx(2.0)]];
    assert_eq!(kdt.query(&needles), vec![0, points.len() - 1]);
}

#[test]
fn lane_of_query_matches_query1() {
    // each lane of the batched query answers exactly as the scalar query
    let points = eight_points();
    let kdt = PkdTree::new(&points);

    let needles = vec![vec![fx(-1.0), fx(1.0)], vec![fx(-1.0), fx(1.0)]];
    let batched = kdt.query(&needles);
    assert_eq!(batched, vec![0, 7]);
    for lane in 0..2 {
        let single = kdt.query1(&vec![needles[0][lane], needles[1][lane]]);
        assert_eq!(batched[lane], single);
    }
}

#[test]
fn not_a_power_of_two() {
    let points = pts1(&[0.0, 2.0, 4.0]);
    let kdt = PkdTree::new(&points);

    assert_eq!(kdt.query1(&vec![fx(-1.0)]), 0);
    assert_eq!(kdt.query1(&vec![fx(0.5)]), 0);
    assert_eq!(kdt.query1(&vec![fx(1.5)]), 1);
    assert_eq!(kdt.query1(&vec![fx(2.5)]), 1);
    assert_eq!(kdt.query1(&vec![fx(3.5)]), 2);
    assert_eq!(kdt.query1(&vec![fx(4.5)]), 2);
}

#[test]
fn a_power_of_two() {
    let points = pts1(&[0.0, 2.0, 4.0, 6.0]);
    let kdt = PkdTree::new(&points);

    assert_eq!(kdt.query1(&vec![fx(-1.0)]), 0);
    assert_eq!(kdt.query1(&vec![fx(0.5)]), 0);
    assert_eq!(kdt.query1(&vec![fx(1.5)]), 1);
    assert_eq!(kdt.query1(&vec![fx(2.5)]), 1);
    assert_eq!(kdt.query1(&vec![fx(3.5)]), 2);
    assert_eq!(kdt.query1(&vec![fx(4.5)]), 2);
}

#[test]
fn get_point_round_trip() {
    let points = eight_points();
    let kdt = PkdTree::new(&points);
    // every input point is stored at some leaf; collect and compare as sets
    let mut found: Vec<Vec<i32>> = (0..8).map(|i| kdt.get_point(i)).collect();
    let mut expect = points.clone();
    found.sort();
    expect.sort();
    assert_eq!(found, expect);
}

#[test]
fn exact_single_point() {
    let points = pts2(&[[0.25, 0.75]]);
    let kdt = PkdTree::new(&points);
    assert_eq!(kdt.query1_exact(&vec![fx(10.0), fx(-3.0)]), 0);
    assert_eq!(kdt.query1(&vec![fx(10.0), fx(-3.0)]), 0);
}

#[test]
fn exact_beats_approximate() {
    // a needle just over a split plane: the descent lands in the wrong cell,
    // the exact search still returns the true nearest point
    let points = pts1(&[0.0, 2.0, 4.0, 6.0]);
    let kdt = PkdTree::new(&points);
    let needle = vec![fx(3.1)];
    let exact = kdt.query1_exact(&needle);
    assert_eq!(kdt.get_point(exact), vec![fx(4.0)]);
}
