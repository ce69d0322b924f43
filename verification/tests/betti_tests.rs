use lau_persistence_experiment::betti::{betti_from_diagram, euler_characteristic_curve, BettiCurve, BettiSnapshot};
use lau_persistence_experiment::matrix::DistanceMatrix;
use lau_persistence_experiment::persistence::{candidate_loops, compute_persistence, PersistenceDiagram, PersistencePair};

fn key(x: f64) -> u64 {
    let x = if x == 0.0 { 0.0 } else { x };
    let bits = x.to_bits();
    if bits >> 63 == 0 {
        bits | (1u64 << 63)
    } else {
        !bits
    }
}

fn value(k: u64) -> f64 {
    let bits = if k >> 63 == 1 { k & !(1u64 << 63) } else { !k };
    f64::from_bits(bits)
}

/// The diagram of the points with distance keys `dist`, with the loops
/// chosen by their persistence.
fn diagram_of(dist: &Vec<Vec<u64>>, max_dim: usize) -> PersistenceDiagram {
    let persistence: Vec<u64> = if max_dim >= 1 {
        candidate_loops(&DistanceMatrix::from_rows(dist)).iter().map(|&(b, d)| key(value(d) - value(b))).collect()
    } else {
        Vec::new()
    };
    compute_persistence(&DistanceMatrix::from_rows(dist), max_dim, &persistence)
}

fn pair(birth: f64, death: f64, dim: usize) -> PersistencePair {
    PersistencePair::new(key(birth), if death.is_finite() { Some(key(death)) } else { None }, dim)
}

fn snapshot(step: usize, filtration: f64, betti: Vec<usize>) -> BettiSnapshot {
    BettiSnapshot { step, filtration: key(filtration), betti }
}

#[test]
fn test_betti_from_empty_diagram() {
    let dg = PersistenceDiagram::empty();
    let betti = betti_from_diagram(&dg, key(1.0), 2);
    assert_eq!(betti, vec![0, 0, 0]);
}

#[test]
fn test_betti_single_component() {
    let dg = PersistenceDiagram::new(vec![pair(0.0, f64::INFINITY, 0)], 1);
    let betti = betti_from_diagram(&dg, key(0.5), 1);
    assert_eq!(betti[0], 1);
}

#[test]
fn test_betti_two_components() {
    let dg = PersistenceDiagram::new(vec![pair(0.0, 1.0, 0), pair(0.0, f64::INFINITY, 0)], 2);
    let betti = betti_from_diagram(&dg, key(0.5), 1);
    assert_eq!(betti[0], 2);
    let betti = betti_from_diagram(&dg, key(1.5), 1);
    assert_eq!(betti[0], 1);
}

#[test]
fn test_betti_with_loop() {
    let dg = PersistenceDiagram::new(vec![pair(0.0, f64::INFINITY, 0), pair(0.5, 2.0, 1)], 4);
    let betti = betti_from_diagram(&dg, key(1.0), 1);
    assert_eq!(betti[0], 1);
    assert_eq!(betti[1], 1);
}

#[test]
fn test_betti_curve_max_betti0() {
    let curve = BettiCurve::new(
        vec![snapshot(0, 0.0, vec![3, 0]), snapshot(1, 1.0, vec![2, 1]), snapshot(2, 2.0, vec![1, 0])],
        1,
    );
    assert_eq!(curve.max_betti0(), 3);
}

#[test]
fn test_betti_curve_max_betti1() {
    let curve = BettiCurve::new(
        vec![snapshot(0, 0.0, vec![3, 0]), snapshot(1, 1.0, vec![2, 2]), snapshot(2, 2.0, vec![1, 1])],
        1,
    );
    assert_eq!(curve.max_betti1(), 2);
}

#[test]
fn test_betti_at_step() {
    let curve = BettiCurve::new(vec![snapshot(0, 0.0, vec![2, 1]), snapshot(5, 1.0, vec![1, 0])], 1);
    assert_eq!(curve.betti_at_step(0, 0), Some(2));
    assert_eq!(curve.betti_at_step(5, 1), Some(0));
    assert_eq!(curve.betti_at_step(99, 0), None);
}

#[test]
fn test_euler_characteristic_curve() {
    let curve = BettiCurve::new(vec![snapshot(0, 0.0, vec![3, 1]), snapshot(1, 1.0, vec![1, 0])], 1);
    let euler = euler_characteristic_curve(&curve);
    assert_eq!(euler[0].1, 2);
    assert_eq!(euler[1].1, 1);
}

#[test]
fn betti_counts_birth_inclusive_death_exclusive() {
    let dg = PersistenceDiagram::new(vec![pair(1.0, 2.0, 0), pair(1.0, 3.0, 1), pair(0.0, 5.0, 3)], 3);
    assert_eq!(betti_from_diagram(&dg, key(1.0), 1), vec![1, 1]);
    assert_eq!(betti_from_diagram(&dg, key(2.0), 1), vec![0, 1]);
    assert_eq!(betti_from_diagram(&dg, key(0.5), 2), vec![0, 0, 0]);
    assert_eq!(betti_from_diagram(&dg, key(4.0), 3), vec![0, 0, 0, 1]);
}

#[test]
fn betti_curve_defaults_without_snapshots() {
    let curve = BettiCurve::new(vec![], 1);
    assert_eq!(curve.max_betti0(), 0);
    assert_eq!(curve.max_betti1(), 0);
    let short = BettiCurve::new(vec![snapshot(3, 0.0, vec![4])], 0);
    assert_eq!(short.max_betti1(), 0);
    assert_eq!(short.betti_at_step(3, 1), None);
}

#[test]
fn euler_alternates_over_all_dimensions() {
    let curve = BettiCurve::new(vec![snapshot(7, 0.0, vec![5, 2, 4, 1]), snapshot(8, 0.0, vec![])], 3);
    assert_eq!(euler_characteristic_curve(&curve), vec![(7, 6), (8, 0)]);
}

#[test]
fn betti0_counts_single_linkage_components() {
    // Points 0, 1, 3, 7 merge at distances 1, 2 and 4.
    let coords = [0.0_f64, 1.0, 3.0, 7.0];
    let dist: Vec<Vec<u64>> = coords.iter().map(|a| coords.iter().map(|b| key((a - b).abs())).collect()).collect();
    let dg = diagram_of(&dist, 1);
    assert_eq!(betti_from_diagram(&dg, key(0.5), 0)[0], 4);
    assert_eq!(betti_from_diagram(&dg, key(1.5), 0)[0], 3);
    assert_eq!(betti_from_diagram(&dg, key(3.0), 0)[0], 2);
    assert_eq!(betti_from_diagram(&dg, key(10.0), 0)[0], 1);
    assert_eq!(betti_from_diagram(&dg, key(-1.0), 0)[0], 0);
}

#[test]
fn euler_needs_only_partial_sums_in_range() {
    let big = i64::MAX as usize;
    let curve = BettiCurve::new(vec![snapshot(3, 0.0, vec![big, 1]), snapshot(4, 0.0, vec![big, big, 5])], 2);
    assert_eq!(euler_characteristic_curve(&curve), vec![(3, i64::MAX - 1), (4, 5)]);
}
