use lau_persistence_experiment::belief::{next_random_bits, simple_rng};
use lau_persistence_experiment::matrix::DistanceMatrix;
use lau_persistence_experiment::persistence::{
    candidate_loops, compute_persistence, sliding_window_persistence, window_candidate_loops, window_starts,
    PersistenceDiagram, PersistencePair, ZERO_FILTRATION,
};

/// Order key of a filtration value (the encoding the library expects).
fn key(x: f64) -> u64 {
    let x = if x == 0.0 { 0.0 } else { x };
    let bits = x.to_bits();
    if bits >> 63 == 0 {
        bits | (1u64 << 63)
    } else {
        !bits
    }
}

fn value(k: u64) -> f64 {
    let bits = if k >> 63 == 1 { k & !(1u64 << 63) } else { !k };
    f64::from_bits(bits)
}

fn distance_keys(points: &[Vec<f64>]) -> Vec<Vec<u64>> {
    points
        .iter()
        .map(|a| {
            points
                .iter()
                .map(|b| key(a.iter().zip(b.iter()).map(|(x, y)| (x - y).powi(2)).sum::<f64>().sqrt()))
                .collect()
        })
        .collect()
}

/// Persistence keys of the candidate loops: death value minus birth value.
fn loop_persistence(loops: &[(u64, u64)]) -> Vec<u64> {
    loops.iter().map(|&(b, d)| key(value(d) - value(b))).collect()
}

/// The diagram of the points with distance keys `dist`, with the loops
/// chosen by their persistence.
fn diagram_of(dist: &Vec<Vec<u64>>, max_dim: usize) -> PersistenceDiagram {
    let persistence = if max_dim >= 1 { loop_persistence(&candidate_loops(&DistanceMatrix::from_rows(dist))) } else { Vec::new() };
    compute_persistence(&DistanceMatrix::from_rows(dist), max_dim, &persistence)
}

fn windows_of(dist: &Vec<Vec<u64>>, size: usize, stride: usize, max_dim: usize) -> Vec<(usize, PersistenceDiagram)> {
    let persistence: Vec<Vec<u64>> = if max_dim >= 1 {
        window_candidate_loops(&DistanceMatrix::from_rows(dist), size, stride).iter().map(|l| loop_persistence(l)).collect()
    } else {
        Vec::new()
    };
    sliding_window_persistence(&DistanceMatrix::from_rows(dist), size, stride, max_dim, &persistence)
}

fn pair(birth: f64, death: f64, dim: usize) -> PersistencePair {
    PersistencePair::new(key(birth), if death.is_finite() { Some(key(death)) } else { None }, dim)
}

fn persistence_of(p: &PersistencePair) -> f64 {
    match p.death {
        Some(d) => value(d) - value(p.birth),
        None => f64::INFINITY,
    }
}

fn random_unit(state: &mut u64) -> f64 {
    next_random_bits(state) as f64 / (1u64 << 31) as f64
}

fn synthetic_points(dim: usize, steps: usize, drift: f64, noise: f64, seed: u64) -> Vec<Vec<f64>> {
    let mut rng = simple_rng(seed);
    let mut pos = vec![0.0; dim];
    let mut points = Vec::new();
    for _ in 0..steps {
        for c in pos.iter_mut() {
            *c += drift * (random_unit(&mut rng) - 0.5) * 2.0;
            *c += noise * (random_unit(&mut rng) - 0.5) * 2.0;
        }
        points.push(pos.clone());
    }
    points
}

#[test]
fn empty_diagram_has_no_pairs() {
    let dg = PersistenceDiagram::empty();
    assert_eq!(dg.pairs.len(), 0);
    assert_eq!(dg.finite_count(), 0);
}

#[test]
fn test_diagram_dimension_filter() {
    let dg = PersistenceDiagram::new(
        vec![pair(0.0, 1.0, 0), pair(0.0, 2.0, 1), pair(0.5, 3.0, 1)],
        4,
    );
    assert_eq!(dg.dimension(0).len(), 1);
    assert_eq!(dg.dimension(1).len(), 2);
    assert_eq!(dg.dimension(2).len(), 0);
}

#[test]
fn test_compute_persistence_basic() {
    let dist = distance_keys(&[vec![0.0], vec![1.0], vec![2.0]]);
    let dg = diagram_of(&dist, 1);
    assert!(dg.pairs.len() > 0);
    assert!(dg.dimension(0).len() > 0);
}

#[test]
fn test_compute_persistence_single_point() {
    let dist = distance_keys(&[vec![0.0]]);
    let dg = diagram_of(&dist, 1);
    assert_eq!(dg.pairs.len(), 0);
}

#[test]
fn test_compute_persistence_two_points() {
    let dist = distance_keys(&[vec![0.0], vec![1.0]]);
    let dg = diagram_of(&dist, 1);
    assert!(dg.pairs.len() > 0);
}

#[test]
fn test_h0_clustered_points() {
    let dist = distance_keys(&[vec![0.0], vec![1.0], vec![10.0], vec![11.0]]);
    let dg = diagram_of(&dist, 0);
    let max_p = dg
        .dimension(0)
        .iter()
        .map(|&t| &dg.pairs[t])
        .filter(|p| p.is_finite())
        .map(persistence_of)
        .fold(0.0_f64, f64::max);
    assert!(max_p > 5.0, "Expected large inter-cluster persistence, got {}", max_p);
}

#[test]
fn test_sliding_window() {
    let points = synthetic_points(2, 50, 0.1, 0.01, 42);
    let windows = windows_of(&distance_keys(&points), 10, 5, 1);
    assert!(windows.len() >= 8);
    for (start, dg) in &windows {
        assert!(*start < 50);
        assert!(dg.n_points == 10);
    }
}

#[test]
fn test_compute_persistence_identical_points() {
    let dist = distance_keys(&[vec![1.0], vec![1.0], vec![1.0]]);
    let dg = diagram_of(&dist, 1);
    for t in dg.dimension(0) {
        let p = &dg.pairs[t];
        if p.is_finite() {
            assert!(persistence_of(p) < 1e-10);
        }
    }
}

#[test]
fn test_compute_h1_with_loop() {
    let n = 8;
    let points: Vec<Vec<f64>> = (0..n)
        .map(|i| {
            let angle = 2.0 * std::f64::consts::PI * i as f64 / n as f64;
            vec![angle.cos(), angle.sin()]
        })
        .collect();
    let dg = diagram_of(&distance_keys(&points), 1);
    assert!(dg.dimension(1).len() > 0, "Expected at least one H1 feature for circular points");
}

#[test]
fn h0_has_one_pair_per_point() {
    let points = synthetic_points(3, 12, 0.3, 0.05, 7);
    let dg = diagram_of(&distance_keys(&points), 1);
    assert_eq!(dg.n_points, 12);
    let h0 = dg.dimension(0);
    assert_eq!(h0.len(), 12);
    assert_eq!(h0, (0..12).collect::<Vec<usize>>());
    assert_eq!(dg.pairs[..12].iter().filter(|p| p.death.is_none()).count(), 1);
    assert!(dg.pairs[11].death.is_none());
    assert!(dg.pairs[..12].iter().all(|p| p.birth == ZERO_FILTRATION));
    for w in dg.pairs[..11].windows(2) {
        assert!(w[0].death.unwrap() <= w[1].death.unwrap());
    }
}

#[test]
fn h0_deaths_are_single_linkage_heights() {
    // Points 0, 1, 3, 7: merges at 1, 2, 4.
    let dist = distance_keys(&[vec![0.0], vec![1.0], vec![3.0], vec![7.0]]);
    let dg = diagram_of(&dist, 0);
    let deaths: Vec<f64> = dg.pairs.iter().filter_map(|p| p.death.map(value)).collect();
    assert_eq!(deaths, vec![1.0, 2.0, 4.0]);
    assert_eq!(dg.pairs.len(), 4);
}

#[test]
fn h1_keeps_most_persistent_loops_within_budget() {
    let points = synthetic_points(2, 9, 1.0, 0.5, 3);
    let dist = distance_keys(&points);
    let dg = diagram_of(&dist, 1);
    let h1 = dg.dimension(1);
    assert_eq!(h1.len(), 3);
    let kept: Vec<f64> = h1.iter().map(|&t| persistence_of(&dg.pairs[t])).collect();
    for w in kept.windows(2) {
        assert!(w[0] >= w[1]);
    }
    for &t in &h1 {
        assert!(dg.pairs[t].birth < dg.pairs[t].death.unwrap());
    }
    // No candidate left out is more persistent than the least persistent kept.
    let candidates = candidate_loops(&DistanceMatrix::from_rows(&dist));
    let mut all: Vec<f64> = candidates.iter().map(|&(b, d)| value(d) - value(b)).collect();
    all.sort_by(|a, b| b.partial_cmp(a).unwrap());
    assert_eq!(kept, all[..3].to_vec());
    let no_loops = diagram_of(&dist, 0);
    assert_eq!(no_loops.pairs.len(), 9);
}

#[test]
fn h1_keeps_the_most_persistent_loop_on_a_line() {
    // Points 0, 1, 3, 7: candidate loops (2, 3), (6, 7), (4, 7), (4, 6);
    // one is kept, the most persistent (4, 7).
    let dist = distance_keys(&[vec![0.0], vec![1.0], vec![3.0], vec![7.0]]);
    let candidates: Vec<(f64, f64)> = candidate_loops(&DistanceMatrix::from_rows(&dist)).iter().map(|&(b, d)| (value(b), value(d))).collect();
    assert_eq!(candidates, vec![(2.0, 3.0), (6.0, 7.0), (4.0, 7.0), (4.0, 6.0)]);
    let dg = diagram_of(&dist, 1);
    let h1 = dg.dimension(1);
    assert_eq!(h1.len(), 1);
    assert_eq!(dg.pairs[h1[0]], pair(4.0, 7.0, 1));
}

#[test]
fn h1_triangle_loop_born_at_middle_edge() {
    // Right triangle with legs 3 and 4: loop born at 4, dies at 5.
    let dist = distance_keys(&[vec![0.0, 0.0], vec![3.0, 0.0], vec![0.0, 4.0]]);
    let dg = diagram_of(&dist, 1);
    let h1 = dg.dimension(1);
    assert_eq!(h1.len(), 1);
    let p = &dg.pairs[h1[0]];
    assert_eq!(value(p.birth), 4.0);
    assert_eq!(value(p.death.unwrap()), 5.0);
}

#[test]
fn window_starts_every_stride() {
    assert_eq!(window_starts(50, 10, 5), vec![0, 5, 10, 15, 20, 25, 30, 35, 40]);
    assert_eq!(window_starts(9, 10, 0), Vec::<usize>::new());
    assert_eq!(window_starts(10, 10, 3), vec![0]);
}

#[test]
fn sliding_window_diagrams_match_blocks() {
    let points = synthetic_points(2, 20, 0.2, 0.05, 11);
    let dist = distance_keys(&points);
    let windows = windows_of(&dist, 6, 4, 1);
    assert_eq!(windows.len(), 4);
    for (start, dg) in &windows {
        let block = distance_keys(&points[*start..*start + 6]);
        let direct = diagram_of(&block, 1);
        assert_eq!(dg.pairs, direct.pairs);
    }
}

#[test]
fn loops_are_born_and_die_at_pair_distances() {
    let points = synthetic_points(2, 15, 0.4, 0.3, 11);
    let d = distance_keys(&points);
    let dg = diagram_of(&d, 1);
    let n = points.len();
    let is_distance = |k: u64| (0..n).any(|i| (i + 1..n).any(|j| d[i][j] == k));
    let loops = dg.dimension(1);
    assert!(!loops.is_empty());
    for t in loops {
        let p = &dg.pairs[t];
        let death = p.death.unwrap();
        assert!(p.birth < death);
        assert!(is_distance(p.birth));
        assert!(is_distance(death));
    }
}

#[test]
fn distance_matrix_keeps_rows_and_columns() {
    // Not symmetric, so a transposed or reordered matrix would show.
    let rows = vec![vec![1, 2, 3], vec![4, 5, 6], vec![7, 8, 9]];
    let m = DistanceMatrix::from_rows(&rows);
    assert_eq!(m.to_rows(), rows);
    let empty: Vec<Vec<u64>> = Vec::new();
    assert_eq!(DistanceMatrix::from_rows(&empty).to_rows(), empty);
}

#[test]
fn h0_deaths_are_minimum_spanning_tree_weights() {
    let points = synthetic_points(3, 14, 0.5, 0.4, 5);
    let dist = distance_keys(&points);
    let dg = diagram_of(&dist, 0);
    let deaths: Vec<f64> = dg.pairs.iter().filter_map(|p| p.death.map(value)).collect();
    // Prim's algorithm on the same distances.
    let n = points.len();
    let mut in_tree = vec![false; n];
    let mut best = vec![f64::INFINITY; n];
    best[0] = 0.0;
    let mut weights = Vec::new();
    for step in 0..n {
        let u = (0..n).filter(|&v| !in_tree[v]).min_by(|&a, &b| best[a].partial_cmp(&best[b]).unwrap()).unwrap();
        in_tree[u] = true;
        if step > 0 {
            weights.push(best[u]);
        }
        for v in 0..n {
            let w = value(dist[u][v]);
            if !in_tree[v] && w < best[v] {
                best[v] = w;
            }
        }
    }
    weights.sort_by(|a, b| a.partial_cmp(b).unwrap());
    assert_eq!(deaths, weights);
}
