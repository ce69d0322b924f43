use lau_persistence_experiment::belief::{cluster_step_range, next_random_bits, simple_rng, slice_by_step};
use lau_persistence_experiment::birth_death::{
    breakthrough_steps, events_at_step, exploration_steps, median_key, BirthDeathType,
};
use lau_persistence_experiment::comparison::{cluster_by_similarity, most_distinct, rank_by};
use lau_persistence_experiment::complexity::is_increasing;
use lau_persistence_experiment::falsification::counterexamples;
use lau_persistence_experiment::order::{sorted_descending, stable_order, stable_order_descending};
use lau_persistence_experiment::phase::{most_significant, transitions_of_type, TransitionType};
use lau_persistence_experiment::robustness::{robustness_window_starts, RobustnessPrediction};

fn key(x: f64) -> u64 {
    let x = if x == 0.0 { 0.0 } else { x };
    let bits = x.to_bits();
    if bits >> 63 == 0 {
        bits | (1u64 << 63)
    } else {
        !bits
    }
}

#[test]
fn test_slice_by_step() {
    let steps = vec![0, 1, 2, 3];
    let s = slice_by_step(&steps, 1, 3);
    assert_eq!(s.len(), 2);
    assert_eq!(steps[s[0]], 1);
    assert_eq!(steps[s[1]], 2);
}

#[test]
fn test_transitions_of_type() {
    let kinds = vec![TransitionType::ExplorationBurst, TransitionType::Breakthrough];
    assert_eq!(transitions_of_type(&kinds, TransitionType::ExplorationBurst).len(), 1);
    assert_eq!(transitions_of_type(&kinds, TransitionType::Breakthrough).len(), 1);
    assert_eq!(transitions_of_type(&kinds, TransitionType::Collapse).len(), 0);
}

#[test]
fn test_most_significant() {
    let magnitudes = vec![key(0.3), key(0.9)];
    let ms = most_significant(&magnitudes).unwrap();
    assert_eq!(magnitudes[ms], key(0.9));
}

#[test]
fn test_empty_report() {
    assert!(most_significant(&vec![]).is_none());
}

#[test]
fn test_cohort_rank() {
    let ranked = rank_by(&vec![key(0.1), key(0.5), key(0.9)]);
    assert_eq!(ranked[0].0, 2);
    assert_eq!(ranked[2].0, 0);
}

#[test]
fn test_is_increasing() {
    assert!(is_increasing(&vec![key(0.2), key(0.8)]));
}

#[test]
fn test_is_not_increasing() {
    assert!(!is_increasing(&vec![key(0.9), key(0.1)]));
}

#[test]
fn generator_follows_lcg() {
    let mut state = simple_rng(42);
    assert_eq!(state, 42);
    let bits = next_random_bits(&mut state);
    let expected = 42u64.wrapping_mul(6364136223846793005).wrapping_add(1442695040888963407);
    assert_eq!(state, expected);
    assert_eq!(bits, expected >> 33);
    assert!(bits < (1u64 << 31));
    let mut again = simple_rng(42);
    assert_eq!(next_random_bits(&mut again), bits);
}

#[test]
fn cluster_ranges_share_out_steps() {
    assert_eq!(cluster_step_range(0, 3, 100), (0, 33));
    assert_eq!(cluster_step_range(1, 3, 100), (33, 66));
    assert_eq!(cluster_step_range(2, 3, 100), (66, 100));
    assert_eq!(cluster_step_range(0, 1, 7), (0, 7));
}

#[test]
fn stable_sort_keeps_ties_in_order() {
    let keys = vec![5, 1, 5, 0, 1];
    assert_eq!(stable_order(&keys), vec![3, 1, 4, 0, 2]);
    assert_eq!(stable_order_descending(&keys), vec![0, 2, 1, 4, 3]);
    assert_eq!(sorted_descending(&keys), vec![5, 5, 1, 1, 0]);
    assert_eq!(stable_order(&vec![]), Vec::<usize>::new());
}

#[test]
fn rank_keeps_equal_metrics_in_agent_order() {
    let ranked = rank_by(&vec![key(0.5), key(0.7), key(0.5)]);
    assert_eq!(ranked, vec![(1, key(0.7)), (0, key(0.5)), (2, key(0.5))]);
}

#[test]
fn most_significant_takes_last_of_equals() {
    assert_eq!(most_significant(&vec![3, 9, 2, 9, 1]), Some(3));
}

#[test]
fn most_distinct_takes_first_largest_positive() {
    assert_eq!(most_distinct(&vec![key(1.0), key(3.0), key(3.0)]), Some(1));
    assert_eq!(most_distinct(&vec![key(0.0), key(0.0)]), Some(0));
    assert_eq!(most_distinct(&vec![]), None);
}

#[test]
fn clusters_group_greedily() {
    // 0~1, 1~2, 0 !~ 2, 3 alone.
    let close = vec![
        vec![true, true, false, false],
        vec![true, true, true, false],
        vec![false, true, true, false],
        vec![false, false, false, true],
    ];
    assert_eq!(cluster_by_similarity(&close), vec![vec![0, 1], vec![2], vec![3]]);
    let everyone = vec![vec![true; 3]; 3];
    assert_eq!(cluster_by_similarity(&everyone), vec![vec![0, 1, 2]]);
    assert_eq!(cluster_by_similarity(&vec![]), Vec::<Vec<usize>>::new());
}

#[test]
fn median_is_upper_middle() {
    assert_eq!(median_key(&vec![key(5.0), key(1.0), key(3.0)]), Some(key(3.0)));
    assert_eq!(median_key(&vec![key(4.0), key(2.0)]), Some(key(4.0)));
    assert_eq!(median_key(&vec![]), None);
}

#[test]
fn threshold_steps_select_windows() {
    let deaths = vec![(0, 3), (10, 0), (20, 5)];
    assert_eq!(breakthrough_steps(&deaths, 1), vec![0, 20]);
    assert_eq!(exploration_steps(&deaths, 4), vec![20]);
    assert_eq!(breakthrough_steps(&deaths, 0), vec![0, 10, 20]);
}

#[test]
fn events_found_by_step() {
    assert_eq!(events_at_step(&vec![0, 5, 0, 2], 0), vec![0, 2]);
    assert_eq!(events_at_step(&vec![0, 5], 7), Vec::<usize>::new());
    assert_ne!(BirthDeathType::Birth, BirthDeathType::Death);
}

#[test]
fn counterexamples_are_flagged_ones() {
    assert_eq!(counterexamples(&vec![false, true, true, false]), vec![1, 2]);
}

#[test]
fn robustness_windows_half_overlap() {
    assert_eq!(robustness_window_starts(3, 2), Some(vec![0, 1]));
    assert_eq!(robustness_window_starts(1, 10), None);
    assert_eq!(robustness_window_starts(10, 4), Some(vec![0, 2, 4, 6]));
    assert_eq!(robustness_window_starts(5, 0), Some(vec![0, 1, 2, 3]));
    assert_ne!(RobustnessPrediction::Similar, RobustnessPrediction::ASlowerRobust);
}
