use lau_persistence_experiment::birth_death::{
    birth_death_events, breakthrough_steps, count_events, events_at_step, exploration_steps, BirthDeathType,
};
use lau_persistence_experiment::comparison::{cluster_by_similarity, most_distinct};
use lau_persistence_experiment::falsification::{
    check, counterexamples, tally, Verdict, FRAGILE_KEY, HIGH_PERSISTENCE_KEY, LOW_PERSISTENCE_KEY, ROBUST_KEY,
};
use lau_persistence_experiment::persistence::ZERO_FILTRATION;
use lau_persistence_experiment::phase::{
    classify_spike, count_of_type, oscillation_detected, smoothing_window, spike_scan_range, TransitionType,
};
use lau_persistence_experiment::robustness::{
    category, fragility_indicators, is_fragile, is_robust, predict, FragilityIndicator, RobustnessCategory, RobustnessPrediction,
    FEW_LONG_LIVED_KEY, LOW_MEAN_PERSISTENCE_KEY, LOW_STABILITY_KEY, SIMILAR_ABOVE_KEY, SIMILAR_BELOW_KEY,
};

fn key(x: f64) -> u64 {
    let x = if x == 0.0 { 0.0 } else { x };
    let bits = x.to_bits();
    if bits >> 63 == 0 {
        bits | (1u64 << 63)
    } else {
        !bits
    }
}

#[test]
fn threshold_keys_are_keys_of_their_values() {
    assert_eq!(LOW_PERSISTENCE_KEY, key(0.3));
    assert_eq!(HIGH_PERSISTENCE_KEY, key(0.7));
    assert_eq!(ROBUST_KEY, key(0.6));
    assert_eq!(FRAGILE_KEY, key(0.3));
    assert_eq!(SIMILAR_ABOVE_KEY, key(0.1));
    assert_eq!(SIMILAR_BELOW_KEY, key(-0.1));
    assert_eq!(LOW_MEAN_PERSISTENCE_KEY, key(0.5));
    assert_eq!(FEW_LONG_LIVED_KEY, key(0.2));
    assert_eq!(LOW_STABILITY_KEY, key(0.3));
}

#[test]
fn verdict_low_persistence_high_robustness_falsifies() {
    let v = check(key(0.1), key(0.9));
    assert_eq!(v, Verdict::LowPersistenceRobust);
    assert!(v.is_counterexample());
}

#[test]
fn verdict_high_persistence_low_robustness_is_inverse() {
    let v = check(key(0.9), key(0.1));
    assert_eq!(v, Verdict::HighPersistenceFragile);
    assert!(v.is_counterexample());
}

#[test]
fn verdict_consistent_cases() {
    assert_eq!(check(key(0.9), key(0.9)), Verdict::Consistent);
    assert_eq!(check(key(0.1), key(0.1)), Verdict::Consistent);
    assert_eq!(check(key(0.5), key(0.5)), Verdict::Consistent);
    // Thresholds are strict.
    assert_eq!(check(key(0.3), key(0.9)), Verdict::Consistent);
    assert_eq!(check(key(0.1), key(0.6)), Verdict::Consistent);
    assert!(!Verdict::Consistent.is_counterexample());
}

#[test]
fn tally_without_counterexamples_supports() {
    let t = tally(&vec![false, false, false]);
    assert_eq!(t.counterexamples_found, 0);
    assert_eq!(t.consistent, 3);
    assert!(t.hypothesis_supported);
}

#[test]
fn tally_needs_more_than_four_fifths() {
    // Four of five consistent: exactly four fifths, not more.
    let t = tally(&vec![false, false, true, false, false]);
    assert_eq!(t.counterexamples_found, 1);
    assert_eq!(t.consistent, 4);
    assert!(!t.hypothesis_supported);
    // Nine of ten consistent.
    let mut flags = vec![false; 10];
    flags[3] = true;
    let t = tally(&flags);
    assert_eq!(t.counterexamples_found, 1);
    assert!(t.hypothesis_supported);
}

#[test]
fn tally_of_no_learners_supports() {
    let t = tally(&vec![]);
    assert_eq!(t.counterexamples_found, 0);
    assert_eq!(t.consistent, 0);
    assert!(t.hypothesis_supported);
}

#[test]
fn category_thresholds() {
    assert_eq!(category(key(0.9)), RobustnessCategory::HighlyRobust);
    assert_eq!(category(key(0.8)), RobustnessCategory::Robust);
    assert_eq!(category(key(0.7)), RobustnessCategory::Robust);
    assert_eq!(category(key(0.5)), RobustnessCategory::Moderate);
    assert_eq!(category(key(0.3)), RobustnessCategory::Fragile);
    assert_eq!(category(key(0.2)), RobustnessCategory::HighlyFragile);
    assert_eq!(category(key(0.0)), RobustnessCategory::HighlyFragile);
    assert_eq!(category(key(-1.0)), RobustnessCategory::HighlyFragile);
}

#[test]
fn prediction_from_difference() {
    assert_eq!(predict(key(0.05)), RobustnessPrediction::Similar);
    assert_eq!(predict(key(-0.05)), RobustnessPrediction::Similar);
    assert_eq!(predict(key(0.0)), RobustnessPrediction::Similar);
    assert_eq!(predict(key(0.5)), RobustnessPrediction::ASlowerRobust);
    assert_eq!(predict(key(-0.5)), RobustnessPrediction::BSlowerRobust);
    // A difference of exactly a tenth is not similar.
    assert_eq!(predict(key(0.1)), RobustnessPrediction::ASlowerRobust);
    assert_eq!(predict(key(-0.1)), RobustnessPrediction::BSlowerRobust);
}

#[test]
fn spike_scan_range_saturates() {
    assert_eq!(spike_scan_range(10, 2), (2, 8));
    assert_eq!(spike_scan_range(3, 5), (5, 0));
    assert_eq!(spike_scan_range(4, 0), (0, 4));
}

#[test]
fn spikes_above_and_below_threshold() {
    let th = 0.5;
    assert_eq!(classify_spike(key(0.8), key(th), key(-th)), Some(TransitionType::ExplorationBurst));
    assert_eq!(classify_spike(key(-0.8), key(th), key(-th)), Some(TransitionType::Breakthrough));
    assert_eq!(classify_spike(key(0.2), key(th), key(-th)), None);
    assert_eq!(classify_spike(key(-0.5), key(th), key(-th)), None);
    assert_eq!(classify_spike(key(0.5), key(th), key(-th)), None);
}

#[test]
fn oscillation_needs_more_than_a_third() {
    assert!(!oscillation_detected(3, 9));
    assert!(oscillation_detected(4, 9));
    assert!(oscillation_detected(1, 2));
    assert!(!oscillation_detected(0, 2));
}

#[test]
fn counts_of_transition_kinds() {
    let kinds = vec![
        TransitionType::ExplorationBurst,
        TransitionType::Breakthrough,
        TransitionType::ExplorationBurst,
        TransitionType::Oscillation,
    ];
    assert_eq!(count_of_type(&kinds, TransitionType::ExplorationBurst), 2);
    assert_eq!(count_of_type(&kinds, TransitionType::Breakthrough), 1);
    assert_eq!(count_of_type(&kinds, TransitionType::Collapse), 0);
}

#[test]
fn smoothing_window_is_a_tenth_at_least_one() {
    assert_eq!(smoothing_window(0), 1);
    assert_eq!(smoothing_window(9), 1);
    assert_eq!(smoothing_window(25), 2);
    assert_eq!(smoothing_window(100), 10);
}

#[test]
fn events_birth_then_death_for_finite_pairs() {
    let events = birth_death_events(&vec![true, false, true]);
    assert_eq!(
        events,
        vec![
            (0, BirthDeathType::Birth),
            (0, BirthDeathType::Death),
            (2, BirthDeathType::Birth),
            (2, BirthDeathType::Death),
        ]
    );
    assert_eq!(count_events(&events, BirthDeathType::Birth), 2);
    assert_eq!(count_events(&events, BirthDeathType::Death), 2);
    assert_eq!(count_events(&events, BirthDeathType::LongLived), 0);
}

#[test]
fn no_events_without_finite_pairs() {
    let events = birth_death_events(&vec![false, false]);
    assert!(events.is_empty());
    assert_eq!(count_events(&events, BirthDeathType::Birth), 0);
}

#[test]
fn all_fragility_indicators_in_order() {
    let v = fragility_indicators(key(0.1), key(0.1), key(0.1), 2);
    assert_eq!(
        v,
        vec![
            FragilityIndicator::LowMeanPersistence,
            FragilityIndicator::FewLongLived,
            FragilityIndicator::LowStability,
            FragilityIndicator::FewFeatures,
        ]
    );
}

#[test]
fn no_fragility_indicators_for_a_robust_assessment() {
    assert!(fragility_indicators(key(2.0), key(0.5), key(1.0), 10).is_empty());
    // Thresholds are strict.
    assert!(fragility_indicators(key(0.5), key(0.2), key(0.3), 3).is_empty());
}

#[test]
fn some_fragility_indicators() {
    assert_eq!(
        fragility_indicators(key(2.0), key(0.1), key(1.0), 1),
        vec![FragilityIndicator::FewLongLived, FragilityIndicator::FewFeatures]
    );
}

#[test]
fn test_counterexample_check_positive() {
    // Persistence 0.1, robustness 0.8.
    let v = check(key(0.1), key(0.8));
    assert!(v.is_counterexample());
}

#[test]
fn test_counterexample_check_negative() {
    // Persistence 0.5, robustness 0.5.
    let v = check(key(0.5), key(0.5));
    assert!(!v.is_counterexample());
}

#[test]
fn test_counterexample_inverse() {
    // Persistence 0.9, robustness 0.1.
    let v = check(key(0.9), key(0.1));
    assert!(v.is_counterexample());
}

#[test]
fn counterexamples_of_a_sweep() {
    // The verdicts of a sweep select its counterexamples.
    let flags: Vec<bool> = [(0.1, 0.8), (0.5, 0.5), (0.9, 0.1)]
        .iter()
        .map(|&(p, r)| check(key(p), key(r)).is_counterexample())
        .collect();
    let ce = counterexamples(&flags);
    assert_eq!(ce, vec![0, 2]);
}

#[test]
fn test_robustness_categories() {
    let robust = key(0.9);
    assert!(is_robust(robust));
    assert!(!is_fragile(robust));
    assert_eq!(category(robust), RobustnessCategory::HighlyRobust);

    let fragile = key(0.1);
    assert!(is_fragile(fragile));
    assert_eq!(category(fragile), RobustnessCategory::HighlyFragile);

    let moderate = key(0.5);
    assert_eq!(category(moderate), RobustnessCategory::Moderate);
}

#[test]
fn test_robustness_comparison_similar() {
    let delta: f64 = 0.5 - 0.52;
    assert_eq!(predict(key(delta)), RobustnessPrediction::Similar);
}

#[test]
fn test_robustness_comparison_a_robust() {
    let delta: f64 = 0.8 - 0.2;
    assert_eq!(predict(key(delta)), RobustnessPrediction::ASlowerRobust);
    assert!(key(delta) > ZERO_FILTRATION);
}

#[test]
fn test_robustness_comparison_b_robust() {
    let delta: f64 = 0.2 - 0.8;
    assert_eq!(predict(key(delta)), RobustnessPrediction::BSlowerRobust);
    assert!(key(delta) < ZERO_FILTRATION);
}

#[test]
fn test_fragility_indicators_low_persistence() {
    // One finite pair (0, 0.1) and a persistence threshold of 1: mean
    // persistence 0.1, no long-lived feature, stability 1, one feature.
    let indicators = fragility_indicators(key(0.1), key(0.0), key(1.0), 1);
    assert!(indicators.len() > 0);
    assert_eq!(
        indicators,
        vec![FragilityIndicator::LowMeanPersistence, FragilityIndicator::FewLongLived, FragilityIndicator::FewFeatures]
    );
}

#[test]
fn most_distinct_picks_the_outlier() {
    // Total distances to the others: two similar agents and an outlier.
    let totals = vec![key(1.0 + 9.0), key(1.0 + 9.5), key(9.0 + 9.5)];
    assert_eq!(most_distinct(&totals), Some(2));
}

#[test]
fn one_group_when_everyone_is_close() {
    // With a large threshold every agent is close to every other.
    let close = vec![vec![true; 3]; 3];
    let clusters = cluster_by_similarity(&close);
    assert!(clusters.len() >= 1);
    assert_eq!(clusters, vec![vec![0, 1, 2]]);
}

#[test]
fn events_at_step_finds_the_birth() {
    // One pair (0, 5) at step scale 10: a birth at step 0, a death at step 50.
    let events = birth_death_events(&vec![true]);
    let steps: Vec<usize> = events
        .iter()
        .map(|&(_, kind)| if kind == BirthDeathType::Birth { 0 } else { 50 })
        .collect();
    let birth_events = events_at_step(&steps, 0);
    assert!(birth_events.len() >= 1);
    assert_eq!(birth_events, vec![0]);
}

#[test]
fn breakthrough_steps_at_deaths() {
    // Windows every 10 steps with their numbers of deaths.
    let entries = vec![(0, 3), (10, 0), (20, 1), (30, 2)];
    let bt = breakthrough_steps(&entries, 1);
    assert_eq!(bt, vec![0, 20, 30]);
}

#[test]
fn exploration_steps_at_births() {
    // Windows every 10 steps with their numbers of births.
    let entries = vec![(0, 0), (10, 4), (20, 1)];
    let ex = exploration_steps(&entries, 1);
    assert_eq!(ex, vec![10, 20]);
}
