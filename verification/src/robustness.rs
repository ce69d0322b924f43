//! Robustness of a learner: its fragility indicators and category, the
//! prediction that compares two learners, and the window scheme of the
//! robustness assessment.

use vstd::prelude::*;
use crate::persistence::{window_starts, window_count, windows_enumerable, ZERO_FILTRATION};

verus! {

/// Prediction about the relative learning behaviour of two learners.
#[derive(Clone, Copy, Debug, PartialEq, Eq, Structural)]
pub enum RobustnessPrediction {
    /// A will learn slower but be more robust.
    ASlowerRobust,
    /// B will learn slower but be more robust.
    BSlowerRobust,
    /// Both similar.
    Similar,
}

/// Window size used for a requested size: at least 2.
pub open spec fn robustness_window(window_size: int) -> int {
    if window_size >= 2 {
        window_size
    } else {
        2
    }
}

/// Stride used for a window size: half of it, at least 1.
pub open spec fn robustness_stride(window: int) -> int {
    if window / 2 >= 1 {
        window / 2
    } else {
        1
    }
}

/// The starts of the windows over which robustness is assessed: windows of
/// `max(window_size, 2)` points every `max(window / 2, 1)` points; `None`
/// when the history is shorter than one window.
pub fn robustness_window_starts(len: usize, window_size: usize) -> (starts: Option<Vec<usize>>)
    requires
        windows_enumerable(
            len as int,
            robustness_window(window_size as int),
            robustness_stride(robustness_window(window_size as int)),
        ),
    ensures
        (len as int) < robustness_window(window_size as int) <==> starts is None,
        starts matches Some(s) ==> {
            let w = robustness_window(window_size as int);
            let stride = robustness_stride(w);
            &&& s.len() == window_count(len as int, w, stride)
            &&& forall|k: int| 0 <= k < s.len() ==> #[trigger] s[k] as int == k * stride
            &&& forall|k: int| 0 <= k < s.len() ==> #[trigger] s[k] + w <= len
        },
        // Windows of the size asked for, at least 2, every half window, at
        // least every point.
        window_size >= 2 ==> (len < window_size <==> starts is None),
        window_size < 2 ==> (len < 2 <==> starts is None),
        starts matches Some(s) ==> forall|k: int| 0 <= k < s.len() ==> #[trigger] s[k] as int == k * (
            if window_size >= 4 { window_size as int / 2 } else { 1 }),
        starts matches Some(s) ==> forall|k: int| 0 <= k < s.len() ==> #[trigger] s[k] + (if window_size >= 2 {
            window_size as int
        } else {
            2
        }) <= len,
        starts matches Some(s) ==> s.len() * (if window_size >= 4 { window_size as int / 2 } else { 1 }) + (
            if window_size >= 2 { window_size as int } else { 2 }) > len,
{
    let window = if window_size >= 2 { window_size } else { 2 };
    if len < window {
        return None;
    }
    let stride = if window / 2 >= 1 { window / 2 } else { 1 };
    Some(window_starts(len, window, stride))
}

/// Order key of the robustness above which a learner is highly robust
/// (eight tenths).
pub const HIGHLY_ROBUST_KEY: u64 = 0xbfe999999999999a;

/// Order key of the robustness above which a learner is robust (six tenths).
pub const ROBUST_CATEGORY_KEY: u64 = 0xbfe3333333333333;

/// Order key of the robustness above which a learner is moderate (four tenths).
pub const MODERATE_KEY: u64 = 0xbfd999999999999a;

/// Order key of the robustness above which a learner is fragile rather than
/// highly fragile (two tenths).
pub const FRAGILE_CATEGORY_KEY: u64 = 0xbfc999999999999a;

/// Category of a robustness score.
#[derive(Clone, Copy, Debug, PartialEq, Eq, Structural)]
pub enum RobustnessCategory {
    HighlyRobust,
    Robust,
    Moderate,
    Fragile,
    HighlyFragile,
}

/// The category of a robustness score, from its order key: the first
/// threshold, from the top, that the score exceeds.
pub open spec fn category_of(robustness_key: u64) -> RobustnessCategory {
    if robustness_key > HIGHLY_ROBUST_KEY {
        RobustnessCategory::HighlyRobust
    } else if robustness_key > ROBUST_CATEGORY_KEY {
        RobustnessCategory::Robust
    } else if robustness_key > MODERATE_KEY {
        RobustnessCategory::Moderate
    } else if robustness_key > FRAGILE_CATEGORY_KEY {
        RobustnessCategory::Fragile
    } else {
        RobustnessCategory::HighlyFragile
    }
}

/// The category of a robustness score, from its order key.
pub fn category(robustness_key: u64) -> (result: RobustnessCategory)
    ensures
        result == category_of(robustness_key),
        // Each category is the band between its two thresholds.
        result == RobustnessCategory::HighlyRobust <==> robustness_key > HIGHLY_ROBUST_KEY,
        result == RobustnessCategory::Robust <==> ROBUST_CATEGORY_KEY < robustness_key <= HIGHLY_ROBUST_KEY,
        result == RobustnessCategory::Moderate <==> MODERATE_KEY < robustness_key <= ROBUST_CATEGORY_KEY,
        result == RobustnessCategory::Fragile <==> FRAGILE_CATEGORY_KEY < robustness_key <= MODERATE_KEY,
        result == RobustnessCategory::HighlyFragile <==> robustness_key <= FRAGILE_CATEGORY_KEY,
{
    if robustness_key > HIGHLY_ROBUST_KEY {
        RobustnessCategory::HighlyRobust
    } else if robustness_key > ROBUST_CATEGORY_KEY {
        RobustnessCategory::Robust
    } else if robustness_key > MODERATE_KEY {
        RobustnessCategory::Moderate
    } else if robustness_key > FRAGILE_CATEGORY_KEY {
        RobustnessCategory::Fragile
    } else {
        RobustnessCategory::HighlyFragile
    }
}

/// Order key of the robustness difference below which two learners are
/// similar (one tenth).
pub const SIMILAR_ABOVE_KEY: u64 = 0xbfb999999999999a;

/// Order key of minus one tenth: differences above it and below
/// [`SIMILAR_ABOVE_KEY`] are similar.
pub const SIMILAR_BELOW_KEY: u64 = 0x4046666666666665;

/// The prediction for two learners from the order key of the difference of
/// their robustness, A's minus B's.
pub open spec fn prediction_of(delta_key: u64) -> RobustnessPrediction {
    if SIMILAR_BELOW_KEY < delta_key && delta_key < SIMILAR_ABOVE_KEY {
        RobustnessPrediction::Similar
    } else if delta_key > ZERO_FILTRATION {
        RobustnessPrediction::ASlowerRobust
    } else {
        RobustnessPrediction::BSlowerRobust
    }
}

/// Predicts which of two learners learns slower but more robustly, from the
/// order key of the difference of their robustness, A's minus B's: similar
/// within a tenth, else the one with the larger robustness.
pub fn predict(delta_key: u64) -> (prediction: RobustnessPrediction)
    ensures
        prediction == prediction_of(delta_key),
        // Similar strictly within a tenth either way.
        prediction == RobustnessPrediction::Similar <==> SIMILAR_BELOW_KEY < delta_key < SIMILAR_ABOVE_KEY,
        // Otherwise the learner with the larger robustness.
        prediction == RobustnessPrediction::ASlowerRobust <==> !(SIMILAR_BELOW_KEY < delta_key
            < SIMILAR_ABOVE_KEY) && delta_key > ZERO_FILTRATION,
        prediction == RobustnessPrediction::BSlowerRobust <==> !(SIMILAR_BELOW_KEY < delta_key
            < SIMILAR_ABOVE_KEY) && delta_key <= ZERO_FILTRATION,
{
    if SIMILAR_BELOW_KEY < delta_key && delta_key < SIMILAR_ABOVE_KEY {
        RobustnessPrediction::Similar
    } else if delta_key > ZERO_FILTRATION {
        RobustnessPrediction::ASlowerRobust
    } else {
        RobustnessPrediction::BSlowerRobust
    }
}

/// Order key of the mean persistence below which features barely survive
/// (one half).
pub const LOW_MEAN_PERSISTENCE_KEY: u64 = 0xbfe0000000000000;

/// Order key of the long-lived fraction below which structure is transient
/// (two tenths).
pub const FEW_LONG_LIVED_KEY: u64 = 0xbfc999999999999a;

/// Order key of the stability below which features are inconsistent across
/// windows (three tenths).
pub const LOW_STABILITY_KEY: u64 = 0xbfd3333333333333;

/// Fewest features, over all windows, for the structure not to count as
/// sparse.
pub const MIN_FEATURES: usize = 3;

/// A sign of fragile learning.
#[derive(Clone, Copy, Debug, PartialEq, Eq, Structural)]
pub enum FragilityIndicator {
    /// Very low mean persistence: features barely survive.
    LowMeanPersistence,
    /// Few long-lived features: topological structure is transient.
    FewLongLived,
    /// Low stability: features inconsistent across windows.
    LowStability,
    /// Very few topological features detected.
    FewFeatures,
}

/// The place of an indicator in the order in which they are reported.
pub open spec fn indicator_rank(indicator: FragilityIndicator) -> int {
    match indicator {
        FragilityIndicator::LowMeanPersistence => 0,
        FragilityIndicator::FewLongLived => 1,
        FragilityIndicator::LowStability => 2,
        FragilityIndicator::FewFeatures => 3,
    }
}

/// `indicator` alone when `present`, else nothing.
pub open spec fn indicator_if(present: bool, indicator: FragilityIndicator) -> Seq<FragilityIndicator> {
    if present {
        seq![indicator]
    } else {
        Seq::empty()
    }
}

/// The fragility indicators of an assessment, in this order: low mean
/// persistence, few long-lived features, low stability, few features; from
/// the order keys of the mean persistence, the long-lived fraction and the
/// stability, and the number of finite features over all windows.
pub open spec fn fragility_of(
    mean_persistence_key: u64,
    long_lived_fraction_key: u64,
    stability_key: u64,
    total_features: usize,
) -> Seq<FragilityIndicator> {
    indicator_if(mean_persistence_key < LOW_MEAN_PERSISTENCE_KEY, FragilityIndicator::LowMeanPersistence)
        + indicator_if(long_lived_fraction_key < FEW_LONG_LIVED_KEY, FragilityIndicator::FewLongLived)
        + indicator_if(stability_key < LOW_STABILITY_KEY, FragilityIndicator::LowStability)
        + indicator_if(total_features < MIN_FEATURES, FragilityIndicator::FewFeatures)
}

/// The indicators reported for the four conditions: each present exactly
/// when its condition holds, in the order of their ranks.
proof fn lemma_indicators_shape(p0: bool, p1: bool, p2: bool, p3: bool)
    ensures
        ({
            let v = indicator_if(p0, FragilityIndicator::LowMeanPersistence) + indicator_if(
                p1,
                FragilityIndicator::FewLongLived,
            ) + indicator_if(p2, FragilityIndicator::LowStability) + indicator_if(p3, FragilityIndicator::FewFeatures);
            &&& v.contains(FragilityIndicator::LowMeanPersistence) <==> p0
            &&& v.contains(FragilityIndicator::FewLongLived) <==> p1
            &&& v.contains(FragilityIndicator::LowStability) <==> p2
            &&& v.contains(FragilityIndicator::FewFeatures) <==> p3
            &&& forall|a: int, b: int| 0 <= a < b < v.len() ==> indicator_rank(#[trigger] v[a]) < indicator_rank(#[trigger] v[b])
        }),
{
    let v = indicator_if(p0, FragilityIndicator::LowMeanPersistence) + indicator_if(p1, FragilityIndicator::FewLongLived)
        + indicator_if(p2, FragilityIndicator::LowStability) + indicator_if(p3, FragilityIndicator::FewFeatures);
    if p0 {
        if p1 {
            if p2 {
                if p3 {
                    assert(v =~= seq![FragilityIndicator::LowMeanPersistence, FragilityIndicator::FewLongLived, FragilityIndicator::LowStability, FragilityIndicator::FewFeatures]);
                    assert(v[0] == FragilityIndicator::LowMeanPersistence);
                    assert(v[1] == FragilityIndicator::FewLongLived);
                    assert(v[2] == FragilityIndicator::LowStability);
                    assert(v[3] == FragilityIndicator::FewFeatures);
                } else {
                    assert(v =~= seq![FragilityIndicator::LowMeanPersistence, FragilityIndicator::FewLongLived, FragilityIndicator::LowStability]);
                    assert(v[0] == FragilityIndicator::LowMeanPersistence);
                    assert(v[1] == FragilityIndicator::FewLongLived);
                    assert(v[2] == FragilityIndicator::LowStability);
                }
            } else {
                if p3 {
                    assert(v =~= seq![FragilityIndicator::LowMeanPersistence, FragilityIndicator::FewLongLived, FragilityIndicator::FewFeatures]);
                    assert(v[0] == FragilityIndicator::LowMeanPersistence);
                    assert(v[1] == FragilityIndicator::FewLongLived);
                    assert(v[2] == FragilityIndicator::FewFeatures);
                } else {
                    assert(v =~= seq![FragilityIndicator::LowMeanPersistence, FragilityIndicator::FewLongLived]);
                    assert(v[0] == FragilityIndicator::LowMeanPersistence);
                    assert(v[1] == FragilityIndicator::FewLongLived);
                }
            }
        } else {
            if p2 {
                if p3 {
                    assert(v =~= seq![FragilityIndicator::LowMeanPersistence, FragilityIndicator::LowStability, FragilityIndicator::FewFeatures]);
                    assert(v[0] == FragilityIndicator::LowMeanPersistence);
                    assert(v[1] == FragilityIndicator::LowStability);
                    assert(v[2] == FragilityIndicator::FewFeatures);
                } else {
                    assert(v =~= seq![FragilityIndicator::LowMeanPersistence, FragilityIndicator::LowStability]);
                    assert(v[0] == FragilityIndicator::LowMeanPersistence);
                    assert(v[1] == FragilityIndicator::LowStability);
                }
            } else {
                if p3 {
                    assert(v =~= seq![FragilityIndicator::LowMeanPersistence, FragilityIndicator::FewFeatures]);
                    assert(v[0] == FragilityIndicator::LowMeanPersistence);
                    assert(v[1] == FragilityIndicator::FewFeatures);
                } else {
                    assert(v =~= seq![FragilityIndicator::LowMeanPersistence]);
                    assert(v[0] == FragilityIndicator::LowMeanPersistence);
                }
            }
        }
    } else {
        if p1 {
            if p2 {
                if p3 {
                    assert(v =~= seq![FragilityIndicator::FewLongLived, FragilityIndicator::LowStability, FragilityIndicator::FewFeatures]);
                    assert(v[0] == FragilityIndicator::FewLongLived);
                    assert(v[1] == FragilityIndicator::LowStability);
                    assert(v[2] == FragilityIndicator::FewFeatures);
                } else {
                    assert(v =~= seq![FragilityIndicator::FewLongLived, FragilityIndicator::LowStability]);
                    assert(v[0] == FragilityIndicator::FewLongLived);
                    assert(v[1] == FragilityIndicator::LowStability);
                }
            } else {
                if p3 {
                    assert(v =~= seq![FragilityIndicator::FewLongLived, FragilityIndicator::FewFeatures]);
                    assert(v[0] == FragilityIndicator::FewLongLived);
                    assert(v[1] == FragilityIndicator::FewFeatures);
                } else {
                    assert(v =~= seq![FragilityIndicator::FewLongLived]);
                    assert(v[0] == FragilityIndicator::FewLongLived);
                }
            }
        } else {
            if p2 {
                if p3 {
                    assert(v =~= seq![FragilityIndicator::LowStability, FragilityIndicator::FewFeatures]);
                    assert(v[0] == FragilityIndicator::LowStability);
                    assert(v[1] == FragilityIndicator::FewFeatures);
                } else {
                    assert(v =~= seq![FragilityIndicator::LowStability]);
                    assert(v[0] == FragilityIndicator::LowStability);
                }
            } else {
                if p3 {
                    assert(v =~= seq![FragilityIndicator::FewFeatures]);
                    assert(v[0] == FragilityIndicator::FewFeatures);
                } else {
                    assert(v =~= Seq::<FragilityIndicator>::empty());
                }
            }
        }
    }
}

/// The fragility indicators of a robustness assessment.
pub fn fragility_indicators(
    mean_persistence_key: u64,
    long_lived_fraction_key: u64,
    stability_key: u64,
    total_features: usize,
) -> (indicators: Vec<FragilityIndicator>)
    ensures
        indicators@ == fragility_of(mean_persistence_key, long_lived_fraction_key, stability_key, total_features),
        // Each indicator is present exactly when its measure is below its mark.
        indicators@.contains(FragilityIndicator::LowMeanPersistence) <==> mean_persistence_key
            < LOW_MEAN_PERSISTENCE_KEY,
        indicators@.contains(FragilityIndicator::FewLongLived) <==> long_lived_fraction_key < FEW_LONG_LIVED_KEY,
        indicators@.contains(FragilityIndicator::LowStability) <==> stability_key < LOW_STABILITY_KEY,
        indicators@.contains(FragilityIndicator::FewFeatures) <==> total_features < MIN_FEATURES,
        // Each at most once, in the order low mean persistence, few
        // long-lived features, low stability, few features.
        forall|a: int, b: int| 0 <= a < b < indicators.len() ==> indicator_rank(#[trigger] indicators@[a])
            < indicator_rank(#[trigger] indicators@[b]),
{
    let mut indicators: Vec<FragilityIndicator> = Vec::new();
    if mean_persistence_key < LOW_MEAN_PERSISTENCE_KEY {
        indicators.push(FragilityIndicator::LowMeanPersistence);
    }
    let ghost first = indicators@;
    if long_lived_fraction_key < FEW_LONG_LIVED_KEY {
        indicators.push(FragilityIndicator::FewLongLived);
    }
    let ghost second = indicators@;
    if stability_key < LOW_STABILITY_KEY {
        indicators.push(FragilityIndicator::LowStability);
    }
    let ghost third = indicators@;
    if total_features < MIN_FEATURES {
        indicators.push(FragilityIndicator::FewFeatures);
    }
    proof {
        let a = indicator_if(mean_persistence_key < LOW_MEAN_PERSISTENCE_KEY, FragilityIndicator::LowMeanPersistence);
        let b = indicator_if(long_lived_fraction_key < FEW_LONG_LIVED_KEY, FragilityIndicator::FewLongLived);
        let c = indicator_if(stability_key < LOW_STABILITY_KEY, FragilityIndicator::LowStability);
        let e = indicator_if(total_features < MIN_FEATURES, FragilityIndicator::FewFeatures);
        assert(first =~= a);
        assert(second =~= a + b);
        assert(third =~= a + b + c);
        assert(indicators@ =~= a + b + c + e);
        lemma_indicators_shape(
            mean_persistence_key < LOW_MEAN_PERSISTENCE_KEY,
            long_lived_fraction_key < FEW_LONG_LIVED_KEY,
            stability_key < LOW_STABILITY_KEY,
            total_features < MIN_FEATURES,
        );
    }
    indicators
}

/// Whether a learner is robust: robustness above six tenths, from its order key.
pub fn is_robust(robustness_key: u64) -> (robust: bool)
    ensures
        robust == (robustness_key > ROBUST_CATEGORY_KEY),
{
    robustness_key > ROBUST_CATEGORY_KEY
}

/// Order key of the robustness below which a learner is fragile (three tenths).
pub const FRAGILE_LEARNER_KEY: u64 = 0xbfd3333333333333;

/// Whether a learner is fragile: robustness below three tenths, from its order key.
pub fn is_fragile(robustness_key: u64) -> (fragile: bool)
    ensures
        fragile == (robustness_key < FRAGILE_LEARNER_KEY),
{
    robustness_key < FRAGILE_LEARNER_KEY
}

/// The category rule: each category is the band between its two thresholds,
/// which increase from fragile to highly robust.
pub proof fn lemma_category_bands(robustness_key: u64)
    ensures
        FRAGILE_CATEGORY_KEY < MODERATE_KEY < ROBUST_CATEGORY_KEY < HIGHLY_ROBUST_KEY,
        category_of(robustness_key) == RobustnessCategory::HighlyRobust <==> robustness_key > HIGHLY_ROBUST_KEY,
        category_of(robustness_key) == RobustnessCategory::Robust <==> ROBUST_CATEGORY_KEY < robustness_key
            <= HIGHLY_ROBUST_KEY,
        category_of(robustness_key) == RobustnessCategory::Moderate <==> MODERATE_KEY < robustness_key
            <= ROBUST_CATEGORY_KEY,
        category_of(robustness_key) == RobustnessCategory::Fragile <==> FRAGILE_CATEGORY_KEY < robustness_key
            <= MODERATE_KEY,
        category_of(robustness_key) == RobustnessCategory::HighlyFragile <==> robustness_key
            <= FRAGILE_CATEGORY_KEY,
{
}

/// The fragility rule: each indicator is reported exactly when its measure
/// is below its mark, each once, in a fixed order.
pub proof fn lemma_fragility_rule(
    mean_persistence_key: u64,
    long_lived_fraction_key: u64,
    stability_key: u64,
    total_features: usize,
)
    ensures
        ({
            let v = fragility_of(mean_persistence_key, long_lived_fraction_key, stability_key, total_features);
            &&& v.contains(FragilityIndicator::LowMeanPersistence) <==> mean_persistence_key < LOW_MEAN_PERSISTENCE_KEY
            &&& v.contains(FragilityIndicator::FewLongLived) <==> long_lived_fraction_key < FEW_LONG_LIVED_KEY
            &&& v.contains(FragilityIndicator::LowStability) <==> stability_key < LOW_STABILITY_KEY
            &&& v.contains(FragilityIndicator::FewFeatures) <==> total_features < MIN_FEATURES
            &&& forall|a: int, b: int| 0 <= a < b < v.len() ==> indicator_rank(#[trigger] v[a]) < indicator_rank(
                #[trigger] v[b],
            )
        }),
{
    lemma_indicators_shape(
        mean_persistence_key < LOW_MEAN_PERSISTENCE_KEY,
        long_lived_fraction_key < FEW_LONG_LIVED_KEY,
        stability_key < LOW_STABILITY_KEY,
        total_features < MIN_FEATURES,
    );
}

} // verus!
