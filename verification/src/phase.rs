//! Phase transitions of a learning run: their kinds, the rules that detect
//! them, and selection among them.

use vstd::prelude::*;

verus! {

/// Kind of phase transition.
#[derive(Clone, Copy, Debug, PartialEq, Eq, Structural)]
pub enum TransitionType {
    /// Sudden increase in complexity (exploration burst).
    ExplorationBurst,
    /// Sudden decrease in complexity (convergence or breakthrough).
    Breakthrough,
    /// Oscillation (instability).
    Oscillation,
    /// Gradual change.
    GradualShift,
    /// Collapse (features dying rapidly).
    Collapse,
}

/// Positions among the first `t` transitions of kind `kind`.
pub open spec fn positions_of_type(kinds: Seq<TransitionType>, kind: TransitionType, t: int) -> Seq<usize>
    decreases t,
{
    if t <= 0 {
        Seq::empty()
    } else if kinds[t - 1] == kind {
        positions_of_type(kinds, kind, t - 1).push((t - 1) as usize)
    } else {
        positions_of_type(kinds, kind, t - 1)
    }
}

/// Positions, in order, of the transitions of kind `kind`.
pub fn transitions_of_type(kinds: &Vec<TransitionType>, kind: TransitionType) -> (positions: Vec<usize>)
    ensures
        positions@ == positions_of_type(kinds@, kind, kinds.len() as int),
        forall|k: int| 0 <= k < positions.len() ==> (#[trigger] positions[k] as int) < kinds.len()
            && kinds[positions[k] as int] == kind,
        forall|t: int| 0 <= t < kinds.len() && #[trigger] kinds[t] == kind ==> positions@.contains(t as usize),
        forall|a: int, b: int| 0 <= a < b < positions.len() ==> #[trigger] positions[a] < #[trigger] positions[b],
{
    let mut positions: Vec<usize> = Vec::new();
    let mut t: usize = 0;
    while t < kinds.len()
        invariant
            t <= kinds.len(),
            positions@ == positions_of_type(kinds@, kind, t as int),
            forall|k: int| 0 <= k < positions.len() ==> (#[trigger] positions[k] as int) < t
                && kinds[positions[k] as int] == kind,
            forall|s: int| 0 <= s < t && #[trigger] kinds[s] == kind ==> positions@.contains(s as usize),
            forall|a: int, b: int| 0 <= a < b < positions.len() ==> #[trigger] positions[a] < #[trigger] positions[b],
        decreases kinds.len() - t,
    {
        if kinds[t] == kind {
            let ghost before = positions@;
            positions.push(t);
            proof {
                assert forall|s: int| 0 <= s < t + 1 && #[trigger] kinds[s] == kind implies positions@.contains(s as usize) by {
                    if s == t {
                        assert(positions@[positions.len() - 1] == t);
                    } else {
                        let w = choose|w: int| 0 <= w < before.len() && before[w] == s as usize;
                        assert(positions@[w] == s as usize);
                    }
                }
            }
        }
        t = t + 1;
    }
    positions
}

/// Position of the most significant transition: the largest magnitude key,
/// the last one among equals; `None` when there are none.
pub fn most_significant(magnitudes: &Vec<u64>) -> (best: Option<usize>)
    ensures
        best is None <==> magnitudes.len() == 0,
        best matches Some(i) ==> {
            &&& i < magnitudes.len()
            &&& forall|j: int| 0 <= j < magnitudes.len() ==> #[trigger] magnitudes[j] <= magnitudes[i as int]
            &&& forall|j: int| i < j < magnitudes.len() ==> #[trigger] magnitudes[j] < magnitudes[i as int]
        },
{
    if magnitudes.len() == 0 {
        return None;
    }
    let mut best: usize = 0;
    let mut t: usize = 1;
    while t < magnitudes.len()
        invariant
            1 <= t <= magnitudes.len(),
            best < t,
            forall|j: int| 0 <= j < t ==> #[trigger] magnitudes[j] <= magnitudes[best as int],
            forall|j: int| best < j < t ==> #[trigger] magnitudes[j] < magnitudes[best as int],
        decreases magnitudes.len() - t,
    {
        if magnitudes[t] >= magnitudes[best] {
            best = t;
        }
        t = t + 1;
    }
    Some(best)
}

/// The positions scanned for spikes in a trajectory of `len` complexities
/// with smoothing window `window`: from `window` up to, not including,
/// `len - window` (nothing when `len < window`).
pub fn spike_scan_range(len: usize, window: usize) -> (range: (usize, usize))
    ensures
        range.0 == window,
        range.1 == if len >= window { len - window } else { 0 },
{
    let end = if len >= window { len - window } else { 0 };
    (window, end)
}

/// The kind of spike, if any, from the order keys of the change in smoothed
/// complexity, of the spike threshold, and of the threshold negated: a rise
/// above the threshold is an exploration burst, a fall below the negated
/// threshold a breakthrough.
pub open spec fn spike_of(delta_key: u64, threshold_key: u64, negated_threshold_key: u64) -> Option<TransitionType> {
    if delta_key > threshold_key {
        Some(TransitionType::ExplorationBurst)
    } else if delta_key < negated_threshold_key {
        Some(TransitionType::Breakthrough)
    } else {
        None
    }
}

/// Classifies a change in smoothed complexity as a spike.
pub fn classify_spike(delta_key: u64, threshold_key: u64, negated_threshold_key: u64) -> (spike: Option<TransitionType>)
    ensures
        spike == spike_of(delta_key, threshold_key, negated_threshold_key),
        // A rise above the threshold is an exploration burst.
        delta_key > threshold_key ==> spike == Some(TransitionType::ExplorationBurst),
        // Otherwise a fall below the negated threshold is a breakthrough.
        delta_key <= threshold_key && delta_key < negated_threshold_key ==> spike
            == Some(TransitionType::Breakthrough),
        // Anything between the two is no spike.
        delta_key <= threshold_key && delta_key >= negated_threshold_key ==> spike is None,
{
    if delta_key > threshold_key {
        Some(TransitionType::ExplorationBurst)
    } else if delta_key < negated_threshold_key {
        Some(TransitionType::Breakthrough)
    } else {
        None
    }
}

/// Whether a trajectory of `n_steps` complexities oscillates: more than a
/// third of its length in changes of direction.
pub fn oscillation_detected(direction_changes: usize, n_steps: usize) -> (oscillates: bool)
    ensures
        oscillates == (direction_changes > n_steps / 3),
{
    direction_changes > n_steps / 3
}

/// The number of transitions of kind `kind`.
pub fn count_of_type(kinds: &Vec<TransitionType>, kind: TransitionType) -> (count: usize)
    ensures
        count == positions_of_type(kinds@, kind, kinds.len() as int).len(),
        // The number of transitions of that kind.
        count == kinds@.filter(|t: TransitionType| t == kind).len(),
{
    let count = transitions_of_type(kinds, kind).len();
    proof {
        lemma_positions_of_type_filter(kinds@, kind, kinds.len() as int);
        assert(kinds@.take(kinds.len() as int) =~= kinds@);
    }
    count
}

/// Listing the positions of a kind one by one counts that kind in the prefix.
proof fn lemma_positions_of_type_filter(kinds: Seq<TransitionType>, kind: TransitionType, t: int)
    requires
        0 <= t <= kinds.len(),
    ensures
        positions_of_type(kinds, kind, t).len() == kinds.take(t).filter(|x: TransitionType| x == kind).len(),
    decreases t,
{
    let pred = |x: TransitionType| x == kind;
    if t == 0 {
        assert(kinds.take(0) =~= Seq::<TransitionType>::empty());
        reveal(Seq::filter);
    } else {
        lemma_positions_of_type_filter(kinds, kind, t - 1);
        assert(kinds.take(t) =~= kinds.take(t - 1).push(kinds[t - 1]));
        kinds.take(t - 1).lemma_filter_push(kinds[t - 1], pred);
    }
}

/// The smoothing window used on a trajectory of `n_entries` complexities:
/// a tenth of its length, at least one.
pub fn smoothing_window(n_entries: usize) -> (window: usize)
    ensures
        window == if n_entries / 10 >= 1 { n_entries / 10 } else { 1 },
{
    if n_entries / 10 >= 1 {
        n_entries / 10
    } else {
        1
    }
}

/// The spike rule: a change above the threshold is an exploration burst; a
/// change not above it but below the negated threshold is a breakthrough;
/// anything else is no spike.
pub proof fn lemma_spike_rule(delta_key: u64, threshold_key: u64, negated_threshold_key: u64)
    ensures
        delta_key > threshold_key ==> spike_of(delta_key, threshold_key, negated_threshold_key)
            == Some(TransitionType::ExplorationBurst),
        delta_key <= threshold_key && delta_key < negated_threshold_key ==> spike_of(
            delta_key,
            threshold_key,
            negated_threshold_key,
        ) == Some(TransitionType::Breakthrough),
        delta_key <= threshold_key && delta_key >= negated_threshold_key ==> spike_of(
            delta_key,
            threshold_key,
            negated_threshold_key,
        ) is None,
{
}

} // verus!
