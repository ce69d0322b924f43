//! Falsification sweeps: the verdict on each learner and on the hypothesis.

use vstd::prelude::*;

verus! {

/// Positions among the first `t` flags that are set.
pub open spec fn flagged_positions(flags: Seq<bool>, t: int) -> Seq<usize>
    decreases t,
{
    if t <= 0 {
        Seq::empty()
    } else if flags[t - 1] {
        flagged_positions(flags, t - 1).push((t - 1) as usize)
    } else {
        flagged_positions(flags, t - 1)
    }
}

/// Positions, in order, of the candidates flagged as counterexamples.
pub fn counterexamples(is_counterexample: &Vec<bool>) -> (positions: Vec<usize>)
    ensures
        positions@ == flagged_positions(is_counterexample@, is_counterexample.len() as int),
        // Exactly the flagged positions, each once, in increasing order.
        forall|k: int| 0 <= k < positions.len() ==> (#[trigger] positions[k] as int) < is_counterexample.len()
            && is_counterexample[positions[k] as int],
        forall|t: int| 0 <= t < is_counterexample.len() && #[trigger] is_counterexample[t] ==> positions@.contains(
            t as usize,
        ),
        forall|a: int, b: int| 0 <= a < b < positions.len() ==> #[trigger] positions[a] < #[trigger] positions[b],
{
    let mut positions: Vec<usize> = Vec::new();
    let mut t: usize = 0;
    while t < is_counterexample.len()
        invariant
            t <= is_counterexample.len(),
            positions@ == flagged_positions(is_counterexample@, t as int),
            forall|k: int| 0 <= k < positions.len() ==> (#[trigger] positions[k] as int) < t
                && is_counterexample[positions[k] as int],
            forall|s: int| 0 <= s < t && #[trigger] is_counterexample[s] ==> positions@.contains(s as usize),
            forall|a: int, b: int| 0 <= a < b < positions.len() ==> #[trigger] positions[a] < #[trigger] positions[b],
        decreases is_counterexample.len() - t,
    {
        if is_counterexample[t] {
            let ghost before = positions@;
            positions.push(t);
            proof {
                assert forall|s: int| 0 <= s < t + 1 && #[trigger] is_counterexample[s] implies positions@.contains(s as usize) by {
                    if s == t {
                        assert(positions@[positions.len() - 1] == t);
                    } else {
                        let w = choose|w: int| 0 <= w < before.len() && before[w] == s as usize;
                        assert(positions@[w] == s as usize);
                    }
                }
            }
        }
        t = t + 1;
    }
    positions
}

/// Fewest states a history needs to take part in a sweep.
pub const MIN_ASSESSED_STATES: usize = 5;

/// Order key of the persistence score below which persistence is low
/// (three tenths).
pub const LOW_PERSISTENCE_KEY: u64 = 0xbfd3333333333333;

/// Order key of the persistence score above which persistence is high
/// (seven tenths).
pub const HIGH_PERSISTENCE_KEY: u64 = 0xbfe6666666666666;

/// Order key of the robustness score above which a learner is robust
/// (six tenths).
pub const ROBUST_KEY: u64 = 0xbfe3333333333333;

/// Order key of the robustness score below which a learner is fragile
/// (three tenths).
pub const FRAGILE_KEY: u64 = 0xbfd3333333333333;

/// What a learner's scores say of the hypothesis that high persistence goes
/// with robust learning.
#[derive(Clone, Copy, Debug, PartialEq, Eq, Structural)]
pub enum Verdict {
    /// Low persistence but high robustness: the hypothesis is falsified.
    LowPersistenceRobust,
    /// High persistence but low robustness: inverse falsification.
    HighPersistenceFragile,
    /// Consistent with the hypothesis.
    Consistent,
}

/// The verdict on a learner from the order keys of its persistence and
/// robustness scores.
pub open spec fn verdict_of(persistence_key: u64, robustness_key: u64) -> Verdict {
    if persistence_key < LOW_PERSISTENCE_KEY && robustness_key > ROBUST_KEY {
        Verdict::LowPersistenceRobust
    } else if persistence_key > HIGH_PERSISTENCE_KEY && robustness_key < FRAGILE_KEY {
        Verdict::HighPersistenceFragile
    } else {
        Verdict::Consistent
    }
}

impl Verdict {
    /// Whether the learner is a counterexample: any verdict but consistency.
    pub fn is_counterexample(&self) -> (flag: bool)
        ensures
            flag == !(*self is Consistent),
    {
        match self {
            Verdict::Consistent => false,
            _ => true,
        }
    }
}

/// Checks a learner against the hypothesis, from the order keys of its
/// persistence and robustness scores.
pub fn check(persistence_key: u64, robustness_key: u64) -> (verdict: Verdict)
    ensures
        verdict == verdict_of(persistence_key, robustness_key),
        // Falsified exactly when persistence is below the low mark and
        // robustness above the robust mark.
        verdict == Verdict::LowPersistenceRobust <==> persistence_key < LOW_PERSISTENCE_KEY && robustness_key
            > ROBUST_KEY,
        // Inversely falsified exactly when, short of that, persistence is
        // above the high mark and robustness below the fragile mark.
        verdict == Verdict::HighPersistenceFragile <==> !(persistence_key < LOW_PERSISTENCE_KEY && robustness_key
            > ROBUST_KEY) && persistence_key > HIGH_PERSISTENCE_KEY && robustness_key < FRAGILE_KEY,
        // A robustness at or above the fragile mark never gives an inverse
        // falsification; one at or below the robust mark never a falsification.
        robustness_key >= FRAGILE_KEY ==> verdict != Verdict::HighPersistenceFragile,
        robustness_key <= ROBUST_KEY ==> verdict != Verdict::LowPersistenceRobust,
{
    if persistence_key < LOW_PERSISTENCE_KEY && robustness_key > ROBUST_KEY {
        Verdict::LowPersistenceRobust
    } else if persistence_key > HIGH_PERSISTENCE_KEY && robustness_key < FRAGILE_KEY {
        Verdict::HighPersistenceFragile
    } else {
        Verdict::Consistent
    }
}

/// Counts of a sweep and its conclusion.
#[derive(Clone, Copy, Debug)]
pub struct SweepTally {
    /// Learners that are counterexamples.
    pub counterexamples_found: usize,
    /// Learners consistent with the hypothesis.
    pub consistent: usize,
    /// No counterexample, or more than four fifths of the learners consistent.
    pub hypothesis_supported: bool,
}

/// Tallies a sweep from the counterexample flags of its learners.
pub fn tally(is_counterexample: &Vec<bool>) -> (result: SweepTally)
    ensures
        result.counterexamples_found == flagged_positions(is_counterexample@, is_counterexample.len() as int).len(),
        result.counterexamples_found + result.consistent == is_counterexample.len(),
        // The number of learners flagged as counterexamples.
        result.counterexamples_found == is_counterexample@.filter(|flag: bool| flag).len(),
        result.hypothesis_supported == (result.counterexamples_found == 0
            || 5 * result.consistent > 4 * is_counterexample.len()),
{
    let found = counterexamples(is_counterexample);
    proof {
        lemma_flagged_positions_len(is_counterexample@, is_counterexample.len() as int);
        lemma_flagged_positions_filter(is_counterexample@, is_counterexample.len() as int);
        assert(is_counterexample@.take(is_counterexample.len() as int) =~= is_counterexample@);
    }
    let counterexamples_found = found.len();
    let consistent = is_counterexample.len() - counterexamples_found;
    let n = is_counterexample.len();
    let supported = counterexamples_found == 0 || (consistent as u128) * 5 > (n as u128) * 4;
    SweepTally { counterexamples_found, consistent, hypothesis_supported: supported }
}

proof fn lemma_flagged_positions_len(flags: Seq<bool>, t: int)
    requires
        0 <= t <= flags.len(),
    ensures
        flagged_positions(flags, t).len() <= t,
    decreases t,
{
    if t > 0 {
        lemma_flagged_positions_len(flags, t - 1);
    }
}

/// The verdict rule: falsified exactly when persistence is below the low
/// mark and robustness above the robust mark; inversely falsified exactly
/// when, short of that, persistence is above the high mark and robustness
/// below the fragile mark; consistent otherwise.
pub proof fn lemma_verdict_rule(persistence_key: u64, robustness_key: u64)
    ensures
        verdict_of(persistence_key, robustness_key) == Verdict::LowPersistenceRobust <==> persistence_key
            < LOW_PERSISTENCE_KEY && robustness_key > ROBUST_KEY,
        verdict_of(persistence_key, robustness_key) == Verdict::HighPersistenceFragile <==> !(persistence_key
            < LOW_PERSISTENCE_KEY && robustness_key > ROBUST_KEY) && persistence_key > HIGH_PERSISTENCE_KEY
            && robustness_key < FRAGILE_KEY,
        robustness_key >= FRAGILE_KEY ==> verdict_of(persistence_key, robustness_key)
            != Verdict::HighPersistenceFragile,
{
}

/// Listing the flagged positions one by one counts the flags of the prefix.
proof fn lemma_flagged_positions_filter(flags: Seq<bool>, t: int)
    requires
        0 <= t <= flags.len(),
    ensures
        flagged_positions(flags, t).len() == flags.take(t).filter(|flag: bool| flag).len(),
    decreases t,
{
    let pred = |flag: bool| flag;
    if t == 0 {
        assert(flags.take(0) =~= Seq::<bool>::empty());
        reveal(Seq::filter);
    } else {
        lemma_flagged_positions_filter(flags, t - 1);
        assert(flags.take(t) =~= flags.take(t - 1).push(flags[t - 1]));
        flags.take(t - 1).lemma_filter_push(flags[t - 1], pred);
    }
}

} // verus!
