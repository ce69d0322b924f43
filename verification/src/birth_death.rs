//! Birth and death events of topological features over a learning run.

use vstd::prelude::*;
use crate::order::{stable_order, stable_order_of, is_stable_order};

verus! {

/// Kind of a birth-death event.
#[derive(Clone, Copy, Debug, PartialEq, Eq, Structural)]
pub enum BirthDeathType {
    Birth,
    Death,
    LongLived,
}

/// Positions among the first `t` whose value is `target`.
pub open spec fn positions_equal(values: Seq<usize>, target: usize, t: int) -> Seq<usize>
    decreases t,
{
    if t <= 0 {
        Seq::empty()
    } else if values[t - 1] == target {
        positions_equal(values, target, t - 1).push((t - 1) as usize)
    } else {
        positions_equal(values, target, t - 1)
    }
}

/// Positions, in order, of the events whose step is `step`.
pub fn events_at_step(event_steps: &Vec<usize>, step: usize) -> (positions: Vec<usize>)
    ensures
        positions@ == positions_equal(event_steps@, step, event_steps.len() as int),
        forall|k: int| 0 <= k < positions.len() ==> (#[trigger] positions[k] as int) < event_steps.len()
            && event_steps[positions[k] as int] == step,
        forall|t: int| 0 <= t < event_steps.len() && #[trigger] event_steps[t] == step ==> positions@.contains(t as usize),
        forall|a: int, b: int| 0 <= a < b < positions.len() ==> #[trigger] positions[a] < #[trigger] positions[b],
{
    let mut positions: Vec<usize> = Vec::new();
    let mut t: usize = 0;
    while t < event_steps.len()
        invariant
            t <= event_steps.len(),
            positions@ == positions_equal(event_steps@, step, t as int),
            forall|k: int| 0 <= k < positions.len() ==> (#[trigger] positions[k] as int) < t
                && event_steps[positions[k] as int] == step,
            forall|s: int| 0 <= s < t && #[trigger] event_steps[s] == step ==> positions@.contains(s as usize),
            forall|a: int, b: int| 0 <= a < b < positions.len() ==> #[trigger] positions[a] < #[trigger] positions[b],
        decreases event_steps.len() - t,
    {
        if event_steps[t] == step {
            let ghost before = positions@;
            positions.push(t);
            proof {
                assert forall|s: int| 0 <= s < t + 1 && #[trigger] event_steps[s] == step implies positions@.contains(s as usize) by {
                    if s == t {
                        assert(positions@[positions.len() - 1] == t);
                    } else {
                        let w = choose|w: int| 0 <= w < before.len() && before[w] == s as usize;
                        assert(positions@[w] == s as usize);
                    }
                }
            }
        }
        t = t + 1;
    }
    positions
}

/// Steps, among the first `t` entries `(step, count)`, whose count reaches `threshold`.
pub open spec fn steps_reaching(entries: Seq<(usize, usize)>, threshold: usize, t: int) -> Seq<usize>
    decreases t,
{
    if t <= 0 {
        Seq::empty()
    } else if entries[t - 1].1 >= threshold {
        steps_reaching(entries, threshold, t - 1).push(entries[t - 1].0)
    } else {
        steps_reaching(entries, threshold, t - 1)
    }
}

fn select_steps(entries: &Vec<(usize, usize)>, threshold: usize) -> (steps: Vec<usize>)
    ensures
        steps@ == steps_reaching(entries@, threshold, entries.len() as int),
        // Each step is that of an entry reaching the threshold, and every
        // entry reaching it gives its step.
        forall|k: int| 0 <= k < steps.len() ==> is_reaching_step(entries@, threshold, entries.len() as int, #[trigger] steps@[k]),
        forall|t: int| 0 <= t < entries.len() && (#[trigger] entries[t]).1 >= threshold ==> steps@.contains(entries[t].0),
        steps.len() <= entries.len(),
{
    let mut steps: Vec<usize> = Vec::new();
    let mut t: usize = 0;
    while t < entries.len()
        invariant
            t <= entries.len(),
            steps@ == steps_reaching(entries@, threshold, t as int),
            steps.len() <= t,
            forall|k: int| 0 <= k < steps.len() ==> is_reaching_step(entries@, threshold, t as int, #[trigger] steps@[k]),
            forall|u: int| 0 <= u < t && (#[trigger] entries[u]).1 >= threshold ==> steps@.contains(entries[u].0),
        decreases entries.len() - t,
    {
        if entries[t].1 >= threshold {
            let ghost before = steps@;
            steps.push(entries[t].0);
            proof {
                assert forall|k: int| 0 <= k < steps.len() implies is_reaching_step(entries@, threshold, t + 1, #[trigger] steps@[k]) by {
                    if k == steps.len() - 1 {
                        assert(entries[t as int].0 == steps@[k]);
                    } else {
                        assert(steps@[k] == before[k]);
                        assert(is_reaching_step(entries@, threshold, t as int, before[k]));
                    }
                }
                assert forall|u: int| 0 <= u < t + 1 && (#[trigger] entries[u]).1 >= threshold implies steps@.contains(entries[u].0) by {
                    if u == t {
                        assert(steps@[steps.len() - 1] == entries[u].0);
                    } else {
                        let w = choose|w: int| 0 <= w < before.len() && before[w] == entries[u].0;
                        assert(steps@[w] == entries[u].0);
                    }
                }
            }
        }
        t = t + 1;
    }
    steps
}

/// `step` is the step of one of the first `t` entries whose count reaches
/// `threshold`.
pub open spec fn is_reaching_step(entries: Seq<(usize, usize)>, threshold: usize, t: int, step: usize) -> bool {
    exists|u: int| 0 <= u < t && (#[trigger] entries[u]).1 >= threshold && entries[u].0 == step
}

/// Window starts, in order, where at least `death_threshold` features die;
/// `entries` pairs each window start with its number of deaths.
pub fn breakthrough_steps(entries: &Vec<(usize, usize)>, death_threshold: usize) -> (steps: Vec<usize>)
    ensures
        steps@ == steps_reaching(entries@, death_threshold, entries.len() as int),
        // Each step is that of an entry reaching the threshold, and every
        // entry reaching it gives its step.
        forall|k: int| 0 <= k < steps.len() ==> is_reaching_step(entries@, death_threshold, entries.len() as int, #[trigger] steps@[k]),
        forall|t: int| 0 <= t < entries.len() && (#[trigger] entries[t]).1 >= death_threshold ==> steps@.contains(entries[t].0),
        steps.len() <= entries.len(),
{
    select_steps(entries, death_threshold)
}

/// Window starts, in order, where at least `birth_threshold` features are
/// born; `entries` pairs each window start with its number of births.
pub fn exploration_steps(entries: &Vec<(usize, usize)>, birth_threshold: usize) -> (steps: Vec<usize>)
    ensures
        steps@ == steps_reaching(entries@, birth_threshold, entries.len() as int),
        // Each step is that of an entry reaching the threshold, and every
        // entry reaching it gives its step.
        forall|k: int| 0 <= k < steps.len() ==> is_reaching_step(entries@, birth_threshold, entries.len() as int, #[trigger] steps@[k]),
        forall|t: int| 0 <= t < entries.len() && (#[trigger] entries[t]).1 >= birth_threshold ==> steps@.contains(entries[t].0),
        steps.len() <= entries.len(),
{
    select_steps(entries, birth_threshold)
}

/// The median of the keys: the key at position `len / 2` in stable
/// ascending order; `None` for no keys.
pub fn median_key(keys: &Vec<u64>) -> (median: Option<u64>)
    ensures
        keys.len() == 0 ==> median is None,
        keys.len() > 0 ==> median == Some(keys@[stable_order_of(keys@)[(keys.len() / 2) as int] as int]),
{
    if keys.len() == 0 {
        return None;
    }
    let order = stable_order(keys);
    let mid = order[keys.len() / 2];
    Some(keys[mid])
}

/// The birth-death events of the first `t` pairs of a diagram, given which
/// pairs are finite: for each finite pair, in order, its birth and then its
/// death, each with the pair's position.
pub open spec fn event_layout(finite: Seq<bool>, t: int) -> Seq<(usize, BirthDeathType)>
    decreases t,
{
    if t <= 0 {
        Seq::empty()
    } else if finite[t - 1] {
        event_layout(finite, t - 1).push(((t - 1) as usize, BirthDeathType::Birth)).push(
            ((t - 1) as usize, BirthDeathType::Death),
        )
    } else {
        event_layout(finite, t - 1)
    }
}

/// The number of the first `t` events of kind `kind`.
pub open spec fn count_kind(events: Seq<(usize, BirthDeathType)>, kind: BirthDeathType, t: int) -> nat
    decreases t,
{
    if t <= 0 {
        0
    } else if events[t - 1].1 == kind {
        count_kind(events, kind, t - 1) + 1
    } else {
        count_kind(events, kind, t - 1)
    }
}

/// The number of the first `t` flags that are set.
pub open spec fn count_set(flags: Seq<bool>, t: int) -> nat
    decreases t,
{
    if t <= 0 {
        0
    } else if flags[t - 1] {
        count_set(flags, t - 1) + 1
    } else {
        count_set(flags, t - 1)
    }
}

/// The birth-death events of a diagram whose pairs are finite where
/// `finite` is set: a birth and then a death for each finite pair, in order.
pub fn birth_death_events(finite: &Vec<bool>) -> (events: Vec<(usize, BirthDeathType)>)
    ensures
        events@ == event_layout(finite@, finite.len() as int),
        // Births at even places, each followed by the death of the same pair.
        events.len() % 2 == 0,
        forall|k: int| 0 <= k < events.len() && k % 2 == 0 ==> (#[trigger] events@[k]).1 == BirthDeathType::Birth
            && events@[k + 1] == (events@[k].0, BirthDeathType::Death),
        // Only finite pairs have events, in the order of the pairs.
        forall|k: int| 0 <= k < events.len() ==> ((#[trigger] events@[k]).0 as int) < finite.len() && finite@[events@[k].0 as int],
        forall|a: int, b: int| 0 <= a < b < events.len() && a % 2 == 0 && b % 2 == 0 ==> (#[trigger] events@[a]).0
            < (#[trigger] events@[b]).0,
        // Every finite pair has its birth and its death.
        forall|u: int| 0 <= u < finite.len() && #[trigger] finite@[u] ==> events@.contains((u as usize, BirthDeathType::Birth))
            && events@.contains((u as usize, BirthDeathType::Death)),
{
    let mut events: Vec<(usize, BirthDeathType)> = Vec::new();
    let mut t: usize = 0;
    while t < finite.len()
        invariant
            t <= finite.len(),
            events@ == event_layout(finite@, t as int),
            // Births at even places, each followed by the death of the same pair.
            events.len() % 2 == 0,
            forall|k: int| 0 <= k < events.len() && k % 2 == 0 ==> (#[trigger] events@[k]).1 == BirthDeathType::Birth
                && events@[k + 1] == (events@[k].0, BirthDeathType::Death),
            // Only finite pairs have events, in the order of the pairs.
            forall|k: int| 0 <= k < events.len() ==> ((#[trigger] events@[k]).0 as int) < t && finite@[events@[k].0 as int],
            forall|a: int, b: int| 0 <= a < b < events.len() && a % 2 == 0 && b % 2 == 0 ==> (#[trigger] events@[a]).0
                < (#[trigger] events@[b]).0,
            // Every finite pair has its birth and its death.
            forall|u: int| 0 <= u < t && #[trigger] finite@[u] ==> events@.contains((u as usize, BirthDeathType::Birth))
                && events@.contains((u as usize, BirthDeathType::Death)),
        decreases finite.len() - t,
    {
        if finite[t] {
            let ghost before = events@;
            events.push((t, BirthDeathType::Birth));
            events.push((t, BirthDeathType::Death));
            proof {
                let m = before.len() as int;
                assert(events@ == before.push((t, BirthDeathType::Birth)).push((t, BirthDeathType::Death)));
                assert(events@[m] == (t, BirthDeathType::Birth));
                assert(events@[m + 1] == (t, BirthDeathType::Death));
                assert forall|k: int| 0 <= k < events.len() && k % 2 == 0 implies (#[trigger] events@[k]).1
                    == BirthDeathType::Birth && events@[k + 1] == (events@[k].0, BirthDeathType::Death) by {
                    if k < m {
                        assert(events@[k] == before[k]);
                        assert(events@[k + 1] == before[k + 1]);
                    }
                }
                assert forall|k: int| 0 <= k < events.len() implies ((#[trigger] events@[k]).0 as int) < t + 1
                    && finite@[events@[k].0 as int] by {
                    if k < m {
                        assert(events@[k] == before[k]);
                    }
                }
                assert forall|a: int, b: int| 0 <= a < b < events.len() && a % 2 == 0 && b % 2 == 0 implies
                    (#[trigger] events@[a]).0 < (#[trigger] events@[b]).0 by {
                    assert(events@[a] == before[a]);
                    if b < m {
                        assert(events@[b] == before[b]);
                    } else {
                        assert(b == m);
                        assert(before[a].0 < t);
                    }
                }
                assert forall|u: int| 0 <= u < t + 1 && #[trigger] finite@[u] implies events@.contains(
                    (u as usize, BirthDeathType::Birth),
                ) && events@.contains((u as usize, BirthDeathType::Death)) by {
                    if u < t {
                        let w1 = choose|w: int| 0 <= w < before.len() && before[w] == (u as usize, BirthDeathType::Birth);
                        let w2 = choose|w: int| 0 <= w < before.len() && before[w] == (u as usize, BirthDeathType::Death);
                        assert(events@[w1] == before[w1]);
                        assert(events@[w2] == before[w2]);
                    } else {
                        assert(events@[m] == (u as usize, BirthDeathType::Birth));
                        assert(events@[m + 1] == (u as usize, BirthDeathType::Death));
                    }
                }
            }
        }
        t = t + 1;
    }
    events
}

/// Counting events one by one counts the events of the prefix of that kind.
proof fn lemma_count_kind_filter(events: Seq<(usize, BirthDeathType)>, kind: BirthDeathType, t: int)
    requires
        0 <= t <= events.len(),
    ensures
        count_kind(events, kind, t) == events.take(t).filter(|e: (usize, BirthDeathType)| e.1 == kind).len(),
    decreases t,
{
    let pred = |e: (usize, BirthDeathType)| e.1 == kind;
    if t == 0 {
        assert(events.take(0) =~= Seq::<(usize, BirthDeathType)>::empty());
        reveal(Seq::filter);
    } else {
        lemma_count_kind_filter(events, kind, t - 1);
        assert(events.take(t) =~= events.take(t - 1).push(events[t - 1]));
        events.take(t - 1).lemma_filter_push(events[t - 1], pred);
    }
}

/// The number of events of kind `kind`.
pub fn count_events(events: &Vec<(usize, BirthDeathType)>, kind: BirthDeathType) -> (count: usize)
    ensures
        count == count_kind(events@, kind, events.len() as int),
        // The number of events of that kind.
        count == events@.filter(|e: (usize, BirthDeathType)| e.1 == kind).len(),
{
    let mut count: usize = 0;
    let mut t: usize = 0;
    while t < events.len()
        invariant
            t <= events.len(),
            count == count_kind(events@, kind, t as int),
            count <= t,
        decreases events.len() - t,
    {
        if events[t].1 == kind {
            count = count + 1;
        }
        t = t + 1;
    }
    proof {
        lemma_count_kind_filter(events@, kind, events.len() as int);
        assert(events@.take(events.len() as int) =~= events@);
    }
    count
}

/// Every finite pair gives one birth and one death: a diagram has as many
/// births as deaths, as many as it has finite pairs, and no long-lived
/// event among them.
pub proof fn lemma_births_match_deaths(finite: Seq<bool>, t: int)
    requires
        0 <= t <= finite.len(),
    ensures
        count_kind(event_layout(finite, t), BirthDeathType::Birth, event_layout(finite, t).len() as int)
            == count_set(finite, t),
        count_kind(event_layout(finite, t), BirthDeathType::Death, event_layout(finite, t).len() as int)
            == count_set(finite, t),
        count_kind(event_layout(finite, t), BirthDeathType::LongLived, event_layout(finite, t).len() as int)
            == 0,
        event_layout(finite, t).len() == 2 * count_set(finite, t),
    decreases t,
{
    if t > 0 {
        lemma_births_match_deaths(finite, t - 1);
        let prev = event_layout(finite, t - 1);
        if finite[t - 1] {
            let mid = prev.push(((t - 1) as usize, BirthDeathType::Birth));
            let all = event_layout(finite, t);
            assert(all == mid.push(((t - 1) as usize, BirthDeathType::Death)));
            lemma_count_prefix(all, mid, BirthDeathType::Birth, mid.len() as int);
            lemma_count_prefix(all, mid, BirthDeathType::Death, mid.len() as int);
            lemma_count_prefix(all, mid, BirthDeathType::LongLived, mid.len() as int);
            lemma_count_prefix(mid, prev, BirthDeathType::Birth, prev.len() as int);
            lemma_count_prefix(mid, prev, BirthDeathType::Death, prev.len() as int);
            lemma_count_prefix(mid, prev, BirthDeathType::LongLived, prev.len() as int);
        }
    }
}

/// Counting over a prefix that two sequences share gives the same count.
proof fn lemma_count_prefix(
    longer: Seq<(usize, BirthDeathType)>,
    shorter: Seq<(usize, BirthDeathType)>,
    kind: BirthDeathType,
    t: int,
)
    requires
        0 <= t <= shorter.len() <= longer.len(),
        forall|i: int| 0 <= i < shorter.len() ==> longer[i] == shorter[i],
    ensures
        count_kind(longer, kind, t) == count_kind(shorter, kind, t),
    decreases t,
{
    if t > 0 {
        lemma_count_prefix(longer, shorter, kind, t - 1);
    }
}

} // verus!
