//! Betti numbers: how many features of each dimension are alive at a
//! filtration value, and curves of them over learning steps.

use vstd::prelude::*;
use crate::persistence::{
    PersistencePair, PersistenceDiagram, ZERO_FILTRATION, persistence_pairs, h0_pairs, h1_pairs, h0_deaths,
};

verus! {

/// Betti numbers at one step of a curve, at a filtration key.
#[derive(Clone, Debug)]
pub struct BettiSnapshot {
    pub step: usize,
    pub filtration: u64,
    /// `betti[k]` is the k-th Betti number.
    pub betti: Vec<usize>,
}

/// A sequence of Betti snapshots.
#[derive(Clone, Debug)]
pub struct BettiCurve {
    pub snapshots: Vec<BettiSnapshot>,
    pub max_dim: usize,
}

/// The feature is alive at filtration key `f`: born at or before `f`, and
/// not dead by `f` (it dies after `f`, or never).
pub open spec fn alive_at(p: PersistencePair, f: u64) -> bool {
    p.birth <= f && (p.death.is_none() || p.death.unwrap() > f)
}

/// Number of pairs among the first `t` of dimension `k` alive at `f`.
pub open spec fn alive_count(pairs: Seq<PersistencePair>, k: int, f: u64, t: int) -> nat
    decreases t,
{
    if t <= 0 {
        0
    } else {
        alive_count(pairs, k, f, t - 1) + if pairs[t - 1].dim == k && alive_at(pairs[t - 1], f) {
            1nat
        } else {
            0nat
        }
    }
}

proof fn lemma_alive_count_bound(pairs: Seq<PersistencePair>, k: int, f: u64, t: int)
    requires
        t >= 0,
    ensures
        alive_count(pairs, k, f, t) <= t,
    decreases t,
{
    if t > 0 {
        lemma_alive_count_bound(pairs, k, f, t - 1);
    }
}

/// Counting alive pairs one by one counts the alive pairs of the prefix.
proof fn lemma_alive_count_filter(pairs: Seq<PersistencePair>, k: int, f: u64, t: int)
    requires
        0 <= t <= pairs.len(),
    ensures
        alive_count(pairs, k, f, t) == pairs.take(t).filter(
            |p: PersistencePair| p.dim == k && p.birth <= f && (p.death.is_none() || p.death.unwrap() > f),
        ).len(),
    decreases t,
{
    let pred = |p: PersistencePair| p.dim == k && p.birth <= f && (p.death.is_none() || p.death.unwrap() > f);
    if t == 0 {
        assert(pairs.take(0) =~= Seq::<PersistencePair>::empty());
        reveal(Seq::filter);
    } else {
        lemma_alive_count_filter(pairs, k, f, t - 1);
        assert(pairs.take(t) =~= pairs.take(t - 1).push(pairs[t - 1]));
        pairs.take(t - 1).lemma_filter_push(pairs[t - 1], pred);
    }
}

/// The Betti numbers of dimensions `0..=max_dim` at filtration key
/// `filtration`: `betti[k]` counts the pairs of dimension `k` alive there.
pub fn betti_from_diagram(diagram: &PersistenceDiagram, filtration: u64, max_dim: usize) -> (betti: Vec<usize>)
    requires
        max_dim < usize::MAX,
    ensures
        betti.len() == max_dim + 1,
        forall|k: int|
            0 <= k <= max_dim ==> #[trigger] betti[k] == alive_count(
                diagram.pairs@,
                k,
                filtration,
                diagram.pairs.len() as int,
            ),
        // The `k`-th Betti number counts the pairs of dimension `k` born at or
        // before the filtration and dying after it, or never.
        forall|k: int|
            0 <= k <= max_dim ==> #[trigger] betti[k] == diagram.pairs@.filter(
                |p: PersistencePair|
                    p.dim == k && p.birth <= filtration && (p.death.is_none() || p.death.unwrap() > filtration),
            ).len(),
{
    let mut betti: Vec<usize> = Vec::new();
    let mut k: usize = 0;
    while k <= max_dim
        invariant
            max_dim < usize::MAX,
            k <= max_dim + 1,
            betti.len() == k,
            forall|j: int| 0 <= j < k ==> #[trigger] betti[j] == 0,
        decreases max_dim + 1 - k,
    {
        betti.push(0);
        k = k + 1;
    }
    let mut t: usize = 0;
    while t < diagram.pairs.len()
        invariant
            t <= diagram.pairs.len(),
            betti.len() == max_dim + 1,
            forall|j: int|
                0 <= j <= max_dim ==> #[trigger] betti[j] == alive_count(diagram.pairs@, j, filtration, t as int),
        decreases diagram.pairs.len() - t,
    {
        let p = diagram.pairs[t];
        let alive = p.birth <= filtration && (p.death.is_none() || p.death.unwrap() > filtration);
        if p.dim <= max_dim && alive {
            proof {
                lemma_alive_count_bound(diagram.pairs@, p.dim as int, filtration, t as int);
            }
            let c = betti[p.dim];
            betti.set(p.dim, c + 1);
        }
        proof {
            assert forall|j: int| 0 <= j <= max_dim implies #[trigger] betti[j] == alive_count(
                diagram.pairs@,
                j,
                filtration,
                t + 1,
            ) by {
                assert(alive_count(diagram.pairs@, j, filtration, t + 1) == alive_count(diagram.pairs@, j, filtration, t as int)
                    + if diagram.pairs@[t as int].dim == j && alive_at(diagram.pairs@[t as int], filtration) { 1nat } else { 0nat });
            }
        }
        t = t + 1;
    }
    proof {
        assert forall|k: int| 0 <= k <= max_dim implies #[trigger] betti[k] == diagram.pairs@.filter(
            |p: PersistencePair|
                p.dim == k && p.birth <= filtration && (p.death.is_none() || p.death.unwrap() > filtration),
        ).len() by {
            lemma_alive_count_filter(diagram.pairs@, k, filtration, diagram.pairs.len() as int);
            assert(diagram.pairs@.take(diagram.pairs.len() as int) =~= diagram.pairs@);
        }
    }
    betti
}

/// Number of keys among the first `t` that exceed `f`.
pub open spec fn count_above(keys: Seq<u64>, f: u64, t: int) -> nat
    decreases t,
{
    if t <= 0 {
        0
    } else {
        count_above(keys, f, t - 1) + if keys[t - 1] > f { 1nat } else { 0nat }
    }
}

proof fn lemma_alive_count_append(a: Seq<PersistencePair>, b: Seq<PersistencePair>, k: int, f: u64, t: int)
    requires
        0 <= t <= b.len(),
    ensures
        alive_count(a + b, k, f, a.len() + t) == alive_count(a, k, f, a.len() as int) + alive_count(b, k, f, t),
    decreases t,
{
    if t > 0 {
        lemma_alive_count_append(a, b, k, f, t - 1);
        assert((a + b)[a.len() + t - 1] == b[t - 1]);
    } else {
        lemma_alive_count_prefix(a, b, k, f, a.len() as int);
    }
}

proof fn lemma_alive_count_prefix(a: Seq<PersistencePair>, b: Seq<PersistencePair>, k: int, f: u64, t: int)
    requires
        0 <= t <= a.len(),
    ensures
        alive_count(a + b, k, f, t) == alive_count(a, k, f, t),
    decreases t,
{
    if t > 0 {
        lemma_alive_count_prefix(a, b, k, f, t - 1);
        assert((a + b)[t - 1] == a[t - 1]);
    }
}

proof fn lemma_alive_h0_deaths(deaths: Seq<u64>, f: u64, t: int)
    requires
        0 <= t <= deaths.len(),
        f >= ZERO_FILTRATION,
    ensures
        alive_count(
            deaths.map_values(|x: u64| PersistencePair { birth: ZERO_FILTRATION, death: Some(x), dim: 0 }),
            0,
            f,
            t,
        ) == count_above(deaths, f, t),
    decreases t,
{
    if t > 0 {
        lemma_alive_h0_deaths(deaths, f, t - 1);
    }
}

proof fn lemma_no_alive_loops_of_dim0(pairs: Seq<PersistencePair>, f: u64, t: int)
    requires
        0 <= t <= pairs.len(),
        forall|s: int| 0 <= s < pairs.len() ==> (#[trigger] pairs[s]).dim == 1,
    ensures
        alive_count(pairs, 0, f, t) == 0,
    decreases t,
{
    if t > 0 {
        lemma_no_alive_loops_of_dim0(pairs, f, t - 1);
    }
}

proof fn lemma_none_alive_below_zero(pairs: Seq<PersistencePair>, f: u64, t: int)
    requires
        0 <= t <= pairs.len(),
        forall|s: int| 0 <= s < pairs.len() ==> (#[trigger] pairs[s]).birth == ZERO_FILTRATION,
        f < ZERO_FILTRATION,
    ensures
        alive_count(pairs, 0, f, t) == 0,
    decreases t,
{
    if t > 0 {
        lemma_none_alive_below_zero(pairs, f, t - 1);
    }
}

/// The 0th Betti number of a computed diagram counts the components of
/// single-linkage merging at filtration key `f`: none below filtration 0;
/// from filtration 0 on, the component that never dies plus one for each
/// merge that happens only after `f`.
pub proof fn lemma_betti0_counts_components(d: Seq<Seq<u64>>, n: int, max_dim: int, loop_persistence: Seq<u64>, f: u64)
    requires
        n >= 2,
    ensures
        f >= ZERO_FILTRATION ==> alive_count(persistence_pairs(d, n, max_dim, loop_persistence), 0, f, persistence_pairs(d, n, max_dim, loop_persistence).len() as int)
            == 1 + count_above(h0_deaths(d, n), f, h0_deaths(d, n).len() as int),
        f < ZERO_FILTRATION ==> alive_count(persistence_pairs(d, n, max_dim, loop_persistence), 0, f, persistence_pairs(d, n, max_dim, loop_persistence).len() as int) == 0,
{
    let deaths = h0_deaths(d, n);
    let finite = deaths.map_values(|x: u64| PersistencePair { birth: ZERO_FILTRATION, death: Some(x), dim: 0 });
    let essential = PersistencePair { birth: ZERO_FILTRATION, death: None, dim: 0 };
    let h0 = h0_pairs(d, n);
    assert(h0 == finite.push(essential));
    assert(finite.push(essential) =~= finite + seq![essential]);
    lemma_alive_count_append(finite, seq![essential], 0, f, 1);
    assert(alive_count(seq![essential], 0, f, 1) == alive_count(seq![essential], 0, f, 0)
        + if seq![essential][0].dim == 0 && alive_at(seq![essential][0], f) { 1nat } else { 0nat });
    let h1 = h1_pairs(d, n, loop_persistence);
    assert forall|s: int| 0 <= s < h1.len() implies (#[trigger] h1[s]).dim == 1 by {}
    lemma_no_alive_loops_of_dim0(h1, f, h1.len() as int);
    lemma_alive_count_append(h0, h1, 0, f, h1.len() as int);
    if max_dim >= 1 {
        assert(persistence_pairs(d, n, max_dim, loop_persistence) == h0 + h1);
    } else {
        assert(persistence_pairs(d, n, max_dim, loop_persistence) == h0);
    }
    if f >= ZERO_FILTRATION {
        lemma_alive_h0_deaths(deaths, f, deaths.len() as int);
    } else {
        assert forall|s: int| 0 <= s < h0.len() implies (#[trigger] h0[s]).birth == ZERO_FILTRATION by {
            if s < finite.len() {
                assert(h0[s] == finite[s]);
            }
        }
        lemma_none_alive_below_zero(h0, f, h0.len() as int);
    }
}

/// The `k`-th Betti number of a snapshot, 0 when it has none.
pub open spec fn betti_or_zero(s: BettiSnapshot, k: int) -> int {
    if 0 <= k < s.betti@.len() {
        s.betti@[k] as int
    } else {
        0
    }
}

/// Position of the first snapshot taken at `step`, if any.
pub open spec fn first_at_step(snaps: Seq<BettiSnapshot>, step: usize) -> Option<int> {
    if exists|i: int| 0 <= i < snaps.len() && (#[trigger] snaps[i]).step == step {
        Some(choose|i: int| 0 <= i < snaps.len() && (#[trigger] snaps[i]).step == step
            && forall|j: int| 0 <= j < i ==> (#[trigger] snaps[j]).step != step)
    } else {
        None
    }
}

/// The snapshot `i` is the first one taken at `step`.
pub open spec fn is_first_at_step(snaps: Seq<BettiSnapshot>, step: usize, i: int) -> bool {
    &&& 0 <= i < snaps.len()
    &&& snaps[i].step == step
    &&& forall|j: int| 0 <= j < i ==> (#[trigger] snaps[j]).step != step
}

/// The `k`-th term of the Euler characteristic: the `k`-th Betti number
/// taken as an `i64`, negated for odd `k`.
pub open spec fn euler_term(betti: Seq<usize>, k: int) -> int {
    if k % 2 == 0 {
        (betti[k] as i64) as int
    } else {
        -((betti[k] as i64) as int)
    }
}

/// Sum of the first `t` Euler terms: `b0 - b1 + b2 - ...`.
pub open spec fn alternating_sum(betti: Seq<usize>, t: int) -> int
    decreases t,
{
    if t <= 0 {
        0
    } else {
        alternating_sum(betti, t - 1) + euler_term(betti, t - 1)
    }
}

/// The Euler characteristic of `betti` can be summed in `i64`: no odd term
/// is the negation of `i64::MIN`, and every partial sum stays within `i64`.
pub open spec fn euler_summable(betti: Seq<usize>) -> bool {
    &&& forall|k: int| 0 <= k < betti.len() && k % 2 == 1 ==> (#[trigger] betti[k] as i64) != i64::MIN
    &&& forall|t: int| 0 < t <= betti.len() ==> i64::MIN <= #[trigger] alternating_sum(betti, t) <= i64::MAX
}

impl BettiCurve {
    pub fn new(snapshots: Vec<BettiSnapshot>, max_dim: usize) -> (curve: Self)
        ensures
            curve.snapshots@ == snapshots@,
            curve.max_dim == max_dim,
    {
        BettiCurve { snapshots, max_dim }
    }

    /// The `k`-th Betti number of the first snapshot taken at `step`; `None`
    /// when there is no such snapshot or it has no `k`-th number.
    pub fn betti_at_step(&self, step: usize, k: usize) -> (b: Option<usize>)
        ensures
            first_at_step(self.snapshots@, step) is None ==> b is None,
            first_at_step(self.snapshots@, step) matches Some(i) ==> is_first_at_step(self.snapshots@, step, i)
                && b == if (k as int) < self.snapshots@[i].betti@.len() {
                    Some(self.snapshots@[i].betti@[k as int])
                } else {
                    None
                },
    {
        let mut i: usize = 0;
        while i < self.snapshots.len()
            invariant
                i <= self.snapshots.len(),
                forall|j: int| 0 <= j < i ==> (#[trigger] self.snapshots@[j]).step != step,
            decreases self.snapshots.len() - i,
        {
            if self.snapshots[i].step == step {
                proof {
                    assert(is_first_at_step(self.snapshots@, step, i as int));
                    let c = first_at_step(self.snapshots@, step)->0;
                    assert(is_first_at_step(self.snapshots@, step, c));
                    if c < i {
                        assert(self.snapshots@[c].step != step);
                    }
                    if c > i {
                        assert(self.snapshots@[i as int].step != step);
                    }
                }
                let s = &self.snapshots[i];
                if k < s.betti.len() {
                    return Some(s.betti[k]);
                } else {
                    return None;
                }
            }
            i = i + 1;
        }
        None
    }

    /// The largest `k`-th Betti number over the snapshots (0 without snapshots).
    fn max_betti(&self, k: usize) -> (m: usize)
        ensures
            forall|i: int| 0 <= i < self.snapshots.len() ==> betti_or_zero(#[trigger] self.snapshots@[i], k as int) <= m,
            self.snapshots.len() == 0 ==> m == 0,
            self.snapshots.len() > 0 ==> exists|i: int|
                0 <= i < self.snapshots.len() && betti_or_zero(#[trigger] self.snapshots@[i], k as int) == m,
    {
        let mut m: usize = 0;
        let mut i: usize = 0;
        while i < self.snapshots.len()
            invariant
                i <= self.snapshots.len(),
                forall|j: int| 0 <= j < i ==> betti_or_zero(#[trigger] self.snapshots@[j], k as int) <= m,
                i == 0 ==> m == 0,
                i > 0 ==> exists|j: int| 0 <= j < i && betti_or_zero(#[trigger] self.snapshots@[j], k as int) == m,
            decreases self.snapshots.len() - i,
        {
            let s = &self.snapshots[i];
            let b = if k < s.betti.len() { s.betti[k] } else { 0 };
            assert(b == betti_or_zero(self.snapshots@[i as int], k as int));
            if i == 0 || b > m {
                m = b;
            }
            i = i + 1;
        }
        m
    }

    /// The largest 0th Betti number over the snapshots (0 without snapshots).
    pub fn max_betti0(&self) -> (m: usize)
        ensures
            forall|i: int| 0 <= i < self.snapshots.len() ==> betti_or_zero(#[trigger] self.snapshots@[i], 0) <= m,
            self.snapshots.len() == 0 ==> m == 0,
            self.snapshots.len() > 0 ==> exists|i: int|
                0 <= i < self.snapshots.len() && betti_or_zero(#[trigger] self.snapshots@[i], 0) == m,
    {
        self.max_betti(0)
    }

    /// The largest 1st Betti number over the snapshots (0 without snapshots).
    pub fn max_betti1(&self) -> (m: usize)
        ensures
            forall|i: int| 0 <= i < self.snapshots.len() ==> betti_or_zero(#[trigger] self.snapshots@[i], 1) <= m,
            self.snapshots.len() == 0 ==> m == 0,
            self.snapshots.len() > 0 ==> exists|i: int|
                0 <= i < self.snapshots.len() && betti_or_zero(#[trigger] self.snapshots@[i], 1) == m,
    {
        self.max_betti(1)
    }
}

/// The alternating sum of the first `t` Betti numbers is the sum of their
/// signed terms, even dimensions added and odd ones subtracted.
proof fn lemma_alternating_fold(betti: Seq<usize>, t: int)
    requires
        0 <= t <= betti.len(),
    ensures
        alternating_sum(betti, t) == Seq::new(betti.len(), |k: int| if k % 2 == 0 { betti[k] as i64 as int } else { -(betti[k] as i64 as int) }).take(t).fold_left(0int, |acc: int, x: int| acc + x),
    decreases t,
{
    let terms = Seq::new(betti.len(), |k: int| if k % 2 == 0 { betti[k] as i64 as int } else { -(betti[k] as i64 as int) });
    if t > 0 {
        lemma_alternating_fold(betti, t - 1);
        assert(terms.take(t).drop_last() =~= terms.take(t - 1));
        assert(terms.take(t).last() == terms[t - 1]);
    }
}

/// For each snapshot, its step and Euler characteristic: the alternating sum
/// of its Betti numbers, `b0 - b1 + b2 - ...`.
pub fn euler_characteristic_curve(curve: &BettiCurve) -> (euler: Vec<(usize, i64)>)
    requires
        forall|i: int| 0 <= i < curve.snapshots.len() ==> euler_summable((#[trigger] curve.snapshots@[i]).betti@),
    ensures
        euler.len() == curve.snapshots.len(),
        forall|i: int|
            0 <= i < euler.len() ==> (#[trigger] euler[i]).0 == curve.snapshots@[i].step && euler[i].1
                == alternating_sum(curve.snapshots@[i].betti@, curve.snapshots@[i].betti@.len() as int),
        // Each Euler characteristic is the sum of the Betti numbers of even
        // dimension minus those of odd dimension.
        forall|i: int|
            0 <= i < euler.len() ==> (#[trigger] euler[i]).1 == Seq::new(curve.snapshots@[i].betti@.len(), |k: int| if k % 2 == 0 { curve.snapshots@[i].betti@[k] as i64 as int } else { -(curve.snapshots@[i].betti@[k] as i64 as int) }).fold_left(0int, |acc: int, x: int| acc + x),
{
    let mut euler: Vec<(usize, i64)> = Vec::new();
    let mut i: usize = 0;
    while i < curve.snapshots.len()
        invariant
            i <= curve.snapshots.len(),
            euler.len() == i,
            forall|s: int| 0 <= s < curve.snapshots.len() ==> euler_summable((#[trigger] curve.snapshots@[s]).betti@),
            forall|s: int|
                0 <= s < i ==> (#[trigger] euler[s]).0 == curve.snapshots@[s].step && euler[s].1
                    == alternating_sum(curve.snapshots@[s].betti@, curve.snapshots@[s].betti@.len() as int),
        decreases curve.snapshots.len() - i,
    {
        let snap = &curve.snapshots[i];
        let ghost b = snap.betti@;
        let mut sum: i64 = 0;
        let mut k: usize = 0;
        assert(euler_summable(b));
        while k < snap.betti.len()
            invariant
                b == snap.betti@,
                k <= b.len(),
                euler_summable(b),
                sum == alternating_sum(b, k as int),
            decreases b.len() - k,
        {
            proof {
                assert(i64::MIN <= alternating_sum(b, k + 1) <= i64::MAX);
                if k % 2 == 1 {
                    assert((b[k as int] as i64) != i64::MIN);
                }
            }
            let v = snap.betti[k] as i64;
            if k % 2 == 0 {
                sum = sum + v;
            } else {
                sum = sum + (-v);
            }
            k = k + 1;
        }
        euler.push((snap.step, sum));
        i = i + 1;
    }
    proof {
        assert forall|i: int| 0 <= i < euler.len() implies (#[trigger] euler[i]).1 == Seq::new(curve.snapshots@[i].betti@.len(), |k: int| if k % 2 == 0 { curve.snapshots@[i].betti@[k] as i64 as int } else { -(curve.snapshots@[i].betti@[k] as i64 as int) }).fold_left(0int, |acc: int, x: int| acc + x) by {
            let bb = curve.snapshots@[i].betti@;
            lemma_alternating_fold(bb, bb.len() as int);
            assert(Seq::new(bb.len(), |k: int| if k % 2 == 0 { bb[k] as i64 as int } else { -(bb[k] as i64 as int) }).take(bb.len() as int) =~= Seq::new(bb.len(), |k: int| if k % 2 == 0 { bb[k] as i64 as int } else { -(bb[k] as i64 as int) }));
        }
    }
    euler
}

} // verus!
