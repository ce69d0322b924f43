//! Belief trajectories: the integer parts of trajectory handling (step
//! windows, the pseudo-random generator, cluster segments).

use vstd::prelude::*;
use vstd::arithmetic::div_mod::lemma_add_mod_noop;
use vstd::arithmetic::div_mod::lemma_mod_twice;

verus! {

/// Multiplier of the linear congruential generator.
pub const LCG_MULTIPLIER: u64 = 6364136223846793005;

/// Increment of the linear congruential generator.
pub const LCG_INCREMENT: u64 = 1442695040888963407;

/// The generator state that follows `s`: `(s * a + c) mod 2^64`.
pub open spec fn lcg_step(s: u64) -> u64 {
    ((s as nat * LCG_MULTIPLIER as nat + LCG_INCREMENT as nat) % 0x1_0000_0000_0000_0000nat) as u64
}

/// Initial generator state for a seed: the seed itself.
pub fn simple_rng(seed: u64) -> (state: u64)
    ensures
        state == seed,
{
    seed
}

/// Advances the generator and returns the top 31 bits of the new state.
///
/// A uniform draw in `[0, 1)` is these bits divided by `2^31`.
pub fn next_random_bits(state: &mut u64) -> (bits: u64)
    ensures
        *final(state) == lcg_step(*old(state)),
        bits == *final(state) >> 33,
        bits < 0x8000_0000,
{
    let s = *state;
    let m = s.wrapping_mul(LCG_MULTIPLIER);
    let next = m.wrapping_add(LCG_INCREMENT);
    proof {
        let big = s as nat * LCG_MULTIPLIER as nat;
        let modulus = 0x1_0000_0000_0000_0000int;
        assert(m as int == big as int % modulus);
        lemma_add_mod_noop(big as int, LCG_INCREMENT as int, modulus);
        lemma_mod_twice(LCG_INCREMENT as int, modulus);
        assert(LCG_INCREMENT as int % modulus == LCG_INCREMENT as int);
        assert(next as int == (m as int + LCG_INCREMENT as int) % modulus);
        lemma_add_mod_noop(m as int, LCG_INCREMENT as int, modulus);
        lemma_mod_twice(big as int, modulus);
    }
    *state = next;
    let bits = next >> 33;
    assert(bits < 0x8000_0000) by (bit_vector)
        requires
            bits == next >> 33,
    ;
    bits
}


/// Positions, in order, of the states whose step lies in `[lo, hi)`.
pub fn slice_by_step(steps: &Vec<usize>, lo: usize, hi: usize) -> (positions: Vec<usize>)
    ensures
        positions@ == positions_in_range(steps@, lo, hi, steps.len() as int),
        forall|k: int| 0 <= k < positions.len() ==> (#[trigger] positions[k] as int) < steps.len()
            && lo <= steps[positions[k] as int] < hi,
        forall|a: int, b: int| 0 <= a < b < positions.len() ==> #[trigger] positions[a] < #[trigger] positions[b],
        forall|t: int| 0 <= t < steps.len() && lo <= #[trigger] steps[t] < hi ==> positions@.contains(t as usize),
{
    let mut positions: Vec<usize> = Vec::new();
    let mut t: usize = 0;
    while t < steps.len()
        invariant
            t <= steps.len(),
            positions@ == positions_in_range(steps@, lo, hi, t as int),
            forall|k: int| 0 <= k < positions.len() ==> (#[trigger] positions[k] as int) < t
                && lo <= steps[positions[k] as int] < hi,
            forall|a: int, b: int| 0 <= a < b < positions.len() ==> #[trigger] positions[a] < #[trigger] positions[b],
            forall|s: int| 0 <= s < t && lo <= #[trigger] steps[s] < hi ==> positions@.contains(s as usize),
        decreases steps.len() - t,
    {
        if steps[t] >= lo && steps[t] < hi {
            let ghost before = positions@;
            positions.push(t);
            proof {
                assert forall|s: int| 0 <= s < t + 1 && lo <= #[trigger] steps[s] < hi implies positions@.contains(s as usize) by {
                    if s == t {
                        assert(positions@[positions.len() - 1] == t);
                    } else {
                        let w = choose|w: int| 0 <= w < before.len() && before[w] == s as usize;
                        assert(positions@[w] == s as usize);
                    }
                }
            }
        }
        t = t + 1;
    }
    positions
}

/// Positions among the first `t` whose step lies in `[lo, hi)`.
pub open spec fn positions_in_range(steps: Seq<usize>, lo: usize, hi: usize, t: int) -> Seq<usize>
    decreases t,
{
    if t <= 0 {
        Seq::empty()
    } else if lo <= steps[t - 1] < hi {
        positions_in_range(steps, lo, hi, t - 1).push((t - 1) as usize)
    } else {
        positions_in_range(steps, lo, hi, t - 1)
    }
}

/// The steps `[start, end)` spent at cluster `cluster` when `steps` steps are
/// shared out among `n_clusters` clusters: `steps / n_clusters` each, the
/// last cluster taking the remainder too.
pub fn cluster_step_range(cluster: usize, n_clusters: usize, steps: usize) -> (range: (usize, usize))
    requires
        cluster < n_clusters,
    ensures
        range.0 == cluster * (steps / n_clusters),
        range.1 == if cluster == n_clusters - 1 { steps as int } else { range.0 + steps / n_clusters },
        range.0 <= range.1 <= steps,
{
    let per_cluster = steps / n_clusters;
    proof {
        vstd::arithmetic::div_mod::lemma_fundamental_div_mod(steps as int, n_clusters as int);
        assert(cluster * per_cluster + per_cluster <= n_clusters * per_cluster) by (nonlinear_arith)
            requires
                cluster + 1 <= n_clusters,
                per_cluster >= 0,
        ;
        assert(n_clusters * per_cluster <= steps) by (nonlinear_arith)
            requires
                steps == n_clusters * per_cluster + steps % n_clusters,
                steps % n_clusters >= 0,
        ;
    }
    let start = cluster * per_cluster;
    let end = if cluster == n_clusters - 1 { steps } else { start + per_cluster };
    (start, end)
}

} // verus!
