//! Comparison of agents: ranking by a metric and grouping by similarity.

use vstd::prelude::*;
use crate::order::{stable_order_descending, stable_order_of, reversed_keys};
use crate::persistence::ZERO_FILTRATION;

verus! {

/// Agent `i` appears in the ranking.
pub open spec fn is_ranked(ranked: Seq<(usize, u64)>, i: int) -> bool {
    exists|k: int| 0 <= k < ranked.len() && (#[trigger] ranked[k]).0 == i
}

/// Agent positions with their metric keys, largest metric first, agents
/// with equal metrics in input order.
pub fn rank_by(metrics: &Vec<u64>) -> (ranked: Vec<(usize, u64)>)
    ensures
        ranked.len() == metrics.len(),
        forall|k: int| 0 <= k < ranked.len() ==> {
            &&& (#[trigger] ranked[k]).0 == stable_order_of(reversed_keys(metrics@))[k]
            &&& (ranked[k].0 as int) < metrics.len()
            &&& ranked[k].1 == metrics[ranked[k].0 as int]
        },
        forall|a: int, b: int| 0 <= a < b < ranked.len() ==> {
            let x = #[trigger] ranked[a];
            let y = #[trigger] ranked[b];
            x.1 > y.1 || (x.1 == y.1 && x.0 < y.0)
        },
        forall|i: int| 0 <= i < metrics.len() ==> #[trigger] is_ranked(ranked@, i),
{
    let order = stable_order_descending(metrics);
    let mut ranked: Vec<(usize, u64)> = Vec::new();
    let mut k: usize = 0;
    while k < order.len()
        invariant
            order.len() == metrics.len(),
            order@ == stable_order_of(reversed_keys(metrics@)),
            forall|t: int| 0 <= t < order.len() ==> (#[trigger] order[t] as int) < metrics.len(),
            k <= order.len(),
            ranked.len() == k,
            forall|t: int| 0 <= t < k ==> (#[trigger] ranked[t]).0 == order[t] && ranked[t].1 == metrics[order[t] as int],
        decreases order.len() - k,
    {
        let i = order[k];
        ranked.push((i, metrics[i]));
        k = k + 1;
    }
    proof {
        assert forall|i: int| 0 <= i < metrics.len() implies #[trigger] is_ranked(ranked@, i) by {
            assert(order@.contains(i as usize));
            let k = choose|k: int| 0 <= k < order.len() && order[k] == i as usize;
            assert(ranked[k].0 == i);
        }
    }
    ranked
}

/// Position of the most distinct agent given the order keys of each agent's
/// total distance to the others: the first agent with the largest total when
/// some total exceeds 0, else the first agent; `None` for no agents.
pub fn most_distinct(totals: &Vec<u64>) -> (best: Option<usize>)
    ensures
        best is None <==> totals.len() == 0,
        best matches Some(i) ==> {
            &&& i < totals.len()
            &&& (forall|j: int| 0 <= j < totals.len() ==> #[trigger] totals[j] <= ZERO_FILTRATION) ==> i == 0
            &&& (exists|j: int| 0 <= j < totals.len() && #[trigger] totals[j] > ZERO_FILTRATION) ==> {
                &&& forall|j: int| 0 <= j < totals.len() ==> #[trigger] totals[j] <= totals[i as int]
                &&& forall|j: int| 0 <= j < i ==> #[trigger] totals[j] < totals[i as int]
            }
        },
{
    if totals.len() == 0 {
        return None;
    }
    let mut best_total: u64 = ZERO_FILTRATION;
    let mut best: usize = 0;
    let mut i: usize = 0;
    while i < totals.len()
        invariant
            i <= totals.len(),
            best < totals.len(),
            best_total >= ZERO_FILTRATION,
            best_total == ZERO_FILTRATION ==> best == 0 && forall|j: int| 0 <= j < i ==> #[trigger] totals[j] <= ZERO_FILTRATION,
            best_total > ZERO_FILTRATION ==> {
                &&& best < i
                &&& best_total == totals[best as int]
            },
            forall|j: int| 0 <= j < i ==> #[trigger] totals[j] <= best_total,
            forall|j: int| 0 <= j < best ==> #[trigger] totals[j] < best_total,
        decreases totals.len() - i,
    {
        if totals[i] > best_total {
            best_total = totals[i];
            best = i;
        }
        i = i + 1;
    }
    Some(best)
}

/// `close` is an `n` by `n` matrix of similarity flags.
pub open spec fn is_square_flags(close: Seq<Seq<bool>>, n: int) -> bool {
    &&& close.len() == n
    &&& forall|i: int| 0 <= i < n ==> (#[trigger] close[i]).len() == n
}

/// Which agents are assigned to a cluster once agents `0..i` have been
/// visited: each unassigned agent visited starts a cluster and takes every
/// later unassigned agent close to it.
pub open spec fn assigned_after(close: Seq<Seq<bool>>, n: int, i: int) -> Seq<bool>
    decreases i,
{
    if i <= 0 {
        Seq::new(n as nat, |x: int| false)
    } else {
        let a = assigned_after(close, n, i - 1);
        let l = i - 1;
        if a[l] {
            a
        } else {
            Seq::new(n as nat, |x: int| a[x] || x == l || (x > l && close[l][x]))
        }
    }
}

/// Agents `x` with `l < x < end`, in order, that are unassigned in `a` and close to `l`.
pub open spec fn members(close: Seq<Seq<bool>>, a: Seq<bool>, l: int, end: int) -> Seq<usize>
    decreases end - l,
{
    if end <= l + 1 {
        Seq::empty()
    } else if !a[end - 1] && close[l][end - 1] {
        members(close, a, l, end - 1).push((end - 1) as usize)
    } else {
        members(close, a, l, end - 1)
    }
}

/// The clusters formed once agents `0..i` have been visited.
pub open spec fn clusters_after(close: Seq<Seq<bool>>, n: int, i: int) -> Seq<Seq<usize>>
    decreases i,
{
    if i <= 0 {
        Seq::empty()
    } else {
        let a = assigned_after(close, n, i - 1);
        if a[i - 1] {
            clusters_after(close, n, i - 1)
        } else {
            clusters_after(close, n, i - 1).push(seq![(i - 1) as usize] + members(close, a, i - 1, n))
        }
    }
}

/// All members of all clusters, cluster after cluster.
pub open spec fn concat_clusters(cs: Seq<Seq<usize>>) -> Seq<usize>
    decreases cs.len(),
{
    if cs.len() == 0 {
        Seq::empty()
    } else {
        concat_clusters(cs.drop_last()) + cs.last()
    }
}

pub open spec fn cluster_view(cs: Seq<Vec<usize>>) -> Seq<Seq<usize>> {
    cs.map_values(|c: Vec<usize>| c@)
}

proof fn lemma_members(close: Seq<Seq<bool>>, a: Seq<bool>, l: int, end: int)
    requires
        0 <= l,
        end <= usize::MAX + 1,
    ensures
        forall|t: int| 0 <= t < members(close, a, l, end).len() ==> {
            let x = #[trigger] members(close, a, l, end)[t] as int;
            &&& l < x < end
            &&& !a[x]
            &&& close[l][x]
        },
        members(close, a, l, end).no_duplicates(),
        forall|x: int| l < x < end && !a[x] && close[l][x] ==> #[trigger] members(close, a, l, end).contains(x as usize),
        forall|a1: int, b1: int| 0 <= a1 < b1 < members(close, a, l, end).len() ==>
            #[trigger] members(close, a, l, end)[a1] < #[trigger] members(close, a, l, end)[b1],
    decreases end - l,
{
    if end > l + 1 {
        lemma_members(close, a, l, end - 1);
        let prev = members(close, a, l, end - 1);
        let cur = members(close, a, l, end);
        if !a[end - 1] && close[l][end - 1] {
            assert(cur == prev.push((end - 1) as usize));
            assert forall|x: int| l < x < end && !a[x] && close[l][x] implies #[trigger] cur.contains(x as usize) by {
                if x == end - 1 {
                    assert(cur[cur.len() - 1] == x as usize);
                } else {
                    assert(prev.contains(x as usize));
                    let w = choose|w: int| 0 <= w < prev.len() && prev[w] == x as usize;
                    assert(cur[w] == x as usize);
                }
            }
        }
    }
}

/// The visited-state facts: assigned agents are exactly the members of the
/// clusters so far, each listed once, and every visited agent is assigned.
proof fn lemma_clusters_partition(close: Seq<Seq<bool>>, n: int, i: int)
    requires
        0 <= i <= n <= usize::MAX,
        is_square_flags(close, n),
    ensures
        assigned_after(close, n, i).len() == n,
        concat_clusters(clusters_after(close, n, i)).no_duplicates(),
        forall|k: int| 0 <= k < concat_clusters(clusters_after(close, n, i)).len() ==>
            (#[trigger] concat_clusters(clusters_after(close, n, i))[k] as int) < n,
        forall|x: int| 0 <= x < n ==> (#[trigger] assigned_after(close, n, i)[x]
            <==> concat_clusters(clusters_after(close, n, i)).contains(x as usize)),
        forall|x: int| 0 <= x < i ==> #[trigger] assigned_after(close, n, i)[x],
    decreases i,
{
    if i > 0 {
        lemma_clusters_partition(close, n, i - 1);
        let a = assigned_after(close, n, i - 1);
        let l = i - 1;
        if !a[l] {
            lemma_members(close, a, l, n);
            let old_all = concat_clusters(clusters_after(close, n, i - 1));
            let c = seq![l as usize] + members(close, a, l, n);
            let cs = clusters_after(close, n, i);
            assert(cs.drop_last() == clusters_after(close, n, i - 1));
            assert(cs.last() == c);
            let all = concat_clusters(cs);
            assert(all == old_all + c);
            let m = members(close, a, l, n);
            assert forall|p: int, q: int| 0 <= p < q < all.len() implies #[trigger] all[p] != #[trigger] all[q] by {
                if q < old_all.len() {
                    assert(all[p] == old_all[p] && all[q] == old_all[q]);
                } else if p >= old_all.len() {
                    assert(all[p] == c[p - old_all.len()] && all[q] == c[q - old_all.len()]);
                    if p - old_all.len() > 0 {
                        assert(c[p - old_all.len()] == m[p - old_all.len() - 1]);
                    }
                    assert(c[q - old_all.len()] == m[q - old_all.len() - 1]);
                } else {
                    assert(all[p] == old_all[p]);
                    assert(old_all.contains(old_all[p]));
                    assert(all[q] == c[q - old_all.len()]);
                    let x = all[q] as int;
                    if q - old_all.len() > 0 {
                        assert(c[q - old_all.len()] == m[q - old_all.len() - 1]);
                    }
                    assert(!a[x]);
                    assert(a[old_all[p] as int]);
                }
            }
            assert forall|k: int| 0 <= k < all.len() implies (#[trigger] all[k] as int) < n by {
                if k < old_all.len() {
                    assert(all[k] == old_all[k]);
                } else {
                    assert(all[k] == c[k - old_all.len()]);
                    if k - old_all.len() > 0 {
                        assert(c[k - old_all.len()] == m[k - old_all.len() - 1]);
                    }
                }
            }
            assert forall|x: int| 0 <= x < n implies (#[trigger] assigned_after(close, n, i)[x]
                <==> all.contains(x as usize)) by {
                if assigned_after(close, n, i)[x] {
                    if a[x] {
                        assert(old_all.contains(x as usize));
                        let w = choose|w: int| 0 <= w < old_all.len() && old_all[w] == x as usize;
                        assert(all[w] == x as usize);
                    } else if x == l {
                        assert(all[old_all.len() as int] == c[0]);
                    } else {
                        assert(m.contains(x as usize));
                        let w = choose|w: int| 0 <= w < m.len() && m[w] == x as usize;
                        assert(all[old_all.len() + 1 + w] == c[1 + w]);
                    }
                }
                if all.contains(x as usize) {
                    let w = choose|w: int| 0 <= w < all.len() && all[w] == x as usize;
                    if w < old_all.len() {
                        assert(old_all[w] == x as usize);
                        assert(old_all.contains(x as usize));
                    } else if w > old_all.len() {
                        assert(all[w] == m[w - old_all.len() - 1]);
                    }
                }
            }
        } else {
            assert(clusters_after(close, n, i) == clusters_after(close, n, i - 1));
        }
    }
}

/// Groups agents by similarity: visiting agents in order, each agent not yet
/// in a group starts a group and takes every later agent not yet in a group
/// that is close to it (`close[i][j]`).
pub fn cluster_by_similarity(close: &Vec<Vec<bool>>) -> (clusters: Vec<Vec<usize>>)
    requires
        is_square_flags(close@.map_values(|r: Vec<bool>| r@), close.len() as int),
    ensures
        cluster_view(clusters@) == clusters_after(
            close@.map_values(|r: Vec<bool>| r@),
            close.len() as int,
            close.len() as int,
        ),
        // The groups partition the agents: every agent is in exactly one group.
        concat_clusters(cluster_view(clusters@)).no_duplicates(),
        forall|x: int| 0 <= x < close.len() ==> #[trigger] concat_clusters(cluster_view(clusters@)).contains(x as usize),
        forall|k: int| 0 <= k < concat_clusters(cluster_view(clusters@)).len() ==>
            (#[trigger] concat_clusters(cluster_view(clusters@))[k] as int) < close.len(),
        // Each group is led by its first agent: members close to the leader,
        // leaders increasing, nobody close to an earlier group's leader.
        groups_led(close@.map_values(|r: Vec<bool>| r@), cluster_view(clusters@)),
        // Every agent is in exactly one group, at exactly one place.
        splits_indices(cluster_view(clusters@), close.len() as int),
{
    let n = close.len();
    let ghost cl = close@.map_values(|r: Vec<bool>| r@);
    let mut assigned: Vec<bool> = Vec::new();
    let mut x: usize = 0;
    while x < n
        invariant
            x <= n,
            assigned@ == Seq::new(x as nat, |y: int| false),
        decreases n - x,
    {
        assigned.push(false);
        assert(assigned@ =~= Seq::new((x + 1) as nat, |y: int| false));
        x = x + 1;
    }
    assert(assigned@ =~= assigned_after(cl, n as int, 0));
    let mut clusters: Vec<Vec<usize>> = Vec::new();
    let mut i: usize = 0;
    while i < n
        invariant
            n == close.len(),
            cl == close@.map_values(|r: Vec<bool>| r@),
            is_square_flags(cl, n as int),
            i <= n,
            assigned@ == assigned_after(cl, n as int, i as int),
            cluster_view(clusters@) == clusters_after(cl, n as int, i as int),
        decreases n - i,
    {
        let ghost a = assigned@;
        proof {
            lemma_clusters_partition(cl, n as int, i as int);
        }
        if !assigned[i] {
            let mut cluster: Vec<usize> = Vec::new();
            cluster.push(i);
            assigned.set(i, true);
            let mut j: usize = i + 1;
            assert(close@[i as int]@ == cl[i as int]);
            while j < n
                invariant
                    n == close.len(),
                    cl == close@.map_values(|r: Vec<bool>| r@),
                    is_square_flags(cl, n as int),
                    i < n,
                    i + 1 <= j <= n,
                    a.len() == n,
                    !a[i as int],
                    close@[i as int]@ == cl[i as int],
                    cluster@ == seq![i] + members(cl, a, i as int, j as int),
                    assigned@ == Seq::new(n as nat, |y: int| a[y] || y == i || (i < y < j && cl[i as int][y])),
                decreases n - j,
            {
                if !assigned[j] && close[i][j] {
                    cluster.push(j);
                    assigned.set(j, true);
                }
                proof {
                    assert(cluster@ =~= seq![i] + members(cl, a, i as int, j + 1));
                    assert(assigned@ =~= Seq::new(n as nat, |y: int| a[y] || y == i || (i < y < j + 1 && cl[i as int][y])));
                }
                j = j + 1;
            }
            let ghost cview = cluster@;
            let ghost before = clusters@;
            clusters.push(cluster);
            proof {
                assert(assigned@ =~= assigned_after(cl, n as int, i + 1));
                    assert(cluster_view(clusters@) =~= clusters_after(cl, n as int, i + 1)) by {
                    assert(cluster_view(clusters@) =~= cluster_view(before).push(cview));
                }
            }
        }
        i = i + 1;
    }
    proof {
        lemma_clusters_partition(cl, n as int, n as int);
        lemma_groups_led(cl, n as int);
        lemma_groups_split(cl, n as int);
        assert forall|x: int| 0 <= x < close.len() implies #[trigger] concat_clusters(cluster_view(clusters@)).contains(x as usize) by {
            assert(assigned_after(cl, n as int, n as int)[x]);
        }
    }
    clusters
}

/// The shape of greedy similarity groups: each group is nonempty and
/// strictly increasing, its first agent is its leader, every other member is
/// close to the leader, the leaders increase from group to group, and no
/// agent of a group is close to the leader of an earlier group.
pub open spec fn groups_led(close: Seq<Seq<bool>>, cs: Seq<Seq<usize>>) -> bool {
    &&& forall|r: int| 0 <= r < cs.len() ==> (#[trigger] cs[r]).len() >= 1
    &&& forall|r: int, a: int, b: int| 0 <= r < cs.len() && 0 <= a < b < cs[r].len() ==>
        (#[trigger] cs[r][a]) < (#[trigger] cs[r][b])
    &&& forall|r: int, t: int| 0 <= r < cs.len() && 0 < t < cs[r].len() ==>
        close[cs[r][0] as int][#[trigger] cs[r][t] as int]
    &&& forall|q: int, r: int| 0 <= q < r < cs.len() ==> (#[trigger] cs[q][0]) < (#[trigger] cs[r][0])
    &&& forall|q: int, r: int, t: int| 0 <= q < r < cs.len() && 0 <= t < cs[r].len() ==>
        !close[#[trigger] cs[q][0] as int][#[trigger] cs[r][t] as int]
}

proof fn lemma_groups_led_after(close: Seq<Seq<bool>>, n: int, i: int)
    requires
        0 <= i <= n <= usize::MAX,
        is_square_flags(close, n),
    ensures
        groups_led(close, clusters_after(close, n, i)),
        forall|r: int| 0 <= r < clusters_after(close, n, i).len() ==>
            (#[trigger] clusters_after(close, n, i)[r][0] as int) < i,
        forall|r: int, t: int| 0 <= r < clusters_after(close, n, i).len() && 0 <= t < clusters_after(close, n, i)[r].len()
            ==> (#[trigger] clusters_after(close, n, i)[r][t] as int) < n,
        forall|r: int, y: int|
            #![trigger clusters_after(close, n, i)[r], assigned_after(close, n, i)[y]]
            0 <= r < clusters_after(close, n, i).len() && clusters_after(close, n, i)[r][0] < y < n
                && close[clusters_after(close, n, i)[r][0] as int][y] ==> assigned_after(close, n, i)[y],
    decreases i,
{
    if i > 0 {
        lemma_groups_led_after(close, n, i - 1);
        let a = assigned_after(close, n, i - 1);
        let prev = clusters_after(close, n, i - 1);
        let l = i - 1;
        lemma_clusters_partition(close, n, i - 1);
        if a[l] {
            assert(clusters_after(close, n, i) == prev);
            assert(assigned_after(close, n, i) == a);
        } else {
            lemma_members(close, a, l, n);
            let m = members(close, a, l, n);
            let c = seq![l as usize] + m;
            let cs = clusters_after(close, n, i);
            let a2 = assigned_after(close, n, i);
            assert(cs == prev.push(c));
            assert forall|t: int| 0 < t < c.len() implies c[t] == m[t - 1] by {}
            assert forall|r: int| 0 <= r < cs.len() implies (#[trigger] cs[r]).len() >= 1 by {
                if r < prev.len() {
                    assert(cs[r] == prev[r]);
                }
            }
            assert forall|r: int, x: int, y: int| 0 <= r < cs.len() && 0 <= x < y < cs[r].len() implies
                (#[trigger] cs[r][x]) < (#[trigger] cs[r][y]) by {
                if r < prev.len() {
                    assert(cs[r] == prev[r]);
                } else {
                    assert(cs[r] == c);
                    if x > 0 {
                        assert(c[x] == m[x - 1]);
                    }
                    assert(c[y] == m[y - 1]);
                }
            }
            assert forall|r: int, t: int| 0 <= r < cs.len() && 0 < t < cs[r].len() implies
                close[cs[r][0] as int][#[trigger] cs[r][t] as int] by {
                if r < prev.len() {
                    assert(cs[r] == prev[r]);
                } else {
                    assert(cs[r] == c);
                    assert(c[t] == m[t - 1]);
                }
            }
            assert forall|q: int, r: int| 0 <= q < r < cs.len() implies (#[trigger] cs[q][0]) < (#[trigger] cs[r][0]) by {
                assert(cs[q] == prev[q]);
                if r < prev.len() {
                    assert(cs[r] == prev[r]);
                } else {
                    assert(cs[r] == c);
                }
            }
            assert forall|q: int, r: int, t: int| 0 <= q < r < cs.len() && 0 <= t < cs[r].len() implies
                !close[#[trigger] cs[q][0] as int][#[trigger] cs[r][t] as int] by {
                assert(cs[q] == prev[q]);
                if r < prev.len() {
                    assert(cs[r] == prev[r]);
                } else {
                    assert(cs[r] == c);
                    let x = c[t] as int;
                    if t > 0 {
                        assert(c[t] == m[t - 1]);
                    }
                    assert(!a[x]);
                    assert(prev[q][0] < x);
                    if close[prev[q][0] as int][x] {
                        assert(a[x]);
                    }
                }
            }
            assert forall|r: int| 0 <= r < cs.len() implies (#[trigger] cs[r][0] as int) < i by {
                if r < prev.len() {
                    assert(cs[r] == prev[r]);
                }
            }
            assert forall|r: int, t: int| 0 <= r < cs.len() && 0 <= t < cs[r].len() implies
                (#[trigger] cs[r][t] as int) < n by {
                if r < prev.len() {
                    assert(cs[r] == prev[r]);
                } else {
                    assert(cs[r] == c);
                    if t > 0 {
                        assert(c[t] == m[t - 1]);
                    }
                }
            }
            assert forall|r: int, y: int|
                #![trigger cs[r], a2[y]]
                0 <= r < cs.len() && cs[r][0] < y < n && close[cs[r][0] as int][y] implies a2[y] by {
                if r < prev.len() {
                    assert(cs[r] == prev[r]);
                    assert(a[y]);
                } else {
                    assert(cs[r] == c);
                }
            }
            assert(groups_led(close, cs));
        }
    }
}

/// The groups of `cluster_by_similarity` are led greedily: every group is
/// nonempty and increasing, every member is close to its group's leader (the
/// group's first agent), leaders increase, and no agent is close to the
/// leader of an earlier group than its own.
pub proof fn lemma_groups_led(close: Seq<Seq<bool>>, n: int)
    requires
        0 <= n <= usize::MAX,
        is_square_flags(close, n),
    ensures
        groups_led(close, clusters_after(close, n, n)),
{
    lemma_groups_led_after(close, n, n);
}

/// `x` stands somewhere in some group of `cs`.
pub open spec fn in_some_group(cs: Seq<Seq<usize>>, x: int) -> bool {
    exists|r: int, t: int| 0 <= r < cs.len() && 0 <= t < cs[r].len() && #[trigger] cs[r][t] == x as usize
}

/// `cs` splits the indices `0..n`: every index of `0..n` stands at exactly one
/// place of exactly one group, and nothing else stands in any group.
pub open spec fn splits_indices(cs: Seq<Seq<usize>>, n: int) -> bool {
    &&& forall|r: int, t: int| 0 <= r < cs.len() && 0 <= t < cs[r].len() ==> (#[trigger] cs[r][t] as int) < n
    &&& forall|x: int| 0 <= x < n ==> #[trigger] in_some_group(cs, x)
    &&& forall|r1: int, t1: int, r2: int, t2: int|
        #![trigger cs[r1][t1], cs[r2][t2]]
        0 <= r1 < cs.len() && 0 <= t1 < cs[r1].len() && 0 <= r2 < cs.len() && 0 <= t2 < cs[r2].len()
            && cs[r1][t1] == cs[r2][t2] ==> r1 == r2 && t1 == t2
}

proof fn lemma_split_after(close: Seq<Seq<bool>>, n: int, i: int)
    requires
        0 <= i <= n <= usize::MAX,
        is_square_flags(close, n),
    ensures
        forall|r: int, t: int|
            0 <= r < clusters_after(close, n, i).len() && 0 <= t < clusters_after(close, n, i)[r].len() ==>
                #[trigger] assigned_after(close, n, i)[clusters_after(close, n, i)[r][t] as int],
        forall|x: int| 0 <= x < n && #[trigger] assigned_after(close, n, i)[x] ==> exists|r: int, t: int|
            0 <= r < clusters_after(close, n, i).len() && 0 <= t < clusters_after(close, n, i)[r].len()
                && #[trigger] clusters_after(close, n, i)[r][t] == x as usize,
        forall|r1: int, t1: int, r2: int, t2: int|
            #![trigger clusters_after(close, n, i)[r1][t1], clusters_after(close, n, i)[r2][t2]]
            0 <= r1 < clusters_after(close, n, i).len() && 0 <= t1 < clusters_after(close, n, i)[r1].len()
                && 0 <= r2 < clusters_after(close, n, i).len() && 0 <= t2 < clusters_after(close, n, i)[r2].len()
                && clusters_after(close, n, i)[r1][t1] == clusters_after(close, n, i)[r2][t2] ==> r1 == r2 && t1 == t2,
    decreases i,
{
    if i > 0 {
        lemma_split_after(close, n, i - 1);
        lemma_groups_led_after(close, n, i);
        lemma_groups_led_after(close, n, i - 1);
        lemma_clusters_partition(close, n, i - 1);
        let a = assigned_after(close, n, i - 1);
        let prev = clusters_after(close, n, i - 1);
        let l = i - 1;
        if a[l] {
            assert(clusters_after(close, n, i) == prev);
            assert(assigned_after(close, n, i) == a);
        } else {
            lemma_members(close, a, l, n);
            let m = members(close, a, l, n);
            let c = seq![l as usize] + m;
            let cs = clusters_after(close, n, i);
            let a2 = assigned_after(close, n, i);
            assert(cs == prev.push(c));
            assert forall|t: int| 0 < t < c.len() implies c[t] == m[t - 1] by {}
            assert forall|r: int, t: int| 0 <= r < cs.len() && 0 <= t < cs[r].len() implies
                #[trigger] a2[cs[r][t] as int] by {
                if r < prev.len() {
                    assert(cs[r] == prev[r]);
                    assert(a[prev[r][t] as int]);
                } else {
                    assert(cs[r] == c);
                }
            }
            assert forall|x: int| 0 <= x < n && #[trigger] a2[x] implies exists|r: int, t: int|
                0 <= r < cs.len() && 0 <= t < cs[r].len() && #[trigger] cs[r][t] == x as usize by {
                if a[x] {
                    let (r, t) = choose|r: int, t: int|
                        0 <= r < prev.len() && 0 <= t < prev[r].len() && #[trigger] prev[r][t] == x as usize;
                    assert(cs[r] == prev[r]);
                    assert(cs[r][t] == x as usize);
                } else if x == l {
                    assert(cs[prev.len() as int] == c);
                    assert(cs[prev.len() as int][0] == x as usize);
                } else {
                    assert(m.contains(x as usize));
                    let w = choose|w: int| 0 <= w < m.len() && m[w] == x as usize;
                    assert(cs[prev.len() as int] == c);
                    assert(cs[prev.len() as int][w + 1] == x as usize);
                }
            }
            assert forall|r1: int, t1: int, r2: int, t2: int|
                #![trigger cs[r1][t1], cs[r2][t2]]
                0 <= r1 < cs.len() && 0 <= t1 < cs[r1].len() && 0 <= r2 < cs.len() && 0 <= t2 < cs[r2].len()
                    && cs[r1][t1] == cs[r2][t2] implies r1 == r2 && t1 == t2 by {
                if r1 < prev.len() && r2 < prev.len() {
                    assert(cs[r1] == prev[r1] && cs[r2] == prev[r2]);
                    assert(prev[r1][t1] == prev[r2][t2]);
                } else if r1 == prev.len() && r2 == prev.len() {
                    if t1 < t2 {
                        assert(cs[r1][t1] < cs[r1][t2]);
                    } else if t2 < t1 {
                        assert(cs[r1][t2] < cs[r1][t1]);
                    }
                } else {
                    let (ro, to, tn) = if r1 < prev.len() { (r1, t1, t2) } else { (r2, t2, t1) };
                    assert(cs[ro] == prev[ro]);
                    assert(a[prev[ro][to] as int]);
                    assert(cs[prev.len() as int] == c);
                    let x = c[tn] as int;
                    if tn > 0 {
                        assert(c[tn] == m[tn - 1]);
                    }
                    assert(!a[x]);
                }
            }
        }
    }
}

/// The groups of `cluster_by_similarity` split the agents: every agent is in
/// exactly one group, at exactly one place.
pub proof fn lemma_groups_split(close: Seq<Seq<bool>>, n: int)
    requires
        0 <= n <= usize::MAX,
        is_square_flags(close, n),
    ensures
        splits_indices(clusters_after(close, n, n), n),
{
    lemma_split_after(close, n, n);
    lemma_groups_led_after(close, n, n);
    lemma_clusters_partition(close, n, n);
    let cs = clusters_after(close, n, n);
    assert forall|x: int| 0 <= x < n implies #[trigger] in_some_group(cs, x) by {
        assert(assigned_after(close, n, n)[x]);
    }
}

} // verus!
