//! Persistence diagrams of a point cloud, computed from the order keys of its
//! pairwise distances, held in a [`DistanceMatrix`] (a Vietoris-Rips
//! filtration, simplified).
//!
//! H0 (connected components) is single-linkage merging over the edges in
//! stable ascending distance order: every point is born at filtration 0, each
//! merge kills a component at the merging distance, and one component never
//! dies. H1 (loops) takes, for every triangle whose longest edge is strictly
//! longer than its middle edge, a loop born at the middle edge and dying at
//! the longest, and keeps the `max(n / 3, 1)` most persistent of them. The
//! persistence of a loop (its death value minus its birth value) is a
//! difference of values, not of keys: the caller hands in its order key for
//! each candidate loop listed by [`candidate_loops`].

use vstd::prelude::*;
use crate::order::{
    is_stable_order, stable_order, stable_order_of, stable_order_descending, reversed_keys, key_before,
    lemma_stable_order_exists,
};
use crate::matrix::{DistanceMatrix, matrix_entries};
use crate::linkage::{
    KeyedEdge, merges_after, edges_within, edge_joins, keys_nondecreasing, single_linkage_deaths,
    lemma_merges_invariant, lemma_merges_complete, lemma_merges_deaths_sorted, merge_edges, lemma_merge_edges,
    lemma_merge_edges_prefix, lemma_labels_are_merge_connectivity, is_walk, adjacent, connected,
};

verus! {

/// Order key of the filtration value 0, at which every point is born.
pub const ZERO_FILTRATION: u64 = 0x8000_0000_0000_0000;

/// A point of a persistence diagram: birth and death filtration keys and the
/// homology dimension. A feature that never dies has no death key.
#[derive(Clone, Copy, Debug, PartialEq, Eq)]
pub struct PersistencePair {
    pub birth: u64,
    pub death: Option<u64>,
    pub dim: usize,
}

impl PersistencePair {
    pub fn new(birth: u64, death: Option<u64>, dim: usize) -> (pair: Self)
        ensures
            pair.birth == birth,
            pair.death == death,
            pair.dim == dim,
    {
        PersistencePair { birth, death, dim }
    }

    /// Whether the feature dies.
    pub fn is_finite(&self) -> (finite: bool)
        ensures
            finite == self.death.is_some(),
    {
        self.death.is_some()
    }
}

/// A persistence diagram: its pairs and the number of points it was computed from.
#[derive(Clone, Debug)]
pub struct PersistenceDiagram {
    pub pairs: Vec<PersistencePair>,
    pub n_points: usize,
}

impl PersistenceDiagram {
    pub fn new(pairs: Vec<PersistencePair>, n_points: usize) -> (diagram: Self)
        ensures
            diagram.pairs@ == pairs@,
            diagram.n_points == n_points,
    {
        PersistenceDiagram { pairs, n_points }
    }

    /// The diagram of no points.
    pub fn empty() -> (diagram: Self)
        ensures
            diagram.pairs@.len() == 0,
            diagram.n_points == 0,
    {
        PersistenceDiagram { pairs: Vec::new(), n_points: 0 }
    }

    /// Positions, in order, of the pairs of homology dimension `dim`.
    pub fn dimension(&self, dim: usize) -> (positions: Vec<usize>)
        ensures
            positions@ == positions_of_dim(self.pairs@, dim, self.pairs@.len() as int),
            forall|k: int| 0 <= k < positions.len() ==> (#[trigger] positions[k] as int) < self.pairs.len()
                && self.pairs[positions[k] as int].dim == dim,
            forall|a: int, b: int| 0 <= a < b < positions.len() ==> #[trigger] positions[a] < #[trigger] positions[b],
            forall|t: int| 0 <= t < self.pairs.len() && #[trigger] self.pairs[t].dim == dim ==> positions@.contains(t as usize),
    {
        let mut positions: Vec<usize> = Vec::new();
        let mut t: usize = 0;
        while t < self.pairs.len()
            invariant
                t <= self.pairs.len(),
                positions@ == positions_of_dim(self.pairs@, dim, t as int),
                forall|k: int| 0 <= k < positions.len() ==> (#[trigger] positions[k] as int) < t
                    && self.pairs[positions[k] as int].dim == dim,
                forall|a: int, b: int| 0 <= a < b < positions.len() ==> #[trigger] positions[a] < #[trigger] positions[b],
                forall|s: int| 0 <= s < t && #[trigger] self.pairs[s].dim == dim ==> positions@.contains(s as usize),
            decreases self.pairs.len() - t,
        {
            if self.pairs[t].dim == dim {
                let ghost before = positions@;
                positions.push(t);
                proof {
                    assert forall|s: int| 0 <= s < t + 1 && #[trigger] self.pairs[s].dim == dim implies positions@.contains(s as usize) by {
                        if s == t {
                            assert(positions@[positions.len() - 1] == t);
                        } else {
                            let w = choose|w: int| 0 <= w < before.len() && before[w] == s as usize;
                            assert(positions@[w] == s as usize);
                        }
                    }
                }
            }
            t = t + 1;
        }
        positions
    }

    /// Number of pairs whose feature dies.
    pub fn finite_count(&self) -> (count: usize)
        ensures
            count == finite_pairs(self.pairs@, self.pairs@.len() as int),
            count <= self.pairs.len(),
    {
        let mut count: usize = 0;
        let mut t: usize = 0;
        while t < self.pairs.len()
            invariant
                t <= self.pairs.len(),
                count == finite_pairs(self.pairs@, t as int),
                count <= t,
            decreases self.pairs.len() - t,
        {
            if self.pairs[t].death.is_some() {
                count = count + 1;
            }
            t = t + 1;
        }
        count
    }
}

/// Positions among the first `t` pairs with homology dimension `dim`.
pub open spec fn positions_of_dim(pairs: Seq<PersistencePair>, dim: usize, t: int) -> Seq<usize>
    decreases t,
{
    if t <= 0 {
        Seq::empty()
    } else if pairs[t - 1].dim == dim {
        positions_of_dim(pairs, dim, t - 1).push((t - 1) as usize)
    } else {
        positions_of_dim(pairs, dim, t - 1)
    }
}

/// Number of pairs among the first `t` whose feature dies.
pub open spec fn finite_pairs(pairs: Seq<PersistencePair>, t: int) -> nat
    decreases t,
{
    if t <= 0 {
        0
    } else {
        finite_pairs(pairs, t - 1) + if pairs[t - 1].death.is_some() { 1nat } else { 0nat }
    }
}

/// The rows of a matrix of keys, as sequences.
pub open spec fn key_matrix(dist: Seq<Vec<u64>>) -> Seq<Seq<u64>> {
    dist.map_values(|row: Vec<u64>| row@)
}

/// `d` is an `n` by `n` matrix.
pub open spec fn is_square(d: Seq<Seq<u64>>, n: int) -> bool {
    &&& d.len() == n
    &&& forall|i: int| 0 <= i < n ==> (#[trigger] d[i]).len() == n
}

/// The pairs `(i, j)` with `i < j < end`.
pub open spec fn pair_row(i: int, end: int) -> Seq<(usize, usize)>
    decreases end - i,
{
    if end <= i + 1 {
        Seq::empty()
    } else {
        pair_row(i, end - 1).push((i as usize, (end - 1) as usize))
    }
}

/// The pairs `(i, j)` with `i < rows` and `i < j < n`, in lexicographic order.
pub open spec fn pairs_upto(n: int, rows: int) -> Seq<(usize, usize)>
    decreases rows,
{
    if rows <= 0 {
        Seq::empty()
    } else {
        pairs_upto(n, rows - 1) + pair_row(rows - 1, n)
    }
}

/// All pairs of distinct points of `0..n`, `(i, j)` with `i < j`, in
/// lexicographic order: the edges of the complete graph.
pub open spec fn point_pairs(n: int) -> Seq<(usize, usize)> {
    pairs_upto(n, n)
}

/// The distance key of each edge of the complete graph.
pub open spec fn edge_keys(d: Seq<Seq<u64>>, n: int) -> Seq<u64> {
    point_pairs(n).map_values(|p: (usize, usize)| d[p.0 as int][p.1 as int])
}

/// The edges of the complete graph with their keys, in stable ascending key order.
pub open spec fn sorted_edges(d: Seq<Seq<u64>>, n: int) -> Seq<KeyedEdge> {
    let pairs = point_pairs(n);
    let keys = edge_keys(d, n);
    let order = stable_order_of(keys);
    Seq::new(order.len(), |k: int| (keys[order[k] as int], pairs[order[k] as int].0, pairs[order[k] as int].1))
}

/// The death keys of the 0-dimensional features that die: the keys of the
/// merging edges of single-linkage merging along the sorted edges.
pub open spec fn h0_deaths(d: Seq<Seq<u64>>, n: int) -> Seq<u64> {
    merges_after(sorted_edges(d, n), n as nat, sorted_edges(d, n).len() as int).deaths
}

/// `k` is the distance key of some pair of distinct points.
pub open spec fn is_pair_distance(d: Seq<Seq<u64>>, n: int, k: u64) -> bool {
    exists|i: int, j: int| 0 <= i < j < n && #[trigger] d[i][j] == k
}

/// The 0-dimensional pairs: one per merge, then the component that never dies.
pub open spec fn h0_pairs(d: Seq<Seq<u64>>, n: int) -> Seq<PersistencePair> {
    h0_deaths(d, n).map_values(
        |x: u64| PersistencePair { birth: ZERO_FILTRATION, death: Some(x), dim: 0 },
    ).push(PersistencePair { birth: ZERO_FILTRATION, death: None, dim: 0 })
}

proof fn lemma_pair_row(i: int, end: int)
    ensures
        pair_row(i, end).len() == if end <= i + 1 { 0 } else { end - i - 1 },
        forall|t: int| 0 <= t < pair_row(i, end).len() ==> #[trigger] pair_row(i, end)[t] == (i as usize, (i + 1 + t) as usize),
    decreases end - i,
{
    if end > i + 1 {
        lemma_pair_row(i, end - 1);
    }
}

proof fn lemma_pairs_upto(n: int, rows: int)
    requires
        0 <= rows <= n <= usize::MAX,
    ensures
        forall|t: int| 0 <= t < pairs_upto(n, rows).len() ==> {
            let p = #[trigger] pairs_upto(n, rows)[t];
            &&& (p.0 as int) < rows
            &&& p.0 < p.1
            &&& (p.1 as int) < n
        },
        forall|x: int, y: int| 0 <= x < rows && x < y < n ==> #[trigger] pairs_upto(n, rows).contains((x as usize, y as usize)),
    decreases rows,
{
    if rows > 0 {
        lemma_pairs_upto(n, rows - 1);
        lemma_pair_row(rows - 1, n);
        let prev = pairs_upto(n, rows - 1);
        let row = pair_row(rows - 1, n);
        let all = pairs_upto(n, rows);
        assert(all == prev + row);
        assert forall|t: int| 0 <= t < all.len() implies {
            let p = #[trigger] all[t];
            &&& (p.0 as int) < rows
            &&& p.0 < p.1
            &&& (p.1 as int) < n
        } by {
            if t >= prev.len() {
                assert(all[t] == row[t - prev.len()]);
            } else {
                assert(all[t] == prev[t]);
            }
        }
        assert forall|x: int, y: int| 0 <= x < rows && x < y < n implies #[trigger] all.contains((x as usize, y as usize)) by {
            if x < rows - 1 {
                assert(prev.contains((x as usize, y as usize)));
                let w = choose|w: int| 0 <= w < prev.len() && prev[w] == (x as usize, y as usize);
                assert(all[w] == prev[w]);
            } else {
                let w = y - x - 1;
                assert(row[w] == (x as usize, y as usize));
                assert(all[prev.len() + w] == row[w]);
            }
        }
    }
}

/// The sorted edges join every pair of distinct points, with endpoints in range
/// and nondecreasing keys.
proof fn lemma_sorted_edges(d: Seq<Seq<u64>>, n: int, order: Seq<usize>)
    requires
        0 <= n <= usize::MAX,
        point_pairs(n).len() <= usize::MAX,
        is_stable_order(edge_keys(d, n), order),
        order == stable_order_of(edge_keys(d, n)),
    ensures
        edges_within(sorted_edges(d, n), n as nat),
        keys_nondecreasing(sorted_edges(d, n)),
        forall|x: int, y: int| 0 <= x < y < n ==> #[trigger] edge_joins(sorted_edges(d, n), x, y),
        sorted_edges(d, n).len() == point_pairs(n).len(),
        forall|e: int| 0 <= e < sorted_edges(d, n).len() ==> (#[trigger] sorted_edges(d, n)[e]).1 < sorted_edges(d, n)[e].2
            && sorted_edges(d, n)[e].0 == d[sorted_edges(d, n)[e].1 as int][sorted_edges(d, n)[e].2 as int],
{
    lemma_pairs_upto(n, n);
    let pairs = point_pairs(n);
    let keys = edge_keys(d, n);
    assert forall|e: int| 0 <= e < sorted_edges(d, n).len() implies (#[trigger] sorted_edges(d, n)[e]).1 < sorted_edges(d, n)[e].2
        && sorted_edges(d, n)[e].0 == d[sorted_edges(d, n)[e].1 as int][sorted_edges(d, n)[e].2 as int] by {
        assert((order[e] as int) < keys.len());
        let o = order[e] as int;
        assert(sorted_edges(d, n)[e] == (keys[o], pairs[o].0, pairs[o].1));
    }
    let edges = sorted_edges(d, n);
    assert forall|e: int| 0 <= e < edges.len() implies (#[trigger] edges[e]).1 < n && edges[e].2 < n by {
        assert((order[e] as int) < keys.len());
        let p = pairs[order[e] as int];
    }
    assert forall|a: int, b: int| 0 <= a < b < edges.len() implies (#[trigger] edges[a]).0 <= (#[trigger] edges[b]).0 by {
        assert(key_before(keys, order[a] as int, order[b] as int));
    }
    assert forall|x: int, y: int| 0 <= x < y < n implies #[trigger] edge_joins(edges, x, y) by {
        assert(pairs.contains((x as usize, y as usize)));
        let t = choose|t: int| 0 <= t < pairs.len() && pairs[t] == (x as usize, y as usize);
        assert(order.contains((t as int) as usize));
        let e = choose|e: int| 0 <= e < order.len() && order[e] == (t as int) as usize;
        assert(order[e] as int == t);
        assert(edges[e] == (keys[t], pairs[t].0, pairs[t].1));
        assert(pairs[t].0 as int == x && pairs[t].1 as int == y);
        assert(edges[e].1 == x && edges[e].2 == y);
    }
}

proof fn lemma_pairs_upto_len(n: int, rows: int)
    requires
        0 <= rows <= n,
    ensures
        2 * pairs_upto(n, rows).len() == 2 * rows * n - rows * (rows + 1),
    decreases rows,
{
    if rows > 0 {
        lemma_pairs_upto_len(n, rows - 1);
        lemma_pair_row(rows - 1, n);
        let prev = pairs_upto(n, rows - 1).len() as int;
        assert(pairs_upto(n, rows).len() == prev + (n - rows));
        let r = rows;
        assert(2 * r * n - r * (r + 1) == 2 * prev + 2 * (n - r)) by (nonlinear_arith)
            requires
                2 * prev == 2 * (r - 1) * n - (r - 1) * (r - 1 + 1),
        ;
    } else {
        assert(2 * rows * n - rows * (rows + 1) == 0) by (nonlinear_arith)
            requires
                rows == 0,
        ;
    }
}

/// The complete graph on `n` points has `n (n - 1) / 2` edges.
pub proof fn lemma_point_pairs_len(n: int)
    requires
        n >= 0,
    ensures
        2 * point_pairs(n).len() == n * (n - 1),
{
    lemma_pairs_upto_len(n, n);
    assert(2 * n * n - n * (n + 1) == n * (n - 1)) by (nonlinear_arith);
}

/// Single-linkage merging of `n` points along the sorted edges of the
/// complete graph leaves one component: it records exactly `n - 1` merges,
/// at nondecreasing keys, each the distance key of a pair of the points.
pub proof fn lemma_h0_merges(d: Seq<Seq<u64>>, n: int)
    requires
        1 <= n,
        n * (n - 1) <= 2 * usize::MAX,
    ensures
        h0_deaths(d, n).len() == n - 1,
        forall|a: int, b: int| 0 <= a < b < h0_deaths(d, n).len() ==>
            (#[trigger] h0_deaths(d, n)[a]) <= (#[trigger] h0_deaths(d, n)[b]),
        forall|t: int| 0 <= t < h0_deaths(d, n).len() ==> #[trigger] is_pair_distance(d, n, h0_deaths(d, n)[t]),
{
    lemma_point_pairs_len(n);
    let keys = edge_keys(d, n);
    lemma_stable_order_exists(keys);
    let order = stable_order_of(keys);
    assert(n <= usize::MAX) by (nonlinear_arith)
        requires
            1 <= n,
            n * (n - 1) <= 2 * usize::MAX,
    {
        if n > usize::MAX {
            assert(n - 1 >= usize::MAX);
            assert(n * (n - 1) >= (usize::MAX + 1) * usize::MAX);
        }
    }
    lemma_sorted_edges(d, n, order);
    let edges = sorted_edges(d, n);
    lemma_merges_complete(edges, n as nat);
    lemma_merges_deaths_sorted(edges, n as nat, edges.len() as int);
    lemma_merges_invariant(edges, n as nat, edges.len() as int);
    lemma_pairs_upto(n, n);
    let deaths = h0_deaths(d, n);
    let pairs = point_pairs(n);
    assert forall|t: int| 0 <= t < deaths.len() implies #[trigger] is_pair_distance(d, n, deaths[t]) by {
        let e = choose|e: int| 0 <= e < edges.len() && deaths[t] == edges[e].0;
        let o = order[e] as int;
        let p = pairs[o];
        assert(edges[e] == (keys[o], p.0, p.1));
        assert(d[p.0 as int][p.1 as int] == deaths[t]);
    }
}

/// The spanning tree of single linkage: the merging edges along the sorted
/// edges of the complete graph, as (key, endpoint, endpoint).
pub open spec fn h0_tree(d: Seq<Seq<u64>>, n: int) -> Seq<KeyedEdge> {
    merge_edges(sorted_edges(d, n), n as nat, sorted_edges(d, n).len() as int)
}

/// Some edge of `tree` with key at most `w` joins `x` and `y`, either way.
pub open spec fn tree_step_below(tree: Seq<KeyedEdge>, w: u64, x: int, y: int) -> bool {
    exists|t: int|
        0 <= t < tree.len() && (#[trigger] tree[t]).0 <= w
            && (tree[t].1 == x && tree[t].2 == y || tree[t].1 == y && tree[t].2 == x)
}

/// `p` leads from `x` to `y` along edges of `tree` with keys at most `w`.
pub open spec fn is_path_below(tree: Seq<KeyedEdge>, w: u64, p: Seq<int>, x: int, y: int) -> bool {
    &&& p.len() >= 1
    &&& p[0] == x
    &&& p[p.len() - 1] == y
    &&& forall|i: int| 0 <= i < p.len() - 1 ==> tree_step_below(tree, w, #[trigger] p[i], p[i + 1])
}

/// Edges of `tree` with keys at most `w` connect `x` and `y`.
pub open spec fn joined_below(tree: Seq<KeyedEdge>, w: u64, x: int, y: int) -> bool {
    exists|p: Seq<int>| #[trigger] is_path_below(tree, w, p, x, y)
}

/// A walk along the merging edges of the first `k` sorted edges keeps to tree
/// edges no longer than the `k`-th edge.
proof fn lemma_walk_below(d: Seq<Seq<u64>>, n: int, k: int, p: Seq<int>, x: int, y: int)
    requires
        1 <= n,
        1 <= k <= sorted_edges(d, n).len(),
        edges_within(sorted_edges(d, n), n as nat),
        keys_nondecreasing(sorted_edges(d, n)),
        is_walk(
            merge_edges(sorted_edges(d, n), n as nat, k),
            merge_edges(sorted_edges(d, n), n as nat, k).len() as int,
            p,
            x,
            y,
        ),
    ensures
        is_path_below(h0_tree(d, n), sorted_edges(d, n)[k - 1].0, p, x, y),
{
    let edges = sorted_edges(d, n);
    let me = merge_edges(edges, n as nat, k);
    let tree = h0_tree(d, n);
    let w = edges[k - 1].0;
    lemma_merge_edges(edges, n as nat, k);
    lemma_merge_edges_prefix(edges, n as nat, k, edges.len() as int);
    assert forall|i: int| 0 <= i < p.len() - 1 implies tree_step_below(tree, w, #[trigger] p[i], p[i + 1]) by {
        assert(adjacent(me, me.len() as int, p[i], p[i + 1]));
        let t = choose|t: int|
            0 <= t < me.len() && ((#[trigger] me[t]).1 == p[i] && me[t].2 == p[i + 1] || me[t].1 == p[i + 1] && me[t].2 == p[i]);
        let e = choose|e: int| 0 <= e < k && #[trigger] me[t] == edges[e];
        assert(edges[e].0 <= edges[k - 1].0);
        assert(tree[t] == me[t]);
    }
}

/// The 0-dimensional deaths are the edge keys of a minimum spanning tree of
/// the complete graph on the `n` points: the merging edges of single linkage
/// are `n - 1` edges of the graph, with the deaths as their keys, and any two
/// points `x < y` are connected by tree edges none longer than the edge
/// `(x, y)` itself. A spanning tree with this path property is a minimum
/// spanning tree, whatever the values the keys stand for, since it only
/// compares keys.
pub proof fn lemma_h0_minimum_spanning_tree(d: Seq<Seq<u64>>, n: int)
    requires
        1 <= n,
        n * (n - 1) <= 2 * usize::MAX,
    ensures
        h0_tree(d, n).len() == n - 1,
        forall|t: int| 0 <= t < h0_tree(d, n).len() ==> (#[trigger] h0_tree(d, n)[t]).0 == h0_deaths(d, n)[t],
        forall|t: int| 0 <= t < h0_tree(d, n).len() ==> {
            let e = #[trigger] h0_tree(d, n)[t];
            &&& e.1 < e.2
            &&& (e.2 as int) < n
            &&& e.0 == d[e.1 as int][e.2 as int]
        },
        forall|x: int, y: int| 0 <= x < y < n ==> #[trigger] joined_below(h0_tree(d, n), d[x][y], x, y),
{
    lemma_point_pairs_len(n);
    let keys = edge_keys(d, n);
    lemma_stable_order_exists(keys);
    let order = stable_order_of(keys);
    assert(n <= usize::MAX) by (nonlinear_arith)
        requires
            1 <= n,
            n * (n - 1) <= 2 * usize::MAX,
    {
        if n > usize::MAX {
            assert(n - 1 >= usize::MAX);
            assert(n * (n - 1) >= (usize::MAX + 1) * usize::MAX);
        }
    }
    lemma_sorted_edges(d, n, order);
    let edges = sorted_edges(d, n);
    let len = edges.len() as int;
    let tree = h0_tree(d, n);
    lemma_merges_complete(edges, n as nat);
    lemma_merge_edges(edges, n as nat, len);
    assert forall|t: int| 0 <= t < tree.len() implies {
        let e = #[trigger] tree[t];
        &&& e.1 < e.2
        &&& (e.2 as int) < n
        &&& e.0 == d[e.1 as int][e.2 as int]
    } by {
        let e = choose|e: int| 0 <= e < len && #[trigger] tree[t] == edges[e];
        assert(edges[e].1 < n && edges[e].2 < n);
    }
    assert forall|x: int, y: int| 0 <= x < y < n implies #[trigger] joined_below(tree, d[x][y], x, y) by {
        assert(edge_joins(edges, x, y));
        let e = choose|e: int| 0 <= e < edges.len() && (#[trigger] edges[e]).1 == x && edges[e].2 == y;
        lemma_merges_invariant(edges, n as nat, e + 1);
        lemma_labels_are_merge_connectivity(edges, n as nat, e + 1);
        let me = merge_edges(edges, n as nat, e + 1);
        assert(connected(me, me.len() as int, x, y));
        let p = choose|p: Seq<int>| #[trigger] is_walk(me, me.len() as int, p, x, y);
        lemma_walk_below(d, n, e + 1, p, x, y);
        assert(edges[e].0 == d[x][y]);
        assert(is_path_below(tree, d[x][y], p, x, y));
    }
}

/// The edges of the complete graph on `0..n`, in lexicographic order, with
/// their distance keys.
fn complete_graph_edges(dist: &Vec<Vec<u64>>) -> (result: (Vec<(usize, usize)>, Vec<u64>))
    requires
        is_square(key_matrix(dist@), dist.len() as int),
    ensures
        result.0@ == point_pairs(dist.len() as int),
        result.1@ == edge_keys(key_matrix(dist@), dist.len() as int),
{
    let n = dist.len();
    let ghost d = key_matrix(dist@);
    let mut ends: Vec<(usize, usize)> = Vec::new();
    let mut keys: Vec<u64> = Vec::new();
    let mut i: usize = 0;
    while i < n
        invariant
            n == dist.len(),
            d == key_matrix(dist@),
            is_square(d, n as int),
            i <= n,
            ends@ == pairs_upto(n as int, i as int),
            keys@ == ends@.map_values(|p: (usize, usize)| d[p.0 as int][p.1 as int]),
        decreases n - i,
    {
        let mut j: usize = i + 1;
        while j < n
            invariant
                n == dist.len(),
                d == key_matrix(dist@),
                is_square(d, n as int),
                i < n,
                i + 1 <= j <= n || (j == i + 1 && i + 1 > n),
                ends@ == pairs_upto(n as int, i as int) + pair_row(i as int, j as int),
                keys@ == ends@.map_values(|p: (usize, usize)| d[p.0 as int][p.1 as int]),
            decreases n - j,
        {
            assert(d[i as int].len() == n);
            ends.push((i, j));
            keys.push(dist[i][j]);
            proof {
                assert(pair_row(i as int, j + 1) == pair_row(i as int, j as int).push((i as usize, j as usize)));
                assert(ends@ =~= pairs_upto(n as int, i as int) + pair_row(i as int, j + 1));
                assert(keys@ =~= ends@.map_values(|p: (usize, usize)| d[p.0 as int][p.1 as int]));
            }
            j = j + 1;
        }
        proof {
            assert(pair_row(i as int, j as int) == pair_row(i as int, n as int));
            assert(pairs_upto(n as int, i + 1) == pairs_upto(n as int, i as int) + pair_row(i as int, n as int));
        }
        i = i + 1;
    }
    (ends, keys)
}

/// The 0-dimensional pairs of the `n` points whose distance keys are `dist`.
fn compute_h0(dist: &Vec<Vec<u64>>) -> (pairs: Vec<PersistencePair>)
    requires
        is_square(key_matrix(dist@), dist.len() as int),
        dist.len() >= 1,
    ensures
        pairs@ == h0_pairs(key_matrix(dist@), dist.len() as int),
        h0_deaths(key_matrix(dist@), dist.len() as int).len() == dist.len() - 1,
        forall|t: int| 0 <= t < h0_deaths(key_matrix(dist@), dist.len() as int).len() ==>
            #[trigger] is_pair_distance(key_matrix(dist@), dist.len() as int, h0_deaths(key_matrix(dist@), dist.len() as int)[t]),
        forall|a: int, b: int|
            0 <= a < b < h0_deaths(key_matrix(dist@), dist.len() as int).len() ==>
                (#[trigger] h0_deaths(key_matrix(dist@), dist.len() as int)[a])
                <= (#[trigger] h0_deaths(key_matrix(dist@), dist.len() as int)[b]),
{
    let n = dist.len();
    let ghost d = key_matrix(dist@);
    let (ends, keys) = complete_graph_edges(dist);
    let order = stable_order(&keys);
    let mut edges: Vec<KeyedEdge> = Vec::new();
    let mut k: usize = 0;
    proof {
        assert(point_pairs(n as int).len() == ends.len());
        lemma_sorted_edges(d, n as int, order@);
    }
    while k < order.len()
        invariant
            order@ == stable_order_of(keys@),
            is_stable_order(keys@, order@),
            keys@ == edge_keys(d, n as int),
            ends@ == point_pairs(n as int),
            keys.len() == ends.len(),
            k <= order.len(),
            edges@ == sorted_edges(d, n as int).subrange(0, k as int),
        decreases order.len() - k,
    {
        let t = order[k];
        assert((t as int) < keys.len());
        edges.push((keys[t], ends[t].0, ends[t].1));
        assert(edges@ =~= sorted_edges(d, n as int).subrange(0, k + 1));
        k = k + 1;
    }
    assert(edges@ =~= sorted_edges(d, n as int));
    let deaths = single_linkage_deaths(&edges, n);
    proof {
        lemma_merges_complete(edges@, n as nat);
        lemma_merges_deaths_sorted(edges@, n as nat, edges@.len() as int);
        lemma_merges_invariant(edges@, n as nat, edges@.len() as int);
        lemma_pairs_upto(n as int, n as int);
        let deaths_v = h0_deaths(d, n as int);
        assert forall|t: int| 0 <= t < deaths_v.len() implies #[trigger] is_pair_distance(d, n as int, deaths_v[t]) by {
            let e = choose|e: int| 0 <= e < edges@.len() && deaths_v[t] == edges@[e].0;
            let o = order[e] as int;
            assert(o < keys.len());
            let p = ends@[o];
            assert(edges@[e] == (keys@[o], p.0, p.1));
            assert(keys@[o] == d[p.0 as int][p.1 as int]);
            assert(d[p.0 as int][p.1 as int] == deaths_v[t]);
        }
    }
    let mut pairs: Vec<PersistencePair> = Vec::new();
    let mut t: usize = 0;
    while t < deaths.len()
        invariant
            t <= deaths.len(),
            deaths@ == h0_deaths(d, n as int),
            pairs@ == h0_deaths(d, n as int).subrange(0, t as int).map_values(
                |x: u64| PersistencePair { birth: ZERO_FILTRATION, death: Some(x), dim: 0 },
            ),
        decreases deaths.len() - t,
    {
        pairs.push(PersistencePair { birth: ZERO_FILTRATION, death: Some(deaths[t]), dim: 0 });
        assert(pairs@ =~= h0_deaths(d, n as int).subrange(0, t + 1).map_values(
            |x: u64| PersistencePair { birth: ZERO_FILTRATION, death: Some(x), dim: 0 },
        ));
        t = t + 1;
    }
    pairs.push(PersistencePair { birth: ZERO_FILTRATION, death: None, dim: 0 });
    assert(h0_deaths(d, n as int).subrange(0, deaths.len() as int) =~= h0_deaths(d, n as int));
    pairs
}


/// The middle one of three keys.
pub open spec fn median3(a: u64, b: u64, c: u64) -> u64 {
    if (a <= b && b <= c) || (c <= b && b <= a) {
        b
    } else if (b <= a && a <= c) || (c <= a && a <= b) {
        a
    } else {
        c
    }
}

/// The largest of three keys.
pub open spec fn max3(a: u64, b: u64, c: u64) -> u64 {
    if a >= b && a >= c {
        a
    } else if b >= c {
        b
    } else {
        c
    }
}

/// The loop of a triangle with edge keys `a`, `b`, `c`: born at the middle
/// edge, dying at the longest, when the longest is strictly longer.
pub open spec fn triangle_loop(a: u64, b: u64, c: u64) -> Option<(u64, u64)> {
    if max3(a, b, c) > median3(a, b, c) {
        Some((median3(a, b, c), max3(a, b, c)))
    } else {
        None
    }
}

/// The loop of the triangle `i < j < k`.
pub open spec fn loop_of(d: Seq<Seq<u64>>, i: int, j: int, k: int) -> Option<(u64, u64)> {
    triangle_loop(d[i][j], d[j][k], d[i][k])
}

pub open spec fn option_seq(o: Option<(u64, u64)>) -> Seq<(u64, u64)> {
    match o {
        Some(x) => seq![x],
        None => Seq::empty(),
    }
}

/// Loops of the triangles `(i, j, k)` with `j < k < end`.
pub open spec fn loops_k(d: Seq<Seq<u64>>, i: int, j: int, end: int) -> Seq<(u64, u64)>
    decreases end - j,
{
    if end <= j + 1 {
        Seq::empty()
    } else {
        loops_k(d, i, j, end - 1) + option_seq(loop_of(d, i, j, end - 1))
    }
}

/// Loops of the triangles `(i, j, k)` with `i < j < end` and `j < k < n`.
pub open spec fn loops_j(d: Seq<Seq<u64>>, n: int, i: int, end: int) -> Seq<(u64, u64)>
    decreases end - i,
{
    if end <= i + 1 {
        Seq::empty()
    } else {
        loops_j(d, n, i, end - 1) + loops_k(d, i, end - 1, n)
    }
}

/// Loops of the triangles `(i, j, k)` with `i < end` and `i < j < k < n`.
pub open spec fn loops_i(d: Seq<Seq<u64>>, n: int, end: int) -> Seq<(u64, u64)>
    decreases end,
{
    if end <= 0 {
        Seq::empty()
    } else {
        loops_i(d, n, end - 1) + loops_j(d, n, end - 1, n)
    }
}

/// The loops of all triangles `i < j < k` of the `n` points, as (birth, death)
/// keys, in lexicographic triangle order.
pub open spec fn triangle_loops(d: Seq<Seq<u64>>, n: int) -> Seq<(u64, u64)> {
    loops_i(d, n, n)
}

/// How many loops are kept for `n` points: `max(n / 3, 1)`.
pub open spec fn loop_budget(n: int) -> int {
    if n / 3 >= 1 {
        n / 3
    } else {
        1
    }
}

/// How many loops are kept out of `count` candidates: the budget, or all of
/// them when there are fewer.
pub open spec fn kept_count(n: int, count: int) -> int {
    if loop_budget(n) <= count {
        loop_budget(n)
    } else {
        count
    }
}

/// The positions of the kept loops among the candidates: the first
/// `max(n / 3, 1)` in stable descending order of the persistence keys, that
/// is the most persistent ones, earlier candidates first among equals.
pub open spec fn kept_loops(n: int, persistence: Seq<u64>) -> Seq<usize> {
    stable_order_of(reversed_keys(persistence)).take(kept_count(n, persistence.len() as int))
}

/// The 1-dimensional pairs: the kept triangle loops, most persistent first,
/// given the persistence key of each candidate loop.
pub open spec fn h1_pairs(d: Seq<Seq<u64>>, n: int, persistence: Seq<u64>) -> Seq<PersistencePair> {
    let loops = triangle_loops(d, n);
    kept_loops(n, persistence).map_values(
        |o: usize| PersistencePair { birth: loops[o as int].0, death: Some(loops[o as int].1), dim: 1 },
    )
}

/// A loop of `n` points with distance keys `d`: born strictly before it dies,
/// and born and dying at distances between pairs of the points.
pub open spec fn is_loop_within(d: Seq<Seq<u64>>, n: int, l: (u64, u64)) -> bool {
    &&& l.0 < l.1
    &&& is_pair_distance(d, n, l.0)
    &&& is_pair_distance(d, n, l.1)
}

proof fn lemma_loop_of_within(d: Seq<Seq<u64>>, n: int, i: int, j: int, k: int)
    requires
        0 <= i < j < k < n,
    ensures
        loop_of(d, i, j, k) matches Some(l) ==> is_loop_within(d, n, l),
{
    assert(is_pair_distance(d, n, d[i][j]));
    assert(is_pair_distance(d, n, d[j][k]));
    assert(is_pair_distance(d, n, d[i][k]));
}

/// Every triangle loop is born strictly before it dies, at pair distances.
proof fn lemma_loops_within(d: Seq<Seq<u64>>, n: int)
    ensures
        forall|t: int| 0 <= t < triangle_loops(d, n).len() ==> is_loop_within(d, n, #[trigger] triangle_loops(d, n)[t]),
{
    lemma_loops_i_within(d, n, n);
}

proof fn lemma_loops_k_within(d: Seq<Seq<u64>>, n: int, i: int, j: int, end: int)
    requires
        0 <= i < j,
        end <= n,
    ensures
        forall|t: int| 0 <= t < loops_k(d, i, j, end).len() ==> is_loop_within(d, n, #[trigger] loops_k(d, i, j, end)[t]),
    decreases end - j,
{
    if end > j + 1 {
        lemma_loops_k_within(d, n, i, j, end - 1);
        lemma_loop_of_within(d, n, i, j, end - 1);
        let a = loops_k(d, i, j, end - 1);
        let b = option_seq(loop_of(d, i, j, end - 1));
        assert forall|t: int| 0 <= t < (a + b).len() implies is_loop_within(d, n, #[trigger] (a + b)[t]) by {
            if t >= a.len() {
                assert((a + b)[t] == b[t - a.len()]);
            } else {
                assert((a + b)[t] == a[t]);
            }
        }
    }
}

proof fn lemma_loops_j_within(d: Seq<Seq<u64>>, n: int, i: int, end: int)
    requires
        0 <= i,
        end <= n,
    ensures
        forall|t: int| 0 <= t < loops_j(d, n, i, end).len() ==> is_loop_within(d, n, #[trigger] loops_j(d, n, i, end)[t]),
    decreases end - i,
{
    if end > i + 1 {
        lemma_loops_j_within(d, n, i, end - 1);
        lemma_loops_k_within(d, n, i, end - 1, n);
        let a = loops_j(d, n, i, end - 1);
        let b = loops_k(d, i, end - 1, n);
        assert forall|t: int| 0 <= t < (a + b).len() implies is_loop_within(d, n, #[trigger] (a + b)[t]) by {
            if t >= a.len() {
                assert((a + b)[t] == b[t - a.len()]);
            } else {
                assert((a + b)[t] == a[t]);
            }
        }
    }
}

proof fn lemma_loops_i_within(d: Seq<Seq<u64>>, n: int, end: int)
    requires
        end <= n,
    ensures
        forall|t: int| 0 <= t < loops_i(d, n, end).len() ==> is_loop_within(d, n, #[trigger] loops_i(d, n, end)[t]),
    decreases end,
{
    if end > 0 {
        lemma_loops_i_within(d, n, end - 1);
        lemma_loops_j_within(d, n, end - 1, n);
        let a = loops_i(d, n, end - 1);
        let b = loops_j(d, n, end - 1, n);
        assert forall|t: int| 0 <= t < (a + b).len() implies is_loop_within(d, n, #[trigger] (a + b)[t]) by {
            if t >= a.len() {
                assert((a + b)[t] == b[t - a.len()]);
            } else {
                assert((a + b)[t] == a[t]);
            }
        }
    }
}

fn triangle_loop_exec(a: u64, b: u64, c: u64) -> (r: Option<(u64, u64)>)
    ensures
        r == triangle_loop(a, b, c),
{
    let mid = if (a <= b && b <= c) || (c <= b && b <= a) {
        b
    } else if (b <= a && a <= c) || (c <= a && a <= b) {
        a
    } else {
        c
    };
    let top = if a >= b && a >= c {
        a
    } else if b >= c {
        b
    } else {
        c
    };
    if top > mid {
        Some((mid, top))
    } else {
        None
    }
}

/// [`candidate_loops`], on the rows of the distance matrix.
fn triangle_candidates(dist: &Vec<Vec<u64>>) -> (loops: Vec<(u64, u64)>)
    requires
        is_square(key_matrix(dist@), dist.len() as int),
    ensures
        loops@ == triangle_loops(key_matrix(dist@), dist.len() as int),
        forall|t: int| 0 <= t < loops.len() ==> is_loop_within(key_matrix(dist@), dist.len() as int, #[trigger] loops@[t]),
{
    let n = dist.len();
    let ghost d = key_matrix(dist@);
    let mut loops: Vec<(u64, u64)> = Vec::new();
    let mut i: usize = 0;
    while i < n
        invariant
            n == dist.len(),
            d == key_matrix(dist@),
            is_square(d, n as int),
            i <= n,
            loops@ == loops_i(d, n as int, i as int),
        decreases n - i,
    {
        let mut j: usize = i + 1;
        while j < n
            invariant
                n == dist.len(),
                d == key_matrix(dist@),
                is_square(d, n as int),
                i < n,
                i + 1 <= j,
                j <= n || j == i + 1,
                loops@ == loops_i(d, n as int, i as int) + loops_j(d, n as int, i as int, j as int),
            decreases n - j,
        {
            let mut k: usize = j + 1;
            while k < n
                invariant
                    n == dist.len(),
                    d == key_matrix(dist@),
                    is_square(d, n as int),
                    i < j < n,
                    j + 1 <= k,
                    k <= n || k == j + 1,
                    loops@ == loops_i(d, n as int, i as int) + loops_j(d, n as int, i as int, j as int)
                        + loops_k(d, i as int, j as int, k as int),
                decreases n - k,
            {
                assert(d[i as int].len() == n && d[j as int].len() == n);
                let found = triangle_loop_exec(dist[i][j], dist[j][k], dist[i][k]);
                let ghost before = loops@;
                match found {
                    Some(l) => {
                        loops.push(l);
                    },
                    None => {},
                }
                proof {
                    assert(found == loop_of(d, i as int, j as int, k as int));
                    assert(loops_k(d, i as int, j as int, k + 1) == loops_k(d, i as int, j as int, k as int)
                        + option_seq(loop_of(d, i as int, j as int, k as int)));
                    assert(loops@ =~= loops_i(d, n as int, i as int) + loops_j(d, n as int, i as int, j as int)
                        + loops_k(d, i as int, j as int, k + 1));
                }
                k = k + 1;
            }
            proof {
                assert(loops_k(d, i as int, j as int, k as int) == loops_k(d, i as int, j as int, n as int));
                assert(loops_j(d, n as int, i as int, j + 1) == loops_j(d, n as int, i as int, j as int)
                    + loops_k(d, i as int, j as int, n as int));
                assert(loops@ =~= loops_i(d, n as int, i as int) + loops_j(d, n as int, i as int, j + 1));
            }
            j = j + 1;
        }
        proof {
            assert(loops_j(d, n as int, i as int, j as int) == loops_j(d, n as int, i as int, n as int));
            assert(loops_i(d, n as int, i + 1) == loops_i(d, n as int, i as int) + loops_j(d, n as int, i as int, n as int));
        }
        i = i + 1;
    }
    proof {
        lemma_loops_within(d, n as int);
    }
    loops
}

/// The 1-dimensional pairs of the `n` points whose distance keys are `dist`,
/// given the persistence key of each candidate loop.
fn compute_h1(dist: &Vec<Vec<u64>>, persistence: &Vec<u64>) -> (pairs: Vec<PersistencePair>)
    requires
        is_square(key_matrix(dist@), dist.len() as int),
        persistence.len() == triangle_loops(key_matrix(dist@), dist.len() as int).len(),
    ensures
        pairs@ == h1_pairs(key_matrix(dist@), dist.len() as int, persistence@),
        pairs.len() == kept_loops(dist.len() as int, persistence@).len(),
        pairs.len() <= loop_budget(dist.len() as int),
        // Exactly max(n / 3, 1) loops, or every candidate when there are fewer.
        pairs.len() == if (if dist.len() / 3 >= 1 { dist.len() / 3 } else { 1 }) <= persistence.len() {
            if dist.len() / 3 >= 1 { dist.len() / 3 } else { 1 }
        } else {
            persistence.len()
        },
        forall|t: int| 0 <= t < pairs.len() ==> (#[trigger] pairs[t]).dim == 1 && pairs[t].death.is_some()
            && is_loop_within(key_matrix(dist@), dist.len() as int, (pairs[t].birth, pairs[t].death.unwrap())),
        forall|t: int| 0 <= t < pairs.len() ==> (#[trigger] kept_loops(dist.len() as int, persistence@)[t] as int)
            < persistence.len(),
        forall|a: int, b: int| 0 <= a < b < pairs.len() ==>
            persistence[#[trigger] kept_loops(dist.len() as int, persistence@)[a] as int]
                >= persistence[#[trigger] kept_loops(dist.len() as int, persistence@)[b] as int],
        forall|t: int, o: int|
            #![trigger kept_loops(dist.len() as int, persistence@)[t], persistence[o]]
            0 <= t < pairs.len() && 0 <= o < persistence.len()
                && !kept_loops(dist.len() as int, persistence@).contains(o as usize) ==>
                persistence[o] <= persistence[kept_loops(dist.len() as int, persistence@)[t] as int],
{
    let n = dist.len();
    let ghost d = key_matrix(dist@);
    let loops = triangle_candidates(dist);
    let order = stable_order_descending(persistence);
    let budget = if n / 3 >= 1 { n / 3 } else { 1 };
    let kept = if budget <= loops.len() { budget } else { loops.len() };
    let ghost kept_seq = kept_loops(n as int, persistence@);
    assert(kept_seq == order@.take(kept as int));
    let mut pairs: Vec<PersistencePair> = Vec::new();
    let mut k: usize = 0;
    while k < kept
        invariant
            kept <= loops.len(),
            order.len() == loops.len(),
            loops.len() == persistence.len(),
            loops@ == triangle_loops(d, n as int),
            forall|t: int| 0 <= t < order.len() ==> (#[trigger] order[t] as int) < persistence.len(),
            kept_seq == order@.take(kept as int),
            kept_seq == kept_loops(n as int, persistence@),
            k <= kept,
            pairs@ == h1_pairs(d, n as int, persistence@).subrange(0, k as int),
            h1_pairs(d, n as int, persistence@).len() == kept,
        decreases kept - k,
    {
        let o = order[k];
        let l = loops[o];
        pairs.push(PersistencePair { birth: l.0, death: Some(l.1), dim: 1 });
        assert(pairs@ =~= h1_pairs(d, n as int, persistence@).subrange(0, k + 1));
        k = k + 1;
    }
    assert(pairs@ =~= h1_pairs(d, n as int, persistence@));
    proof {
        assert forall|t: int| 0 <= t < pairs.len() implies (#[trigger] pairs[t]).dim == 1 && pairs[t].death.is_some()
            && is_loop_within(d, n as int, (pairs[t].birth, pairs[t].death.unwrap())) by {
            assert(kept_seq[t] == order[t]);
            assert(loops@[order[t] as int] == (pairs[t].birth, pairs[t].death.unwrap()));
        }
        assert forall|t: int| 0 <= t < pairs.len() implies (#[trigger] kept_seq[t] as int) < persistence.len() by {
            assert(kept_seq[t] == order[t]);
        }
        assert forall|a: int, b: int| 0 <= a < b < pairs.len() implies
            persistence[#[trigger] kept_seq[a] as int] >= persistence[#[trigger] kept_seq[b] as int] by {
            assert(kept_seq[a] == order[a]);
            assert(kept_seq[b] == order[b]);
        }
        assert forall|t: int, o: int|
            #![trigger kept_seq[t], persistence[o]]
            0 <= t < pairs.len() && 0 <= o < persistence.len() && !kept_seq.contains(o as usize) implies
                persistence[o] <= persistence[kept_seq[t] as int] by {
            assert(order@.contains(o as usize));
            let m = choose|m: int| 0 <= m < order.len() && order@[m] == o as usize;
            if m < kept {
                assert(kept_seq[m] == o as usize);
            }
            assert(kept_seq[t] == order[t]);
            assert(t < m);
        }
    }
    pairs
}


/// The pairs of the diagram of `n` points with distance keys `d`: none for
/// fewer than two points; otherwise the 0-dimensional pairs, followed by the
/// 1-dimensional ones when `max_dim >= 1`, chosen by the persistence keys
/// `loop_persistence` of the candidate loops.
pub open spec fn persistence_pairs(d: Seq<Seq<u64>>, n: int, max_dim: int, loop_persistence: Seq<u64>) -> Seq<PersistencePair> {
    if n < 2 {
        Seq::empty()
    } else if max_dim >= 1 {
        h0_pairs(d, n) + h1_pairs(d, n, loop_persistence)
    } else {
        h0_pairs(d, n)
    }
}

/// Two points form no triangle, hence no candidate loop.
proof fn lemma_two_points_no_loops(d: Seq<Seq<u64>>)
    ensures
        triangle_loops(d, 2).len() == 0,
{
    assert(loops_k(d, 0, 1, 2).len() == 0);
    assert(loops_j(d, 2, 0, 1).len() == 0);
    assert(loops_j(d, 2, 0, 2).len() == 0);
    assert(loops_j(d, 2, 1, 2).len() == 0);
    assert(loops_i(d, 2, 0).len() == 0);
    assert(loops_i(d, 2, 1).len() == 0);
    assert(loops_i(d, 2, 2).len() == 0);
}

/// [`compute_persistence`], on the rows of the distance matrix.
fn persistence_of_rows(dist: &Vec<Vec<u64>>, max_dim: usize, loop_persistence: &Vec<u64>) -> (diagram: PersistenceDiagram)
    requires
        is_square(key_matrix(dist@), dist.len() as int),
        max_dim >= 1 ==> loop_persistence.len() == triangle_loops(key_matrix(dist@), dist.len() as int).len(),
    ensures
        diagram.pairs@ == persistence_pairs(key_matrix(dist@), dist.len() as int, max_dim as int, loop_persistence@),
        diagram.n_points == if dist.len() < 2 { 0 } else { dist.len() },
        // Fewer than two points have an empty diagram.
        dist.len() < 2 ==> diagram.pairs.len() == 0,
        // Two points have no loop.
        dist.len() == 2 ==> diagram.pairs.len() == 2,
        // With loops asked for, n >= 2 points have exactly max(n / 3, 1)
        // loops after their n components, or every candidate loop when there
        // are fewer.
        dist.len() >= 2 && max_dim >= 1 ==> diagram.pairs.len() == dist.len() + if (if dist.len() / 3 >= 1 {
            dist.len() / 3
        } else {
            1
        }) <= triangle_loops(key_matrix(dist@), dist.len() as int).len() {
            (if dist.len() / 3 >= 1 { dist.len() / 3 } else { 1 }) as int
        } else {
            triangle_loops(key_matrix(dist@), dist.len() as int).len() as int
        },
        // Otherwise: exactly n pairs of dimension 0 come first, all born at 0;
        // n - 1 of them die, in nondecreasing order, and the last never dies.
        dist.len() >= 2 ==> {
            &&& diagram.pairs.len() >= dist.len()
            &&& forall|t: int| 0 <= t < dist.len() ==> (#[trigger] diagram.pairs[t]).dim == 0
                && diagram.pairs[t].birth == ZERO_FILTRATION
                && (diagram.pairs[t].death.is_some() <==> t < dist.len() - 1)
            &&& forall|a: int, b: int| 0 <= a < b < dist.len() - 1 ==>
                (#[trigger] diagram.pairs[a]).death.unwrap() <= (#[trigger] diagram.pairs[b]).death.unwrap()
            &&& forall|t: int| 0 <= t < dist.len() - 1 ==> is_pair_distance(
                key_matrix(dist@),
                dist.len() as int,
                (#[trigger] diagram.pairs[t]).death.unwrap(),
            )
        },
        // The rest are loops: at most max(n / 3, 1) of them, none when
        // max_dim is 0, each born strictly before it dies, both at distances
        // between pairs of the points.
        dist.len() >= 2 ==> {
            &&& diagram.pairs.len() - dist.len() <= if max_dim >= 1 { loop_budget(dist.len() as int) } else { 0 }
            &&& forall|t: int| dist.len() <= t < diagram.pairs.len() ==> (#[trigger] diagram.pairs[t]).dim == 1
                && diagram.pairs[t].death.is_some() && is_loop_within(
                    key_matrix(dist@),
                    dist.len() as int,
                    (diagram.pairs[t].birth, diagram.pairs[t].death.unwrap()),
                )
        },
        // The kept loops are the most persistent candidates, most persistent
        // first: the candidates at the positions `kept_loops`, in
        // nonincreasing persistence, and no candidate left out is more
        // persistent than one kept.
        dist.len() >= 2 && max_dim >= 1 ==> {
            let kept = kept_loops(dist.len() as int, loop_persistence@);
            let loops = triangle_loops(key_matrix(dist@), dist.len() as int);
            &&& diagram.pairs.len() == dist.len() + kept.len()
            &&& forall|t: int| 0 <= t < kept.len() ==> (#[trigger] kept[t] as int) < loops.len()
                && diagram.pairs[dist.len() + t].birth == loops[kept[t] as int].0
                && diagram.pairs[dist.len() + t].death == Some(loops[kept[t] as int].1)
            &&& forall|a: int, b: int| 0 <= a < b < kept.len() ==>
                loop_persistence[#[trigger] kept[a] as int] >= loop_persistence[#[trigger] kept[b] as int]
            &&& forall|t: int, o: int|
                #![trigger kept[t], loop_persistence[o]]
                0 <= t < kept.len() && 0 <= o < loops.len() && !kept.contains(o as usize) ==>
                    loop_persistence[o] <= loop_persistence[kept[t] as int]
        },
{
    let n = dist.len();
    let ghost d = key_matrix(dist@);
    if n < 2 {
        return PersistenceDiagram::empty();
    }
    proof {
        if n == 2 {
            lemma_two_points_no_loops(d);
        }
    }
    let mut pairs = compute_h0(dist);
    let ghost h0 = pairs@;
    if max_dim >= 1 {
        let mut h1 = compute_h1(dist, loop_persistence);
        let ghost h1v = h1@;
        pairs.append(&mut h1);
        proof {
            assert(pairs@ == h0 + h1v);
            assert forall|t: int| dist.len() <= t < pairs.len() implies (#[trigger] pairs[t]).dim == 1
                && pairs[t].death.is_some() && is_loop_within(d, n as int, (pairs[t].birth, pairs[t].death.unwrap())) by {
                assert(pairs[t] == h1v[t - h0.len()]);
            }
            let kept = kept_loops(n as int, loop_persistence@);
            let loops = triangle_loops(d, n as int);
            assert forall|t: int| 0 <= t < kept.len() implies (#[trigger] kept[t] as int) < loops.len()
                && pairs[n + t].birth == loops[kept[t] as int].0
                && pairs[n + t].death == Some(loops[kept[t] as int].1) by {
                assert(pairs[n + t] == h1v[t]);
                assert(h1v[t] == h1_pairs(d, n as int, loop_persistence@)[t]);
            }
        }
    }
    proof {
        let deaths = h0_deaths(d, n as int);
        assert forall|t: int| 0 <= t < n implies (#[trigger] pairs[t]).dim == 0
            && pairs[t].birth == ZERO_FILTRATION
            && (pairs[t].death.is_some() <==> t < n - 1) by {
            assert(pairs[t] == h0[t]);
        }
        assert forall|t: int| 0 <= t < n - 1 implies is_pair_distance(d, n as int, (#[trigger] pairs[t]).death.unwrap()) by {
            assert(pairs[t] == h0[t]);
            assert(is_pair_distance(d, n as int, deaths[t]));
        }
        assert forall|a: int, b: int| 0 <= a < b < n - 1 implies
            (#[trigger] pairs[a]).death.unwrap() <= (#[trigger] pairs[b]).death.unwrap() by {
            assert(pairs[a] == h0[a]);
            assert(pairs[b] == h0[b]);
            assert(deaths[a] <= deaths[b]);
        }
    }
    PersistenceDiagram { pairs, n_points: n }
}

/// Number of windows of `size` consecutive points, started every `stride`
/// points, that fit in `len` points.
pub open spec fn window_count(len: int, size: int, stride: int) -> int {
    if size > len || stride <= 0 {
        0
    } else {
        (len - size) / stride + 1
    }
}

/// The windows can be enumerated: none fits, or the stride is positive and
/// the position after the last window plus a window size stays in `usize`.
pub open spec fn windows_enumerable(len: int, size: int, stride: int) -> bool {
    size > len || (stride > 0 && window_count(len, size, stride) * stride + size <= usize::MAX)
}

proof fn lemma_window_index(k: int, q: int, s: int)
    requires
        s > 0,
        q >= 0,
        k >= 0,
    ensures
        (k * s <= q) == (k <= q / s),
{
    vstd::arithmetic::div_mod::lemma_fundamental_div_mod(q, s);
    let r = q % s;
    let qs = q / s;
    assert(0 <= r < s);
    if k <= qs {
        assert(k * s <= qs * s) by (nonlinear_arith)
            requires
                k <= qs,
                s > 0,
        ;
        assert(qs * s == s * qs) by (nonlinear_arith);
    } else {
        assert(k * s >= (qs + 1) * s) by (nonlinear_arith)
            requires
                k >= qs + 1,
                s > 0,
        ;
        assert((qs + 1) * s == s * qs + s) by (nonlinear_arith);
    }
}

/// The first positions of the windows of `size` consecutive points, every
/// `stride` points, that fit in `len` points: `0, stride, 2 * stride, ...`.
pub fn window_starts(len: usize, size: usize, stride: usize) -> (starts: Vec<usize>)
    requires
        windows_enumerable(len as int, size as int, stride as int),
    ensures
        starts.len() == window_count(len as int, size as int, stride as int),
        forall|k: int| 0 <= k < starts.len() ==> #[trigger] starts[k] as int == k * stride,
        forall|k: int| 0 <= k < starts.len() ==> #[trigger] starts[k] + size <= len,
        // No further window fits.
        starts.len() * stride + size > len,
{
    let mut starts: Vec<usize> = Vec::new();
    let mut start: usize = 0;
    let ghost count = window_count(len as int, size as int, stride as int);
    proof {
        if size <= len {
            lemma_window_index(0, len - size, stride as int);
            assert(count >= 1) by (nonlinear_arith)
                requires
                    count == (len - size) / (stride as int) + 1,
                    len - size >= 0,
                    stride > 0,
            ;
        }
    }
    while start + size <= len
        invariant
            windows_enumerable(len as int, size as int, stride as int),
            count == window_count(len as int, size as int, stride as int),
            start as int == starts.len() * stride,
            starts.len() <= count,
            size <= len ==> (starts.len() < count <==> start + size <= len),
            size > len ==> starts.len() == 0,
            starts.len() * stride + size <= usize::MAX || size > len,
            forall|k: int| 0 <= k < starts.len() ==> #[trigger] starts[k] as int == k * stride,
            forall|k: int| 0 <= k < starts.len() ==> #[trigger] starts[k] + size <= len,
        decreases count - starts.len(),
    {
        starts.push(start);
        let ghost k = starts.len() as int;
        proof {
            assert(k <= count);
            assert(k * stride <= count * stride) by (nonlinear_arith)
                requires
                    k <= count,
                    stride >= 0,
            ;
            assert(k * stride == (k - 1) * stride + stride) by (nonlinear_arith);
            lemma_window_index(k, len - size, stride as int);
        }
        start = start + stride;
    }
    starts
}

/// The `size` by `size` block of `d` starting at row and column `start`.
pub open spec fn window_matrix(d: Seq<Seq<u64>>, start: int, size: int) -> Seq<Seq<u64>> {
    Seq::new(size as nat, |i: int| d[start + i].subrange(start, start + size))
}

fn window_block(dist: &Vec<Vec<u64>>, start: usize, size: usize) -> (block: Vec<Vec<u64>>)
    requires
        is_square(key_matrix(dist@), dist.len() as int),
        start + size <= dist.len(),
    ensures
        key_matrix(block@) == window_matrix(key_matrix(dist@), start as int, size as int),
        is_square(key_matrix(block@), block.len() as int),
        block.len() == size,
{
    let ghost d = key_matrix(dist@);
    let mut block: Vec<Vec<u64>> = Vec::new();
    let mut i: usize = 0;
    while i < size
        invariant
            d == key_matrix(dist@),
            is_square(d, dist.len() as int),
            start + size <= dist.len(),
            i <= size,
            key_matrix(block@) == window_matrix(d, start as int, size as int).subrange(0, i as int),
        decreases size - i,
    {
        let mut row: Vec<u64> = Vec::new();
        let mut j: usize = 0;
        assert(d[start + i].len() == dist.len());
        while j < size
            invariant
                d == key_matrix(dist@),
                is_square(d, dist.len() as int),
                start + size <= dist.len(),
                i < size,
                j <= size,
                d[start + i].len() == dist.len(),
                row@ == d[start + i].subrange(start as int, start + j),
            decreases size - j,
        {
            row.push(dist[start + i][start + j]);
            assert(row@ =~= d[start + i].subrange(start as int, start + j + 1));
            j = j + 1;
        }
        let ghost row_view = row@;
        let ghost before = block@;
        assert(key_matrix(before).len() == i);
        assert(before.len() == i);
        block.push(row);
        proof {
            assert(row_view == window_matrix(d, start as int, size as int)[i as int]);
            assert(block@ == before.push(block@[i as int]));
            assert(block@[i as int]@ == row_view);
            assert forall|t: int| 0 <= t < i + 1 implies #[trigger] key_matrix(block@)[t]
                == window_matrix(d, start as int, size as int).subrange(0, i + 1)[t] by {
                if t < i {
                    assert(key_matrix(before)[t] == window_matrix(d, start as int, size as int).subrange(0, i as int)[t]);
                }
            }
            assert(key_matrix(block@) =~= window_matrix(d, start as int, size as int).subrange(0, i + 1));
        }
        i = i + 1;
    }
    assert(key_matrix(block@) =~= window_matrix(d, start as int, size as int));
    block
}

/// [`sliding_window_persistence`], on the rows of the distance matrix.
fn sliding_windows_of_rows(
    dist: &Vec<Vec<u64>>,
    window_size: usize,
    stride: usize,
    max_dim: usize,
    loop_persistence: &Vec<Vec<u64>>,
) -> (windows: Vec<(usize, PersistenceDiagram)>)
    requires
        is_square(key_matrix(dist@), dist.len() as int),
        windows_enumerable(dist.len() as int, window_size as int, stride as int),
        max_dim >= 1 ==> loop_persistence.len() == window_count(dist.len() as int, window_size as int, stride as int),
        max_dim >= 1 ==> forall|k: int| 0 <= k < loop_persistence.len() ==> (#[trigger] loop_persistence[k]).len()
            == triangle_loops(window_matrix(key_matrix(dist@), k * stride, window_size as int), window_size as int).len(),
    ensures
        windows.len() == window_count(dist.len() as int, window_size as int, stride as int),
        // No further window fits.
        windows.len() * stride + window_size > dist.len(),
        forall|k: int| 0 <= k < windows.len() ==> {
            &&& (#[trigger] windows[k]).0 as int == k * stride
            &&& windows[k].0 + window_size <= dist.len()
            &&& windows[k].1.pairs@ == persistence_pairs(
                window_matrix(key_matrix(dist@), k * stride, window_size as int),
                window_size as int,
                max_dim as int,
                if max_dim >= 1 { loop_persistence[k]@ } else { Seq::empty() },
            )
            &&& windows[k].1.n_points == if window_size < 2 { 0 } else { window_size }
        },
{
    let starts = window_starts(dist.len(), window_size, stride);
    let mut windows: Vec<(usize, PersistenceDiagram)> = Vec::new();
    let mut k: usize = 0;
    while k < starts.len()
        invariant
            is_square(key_matrix(dist@), dist.len() as int),
            k <= starts.len(),
            windows.len() == k,
            forall|t: int| 0 <= t < starts.len() ==> #[trigger] starts[t] as int == t * stride,
            forall|t: int| 0 <= t < starts.len() ==> #[trigger] starts[t] + window_size <= dist.len(),
            max_dim >= 1 ==> loop_persistence.len() == starts.len(),
            max_dim >= 1 ==> forall|t: int| 0 <= t < loop_persistence.len() ==> (#[trigger] loop_persistence[t]).len()
                == triangle_loops(window_matrix(key_matrix(dist@), t * stride, window_size as int), window_size as int).len(),
            forall|t: int| 0 <= t < k ==> {
                &&& (#[trigger] windows[t]).0 as int == t * stride
                &&& windows[t].0 + window_size <= dist.len()
                &&& windows[t].1.pairs@ == persistence_pairs(
                    window_matrix(key_matrix(dist@), t * stride, window_size as int),
                    window_size as int,
                    max_dim as int,
                    if max_dim >= 1 { loop_persistence[t]@ } else { Seq::empty() },
                )
                &&& windows[t].1.n_points == if window_size < 2 { 0 } else { window_size }
            },
        decreases starts.len() - k,
    {
        let start = starts[k];
        let block = window_block(dist, start, window_size);
        let empty: Vec<u64> = Vec::new();
        let persistence = if max_dim >= 1 { &loop_persistence[k] } else { &empty };
        let diagram = persistence_of_rows(&block, max_dim, persistence);
        windows.push((start, diagram));
        k = k + 1;
    }
    windows
}

/// [`window_candidate_loops`], on the rows of the distance matrix.
fn window_candidates_of_rows(dist: &Vec<Vec<u64>>, window_size: usize, stride: usize) -> (loops: Vec<Vec<(u64, u64)>>)
    requires
        is_square(key_matrix(dist@), dist.len() as int),
        windows_enumerable(dist.len() as int, window_size as int, stride as int),
    ensures
        loops.len() == window_count(dist.len() as int, window_size as int, stride as int),
        // No further window fits.
        loops.len() * stride + window_size > dist.len(),
        forall|k: int| 0 <= k < loops.len() ==> (#[trigger] loops[k])@ == triangle_loops(
            window_matrix(key_matrix(dist@), k * stride, window_size as int),
            window_size as int,
        ),
{
    let starts = window_starts(dist.len(), window_size, stride);
    let mut loops: Vec<Vec<(u64, u64)>> = Vec::new();
    let mut k: usize = 0;
    while k < starts.len()
        invariant
            is_square(key_matrix(dist@), dist.len() as int),
            k <= starts.len(),
            loops.len() == k,
            forall|t: int| 0 <= t < starts.len() ==> #[trigger] starts[t] as int == t * stride,
            forall|t: int| 0 <= t < starts.len() ==> #[trigger] starts[t] + window_size <= dist.len(),
            forall|t: int| 0 <= t < k ==> (#[trigger] loops[t])@ == triangle_loops(
                window_matrix(key_matrix(dist@), t * stride, window_size as int),
                window_size as int,
            ),
        decreases starts.len() - k,
    {
        let block = window_block(dist, starts[k], window_size);
        let window_loops = triangle_candidates(&block);
        loops.push(window_loops);
        k = k + 1;
    }
    loops
}

/// The candidate loops of the points whose distance keys are `dist`: for
/// every triangle `i < j < k`, in lexicographic order, whose longest edge is
/// strictly longer than its middle edge, the (birth, death) keys of its loop,
/// the middle and the longest edge.
pub fn candidate_loops(dist: &DistanceMatrix) -> (loops: Vec<(u64, u64)>)
    requires
        is_square(matrix_entries(*dist), matrix_entries(*dist).len() as int),
    ensures
        loops@ == triangle_loops(matrix_entries(*dist), matrix_entries(*dist).len() as int),
        forall|t: int| 0 <= t < loops.len() ==> is_loop_within(matrix_entries(*dist), matrix_entries(*dist).len() as int, #[trigger] loops@[t]),
{
    let rows = dist.to_rows();
    triangle_candidates(&rows)
}

/// The persistence diagram of the points whose pairwise distance keys are
/// `dist` (an `n` by `n` matrix; only entries above the diagonal are read).
/// When `max_dim >= 1`, `loop_persistence` holds the order key of the
/// persistence of each candidate loop, in the order of [`candidate_loops`].
pub fn compute_persistence(dist: &DistanceMatrix, max_dim: usize, loop_persistence: &Vec<u64>) -> (diagram: PersistenceDiagram)
    requires
        is_square(matrix_entries(*dist), matrix_entries(*dist).len() as int),
        max_dim >= 1 ==> loop_persistence.len() == triangle_loops(matrix_entries(*dist), matrix_entries(*dist).len() as int).len(),
    ensures
        diagram.pairs@ == persistence_pairs(matrix_entries(*dist), matrix_entries(*dist).len() as int, max_dim as int, loop_persistence@),
        diagram.n_points == if matrix_entries(*dist).len() < 2 { 0 } else { matrix_entries(*dist).len() },
        // Fewer than two points have an empty diagram.
        matrix_entries(*dist).len() < 2 ==> diagram.pairs.len() == 0,
        // Two points have no loop.
        matrix_entries(*dist).len() == 2 ==> diagram.pairs.len() == 2,
        // With loops asked for, n >= 2 points have exactly max(n / 3, 1)
        // loops after their n components, or every candidate loop when there
        // are fewer.
        matrix_entries(*dist).len() >= 2 && max_dim >= 1 ==> diagram.pairs.len() == matrix_entries(*dist).len() + if (if matrix_entries(*dist).len() / 3 >= 1 {
            matrix_entries(*dist).len() / 3
        } else {
            1
        }) <= triangle_loops(matrix_entries(*dist), matrix_entries(*dist).len() as int).len() {
            (if matrix_entries(*dist).len() / 3 >= 1 { matrix_entries(*dist).len() / 3 } else { 1 }) as int
        } else {
            triangle_loops(matrix_entries(*dist), matrix_entries(*dist).len() as int).len() as int
        },
        // Otherwise: exactly n pairs of dimension 0 come first, all born at 0;
        // n - 1 of them die, in nondecreasing order, and the last never dies.
        matrix_entries(*dist).len() >= 2 ==> {
            &&& diagram.pairs.len() >= matrix_entries(*dist).len()
            &&& forall|t: int| 0 <= t < matrix_entries(*dist).len() ==> (#[trigger] diagram.pairs[t]).dim == 0
                && diagram.pairs[t].birth == ZERO_FILTRATION
                && (diagram.pairs[t].death.is_some() <==> t < matrix_entries(*dist).len() - 1)
            &&& forall|a: int, b: int| 0 <= a < b < matrix_entries(*dist).len() - 1 ==>
                (#[trigger] diagram.pairs[a]).death.unwrap() <= (#[trigger] diagram.pairs[b]).death.unwrap()
            &&& forall|t: int| 0 <= t < matrix_entries(*dist).len() - 1 ==> is_pair_distance(
                matrix_entries(*dist),
                matrix_entries(*dist).len() as int,
                (#[trigger] diagram.pairs[t]).death.unwrap(),
            )
        },
        // The rest are loops: at most max(n / 3, 1) of them, none when
        // max_dim is 0, each born strictly before it dies, both at distances
        // between pairs of the points.
        matrix_entries(*dist).len() >= 2 ==> {
            &&& diagram.pairs.len() - matrix_entries(*dist).len() <= if max_dim >= 1 { loop_budget(matrix_entries(*dist).len() as int) } else { 0 }
            &&& forall|t: int| matrix_entries(*dist).len() <= t < diagram.pairs.len() ==> (#[trigger] diagram.pairs[t]).dim == 1
                && diagram.pairs[t].death.is_some() && is_loop_within(
                    matrix_entries(*dist),
                    matrix_entries(*dist).len() as int,
                    (diagram.pairs[t].birth, diagram.pairs[t].death.unwrap()),
                )
        },
        // The kept loops are the most persistent candidates, most persistent
        // first: the candidates at the positions `kept_loops`, in
        // nonincreasing persistence, and no candidate left out is more
        // persistent than one kept.
        matrix_entries(*dist).len() >= 2 && max_dim >= 1 ==> {
            let kept = kept_loops(matrix_entries(*dist).len() as int, loop_persistence@);
            let loops = triangle_loops(matrix_entries(*dist), matrix_entries(*dist).len() as int);
            &&& diagram.pairs.len() == matrix_entries(*dist).len() + kept.len()
            &&& forall|t: int| 0 <= t < kept.len() ==> (#[trigger] kept[t] as int) < loops.len()
                && diagram.pairs[matrix_entries(*dist).len() + t].birth == loops[kept[t] as int].0
                && diagram.pairs[matrix_entries(*dist).len() + t].death == Some(loops[kept[t] as int].1)
            &&& forall|a: int, b: int| 0 <= a < b < kept.len() ==>
                loop_persistence[#[trigger] kept[a] as int] >= loop_persistence[#[trigger] kept[b] as int]
            &&& forall|t: int, o: int|
                #![trigger kept[t], loop_persistence[o]]
                0 <= t < kept.len() && 0 <= o < loops.len() && !kept.contains(o as usize) ==>
                    loop_persistence[o] <= loop_persistence[kept[t] as int]
        },
{
    let rows = dist.to_rows();
    persistence_of_rows(&rows, max_dim, loop_persistence)
}

/// The persistence diagram of every window of `window_size` consecutive
/// points, started every `stride` points, with the window's first position.
/// When `max_dim >= 1`, `loop_persistence[k]` holds the persistence keys of
/// the candidate loops of the `k`-th window, as [`window_candidate_loops`]
/// lists them.
pub fn sliding_window_persistence(
    dist: &DistanceMatrix,
    window_size: usize,
    stride: usize,
    max_dim: usize,
    loop_persistence: &Vec<Vec<u64>>,
) -> (windows: Vec<(usize, PersistenceDiagram)>)
    requires
        is_square(matrix_entries(*dist), matrix_entries(*dist).len() as int),
        windows_enumerable(matrix_entries(*dist).len() as int, window_size as int, stride as int),
        max_dim >= 1 ==> loop_persistence.len() == window_count(matrix_entries(*dist).len() as int, window_size as int, stride as int),
        max_dim >= 1 ==> forall|k: int| 0 <= k < loop_persistence.len() ==> (#[trigger] loop_persistence[k]).len()
            == triangle_loops(window_matrix(matrix_entries(*dist), k * stride, window_size as int), window_size as int).len(),
    ensures
        windows.len() == window_count(matrix_entries(*dist).len() as int, window_size as int, stride as int),
        // No further window fits.
        windows.len() * stride + window_size > matrix_entries(*dist).len(),
        forall|k: int| 0 <= k < windows.len() ==> {
            &&& (#[trigger] windows[k]).0 as int == k * stride
            &&& windows[k].0 + window_size <= matrix_entries(*dist).len()
            &&& windows[k].1.pairs@ == persistence_pairs(
                window_matrix(matrix_entries(*dist), k * stride, window_size as int),
                window_size as int,
                max_dim as int,
                if max_dim >= 1 { loop_persistence[k]@ } else { Seq::empty() },
            )
            &&& windows[k].1.n_points == if window_size < 2 { 0 } else { window_size }
        },
{
    let rows = dist.to_rows();
    sliding_windows_of_rows(&rows, window_size, stride, max_dim, loop_persistence)
}

/// The candidate loops of every window of `window_size` consecutive points,
/// started every `stride` points, as [`candidate_loops`] lists them for the
/// window's block of distance keys.
pub fn window_candidate_loops(dist: &DistanceMatrix, window_size: usize, stride: usize) -> (loops: Vec<Vec<(u64, u64)>>)
    requires
        is_square(matrix_entries(*dist), matrix_entries(*dist).len() as int),
        windows_enumerable(matrix_entries(*dist).len() as int, window_size as int, stride as int),
    ensures
        loops.len() == window_count(matrix_entries(*dist).len() as int, window_size as int, stride as int),
        // No further window fits.
        loops.len() * stride + window_size > matrix_entries(*dist).len(),
        forall|k: int| 0 <= k < loops.len() ==> (#[trigger] loops[k])@ == triangle_loops(
            window_matrix(matrix_entries(*dist), k * stride, window_size as int),
            window_size as int,
        ),
{
    let rows = dist.to_rows();
    window_candidates_of_rows(&rows, window_size, stride)
}

/// The loop budget: of the candidate loops of `n >= 2` points, exactly
/// `max(n / 3, 1)` are kept, or all of them when there are fewer.
pub proof fn lemma_loop_count(d: Seq<Seq<u64>>, n: int, persistence: Seq<u64>)
    requires
        n >= 2,
        persistence.len() == triangle_loops(d, n).len(),
        persistence.len() <= usize::MAX,
    ensures
        h1_pairs(d, n, persistence).len() == if (if n / 3 >= 1 { n / 3 } else { 1 }) <= persistence.len() {
            if n / 3 >= 1 { n / 3 } else { 1 }
        } else {
            persistence.len() as int
        },
{
    lemma_stable_order_exists(reversed_keys(persistence));
}

} // verus!
