//! Single-linkage merging of points along a sequence of weighted edges: the
//! model of 0-dimensional persistence.
//!
//! Every point starts as its own component (its label is its index). Edges
//! are taken in order; an edge whose endpoints carry different labels merges
//! the two components (all points labelled like the first endpoint take the
//! label of the second) and records the edge's key as a death. Once a single
//! component is left, later edges change nothing.

use vstd::prelude::*;
use vstd::seq_lib::seq_to_set_is_finite;

verus! {

/// A weighted edge: its key and its two endpoints.
pub type KeyedEdge = (u64, usize, usize);

/// The state of single-linkage merging.
pub struct MergeState {
    /// Component label of each point.
    pub labels: Seq<int>,
    /// Number of components.
    pub components: int,
    /// Keys of the merging edges, in the order they merged.
    pub deaths: Seq<u64>,
}

/// `n` separate points.
pub open spec fn initial_merge_state(n: nat) -> MergeState {
    MergeState { labels: Seq::new(n, |i: int| i), components: n as int, deaths: Seq::empty() }
}

/// Every point labelled `from` is relabelled `to`.
pub open spec fn relabel(labels: Seq<int>, from: int, to: int) -> Seq<int> {
    labels.map_values(|l: int| if l == from { to } else { l })
}

/// The effect of one edge `(key, u, v)`.
pub open spec fn merge_step(s: MergeState, key: u64, u: int, v: int) -> MergeState {
    if s.components <= 1 || s.labels[u] == s.labels[v] {
        s
    } else {
        MergeState {
            labels: relabel(s.labels, s.labels[u], s.labels[v]),
            components: s.components - 1,
            deaths: s.deaths.push(key),
        }
    }
}

/// The state after the first `k` edges of `edges`, starting from `n` points.
pub open spec fn merges_after(edges: Seq<KeyedEdge>, n: nat, k: int) -> MergeState
    decreases k,
{
    if k <= 0 {
        initial_merge_state(n)
    } else {
        let e = edges[k - 1];
        merge_step(merges_after(edges, n, k - 1), e.0, e.1 as int, e.2 as int)
    }
}

/// Some edge of `edges` runs from `x` to `y`.
pub open spec fn edge_joins(edges: Seq<KeyedEdge>, x: int, y: int) -> bool {
    exists|e: int| 0 <= e < edges.len() && (#[trigger] edges[e]).1 == x && edges[e].2 == y
}

/// All endpoints are points `0..n`.
pub open spec fn edges_within(edges: Seq<KeyedEdge>, n: nat) -> bool {
    forall|e: int| 0 <= e < edges.len() ==> (#[trigger] edges[e]).1 < n && edges[e].2 < n
}

/// Edge keys never decrease along the sequence.
pub open spec fn keys_nondecreasing(edges: Seq<KeyedEdge>) -> bool {
    forall|a: int, b: int| 0 <= a < b < edges.len() ==> (#[trigger] edges[a]).0 <= (#[trigger] edges[b]).0
}

proof fn lemma_relabel_set(labels: Seq<int>, a: int, b: int)
    requires
        labels.contains(a),
        labels.contains(b),
        a != b,
    ensures
        relabel(labels, a, b).to_set() =~= labels.to_set().remove(a),
        relabel(labels, a, b).to_set().len() == labels.to_set().len() - 1,
{
    broadcast use seq_to_set_is_finite;
    let r = relabel(labels, a, b);
    assert forall|l: int| #[trigger] r.to_set().contains(l) <==> labels.to_set().remove(a).contains(l) by {
        if r.to_set().contains(l) {
            let x = choose|x: int| 0 <= x < r.len() && r[x] == l;
            assert(labels.contains(labels[x]));
        }
        if labels.to_set().remove(a).contains(l) {
            let x = choose|x: int| 0 <= x < labels.len() && labels[x] == l;
            assert(r[x] == l);
        }
    }
    assert(labels.to_set().contains(a));
    assert(relabel(labels, a, b).to_set() == labels.to_set().remove(a));
    vstd::set::axiom_set_remove_len(labels.to_set(), a);
}

/// What holds after any number of edges: the labels describe
/// `components` components, every death comes from an edge already taken,
/// and the endpoints of every edge taken share a label.
pub proof fn lemma_merges_invariant(edges: Seq<KeyedEdge>, n: nat, k: int)
    requires
        n >= 1,
        0 <= k <= edges.len(),
        edges_within(edges, n),
    ensures
        merges_after(edges, n, k).labels.len() == n,
        merges_after(edges, n, k).deaths.len() + merges_after(edges, n, k).components == n,
        merges_after(edges, n, k).components == merges_after(edges, n, k).labels.to_set().len(),
        merges_after(edges, n, k).components >= 1,
        forall|e: int|
            0 <= e < k ==> merges_after(edges, n, k).labels[(#[trigger] edges[e]).1 as int]
                == merges_after(edges, n, k).labels[edges[e].2 as int],
        forall|t: int|
            0 <= t < merges_after(edges, n, k).deaths.len() ==> exists|e: int|
                0 <= e < k && (#[trigger] merges_after(edges, n, k).deaths[t]) == edges[e].0,
    decreases k,
{
    broadcast use seq_to_set_is_finite;
    let s = merges_after(edges, n, k);
    if k == 0 {
        let labels = Seq::new(n, |i: int| i);
        assert(labels.no_duplicates());
        labels.unique_seq_to_set();
    } else {
        lemma_merges_invariant(edges, n, k - 1);
        let p = merges_after(edges, n, k - 1);
        let e = edges[k - 1];
        let u = e.1 as int;
        let v = e.2 as int;
        assert(edges[k - 1].1 < n && edges[k - 1].2 < n);
        assert(p.labels.to_set().contains(p.labels[u]));
        assert(p.labels.to_set().contains(p.labels[v]));
        if p.components <= 1 {
            assert(p.labels.to_set().len() == 1);
            Set::lemma_is_singleton(p.labels.to_set());
            assert(p.labels[u] == p.labels[v]);
            assert(s == p);
        } else if p.labels[u] == p.labels[v] {
            assert(s == p);
        } else {
            lemma_relabel_set(p.labels, p.labels[u], p.labels[v]);
            assert forall|t: int| 0 <= t < s.deaths.len() implies exists|e2: int|
                0 <= e2 < k && (#[trigger] s.deaths[t]) == edges[e2].0 by {
                if t == s.deaths.len() - 1 {
                    assert(s.deaths[t] == edges[k - 1].0);
                } else {
                    assert(s.deaths[t] == p.deaths[t]);
                }
            }
        }
    }
}

/// Once a single component is left, further edges change nothing.
pub proof fn lemma_merges_settled(edges: Seq<KeyedEdge>, n: nat, k: int, j: int)
    requires
        0 <= k <= j <= edges.len(),
        merges_after(edges, n, k).components <= 1,
    ensures
        merges_after(edges, n, j) == merges_after(edges, n, k),
    decreases j - k,
{
    if j > k {
        lemma_merges_settled(edges, n, k, j - 1);
    }
}

/// With nondecreasing edge keys, the deaths come out in nondecreasing order
/// and none exceeds the key of the last edge taken.
pub proof fn lemma_merges_deaths_sorted(edges: Seq<KeyedEdge>, n: nat, k: int)
    requires
        n >= 1,
        0 <= k <= edges.len(),
        edges_within(edges, n),
        keys_nondecreasing(edges),
    ensures
        forall|a: int, b: int|
            0 <= a < b < merges_after(edges, n, k).deaths.len() ==> (#[trigger] merges_after(edges, n, k).deaths[a])
                <= (#[trigger] merges_after(edges, n, k).deaths[b]),
        k > 0 ==> forall|t: int|
            0 <= t < merges_after(edges, n, k).deaths.len() ==> (#[trigger] merges_after(edges, n, k).deaths[t])
                <= edges[k - 1].0,
    decreases k,
{
    if k > 0 {
        lemma_merges_deaths_sorted(edges, n, k - 1);
        lemma_merges_invariant(edges, n, k - 1);
        let p = merges_after(edges, n, k - 1);
        let s = merges_after(edges, n, k);
        assert forall|t: int| 0 <= t < p.deaths.len() implies #[trigger] p.deaths[t] <= edges[k - 1].0 by {
            let e = choose|e: int| 0 <= e < k - 1 && p.deaths[t] == edges[e].0;
            assert(edges[e].0 <= edges[k - 1].0);
        }
        assert forall|t: int| 0 <= t < s.deaths.len() implies #[trigger] s.deaths[t] <= edges[k - 1].0 by {
            if t < p.deaths.len() {
                assert(s.deaths[t] == p.deaths[t]);
            }
        }
    }
}

/// When the edges join every pair of points, merging ends with one
/// component and `n - 1` deaths.
pub proof fn lemma_merges_complete(edges: Seq<KeyedEdge>, n: nat)
    requires
        n >= 1,
        edges_within(edges, n),
        forall|x: int, y: int| 0 <= x < y < n ==> #[trigger] edge_joins(edges, x, y),
    ensures
        merges_after(edges, n, edges.len() as int).components == 1,
        merges_after(edges, n, edges.len() as int).deaths.len() == n - 1,
{
    broadcast use seq_to_set_is_finite;
    let k = edges.len() as int;
    lemma_merges_invariant(edges, n, k);
    let s = merges_after(edges, n, k);
    let l0 = s.labels[0];
    assert forall|y: int| 0 <= y < n implies s.labels[y] == l0 by {
        if y > 0 {
            assert(edge_joins(edges, 0, y));
            let e = choose|e: int| 0 <= e < edges.len() && (#[trigger] edges[e]).1 == 0 && edges[e].2 == y;
            assert(s.labels[edges[e].1 as int] == s.labels[edges[e].2 as int]);
        }
    }
    assert(s.labels.to_set() =~= set![l0]) by {
        assert forall|l: int| #[trigger] s.labels.to_set().contains(l) implies l == l0 by {
            let x = choose|x: int| 0 <= x < s.labels.len() && s.labels[x] == l;
        }
        assert(s.labels.contains(l0));
    }
    assert(set![l0].len() == 1);
}


/// Union-find forest over points `0..n`, with union by rank and path
/// compression. The ghost `root` gives each point's representative.
struct DisjointSets {
    parent: Vec<usize>,
    rank: Vec<usize>,
    root: Ghost<Seq<int>>,
}

impl DisjointSets {
    spec fn size(&self) -> nat {
        self.parent@.len()
    }

    /// Well-formed after `merges` unions.
    spec fn wf(&self, merges: int) -> bool {
        let n = self.parent.len();
        &&& self.rank.len() == n
        &&& self.root@.len() == n
        &&& 0 <= merges < n
        &&& forall|x: int| 0 <= x < n ==> (#[trigger] self.parent[x] as int) < n
        &&& forall|x: int| 0 <= x < n ==> 0 <= #[trigger] self.root@[x] < n
        &&& forall|x: int| 0 <= x < n ==> self.root@[#[trigger] self.root@[x]] == self.root@[x]
        &&& forall|x: int| 0 <= x < n ==> ((#[trigger] self.parent[x]) as int == x <==> self.root@[x] == x)
        &&& forall|x: int|
            0 <= x < n && (#[trigger] self.parent[x]) as int != x ==> {
                &&& self.root@[self.parent[x] as int] == self.root@[x]
                &&& self.rank[self.parent[x] as int] > self.rank[x]
                &&& self.rank[self.root@[x]] > self.rank[x]
            }
        &&& forall|x: int| 0 <= x < n ==> #[trigger] self.rank[x] <= merges
    }

    fn new(n: usize) -> (sets: Self)
        requires
            n >= 1,
        ensures
            sets.wf(0),
            sets.size() == n,
            sets.root@ == Seq::new(n as nat, |i: int| i),
    {
        let mut parent: Vec<usize> = Vec::new();
        let mut rank: Vec<usize> = Vec::new();
        let mut i: usize = 0;
        while i < n
            invariant
                i <= n,
                parent.len() == i,
                rank.len() == i,
                forall|x: int| 0 <= x < i ==> parent[x] == x,
                forall|x: int| 0 <= x < i ==> rank[x] == 0,
            decreases n - i,
        {
            parent.push(i);
            rank.push(0);
            i = i + 1;
        }
        DisjointSets { parent, rank, root: Ghost(Seq::new(n as nat, |i: int| i)) }
    }

    /// The representative of `i`, compressing the path to it.
    fn find(&mut self, i: usize, Ghost(m): Ghost<int>) -> (r: usize)
        requires
            old(self).wf(m),
            i < old(self).size(),
        ensures
            final(self).wf(m),
            final(self).size() == old(self).size(),
            final(self).root@ == old(self).root@,
            r as int == final(self).root@[i as int],
        decreases old(self).size() - old(self).rank[i as int],
    {
        let p = self.parent[i];
        if p != i {
            assert(self.rank[p as int] > self.rank[i as int]);
            let r = self.find(p, Ghost(m));
            proof {
                assert(self.wf(m));
            }
            let ghost mid = *self;
            self.parent.set(i, r);
            proof {
                let n = self.parent.len() as int;
                assert forall|x: int|
                    0 <= x < n && (#[trigger] self.parent[x]) as int != x implies {
                    &&& self.root@[self.parent[x] as int] == self.root@[x]
                    &&& self.rank[self.parent[x] as int] > self.rank[x]
                    &&& self.rank[self.root@[x]] > self.rank[x]
                } by {
                    if x == i as int {
                        assert(mid.parent[x] as int != x);
                    } else {
                        assert(self.parent[x] == mid.parent[x]);
                    }
                }
                assert forall|x: int| 0 <= x < n implies ((#[trigger] self.parent[x]) as int == x
                    <==> self.root@[x] == x) by {
                    if x == i as int {
                        assert(mid.parent[x] as int != x);
                    } else {
                        assert(self.parent[x] == mid.parent[x]);
                    }
                }
                assert forall|x: int| 0 <= x < n implies (#[trigger] self.parent[x] as int) < n by {
                    if x != i as int {
                        assert(self.parent[x] == mid.parent[x]);
                    }
                }
            }
            r
        } else {
            i
        }
    }

    /// Joins the sets of the distinct representatives `a` and `b`.
    fn union(&mut self, a: usize, b: usize, Ghost(m): Ghost<int>)
        requires
            old(self).wf(m),
            m + 2 <= old(self).size(),
            a < old(self).size(),
            b < old(self).size(),
            old(self).root@[a as int] == a,
            old(self).root@[b as int] == b,
            a != b,
        ensures
            final(self).wf(m + 1),
            final(self).size() == old(self).size(),
            final(self).root@ == relabel(old(self).root@, a as int, b as int) || final(self).root@ == relabel(
                old(self).root@,
                b as int,
                a as int,
            ),
    {
        let ghost old_root = self.root@;
        let ghost n = self.parent.len() as int;
        let ra = self.rank[a];
        let rb = self.rank[b];
        if ra < rb {
            self.parent.set(a, b);
            self.root = Ghost(relabel(old_root, a as int, b as int));
        } else if ra > rb {
            self.parent.set(b, a);
            self.root = Ghost(relabel(old_root, b as int, a as int));
        } else {
            self.parent.set(b, a);
            self.rank.set(a, ra + 1);
            self.root = Ghost(relabel(old_root, b as int, a as int));
        }
        proof {
            let o = old(self);
            assert forall|x: int|
                0 <= x < n && (#[trigger] self.parent[x]) as int != x implies {
                &&& self.root@[self.parent[x] as int] == self.root@[x]
                &&& self.rank[self.parent[x] as int] > self.rank[x]
                &&& self.rank[self.root@[x]] > self.rank[x]
            } by {
                if o.parent[x] as int != x {
                    assert(o.root@[o.parent[x] as int] == o.root@[x]);
                }
            }
            assert forall|x: int| 0 <= x < n implies ((#[trigger] self.parent[x]) as int == x
                <==> self.root@[x] == x) by {
                assert(o.parent[x] as int == x <==> o.root@[x] == x);
            }
            assert forall|x: int| 0 <= x < n implies self.root@[#[trigger] self.root@[x]]
                == self.root@[x] by {
                assert(o.root@[o.root@[x]] == o.root@[x]);
            }
            assert forall|x: int| 0 <= x < n implies #[trigger] self.rank[x] <= m + 1 by {
                assert(o.rank[x] <= m);
            }
        }
    }
}

/// Single-linkage merging of `n` points along `edges`, in order: returns the
/// keys of the merging edges.
pub fn single_linkage_deaths(edges: &Vec<KeyedEdge>, n: usize) -> (deaths: Vec<u64>)
    requires
        n >= 1,
        edges_within(edges@, n as nat),
    ensures
        deaths@ == merges_after(edges@, n as nat, edges.len() as int).deaths,
{
    let mut sets = DisjointSets::new(n);
    let mut components: usize = n;
    let mut deaths: Vec<u64> = Vec::new();
    let mut k: usize = 0;
    proof {
        lemma_merges_invariant(edges@, n as nat, 0);
    }
    while k < edges.len() && components > 1
        invariant
            n >= 1,
            edges_within(edges@, n as nat),
            k <= edges.len(),
            sets.size() == n,
            sets.wf(n - components),
            1 <= components <= n,
            components as int == merges_after(edges@, n as nat, k as int).components,
            deaths@ == merges_after(edges@, n as nat, k as int).deaths,
            merges_after(edges@, n as nat, k as int).labels.len() == n,
            forall|x: int, y: int|
                0 <= x < n && 0 <= y < n ==> ((#[trigger] sets.root@[x] == #[trigger] sets.root@[y])
                    <==> (merges_after(edges@, n as nat, k as int).labels[x] == merges_after(
                    edges@,
                    n as nat,
                    k as int,
                ).labels[y])),
        decreases edges.len() - k,
    {
        let ghost s = merges_after(edges@, n as nat, k as int);
        let (key, u, v) = edges[k];
        assert(edges@[k as int].1 < n && edges@[k as int].2 < n);
        let ru = sets.find(u, Ghost(n - components));
        let rv = sets.find(v, Ghost(n - components));
        let ghost before_union = sets.root@;
        if ru != rv {
            deaths.push(key);
            proof {
                assert(sets.root@[ru as int] == ru);
                assert(sets.root@[rv as int] == rv);
            }
            sets.union(ru, rv, Ghost(n - components));
            components = components - 1;
            proof {
                let t = merges_after(edges@, n as nat, k + 1);
                assert(s.labels[u as int] != s.labels[v as int]);
                assert(t.labels == relabel(s.labels, s.labels[u as int], s.labels[v as int]));
                assert forall|x: int, y: int|
                    0 <= x < n && 0 <= y < n implies ((#[trigger] sets.root@[x] == #[trigger] sets.root@[y])
                        <==> (t.labels[x] == t.labels[y])) by {
                    assert(before_union[x] == before_union[ru as int] <==> s.labels[x] == s.labels[u as int]);
                    assert(before_union[x] == before_union[rv as int] <==> s.labels[x] == s.labels[v as int]);
                    assert(before_union[y] == before_union[ru as int] <==> s.labels[y] == s.labels[u as int]);
                    assert(before_union[y] == before_union[rv as int] <==> s.labels[y] == s.labels[v as int]);
                    assert(before_union[x] == before_union[y] <==> s.labels[x] == s.labels[y]);
                }
            }
        } else {
            proof {
                assert(s.labels[u as int] == s.labels[v as int]);
            }
        }
        k = k + 1;
        proof {
            lemma_merges_invariant(edges@, n as nat, k as int);
        }
    }
    proof {
        if k < edges.len() {
            lemma_merges_settled(edges@, n as nat, k as int, edges.len() as int);
        }
    }
    deaths
}

/// Some edge among the first `k` of `edges` joins `x` and `y`, either way.
pub open spec fn adjacent(edges: Seq<KeyedEdge>, k: int, x: int, y: int) -> bool {
    exists|e: int|
        0 <= e < k && ((#[trigger] edges[e]).1 == x && edges[e].2 == y || edges[e].1 == y && edges[e].2 == x)
}

/// `w` is a walk from `x` to `y` along the first `k` edges.
pub open spec fn is_walk(edges: Seq<KeyedEdge>, k: int, w: Seq<int>, x: int, y: int) -> bool {
    &&& w.len() >= 1
    &&& w[0] == x
    &&& w[w.len() - 1] == y
    &&& forall|i: int| 0 <= i < w.len() - 1 ==> adjacent(edges, k, #[trigger] w[i], w[i + 1])
}

/// `x` and `y` are connected by the first `k` edges.
pub open spec fn connected(edges: Seq<KeyedEdge>, k: int, x: int, y: int) -> bool {
    exists|w: Seq<int>| #[trigger] is_walk(edges, k, w, x, y)
}

proof fn lemma_walk_labels(edges: Seq<KeyedEdge>, n: nat, k: int, w: Seq<int>, x: int, y: int, i: int)
    requires
        n >= 1,
        0 <= k <= edges.len(),
        edges_within(edges, n),
        is_walk(edges, k, w, x, y),
        0 <= x < n,
        0 <= i < w.len(),
    ensures
        0 <= w[i] < n,
        merges_after(edges, n, k).labels[w[i]] == merges_after(edges, n, k).labels[x],
    decreases i,
{
    if i > 0 {
        lemma_walk_labels(edges, n, k, w, x, y, i - 1);
        lemma_merges_invariant(edges, n, k);
        assert(adjacent(edges, k, w[i - 1], w[i]));
        let e = choose|e: int|
            0 <= e < k && ((#[trigger] edges[e]).1 == w[i - 1] && edges[e].2 == w[i]
                || edges[e].1 == w[i] && edges[e].2 == w[i - 1]);
        assert(edges[e].1 < n && edges[e].2 < n);
    }
}

proof fn lemma_walk_more_edges(edges: Seq<KeyedEdge>, k: int, j: int, w: Seq<int>, x: int, y: int)
    requires
        k <= j,
        is_walk(edges, k, w, x, y),
    ensures
        is_walk(edges, j, w, x, y),
{
    assert forall|i: int| 0 <= i < w.len() - 1 implies adjacent(edges, j, #[trigger] w[i], w[i + 1]) by {
        assert(adjacent(edges, k, w[i], w[i + 1]));
    }
}

proof fn lemma_walk_join(edges: Seq<KeyedEdge>, k: int, p: Seq<int>, q: Seq<int>, x: int, a: int, y: int)
    requires
        is_walk(edges, k, p, x, a),
        is_walk(edges, k, q, a, y),
    ensures
        is_walk(edges, k, p + q.skip(1), x, y),
{
    let w = p + q.skip(1);
    assert forall|i: int| 0 <= i < w.len() - 1 implies adjacent(edges, k, #[trigger] w[i], w[i + 1]) by {
        if i < p.len() - 1 {
            assert(w[i] == p[i] && w[i + 1] == p[i + 1]);
        } else if i == p.len() - 1 {
            assert(w[i] == a);
            assert(w[i + 1] == q[1]);
            assert(adjacent(edges, k, q[0], q[1]));
        } else {
            let j = i - p.len() + 1;
            assert(w[i] == q[j] && w[i + 1] == q[j + 1]);
            assert(adjacent(edges, k, q[j], q[j + 1]));
        }
    }
    if q.len() == 1 {
        assert(w =~= p);
    } else {
        assert(w[w.len() - 1] == q[q.len() - 1]);
    }
}

/// Single-linkage labels are connectivity: after the first `k` edges, two
/// points share a component label exactly when those edges connect them.
/// With the components counted by their labels, the number of deaths is `n`
/// minus the number of connected components.
pub proof fn lemma_labels_are_connectivity(edges: Seq<KeyedEdge>, n: nat, k: int)
    requires
        n >= 1,
        0 <= k <= edges.len(),
        edges_within(edges, n),
    ensures
        forall|x: int, y: int| 0 <= x < n && 0 <= y < n ==>
            (merges_after(edges, n, k).labels[x] == merges_after(edges, n, k).labels[y]
                <==> #[trigger] connected(edges, k, x, y)),
        merges_after(edges, n, k).deaths.len() == n - merges_after(edges, n, k).labels.to_set().len(),
    decreases k,
{
    lemma_merges_invariant(edges, n, k);
    let s = merges_after(edges, n, k);
    assert forall|x: int, y: int| 0 <= x < n && 0 <= y < n && #[trigger] connected(edges, k, x, y) implies
        s.labels[x] == s.labels[y] by {
        let w = choose|w: Seq<int>| #[trigger] is_walk(edges, k, w, x, y);
        lemma_walk_labels(edges, n, k, w, x, y, w.len() - 1);
    }
    if k == 0 {
        assert forall|x: int, y: int| 0 <= x < n && 0 <= y < n && s.labels[x] == s.labels[y] implies
            #[trigger] connected(edges, k, x, y) by {
            assert(is_walk(edges, k, seq![x], x, y));
        }
    } else {
        lemma_labels_are_connectivity(edges, n, k - 1);
        lemma_merges_invariant(edges, n, k - 1);
        let p = merges_after(edges, n, k - 1);
        let e = edges[k - 1];
        let u = e.1 as int;
        let v = e.2 as int;
        assert(edges[k - 1].1 < n && edges[k - 1].2 < n);
        assert(adjacent(edges, k, u, v)) by {
            assert(edges[k - 1].1 == u && edges[k - 1].2 == v);
        }
        assert(adjacent(edges, k, v, u)) by {
            assert(edges[k - 1].1 == u && edges[k - 1].2 == v);
        }
        let uv = seq![u, v];
        let vu = seq![v, u];
        assert(is_walk(edges, k, uv, u, v));
        assert(is_walk(edges, k, vu, v, u));
        assert forall|x: int, y: int| 0 <= x < n && 0 <= y < n && s.labels[x] == s.labels[y] implies
            #[trigger] connected(edges, k, x, y) by {
            if p.labels[x] == p.labels[y] {
                assert(connected(edges, k - 1, x, y));
                let w = choose|w: Seq<int>| #[trigger] is_walk(edges, k - 1, w, x, y);
                lemma_walk_more_edges(edges, k - 1, k, w, x, y);
            } else {
                // The step merged the component of u into that of v.
                assert(!(p.components <= 1 || p.labels[u] == p.labels[v])) by {
                    if p.components <= 1 {
                        assert(p.labels.to_set().len() == 1);
                        assert(p.labels.to_set().contains(p.labels[x]));
                        assert(p.labels.to_set().contains(p.labels[y]));
                        Set::lemma_is_singleton(p.labels.to_set());
                    }
                }
                let lu = p.labels[u];
                let lv = p.labels[v];
                assert(s.labels == relabel(p.labels, lu, lv));
                let (a, b) = if p.labels[x] == lu { (u, v) } else { (v, u) };
                assert(p.labels[x] == p.labels[a]);
                assert(p.labels[y] == p.labels[b]);
                assert(connected(edges, k - 1, x, a));
                assert(connected(edges, k - 1, b, y));
                let w1 = choose|w: Seq<int>| #[trigger] is_walk(edges, k - 1, w, x, a);
                let w2 = choose|w: Seq<int>| #[trigger] is_walk(edges, k - 1, w, b, y);
                lemma_walk_more_edges(edges, k - 1, k, w1, x, a);
                lemma_walk_more_edges(edges, k - 1, k, w2, b, y);
                let ab = if a == u { uv } else { vu };
                assert(is_walk(edges, k, ab, a, b));
                lemma_walk_join(edges, k, w1, ab, x, a, b);
                lemma_walk_join(edges, k, w1 + ab.skip(1), w2, x, b, y);
                assert(is_walk(edges, k, (w1 + ab.skip(1)) + w2.skip(1), x, y));
            }
        }
    }
}

/// The merging edges among the first `k` edges, in the order they merged.
pub open spec fn merge_edges(edges: Seq<KeyedEdge>, n: nat, k: int) -> Seq<KeyedEdge>
    decreases k,
{
    if k <= 0 {
        Seq::empty()
    } else {
        let p = merges_after(edges, n, k - 1);
        let e = edges[k - 1];
        if p.components <= 1 || p.labels[e.1 as int] == p.labels[e.2 as int] {
            merge_edges(edges, n, k - 1)
        } else {
            merge_edges(edges, n, k - 1).push(e)
        }
    }
}

/// The merging edges record the deaths: one per death, with its key, each
/// one of the edges taken; earlier merging edges stay in place.
pub proof fn lemma_merge_edges(edges: Seq<KeyedEdge>, n: nat, k: int)
    requires
        n >= 1,
        0 <= k <= edges.len(),
        edges_within(edges, n),
    ensures
        merge_edges(edges, n, k).len() == merges_after(edges, n, k).deaths.len(),
        forall|t: int| 0 <= t < merge_edges(edges, n, k).len() ==>
            (#[trigger] merge_edges(edges, n, k)[t]).0 == merges_after(edges, n, k).deaths[t],
        forall|t: int| 0 <= t < merge_edges(edges, n, k).len() ==> exists|e: int|
            0 <= e < k && #[trigger] merge_edges(edges, n, k)[t] == edges[e],
    decreases k,
{
    if k > 0 {
        lemma_merge_edges(edges, n, k - 1);
        let me = merge_edges(edges, n, k);
        let prev = merge_edges(edges, n, k - 1);
        assert forall|t: int| 0 <= t < me.len() implies exists|e: int| 0 <= e < k && #[trigger] me[t] == edges[e] by {
            if t < prev.len() {
                assert(me[t] == prev[t]);
                let e = choose|e: int| 0 <= e < k - 1 && #[trigger] prev[t] == edges[e];
                assert(me[t] == edges[e]);
            } else {
                assert(me[t] == edges[k - 1]);
            }
        }
    }
}

/// Merging edges found after `j` edges are still the first merging edges
/// after `k >= j` edges.
pub proof fn lemma_merge_edges_prefix(edges: Seq<KeyedEdge>, n: nat, j: int, k: int)
    requires
        0 <= j <= k,
    ensures
        merge_edges(edges, n, j).len() <= merge_edges(edges, n, k).len(),
        forall|t: int| 0 <= t < merge_edges(edges, n, j).len() ==>
            #[trigger] merge_edges(edges, n, k)[t] == merge_edges(edges, n, j)[t],
    decreases k - j,
{
    if j < k {
        lemma_merge_edges_prefix(edges, n, j, k - 1);
    }
}

/// A walk along a sequence of edges is a walk along any extension of it.
proof fn lemma_walk_extended(s: Seq<KeyedEdge>, s2: Seq<KeyedEdge>, w: Seq<int>, x: int, y: int)
    requires
        s.len() <= s2.len(),
        forall|t: int| 0 <= t < s.len() ==> s2[t] == s[t],
        is_walk(s, s.len() as int, w, x, y),
    ensures
        is_walk(s2, s2.len() as int, w, x, y),
{
    assert forall|i: int| 0 <= i < w.len() - 1 implies adjacent(s2, s2.len() as int, #[trigger] w[i], w[i + 1]) by {
        assert(adjacent(s, s.len() as int, w[i], w[i + 1]));
        let e = choose|e: int|
            0 <= e < s.len() && ((#[trigger] s[e]).1 == w[i] && s[e].2 == w[i + 1] || s[e].1 == w[i + 1] && s[e].2 == w[i]);
        assert(s2[e] == s[e]);
    }
}

proof fn lemma_merge_walk_labels(edges: Seq<KeyedEdge>, n: nat, k: int, w: Seq<int>, x: int, y: int, i: int)
    requires
        n >= 1,
        0 <= k <= edges.len(),
        edges_within(edges, n),
        is_walk(merge_edges(edges, n, k), merge_edges(edges, n, k).len() as int, w, x, y),
        0 <= x < n,
        0 <= i < w.len(),
    ensures
        0 <= w[i] < n,
        merges_after(edges, n, k).labels[w[i]] == merges_after(edges, n, k).labels[x],
    decreases i,
{
    if i > 0 {
        lemma_merge_walk_labels(edges, n, k, w, x, y, i - 1);
        lemma_merges_invariant(edges, n, k);
        lemma_merge_edges(edges, n, k);
        let me = merge_edges(edges, n, k);
        assert(adjacent(me, me.len() as int, w[i - 1], w[i]));
        let t = choose|t: int|
            0 <= t < me.len() && ((#[trigger] me[t]).1 == w[i - 1] && me[t].2 == w[i] || me[t].1 == w[i] && me[t].2 == w[i - 1]);
        let e = choose|e: int| 0 <= e < k && #[trigger] me[t] == edges[e];
        assert(edges[e].1 < n && edges[e].2 < n);
    }
}

/// Single-linkage components are those of the merging edges alone: after
/// the first `k` edges, two points share a label exactly when the merging
/// edges so far connect them.
pub proof fn lemma_labels_are_merge_connectivity(edges: Seq<KeyedEdge>, n: nat, k: int)
    requires
        n >= 1,
        0 <= k <= edges.len(),
        edges_within(edges, n),
    ensures
        forall|x: int, y: int| 0 <= x < n && 0 <= y < n ==>
            (merges_after(edges, n, k).labels[x] == merges_after(edges, n, k).labels[y]
                <==> #[trigger] connected(merge_edges(edges, n, k), merge_edges(edges, n, k).len() as int, x, y)),
    decreases k,
{
    lemma_merges_invariant(edges, n, k);
    let s = merges_after(edges, n, k);
    let me = merge_edges(edges, n, k);
    assert forall|x: int, y: int| 0 <= x < n && 0 <= y < n && #[trigger] connected(me, me.len() as int, x, y) implies
        s.labels[x] == s.labels[y] by {
        let w = choose|w: Seq<int>| #[trigger] is_walk(me, me.len() as int, w, x, y);
        lemma_merge_walk_labels(edges, n, k, w, x, y, w.len() - 1);
    }
    if k == 0 {
        assert forall|x: int, y: int| 0 <= x < n && 0 <= y < n && s.labels[x] == s.labels[y] implies
            #[trigger] connected(me, me.len() as int, x, y) by {
            assert(is_walk(me, me.len() as int, seq![x], x, y));
        }
    } else {
        lemma_labels_are_merge_connectivity(edges, n, k - 1);
        lemma_merges_invariant(edges, n, k - 1);
        let p = merges_after(edges, n, k - 1);
        let pm = merge_edges(edges, n, k - 1);
        let e = edges[k - 1];
        let u = e.1 as int;
        let v = e.2 as int;
        assert(edges[k - 1].1 < n && edges[k - 1].2 < n);
        assert forall|x: int, y: int| 0 <= x < n && 0 <= y < n && s.labels[x] == s.labels[y] implies
            #[trigger] connected(me, me.len() as int, x, y) by {
            if p.components <= 1 || p.labels[u] == p.labels[v] {
                assert(me == pm);
                assert(s == p);
                assert(connected(pm, pm.len() as int, x, y));
            } else {
                assert(me == pm.push(e));
                lemma_merge_edges_prefix(edges, n, k - 1, k);
                let last = me.len() - 1;
                assert(me[last] == e);
                assert(adjacent(me, me.len() as int, u, v));
                assert(adjacent(me, me.len() as int, v, u));
                let uv = seq![u, v];
                let vu = seq![v, u];
                assert(is_walk(me, me.len() as int, uv, u, v));
                assert(is_walk(me, me.len() as int, vu, v, u));
                let lu = p.labels[u];
                let lv = p.labels[v];
                assert(s.labels == relabel(p.labels, lu, lv));
                if p.labels[x] == p.labels[y] {
                    assert(connected(pm, pm.len() as int, x, y));
                    let w = choose|w: Seq<int>| #[trigger] is_walk(pm, pm.len() as int, w, x, y);
                    lemma_walk_extended(pm, me, w, x, y);
                } else {
                    let (a, b) = if p.labels[x] == lu { (u, v) } else { (v, u) };
                    assert(p.labels[x] == p.labels[a]);
                    assert(p.labels[y] == p.labels[b]);
                    assert(connected(pm, pm.len() as int, x, a));
                    assert(connected(pm, pm.len() as int, b, y));
                    let w1 = choose|w: Seq<int>| #[trigger] is_walk(pm, pm.len() as int, w, x, a);
                    let w2 = choose|w: Seq<int>| #[trigger] is_walk(pm, pm.len() as int, w, b, y);
                    lemma_walk_extended(pm, me, w1, x, a);
                    lemma_walk_extended(pm, me, w2, b, y);
                    let ab = if a == u { uv } else { vu };
                    assert(is_walk(me, me.len() as int, ab, a, b));
                    lemma_walk_join(me, me.len() as int, w1, ab, x, a, b);
                    lemma_walk_join(me, me.len() as int, w1 + ab.skip(1), w2, x, b, y);
                    assert(is_walk(me, me.len() as int, (w1 + ab.skip(1)) + w2.skip(1), x, y));
                }
            }
        }
    }
}

} // verus!
