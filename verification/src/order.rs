//! Stable sorting by order keys.
//!
//! A stable sort of items by key places item `a` before item `b` exactly when
//! `a`'s key is smaller, or the keys are equal and `a` came first. The result
//! is returned as the sequence of input positions.

use vstd::prelude::*;

verus! {

/// Item `a` comes before item `b` in a stable ascending sort by `keys`.
pub open spec fn key_before(keys: Seq<u64>, a: int, b: int) -> bool {
    keys[a] < keys[b] || (keys[a] == keys[b] && a < b)
}

/// `order` lists every position of `keys` once, in stable ascending key order.
pub open spec fn is_stable_order(keys: Seq<u64>, order: Seq<usize>) -> bool {
    &&& order.len() == keys.len()
    &&& forall|k: int| 0 <= k < order.len() ==> (#[trigger] order[k] as int) < keys.len()
    &&& forall|i: int| 0 <= i < keys.len() ==> #[trigger] order.contains(i as usize)
    &&& forall|a: int, b: int|
        0 <= a < b < order.len() ==> key_before(keys, #[trigger] order[a] as int, #[trigger] order[b] as int)
}

/// The stable ascending order of `keys` (it exists and is unique, see
/// `stable_order` and `lemma_stable_order_unique`).
pub open spec fn stable_order_of(keys: Seq<u64>) -> Seq<usize> {
    choose|o: Seq<usize>| is_stable_order(keys, o)
}

/// Keys reflected so that ascending order on them is descending order on `keys`.
pub open spec fn reversed_keys(keys: Seq<u64>) -> Seq<u64> {
    keys.map_values(|k: u64| (u64::MAX - k) as u64)
}

/// `run` is a strictly key-ordered listing of exactly the positions `lo..hi`.
spec fn is_sorted_run(keys: Seq<u64>, run: Seq<usize>, lo: int, hi: int) -> bool {
    &&& run.len() == hi - lo
    &&& forall|k: int| 0 <= k < run.len() ==> lo <= #[trigger] run[k] < hi
    &&& forall|x: int| lo <= x < hi ==> #[trigger] run.contains(x as usize)
    &&& forall|a: int, b: int|
        0 <= a < b < run.len() ==> key_before(keys, #[trigger] run[a] as int, #[trigger] run[b] as int)
}

spec fn strictly_ordered(keys: Seq<u64>, s: Seq<usize>) -> bool {
    &&& forall|k: int| 0 <= k < s.len() ==> (#[trigger] s[k] as int) < keys.len()
    &&& forall|a: int, b: int|
        0 <= a < b < s.len() ==> key_before(keys, #[trigger] s[a] as int, #[trigger] s[b] as int)
}

fn before(keys: &Vec<u64>, a: usize, b: usize) -> (r: bool)
    requires
        a < keys.len(),
        b < keys.len(),
    ensures
        r == key_before(keys@, a as int, b as int),
{
    keys[a] < keys[b] || (keys[a] == keys[b] && a < b)
}

/// Merges two strictly ordered, disjoint runs.
fn merge(keys: &Vec<u64>, left: &Vec<usize>, right: &Vec<usize>) -> (out: Vec<usize>)
    requires
        strictly_ordered(keys@, left@),
        strictly_ordered(keys@, right@),
        forall|p: int, q: int| 0 <= p < left.len() && 0 <= q < right.len() ==> left[p] != right[q],
    ensures
        strictly_ordered(keys@, out@),
        out.len() == left.len() + right.len(),
        forall|k: int|
            0 <= k < out.len() ==> left@.contains(#[trigger] out[k]) || right@.contains(out[k]),
        forall|p: int| 0 <= p < left.len() ==> out@.contains(#[trigger] left[p]),
        forall|q: int| 0 <= q < right.len() ==> out@.contains(#[trigger] right[q]),
{
    let mut out: Vec<usize> = Vec::new();
    let mut i: usize = 0;
    let mut j: usize = 0;
    while i < left.len() || j < right.len()
        invariant
            strictly_ordered(keys@, left@),
            strictly_ordered(keys@, right@),
            forall|p: int, q: int| 0 <= p < left.len() && 0 <= q < right.len() ==> left[p] != right[q],
            i <= left.len(),
            j <= right.len(),
            out.len() == i + j,
            strictly_ordered(keys@, out@),
            forall|k: int|
                0 <= k < out.len() ==> left@.contains(#[trigger] out[k]) || right@.contains(out[k]),
            forall|p: int| 0 <= p < i ==> out@.contains(#[trigger] left[p]),
            forall|q: int| 0 <= q < j ==> out@.contains(#[trigger] right[q]),
            out.len() > 0 && i < left.len() ==> key_before(keys@, out[out.len() - 1] as int, left[i as int] as int),
            out.len() > 0 && j < right.len() ==> key_before(keys@, out[out.len() - 1] as int, right[j as int] as int),
        decreases left.len() + right.len() - i - j,
    {
        let take_left = if i < left.len() && j < right.len() {
            before(keys, left[i], right[j])
        } else {
            i < left.len()
        };
        let ghost old_out = out@;
        if take_left {
            let x = left[i];
            out.push(x);
            proof {
                assert(left@.contains(x));
                assert forall|p: int| 0 <= p < i + 1 implies out@.contains(#[trigger] left[p]) by {
                    if p == i {
                        assert(out@[out.len() - 1] == x);
                    } else {
                        assert(old_out.contains(left[p]));
                        let w = choose|w: int| 0 <= w < old_out.len() && old_out[w] == left[p];
                        assert(out@[w] == left[p]);
                    }
                }
                assert forall|q: int| 0 <= q < j implies out@.contains(#[trigger] right[q]) by {
                    assert(old_out.contains(right[q]));
                    let w = choose|w: int| 0 <= w < old_out.len() && old_out[w] == right[q];
                    assert(out@[w] == right[q]);
                }
                if i + 1 < left.len() {
                    assert(key_before(keys@, left[i as int] as int, left[i + 1] as int));
                }
            }
            i = i + 1;
        } else {
            let y = right[j];
            out.push(y);
            proof {
                assert(right@.contains(y));
                if i < left.len() {
                    assert(left[i as int] != right[j as int]);
                    assert(key_before(keys@, right[j as int] as int, left[i as int] as int));
                }
                assert forall|q: int| 0 <= q < j + 1 implies out@.contains(#[trigger] right[q]) by {
                    if q == j {
                        assert(out@[out.len() - 1] == y);
                    } else {
                        assert(old_out.contains(right[q]));
                        let w = choose|w: int| 0 <= w < old_out.len() && old_out[w] == right[q];
                        assert(out@[w] == right[q]);
                    }
                }
                assert forall|p: int| 0 <= p < i implies out@.contains(#[trigger] left[p]) by {
                    assert(old_out.contains(left[p]));
                    let w = choose|w: int| 0 <= w < old_out.len() && old_out[w] == left[p];
                    assert(out@[w] == left[p]);
                }
                if j + 1 < right.len() {
                    assert(key_before(keys@, right[j as int] as int, right[j + 1] as int));
                }
            }
            j = j + 1;
        }
    }
    out
}

/// Sorts the positions `lo..hi` stably by key.
fn sort_range(keys: &Vec<u64>, lo: usize, hi: usize) -> (run: Vec<usize>)
    requires
        lo <= hi <= keys.len(),
    ensures
        is_sorted_run(keys@, run@, lo as int, hi as int),
    decreases hi - lo,
{
    if hi - lo == 0 {
        let run: Vec<usize> = Vec::new();
        return run;
    }
    if hi - lo == 1 {
        let mut run: Vec<usize> = Vec::new();
        run.push(lo);
        assert(run@[0] == lo);
        return run;
    }
    let mid = lo + (hi - lo) / 2;
    let left = sort_range(keys, lo, mid);
    let right = sort_range(keys, mid, hi);
    let run = merge(keys, &left, &right);
    proof {
        assert forall|k: int| 0 <= k < run.len() implies lo <= #[trigger] run[k] < hi by {
            if left@.contains(run[k]) {
                let w = choose|w: int| 0 <= w < left.len() && left[w] == run[k];
                assert(lo <= left[w] < mid);
            } else {
                let w = choose|w: int| 0 <= w < right.len() && right[w] == run[k];
                assert(mid <= right[w] < hi);
            }
        }
        assert forall|x: int| lo <= x < hi implies #[trigger] run@.contains(x as usize) by {
            if x < mid {
                assert(left@.contains(x as usize));
                let w = choose|w: int| 0 <= w < left.len() && left[w] == x as usize;
                assert(run@.contains(left[w]));
            } else {
                assert(right@.contains(x as usize));
                let w = choose|w: int| 0 <= w < right.len() && right[w] == x as usize;
                assert(run@.contains(right[w]));
            }
        }
    }
    run
}

/// The positions of `keys` in stable ascending key order.
pub fn stable_order(keys: &Vec<u64>) -> (order: Vec<usize>)
    ensures
        is_stable_order(keys@, order@),
        order@ == stable_order_of(keys@),
{
    let order = sort_range(keys, 0, keys.len());
    proof {
        assert(is_stable_order(keys@, order@));
        let other = stable_order_of(keys@);
        assert(is_stable_order(keys@, other));
        lemma_stable_order_unique(keys@, order@, other);
    }
    order
}

/// The positions of `keys` in stable descending key order: larger keys first,
/// equal keys in input order.
pub fn stable_order_descending(keys: &Vec<u64>) -> (order: Vec<usize>)
    ensures
        order@ == stable_order_of(reversed_keys(keys@)),
        order.len() == keys.len(),
        forall|i: int| 0 <= i < keys.len() ==> #[trigger] order@.contains(i as usize),
        forall|k: int| 0 <= k < order.len() ==> (#[trigger] order[k] as int) < keys.len(),
        forall|a: int, b: int|
            0 <= a < b < order.len() ==> ({
                let x = #[trigger] order[a] as int;
                let y = #[trigger] order[b] as int;
                keys[x] > keys[y] || (keys[x] == keys[y] && x < y)
            }),
{
    let mut reflected: Vec<u64> = Vec::new();
    let mut i: usize = 0;
    while i < keys.len()
        invariant
            i <= keys.len(),
            reflected@ == reversed_keys(keys@).subrange(0, i as int),
        decreases keys.len() - i,
    {
        reflected.push(u64::MAX - keys[i]);
        i = i + 1;
    }
    assert(reflected@ == reversed_keys(keys@));
    let order = stable_order(&reflected);
    proof {
        assert forall|a: int, b: int| 0 <= a < b < order.len() implies ({
            let x = #[trigger] order[a] as int;
            let y = #[trigger] order[b] as int;
            keys[x] > keys[y] || (keys[x] == keys[y] && x < y)
        }) by {
            assert(key_before(reflected@, order[a] as int, order[b] as int));
        }
    }
    order
}

/// The keys, largest first.
pub fn sorted_descending(keys: &Vec<u64>) -> (sorted: Vec<u64>)
    ensures
        sorted.len() == keys.len(),
        forall|k: int| 0 <= k < sorted.len() ==> #[trigger] sorted[k] == keys[stable_order_of(reversed_keys(keys@))[k] as int],
        forall|a: int, b: int| 0 <= a < b < sorted.len() ==> #[trigger] sorted[a] >= #[trigger] sorted[b],
{
    let order = stable_order_descending(keys);
    let mut sorted: Vec<u64> = Vec::new();
    let mut k: usize = 0;
    while k < order.len()
        invariant
            order.len() == keys.len(),
            order@ == stable_order_of(reversed_keys(keys@)),
            forall|t: int| 0 <= t < order.len() ==> (#[trigger] order[t] as int) < keys.len(),
            forall|a: int, b: int|
                0 <= a < b < order.len() ==> ({
                    let x = #[trigger] order[a] as int;
                    let y = #[trigger] order[b] as int;
                    keys[x] > keys[y] || (keys[x] == keys[y] && x < y)
                }),
            k <= order.len(),
            sorted.len() == k,
            forall|t: int| 0 <= t < k ==> #[trigger] sorted[t] == keys[order[t] as int],
        decreases order.len() - k,
    {
        sorted.push(keys[order[k]]);
        k = k + 1;
    }
    proof {
        assert forall|a: int, b: int| 0 <= a < b < sorted.len() implies #[trigger] sorted[a] >= #[trigger] sorted[b] by {
            assert(sorted[a] == keys[order[a] as int]);
            assert(sorted[b] == keys[order[b] as int]);
        }
    }
    sorted
}

/// First position at or after `a` whose entry does not come before `x`.
spec fn first_not_before(keys: Seq<u64>, o: Seq<usize>, x: int, a: int) -> int
    decreases o.len() - a,
{
    if a >= o.len() {
        a
    } else if !key_before(keys, o[a] as int, x) {
        a
    } else {
        first_not_before(keys, o, x, a + 1)
    }
}

proof fn lemma_first_not_before(keys: Seq<u64>, o: Seq<usize>, x: int, a: int)
    requires
        0 <= a <= o.len(),
    ensures
        a <= first_not_before(keys, o, x, a) <= o.len(),
        forall|b: int| a <= b < first_not_before(keys, o, x, a) ==> key_before(keys, #[trigger] o[b] as int, x),
        first_not_before(keys, o, x, a) < o.len() ==> !key_before(keys, o[first_not_before(keys, o, x, a)] as int, x),
    decreases o.len() - a,
{
    if a < o.len() && key_before(keys, o[a] as int, x) {
        lemma_first_not_before(keys, o, x, a + 1);
    }
}

/// Every key sequence whose positions fit in `usize` has a stable order.
pub proof fn lemma_stable_order_exists(keys: Seq<u64>)
    requires
        keys.len() <= usize::MAX,
    ensures
        is_stable_order(keys, stable_order_of(keys)),
    decreases keys.len(),
{
    if keys.len() == 0 {
        assert(is_stable_order(keys, Seq::<usize>::empty()));
    } else {
        let m = keys.len() - 1;
        let prefix = keys.subrange(0, m as int);
        lemma_stable_order_exists(prefix);
        let o = stable_order_of(prefix);
        let x = m as int;
        lemma_first_not_before(keys, o, x, 0);
        let p = first_not_before(keys, o, x, 0);
        assert forall|a: int| 0 <= a < o.len() implies (#[trigger] o[a] as int) < m by {}
        assert forall|a: int, b: int| 0 <= a < b < o.len() implies key_before(keys, #[trigger] o[a] as int, #[trigger] o[b] as int) by {
            assert(key_before(prefix, o[a] as int, o[b] as int));
        }
        assert forall|b: int| p <= b < o.len() implies key_before(keys, x, #[trigger] o[b] as int) by {
            if b > p {
                assert(key_before(keys, o[p] as int, o[b] as int));
            }
        }
        let r = o.insert(p, x as usize);
        assert(r.len() == keys.len());
        assert forall|k: int| 0 <= k < r.len() implies (#[trigger] r[k] as int) < keys.len() by {
            if k < p {
                assert(r[k] == o[k]);
            } else if k > p {
                assert(r[k] == o[k - 1]);
            }
        }
        assert forall|i: int| 0 <= i < keys.len() implies #[trigger] r.contains(i as usize) by {
            if i == x {
                assert(r[p] == x as usize);
            } else {
                assert(o.contains(i as usize));
                let w = choose|w: int| 0 <= w < o.len() && o[w] == i as usize;
                if w < p {
                    assert(r[w] == o[w]);
                } else {
                    assert(r[w + 1] == o[w]);
                }
            }
        }
        assert forall|a: int, b: int| 0 <= a < b < r.len() implies key_before(keys, #[trigger] r[a] as int, #[trigger] r[b] as int) by {
            if b < p {
                assert(r[a] == o[a] && r[b] == o[b]);
            } else if b == p {
                assert(r[a] == o[a]);
            } else if a < p {
                assert(r[a] == o[a] && r[b] == o[b - 1]);
                assert(key_before(keys, x, o[b - 1] as int));
            } else if a == p {
                assert(r[b] == o[b - 1]);
            } else {
                assert(r[a] == o[a - 1] && r[b] == o[b - 1]);
            }
        }
        assert(is_stable_order(keys, r));
    }
}

/// Two stable orders of the same keys agree on their first `k` entries.
proof fn lemma_stable_prefix_equal(keys: Seq<u64>, o1: Seq<usize>, o2: Seq<usize>, k: int)
    requires
        is_stable_order(keys, o1),
        is_stable_order(keys, o2),
        0 <= k <= o1.len(),
    ensures
        forall|j: int| 0 <= j < k ==> o1[j] == o2[j],
    decreases k,
{
    if k > 0 {
        lemma_stable_prefix_equal(keys, o1, o2, k - 1);
        let c = k - 1;
        let x = o1[c];
        let y = o2[c];
        if x != y {
            assert((x as int) < keys.len());
            assert(o2.contains((x as int) as usize));
            let p = choose|p: int| 0 <= p < o2.len() && o2[p] == x;
            assert((y as int) < keys.len());
            assert(o1.contains((y as int) as usize));
            let q = choose|q: int| 0 <= q < o1.len() && o1[q] == y;
            if p < c {
                assert(o1[p] == x);
                assert(key_before(keys, o1[p] as int, o1[c] as int));
            }
            if q < c {
                assert(o2[q] == y);
                assert(key_before(keys, o2[q] as int, o2[c] as int));
            }
            assert(p > c && q > c);
            assert(key_before(keys, o2[c] as int, o2[p] as int));
            assert(key_before(keys, o1[c] as int, o1[q] as int));
        }
    }
}

/// A stable order of a key sequence is unique.
pub proof fn lemma_stable_order_unique(keys: Seq<u64>, o1: Seq<usize>, o2: Seq<usize>)
    requires
        is_stable_order(keys, o1),
        is_stable_order(keys, o2),
    ensures
        o1 == o2,
{
    lemma_stable_prefix_equal(keys, o1, o2, o1.len() as int);
    assert(o1 =~= o2);
}

} // verus!
