# lau-persistence-experiment

Persistence diagrams of agent belief trajectories, with a verified
combinatorial core.

- `src/` is the library, verified with Verus. Filtration values (distances,
  births, deaths, scores) enter it as order keys: `u64` values whose order is
  the order of the values. On these keys, held in an nalgebra matrix, it
  computes the persistence diagram of a point cloud (single-linkage merging
  with a union-find forest for dimension 0, the most persistent triangle
  loops for dimension 1), sliding-window diagrams,
  Betti numbers and Euler characteristics, stable sorting and ranking,
  similarity clustering, the selections used by the statistics, and the
  decision rules of the analyses (spikes and oscillations of complexity,
  robustness categories and predictions, falsification verdicts and the
  tally of a sweep, the birth and death events of a diagram). The
  contracts state each result exactly. Laws proved besides the contracts:
  - `persistence::lemma_h0_merges`: `n - 1` merges at nondecreasing pair
    distances and one component that never dies;
  - `persistence::lemma_h0_minimum_spanning_tree`: the deaths are the keys
    of `n - 1` merging edges that join any two points by edges no longer
    than the edge between them (the minimum-spanning-tree path property);
  - `linkage::lemma_labels_are_connectivity` and
    `lemma_labels_are_merge_connectivity`: single-linkage components are
    exactly the connected points;
  - `betti::lemma_betti0_counts_components`: Betti-0 counts those components;
  - `birth_death::lemma_births_match_deaths`: as many births as deaths;
  - `comparison::lemma_groups_split` and `lemma_groups_led`: similarity
    groups split the agents, each led by its first agent;
  - `order::lemma_stable_order_exists` and `lemma_stable_order_unique`.
  `compute_persistence` also states the loop budget, the choice of the most
  persistent loops and that loops are born and die at pair distances.
- `app/` is the floating-point side: belief states and trajectories,
  distances, persistence statistics, landscapes, complexity, robustness,
  comparison and falsification sweeps, serialization. It turns values into
  order keys and back (`app/keys.rs`) and calls the library for every
  decision that is made on the order of values.
- The distance keys are held in an `nalgebra::DMatrix<u64>` behind three
  trusted calls (`from_row_slice`, `nrows`, indexing) in `src/matrix.rs`.
- `tests/` exercises the library on concrete inputs.
