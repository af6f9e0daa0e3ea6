//! Seeded perturbations of a graph: vocabulary subsamples, edge removals and
//! induced subgraphs, plus the seeded shuffles of calibration and null
//! controls.
use vstd::prelude::*;
use crate::graph::{Edge, Graph};
use crate::order::{index_range, is_permutation, lemma_same_multiset_permutation, nondecreasing, sort_values};
use crate::random::{shuffled, state_after, xoshiro_state, SeededRng};
use crate::tally::occurrences;

verus! {

/// `s` is strictly increasing.
pub open spec fn increasing(s: Seq<usize>) -> bool {
    forall|a: int, b: int| 0 <= a < b < s.len() ==> s[a] < s[b]
}

proof fn lemma_sorted_distinct_increasing(s: Seq<usize>)
    requires
        nondecreasing(s),
        s.no_duplicates(),
    ensures
        increasing(s),
{
    assert forall|a: int, b: int| 0 <= a < b < s.len() implies s[a] < s[b] by {
        assert(s[a] <= s[b]);
        assert(s[a] != s[b]);
    }
}

/// `0, 1, ..., n-1` as a sequence.
pub open spec fn range_seq(n: nat) -> Seq<usize> {
    Seq::new(n, |k: int| k as usize)
}

/// The order of `0..n` that a generator seeded with `seed` draws.
pub open spec fn seeded_permutation(n: nat, seed: u64) -> Seq<usize> {
    shuffled(range_seq(n), xoshiro_state(seed))
}

/// The positions a subsample of `keep` of `n` tokens keeps: the first `keep`
/// of the seeded order (all of them when `keep >= n`).
pub open spec fn subsample_chosen(n: nat, keep: nat, seed: u64, i: usize) -> bool {
    seeded_permutation(n, seed).take(if keep < n { keep as int } else { n as int }).contains(i)
}

/// A seeded shuffle of `0..n`.
fn shuffled_range(n: usize, seed: u64) -> (result: Vec<usize>)
    ensures
        result@ == seeded_permutation(n as nat, seed),
        is_permutation(result@, n as int),
{
    let mut rng = SeededRng::new(seed);
    let mut order = index_range(n);
    let ghost start = order@;
    rng.shuffle(&mut order);
    proof {
        lemma_same_multiset_permutation(start, order@, n as int);
    }
    order
}

/// The vocabulary kept by a subsample: `keep` positions of `0..n` drawn with
/// the seeded generator, in increasing order.
pub fn subsample_indices(n: usize, keep: usize, seed: u64) -> (result: Vec<usize>)
    ensures
        result@.len() == if keep < n { keep as int } else { n as int },
        increasing(result@),
        is_permutation(seeded_permutation(n as nat, seed), n as int),
        forall|i: usize| result@.contains(i) <==> subsample_chosen(n as nat, keep as nat, seed, i),
{
    let mut order = shuffled_range(n, seed);
    let ghost p = order@;
    order.truncate(keep);
    let ghost chosen = order@;
    let kept = sort_values(order);
    proof {
        broadcast use vstd::seq_lib::group_to_multiset_ensures;
        let m = chosen.len() as int;
        assert(chosen =~= p.take(m));
        assert(chosen.no_duplicates());
        chosen.lemma_multiset_has_no_duplicates();
        kept@.lemma_multiset_has_no_duplicates_conv();
        lemma_sorted_distinct_increasing(kept@);
        assert forall|i: usize| kept@.contains(i) <==> p.take(kept@.len() as int).contains(i) by {
            assert(kept@.to_multiset().count(i) == chosen.to_multiset().count(i));
        }
        assert(is_permutation(p, n as int));
    }
    kept
}

/// How many flags are set.
pub open spec fn set_flags(s: Seq<bool>) -> nat
    decreases s.len(),
{
    if s.len() == 0 {
        0
    } else {
        set_flags(s.drop_last()) + if s.last() { 1nat } else { 0nat }
    }
}

proof fn lemma_set_flags_update(s: Seq<bool>, i: int)
    requires
        0 <= i < s.len(),
        !s[i],
    ensures
        set_flags(s.update(i, true)) == set_flags(s) + 1,
    decreases s.len(),
{
    let u = s.update(i, true);
    if i == s.len() - 1 {
        assert(u.drop_last() =~= s.drop_last());
    } else {
        assert(u.drop_last() =~= s.drop_last().update(i, true));
        lemma_set_flags_update(s.drop_last(), i);
    }
}

/// The edges that survive removing `remove` of them, drawn with the seeded
/// generator: the graph keeps its tokens and the surviving edges in their
/// order. Also returns the surviving edges' positions.
pub fn remove_edges(graph: &Graph, remove: usize, seed: u64) -> (result: (Graph, Vec<usize>))
    ensures
        result.0.tokens@.len() == graph.tokens@.len(),
        forall|i: int| 0 <= i < graph.tokens@.len() ==> (#[trigger] result.0.tokens@[i])@ == graph.tokens@[i]@,
        increasing(result.1@),
        result.0.edges@.len() == result.1@.len(),
        result.1@.len() == graph.edges@.len() - if remove < graph.edges@.len() { remove as int } else { graph.edges@.len() as int },
        forall|k: int| 0 <= k < result.1@.len() ==> #[trigger] result.1@[k] < graph.edges@.len()
            && result.0.edges@[k] == graph.edges@[result.1@[k] as int],
        is_permutation(seeded_permutation(graph.edges@.len(), seed), graph.edges@.len() as int),
        forall|e: usize| e < graph.edges@.len() ==> (result.1@.contains(e)
            <==> !subsample_chosen(graph.edges@.len(), remove as nat, seed, e)),
{
    let m = graph.edges.len();
    let order = shuffled_range(m, seed);
    let ghost p = order@;
    let cut = if remove < m { remove } else { m };
    let mut removed: Vec<bool> = Vec::new();
    let mut i: usize = 0;
    while i < m
        invariant
            i <= m,
            removed@.len() == i,
            forall|q: int| 0 <= q < i ==> !#[trigger] removed@[q],
            set_flags(removed@) == 0,
        decreases m - i,
    {
        let ghost before = removed@;
        removed.push(false);
        assert(removed@.drop_last() =~= before);
        i = i + 1;
    }
    let mut t: usize = 0;
    while t < cut
        invariant
            p == order@,
            is_permutation(p, m as int),
            cut <= m,
            t <= cut,
            removed@.len() == m,
            forall|e: int| 0 <= e < m ==> (#[trigger] removed@[e] <==> p.take(t as int).contains(e as usize)),
            set_flags(removed@) == t,
        decreases cut - t,
    {
        let e = order[t];
        proof {
            if p.take(t as int).contains(e) {
                let q = choose|q: int| 0 <= q < t && #[trigger] p.take(t as int)[q] == e;
                assert(p[q] == p[t as int]);
            }
            lemma_set_flags_update(removed@, e as int);
        }
        removed.set(e, true);
        proof {
            assert(p.take(t + 1) =~= p.take(t as int).push(e));
            assert forall|f: int| 0 <= f < m implies (#[trigger] removed@[f] <==> p.take(t + 1).contains(f as usize)) by {
                if f == e {
                    assert(p.take(t + 1)[t as int] == e);
                } else if p.take(t + 1).contains(f as usize) {
                    let q = choose|q: int| 0 <= q < t + 1 && #[trigger] p.take(t + 1)[q] == f as usize;
                    assert(p.take(t as int)[q] == f as usize);
                } else if p.take(t as int).contains(f as usize) {
                    let q = choose|q: int| 0 <= q < t && #[trigger] p.take(t as int)[q] == f as usize;
                    assert(p.take(t + 1)[q] == f as usize);
                }
            }
        }
        t = t + 1;
    }
    let mut tokens: Vec<String> = Vec::new();
    let mut x: usize = 0;
    while x < graph.tokens.len()
        invariant
            x <= graph.tokens@.len(),
            tokens@.len() == x,
            forall|q: int| 0 <= q < x ==> (#[trigger] tokens@[q])@ == graph.tokens@[q]@,
        decreases graph.tokens@.len() - x,
    {
        tokens.push(graph.tokens[x].clone());
        x = x + 1;
    }
    let mut edges: Vec<Edge> = Vec::new();
    let mut kept: Vec<usize> = Vec::new();
    let mut e: usize = 0;
    while e < m
        invariant
            m == graph.edges@.len(),
            removed@.len() == m,
            e <= m,
            edges@.len() == kept@.len(),
            increasing(kept@),
            forall|k: int| 0 <= k < kept@.len() ==> #[trigger] kept@[k] < e && edges@[k] == graph.edges@[kept@[k] as int],
            forall|f: usize| f < e ==> (kept@.contains(f) <==> !removed@[f as int]),
            kept@.len() + set_flags(removed@.take(e as int)) == e,
        decreases m - e,
    {
        let ghost before = kept@;
        assert(removed@.take(e + 1).drop_last() =~= removed@.take(e as int));
        if !removed[e] {
            edges.push(graph.edges[e]);
            kept.push(e);
            proof {
                assert forall|f: usize| f < e + 1 implies (kept@.contains(f) <==> !removed@[f as int]) by {
                    if f == e {
                        assert(kept@[kept@.len() - 1] == e);
                    } else {
                        if before.contains(f) {
                            let q = choose|q: int| 0 <= q < before.len() && #[trigger] before[q] == f;
                            assert(kept@[q] == f);
                        }
                        if kept@.contains(f) {
                            let q = choose|q: int| 0 <= q < kept@.len() && #[trigger] kept@[q] == f;
                            assert(before[q] == f);
                        }
                    }
                }
            }
        } else {
            proof {
                assert forall|f: usize| f < e + 1 implies (kept@.contains(f) <==> !removed@[f as int]) by {
                    if f == e && kept@.contains(f) {
                        let q = choose|q: int| 0 <= q < kept@.len() && #[trigger] kept@[q] == f;
                    }
                }
            }
        }
        e = e + 1;
    }
    assert(removed@.take(m as int) =~= removed@);
    (Graph { tokens, edges }, kept)
}

/// Where an old token lands in `indices`: its last position, as a map built
/// from them would keep it.
pub open spec fn new_position(indices: Seq<usize>, old: usize) -> Option<usize>
    decreases indices.len(),
{
    if indices.len() == 0 {
        None
    } else if indices.last() == old {
        Some((indices.len() - 1) as usize)
    } else {
        new_position(indices.drop_last(), old)
    }
}

impl Graph {
    /// The subgraph induced by the tokens at `indices`, renumbered by their
    /// position in `indices`; edges keep their order. Also returns the
    /// positions of the kept edges.
    pub fn induced(&self, indices: &Vec<usize>) -> (result: (Graph, Vec<usize>))
        requires
            forall|k: int| 0 <= k < indices@.len() ==> #[trigger] indices@[k] < self.tokens@.len(),
            self.edges_in_range(),
        ensures
            result.0.tokens@.len() == indices@.len(),
            forall|k: int| 0 <= k < indices@.len() ==> (#[trigger] result.0.tokens@[k])@ == self.tokens@[indices@[k] as int]@,
            increasing(result.1@),
            result.0.edges@.len() == result.1@.len(),
            forall|e: usize| e < self.edges@.len() ==> (result.1@.contains(e) <==>
                (new_position(indices@, self.edges@[e as int].u) is Some && new_position(indices@, self.edges@[e as int].v) is Some)),
            forall|k: int| 0 <= k < result.1@.len() ==> #[trigger] result.1@[k] < self.edges@.len()
                && Some(result.0.edges@[k].u) == new_position(indices@, self.edges@[result.1@[k] as int].u)
                && Some(result.0.edges@[k].v) == new_position(indices@, self.edges@[result.1@[k] as int].v),
    {
        let n = self.tokens.len();
        let mut position: Vec<Option<usize>> = Vec::new();
        let mut i: usize = 0;
        while i < n
            invariant
                i <= n,
                position@.len() == i,
                forall|q: int| 0 <= q < i ==> #[trigger] position@[q] is None,
            decreases n - i,
        {
            position.push(None);
            i = i + 1;
        }
        let mut tokens: Vec<String> = Vec::new();
        let mut k: usize = 0;
        while k < indices.len()
            invariant
                n == self.tokens@.len(),
                forall|q: int| 0 <= q < indices@.len() ==> #[trigger] indices@[q] < n,
                k <= indices@.len(),
                position@.len() == n,
                forall|old: int| 0 <= old < n ==> #[trigger] position@[old] == new_position(indices@.take(k as int), old as usize),
                tokens@.len() == k,
                forall|q: int| 0 <= q < k ==> (#[trigger] tokens@[q])@ == self.tokens@[indices@[q] as int]@,
            decreases indices@.len() - k,
        {
            let old = indices[k];
            position.set(old, Some(k));
            tokens.push(self.tokens[old].clone());
            proof {
                assert(indices@.take(k + 1).drop_last() =~= indices@.take(k as int));
            }
            k = k + 1;
        }
        proof {
            assert(indices@.take(indices@.len() as int) =~= indices@);
        }
        let m = self.edges.len();
        let mut edges: Vec<Edge> = Vec::new();
        let mut kept: Vec<usize> = Vec::new();
        let mut e: usize = 0;
        while e < m
            invariant
                n == self.tokens@.len(),
                m == self.edges@.len(),
                self.edges_in_range(),
                position@.len() == n,
                forall|old: int| 0 <= old < n ==> #[trigger] position@[old] == new_position(indices@, old as usize),
                e <= m,
                edges@.len() == kept@.len(),
                increasing(kept@),
                forall|q: int| 0 <= q < kept@.len() ==> #[trigger] kept@[q] < e
                    && Some(edges@[q].u) == new_position(indices@, self.edges@[kept@[q] as int].u)
                    && Some(edges@[q].v) == new_position(indices@, self.edges@[kept@[q] as int].v),
                forall|f: usize| f < e ==> (kept@.contains(f) <==>
                    (new_position(indices@, self.edges@[f as int].u) is Some && new_position(indices@, self.edges@[f as int].v) is Some)),
            decreases m - e,
        {
            let edge = self.edges[e];
            let ghost before = kept@;
            let ghost both = new_position(indices@, edge.u) is Some && new_position(indices@, edge.v) is Some;
            match (position[edge.u], position[edge.v]) {
                (Some(a), Some(b)) => {
                    edges.push(Edge { u: a, v: b });
                    kept.push(e);
                },
                _ => {},
            }
            proof {
                assert forall|f: usize| f < e + 1 implies (kept@.contains(f) <==>
                    (new_position(indices@, self.edges@[f as int].u) is Some && new_position(indices@, self.edges@[f as int].v) is Some)) by {
                    if f == e {
                        if both {
                            assert(kept@[kept@.len() - 1] == e);
                        } else if kept@.contains(f) {
                            let q = choose|q: int| 0 <= q < kept@.len() && #[trigger] kept@[q] == f;
                            assert(before[q] == f);
                        }
                    } else {
                        if before.contains(f) {
                            let q = choose|q: int| 0 <= q < before.len() && #[trigger] before[q] == f;
                            assert(kept@[q] == f);
                        }
                        if kept@.contains(f) {
                            let q = choose|q: int| 0 <= q < kept@.len() && #[trigger] kept@[q] == f;
                            if q < before.len() {
                                assert(before[q] == f);
                            }
                        }
                    }
                }
            }
            e = e + 1;
        }
        (Graph { tokens, edges }, kept)
    }
}

/// The solver order, the perturbation order and the generator state after
/// `r` resamples of a generator seeded with `seed`: each resample shuffles
/// the solver order and then the perturbation order, starting from the
/// orders and the state the previous one left.
pub open spec fn cohort_orders(solver_runs: nat, perturbation_runs: nat, seed: u64, r: nat) -> (Seq<usize>, Seq<usize>, Seq<u64>)
    decreases r,
{
    if r == 0 {
        (range_seq(solver_runs), range_seq(perturbation_runs), xoshiro_state(seed))
    } else {
        let (a, b, st) = cohort_orders(solver_runs, perturbation_runs, seed, (r - 1) as nat);
        let st1 = state_after(a.len(), st);
        (shuffled(a, st), shuffled(b, st1), state_after(b.len(), st1))
    }
}

/// Seeded cohort shuffles for calibration: for each resample, one generator
/// (seeded once) shuffles the solver runs and then the perturbation runs, the
/// two shuffles carrying over from one resample to the next.
pub fn cohort_shuffles(solver_runs: usize, perturbation_runs: usize, resamples: usize, seed: u64) -> (result: Vec<(Vec<usize>, Vec<usize>)>)
    ensures
        result@.len() == resamples,
        forall|r: int| 0 <= r < resamples ==> is_permutation((#[trigger] result@[r]).0@, solver_runs as int)
            && is_permutation(result@[r].1@, perturbation_runs as int),
        forall|r: int| 0 <= r < resamples ==> (#[trigger] result@[r]).0@ == cohort_orders(
            solver_runs as nat, perturbation_runs as nat, seed, (r + 1) as nat).0
            && result@[r].1@ == cohort_orders(solver_runs as nat, perturbation_runs as nat, seed, (r + 1) as nat).1,
{
    let mut rng = SeededRng::new(seed);
    let mut solver = index_range(solver_runs);
    let mut perturbation = index_range(perturbation_runs);
    let mut result: Vec<(Vec<usize>, Vec<usize>)> = Vec::new();
    let mut r: usize = 0;
    while r < resamples
        invariant
            r <= resamples,
            result@.len() == r,
            is_permutation(solver@, solver_runs as int),
            is_permutation(perturbation@, perturbation_runs as int),
            forall|q: int| 0 <= q < r ==> is_permutation((#[trigger] result@[q]).0@, solver_runs as int)
                && is_permutation(result@[q].1@, perturbation_runs as int),
            (solver@, perturbation@, rng@) == cohort_orders(solver_runs as nat, perturbation_runs as nat, seed, r as nat),
            forall|q: int| 0 <= q < r ==> (#[trigger] result@[q]).0@ == cohort_orders(
                solver_runs as nat, perturbation_runs as nat, seed, (q + 1) as nat).0
                && result@[q].1@ == cohort_orders(solver_runs as nat, perturbation_runs as nat, seed, (q + 1) as nat).1,
        decreases resamples - r,
    {
        let ghost s0 = solver@;
        let ghost p0 = perturbation@;
        rng.shuffle(&mut solver);
        rng.shuffle(&mut perturbation);
        proof {
            lemma_same_multiset_permutation(s0, solver@, solver_runs as int);
            lemma_same_multiset_permutation(p0, perturbation@, perturbation_runs as int);
        }
        let s_copy = copy_indices(&solver);
        let p_copy = copy_indices(&perturbation);
        result.push((s_copy, p_copy));
        r = r + 1;
    }
    result
}

fn copy_indices(v: &Vec<usize>) -> (result: Vec<usize>)
    ensures
        result@ == v@,
{
    let mut result: Vec<usize> = Vec::new();
    let mut i: usize = 0;
    while i < v.len()
        invariant
            i <= v@.len(),
            result@ == v@.take(i as int),
        decreases v@.len() - i,
    {
        result.push(v[i]);
        i = i + 1;
        assert(result@ =~= v@.take(i as int));
    }
    assert(v@.take(v@.len() as int) =~= v@);
    result
}

/// Label permutations for a null control: for each seed, the labels shuffled
/// by a generator seeded with it.
pub fn label_shuffles(labels: &Vec<usize>, seeds: &Vec<u64>) -> (result: Vec<Vec<usize>>)
    ensures
        result@.len() == seeds@.len(),
        forall|s: int| 0 <= s < seeds@.len() ==> (#[trigger] result@[s])@.len() == labels@.len()
            && result@[s]@.to_multiset() == labels@.to_multiset(),
        forall|s: int| 0 <= s < seeds@.len() ==> (#[trigger] result@[s])@ == shuffled(labels@, xoshiro_state(seeds@[s])),
{
    let mut result: Vec<Vec<usize>> = Vec::new();
    let mut s: usize = 0;
    while s < seeds.len()
        invariant
            s <= seeds@.len(),
            result@.len() == s,
            forall|q: int| 0 <= q < s ==> (#[trigger] result@[q])@.len() == labels@.len()
                && result@[q]@.to_multiset() == labels@.to_multiset(),
            forall|q: int| 0 <= q < s ==> (#[trigger] result@[q])@ == shuffled(labels@, xoshiro_state(seeds@[q])),
        decreases seeds@.len() - s,
    {
        let mut rng = SeededRng::new(seeds[s]);
        let mut order = copy_indices(labels);
        rng.shuffle(&mut order);
        result.push(order);
        s = s + 1;
    }
    result
}

/// A label permutation keeps every community's size: each label occurs as
/// often after shuffling as before.
pub proof fn law_shuffle_preserves_sizes(labels: Seq<usize>, shuffled: Seq<usize>, c: usize)
    requires
        shuffled.to_multiset() == labels.to_multiset(),
    ensures
        occurrences(shuffled, c) == occurrences(labels, c),
{
    crate::tally::lemma_occurrences_multiset(shuffled, c);
    crate::tally::lemma_occurrences_multiset(labels, c);
}

/// The two cohorts cut from the front of a shuffle, positions `0..s` and
/// `s..2s`, share no member.
pub proof fn law_cohorts_disjoint(p: Seq<usize>, n: int, s: int, a: int, b: int)
    requires
        is_permutation(p, n),
        0 <= s,
        2 * s <= n,
        0 <= a < s,
        s <= b < 2 * s,
    ensures
        p[a] != p[b],
{
}

/// Two increasing lists with the same members are the same list.
pub proof fn lemma_increasing_determined(a: Seq<usize>, b: Seq<usize>)
    requires
        increasing(a),
        increasing(b),
        forall|i: usize| a.contains(i) <==> b.contains(i),
    ensures
        a == b,
    decreases a.len() + b.len(),
{
    if a.len() > 0 && b.len() > 0 {
        let (x, y) = (a.last(), b.last());
        assert(a.contains(x));
        assert(b.contains(y));
        assert(b.contains(x));
        assert(a.contains(y));
        let i = choose|i: int| 0 <= i < b.len() && b[i] == x;
        let j = choose|j: int| 0 <= j < a.len() && a[j] == y;
        if i < b.len() - 1 {
            assert(b[i] < b[b.len() - 1]);
        }
        if j < a.len() - 1 {
            assert(a[j] < a[a.len() - 1]);
        }
        assert(x == y);
        assert forall|k: usize| a.drop_last().contains(k) <==> b.drop_last().contains(k) by {
            if a.drop_last().contains(k) {
                let q = choose|q: int| 0 <= q < a.len() - 1 && a.drop_last()[q] == k;
                assert(a[q] < x);
                assert(b.contains(k));
                let r = choose|r: int| 0 <= r < b.len() && b[r] == k;
                if r == b.len() - 1 {
                    assert(k == y);
                }
                assert(b.drop_last()[r] == k);
            }
            if b.drop_last().contains(k) {
                let q = choose|q: int| 0 <= q < b.len() - 1 && b.drop_last()[q] == k;
                assert(b[q] < y);
                assert(a.contains(k));
                let r = choose|r: int| 0 <= r < a.len() && a[r] == k;
                if r == a.len() - 1 {
                    assert(k == x);
                }
                assert(a.drop_last()[r] == k);
            }
        }
        lemma_increasing_determined(a.drop_last(), b.drop_last());
        assert(a =~= a.drop_last().push(x));
        assert(b =~= b.drop_last().push(y));
    } else if a.len() > 0 {
        assert(a.contains(a[0]));
    } else if b.len() > 0 {
        assert(b.contains(b[0]));
    }
}

/// Subsamples repeat: two subsamples drawn with the same size and seed keep
/// the same positions.
pub proof fn law_subsample_repeatable(n: nat, keep: nat, seed: u64, a: Seq<usize>, b: Seq<usize>)
    requires
        increasing(a),
        increasing(b),
        forall|i: usize| a.contains(i) <==> subsample_chosen(n, keep, seed, i),
        forall|i: usize| b.contains(i) <==> subsample_chosen(n, keep, seed, i),
    ensures
        a == b,
{
    lemma_increasing_determined(a, b);
}

/// Edge removals repeat: two removals of the same count with the same seed
/// from a graph of `m` edges keep the same edges.
pub proof fn law_edge_removal_repeatable(m: nat, remove: nat, seed: u64, a: Seq<usize>, b: Seq<usize>)
    requires
        increasing(a),
        increasing(b),
        forall|k: int| 0 <= k < a.len() ==> #[trigger] a[k] < m,
        forall|k: int| 0 <= k < b.len() ==> #[trigger] b[k] < m,
        forall|e: usize| e < m ==> (a.contains(e) <==> !subsample_chosen(m, remove, seed, e)),
        forall|e: usize| e < m ==> (b.contains(e) <==> !subsample_chosen(m, remove, seed, e)),
    ensures
        a == b,
{
    assert forall|e: usize| a.contains(e) <==> b.contains(e) by {
        if a.contains(e) {
            let k = choose|k: int| 0 <= k < a.len() && a[k] == e;
            assert(e < m);
        }
        if b.contains(e) {
            let k = choose|k: int| 0 <= k < b.len() && b[k] == e;
            assert(e < m);
        }
    }
    lemma_increasing_determined(a, b);
}

} // verus!
