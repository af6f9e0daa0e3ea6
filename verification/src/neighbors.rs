//! Nearest-neighbour graphs: effective neighbour counts, candidate pairs,
//! shared neighbours, ranks and incoming-neighbour counts. Similarities are
//! computed by the caller; everything here is on node indices.
use vstd::prelude::*;
use crate::graph::{Edge, pair_less};
use crate::tally::occurrences;

verus! {

/// Lexicographic (u, v) order, ties allowed.
pub open spec fn edge_le(a: Edge, b: Edge) -> bool {
    a.u < b.u || (a.u == b.u && a.v <= b.v)
}

pub open spec fn edges_nondecreasing(s: Seq<Edge>) -> bool {
    forall|a: int, b: int| 0 <= a < b < s.len() ==> edge_le(#[trigger] s[a], #[trigger] s[b])
}

fn merge_edges(left: Vec<Edge>, right: Vec<Edge>) -> (result: Vec<Edge>)
    requires
        edges_nondecreasing(left@),
        edges_nondecreasing(right@),
    ensures
        edges_nondecreasing(result@),
        result@.to_multiset() == left@.to_multiset().add(right@.to_multiset()),
        result@.len() == left@.len() + right@.len(),
{
    let mut result: Vec<Edge> = Vec::new();
    let mut i: usize = 0;
    let mut j: usize = 0;
    proof {
        broadcast use vstd::multiset::group_multiset_axioms;
        assert(left@.take(0) =~= Seq::<Edge>::empty());
        assert(right@.take(0) =~= Seq::<Edge>::empty());
        vstd::seq_lib::lemma_multiset_commutative(Seq::<Edge>::empty(), Seq::<Edge>::empty());
        assert(result@ =~= Seq::<Edge>::empty());
        broadcast use vstd::seq_lib::to_multiset_len;
        assert(result@.to_multiset() =~= left@.take(0).to_multiset().add(right@.take(0).to_multiset()));
    }
    while i < left.len() || j < right.len()
        invariant
            edges_nondecreasing(left@),
            edges_nondecreasing(right@),
            i <= left@.len(),
            j <= right@.len(),
            result@.len() == i + j,
            edges_nondecreasing(result@),
            result@.to_multiset() == left@.take(i as int).to_multiset().add(right@.take(j as int).to_multiset()),
            result@.len() > 0 && i < left@.len() ==> edge_le(result@.last(), left@[i as int]),
            result@.len() > 0 && j < right@.len() ==> edge_le(result@.last(), right@[j as int]),
        decreases left@.len() + right@.len() - i - j,
    {
        let take_left = if i == left.len() {
            false
        } else if j == right.len() {
            true
        } else {
            left[i].u < right[j].u || (left[i].u == right[j].u && left[i].v <= right[j].v)
        };
        let ghost before = result@;
        let ghost lm = left@.take(i as int).to_multiset();
        let ghost rm = right@.take(j as int).to_multiset();
        if take_left {
            let x = left[i];
            result.push(x);
            proof {
                broadcast use vstd::multiset::group_multiset_axioms;
                assert(left@.take(i + 1) =~= left@.take(i as int).push(x));
                vstd::seq_lib::to_multiset_build(left@.take(i as int), x);
                vstd::seq_lib::to_multiset_build(before, x);
                assert(result@ =~= before.push(x));
                assert(lm.insert(x).add(rm) =~= lm.add(rm).insert(x));
                if i + 1 < left@.len() {
                    assert(edge_le(left@[i as int], left@[i + 1]));
                }
            }
            i = i + 1;
        } else {
            let x = right[j];
            result.push(x);
            proof {
                broadcast use vstd::multiset::group_multiset_axioms;
                assert(right@.take(j + 1) =~= right@.take(j as int).push(x));
                vstd::seq_lib::to_multiset_build(right@.take(j as int), x);
                vstd::seq_lib::to_multiset_build(before, x);
                assert(result@ =~= before.push(x));
                assert(lm.add(rm.insert(x)) =~= lm.add(rm).insert(x));
                if j + 1 < right@.len() {
                    assert(edge_le(right@[j as int], right@[j + 1]));
                }
            }
            j = j + 1;
        }
    }
    proof {
        assert(left@.take(left@.len() as int) =~= left@);
        assert(right@.take(right@.len() as int) =~= right@);
    }
    result
}

/// Sort edges by (u, v).
pub fn sort_edges(values: Vec<Edge>) -> (result: Vec<Edge>)
    ensures
        edges_nondecreasing(result@),
        result@.to_multiset() == values@.to_multiset(),
        result@.len() == values@.len(),
    decreases values@.len(),
{
    if values.len() <= 1 {
        return values;
    }
    let mut left = values;
    let mid = left.len() / 2;
    let ghost whole = left@;
    let right = left.split_off(mid);
    proof {
        assert(whole =~= left@ + right@);
        vstd::seq_lib::lemma_multiset_commutative(left@, right@);
    }
    let left = sort_edges(left);
    let right = sort_edges(right);
    merge_edges(left, right)
}

/// The undirected pair of two nodes, smaller index first.
pub open spec fn undirected(a: usize, b: usize) -> Edge {
    if a <= b {
        Edge { u: a, v: b }
    } else {
        Edge { u: b, v: a }
    }
}

/// Row `i`'s `x`-th neighbour proposes an edge: always for a union graph, and
/// for a mutual graph only when `i` is among that neighbour's own neighbours.
pub open spec fn proposes(neighbors: Seq<Vec<usize>>, mutual: bool, i: int, x: int) -> bool {
    &&& 0 <= i < neighbors.len()
    &&& 0 <= x < neighbors[i]@.len()
    &&& (!mutual || neighbors[neighbors[i]@[x] as int]@.contains(i as usize))
}

/// `e` is a candidate edge of the neighbour lists.
pub open spec fn candidate(neighbors: Seq<Vec<usize>>, mutual: bool, e: Edge) -> bool {
    exists|i: int, x: int| #[trigger] proposes(neighbors, mutual, i, x) && e == undirected(i as usize, neighbors[i]@[x])
}

/// Every neighbour is a node.
pub open spec fn rows_in_range(neighbors: Seq<Vec<usize>>) -> bool {
    forall|i: int, x: int| 0 <= i < neighbors.len() && 0 <= x < neighbors[i]@.len() ==> #[trigger] neighbors[i]@[x] < neighbors.len()
}

fn row_contains(row: &Vec<usize>, x: usize) -> (result: bool)
    ensures
        result == row@.contains(x),
{
    let mut k: usize = 0;
    while k < row.len()
        invariant
            k <= row@.len(),
            forall|m: int| 0 <= m < k ==> row@[m] != x,
        decreases row@.len() - k,
    {
        if row[k] == x {
            return true;
        }
        k = k + 1;
    }
    false
}

/// Candidate edges of a neighbour graph, each once, in (u, v) order.
pub fn candidate_pairs(neighbors: &Vec<Vec<usize>>, mutual: bool) -> (result: Vec<Edge>)
    requires
        rows_in_range(neighbors@),
    ensures
        forall|a: int, b: int| 0 <= a < b < result@.len() ==> pair_less(#[trigger] result@[a], #[trigger] result@[b]),
        forall|e: Edge| result@.contains(e) <==> candidate(neighbors@, mutual, e),
{
    let ghost nb = neighbors@;
    let mut all: Vec<Edge> = Vec::new();
    let mut i: usize = 0;
    while i < neighbors.len()
        invariant
            nb == neighbors@,
            rows_in_range(nb),
            i <= nb.len(),
            forall|e: Edge| all@.contains(e) <==> exists|i2: int, x2: int|
                #[trigger] proposes(nb, mutual, i2, x2) && i2 < i && e == undirected(i2 as usize, nb[i2]@[x2]),
        decreases nb.len() - i,
    {
        let row = &neighbors[i];
        let mut x: usize = 0;
        while x < row.len()
            invariant
                nb == neighbors@,
                rows_in_range(nb),
                i < nb.len(),
                *row == nb[i as int],
                x <= row@.len(),
                forall|e: Edge| all@.contains(e) <==> exists|i2: int, x2: int|
                    #[trigger] proposes(nb, mutual, i2, x2) && (i2 < i || (i2 == i && x2 < x)) && e == undirected(i2 as usize, nb[i2]@[x2]),
            decreases row@.len() - x,
        {
            let j = row[x];
            let take = !mutual || row_contains(&neighbors[j], i);
            let ghost before = all@;
            if take {
                let e = if i <= j { Edge { u: i, v: j } } else { Edge { u: j, v: i } };
                all.push(e);
                proof {
                    assert(proposes(nb, mutual, i as int, x as int));
                    assert forall|f: Edge| all@.contains(f) <==> exists|i2: int, x2: int|
                        #[trigger] proposes(nb, mutual, i2, x2) && (i2 < i || (i2 == i && x2 < x + 1)) && f == undirected(i2 as usize, nb[i2]@[x2]) by {
                        if all@.contains(f) {
                            if f == e {
                                assert(proposes(nb, mutual, i as int, x as int) && f == undirected(i, nb[i as int]@[x as int]));
                            } else {
                                let k = choose|k: int| 0 <= k < all@.len() && #[trigger] all@[k] == f;
                                assert(before[k] == f);
                                assert(before.contains(f));
                            }
                        }
                        if exists|i2: int, x2: int|
                            #[trigger] proposes(nb, mutual, i2, x2) && (i2 < i || (i2 == i && x2 < x + 1)) && f == undirected(i2 as usize, nb[i2]@[x2]) {
                            let (i2, x2) = choose|i2: int, x2: int|
                                #[trigger] proposes(nb, mutual, i2, x2) && (i2 < i || (i2 == i && x2 < x + 1)) && f == undirected(i2 as usize, nb[i2]@[x2]);
                            if i2 == i && x2 == x {
                                assert(all@[all@.len() - 1] == f);
                            } else {
                                assert(before.contains(f));
                                let k = choose|k: int| 0 <= k < before.len() && #[trigger] before[k] == f;
                                assert(all@[k] == f);
                            }
                        }
                    }
                }
            } else {
                proof {
                    assert forall|f: Edge| all@.contains(f) <==> exists|i2: int, x2: int|
                        #[trigger] proposes(nb, mutual, i2, x2) && (i2 < i || (i2 == i && x2 < x + 1)) && f == undirected(i2 as usize, nb[i2]@[x2]) by {
                        if exists|i2: int, x2: int|
                            #[trigger] proposes(nb, mutual, i2, x2) && (i2 < i || (i2 == i && x2 < x + 1)) && f == undirected(i2 as usize, nb[i2]@[x2]) {
                            let (i2, x2) = choose|i2: int, x2: int|
                                #[trigger] proposes(nb, mutual, i2, x2) && (i2 < i || (i2 == i && x2 < x + 1)) && f == undirected(i2 as usize, nb[i2]@[x2]);
                            assert(!(i2 == i && x2 == x));
                        }
                    }
                }
            }
            x = x + 1;
        }
        i = i + 1;
    }
    let sorted = sort_edges(all);
    let ghost s = sorted@;
    proof {
        broadcast use vstd::seq_lib::group_to_multiset_ensures;
        assert forall|e: Edge| s.contains(e) <==> candidate(nb, mutual, e) by {
            assert(s.to_multiset().count(e) == all@.to_multiset().count(e));
        }
    }
    let mut result: Vec<Edge> = Vec::new();
    let mut k: usize = 0;
    while k < sorted.len()
        invariant
            s == sorted@,
            edges_nondecreasing(s),
            k <= s.len(),
            forall|a: int, b: int| 0 <= a < b < result@.len() ==> pair_less(#[trigger] result@[a], #[trigger] result@[b]),
            forall|e: Edge| result@.contains(e) <==> s.take(k as int).contains(e),
            k > 0 ==> result@.len() > 0 && result@.last() == s[k - 1],
            k == 0 ==> result@.len() == 0,
        decreases s.len() - k,
    {
        let e = sorted[k];
        let n = result.len();
        let ghost before = result@;
        proof {
            assert(s.take(k + 1) =~= s.take(k as int).push(e));
        }
        if n == 0 || !(result[n - 1].u == e.u && result[n - 1].v == e.v) {
            result.push(e);
            proof {
                if k > 0 {
                    assert(edge_le(s[k - 1], e));
                }
                assert forall|a: int, b: int| 0 <= a < b < result@.len() implies pair_less(#[trigger] result@[a], #[trigger] result@[b]) by {
                    if b == result@.len() - 1 && a < b {
                        if a < before.len() - 1 {
                            assert(pair_less(before[a], before.last()));
                        }
                    } else {
                        assert(result@[a] == before[a] && result@[b] == before[b]);
                    }
                }
                assert forall|f: Edge| result@.contains(f) <==> s.take(k + 1).contains(f) by {
                    if result@.contains(f) && f != e {
                        let m = choose|m: int| 0 <= m < result@.len() && #[trigger] result@[m] == f;
                        assert(before[m] == f);
                        assert(before.contains(f));
                    }
                    if s.take(k + 1).contains(f) && f != e {
                        let m = choose|m: int| 0 <= m < k + 1 && #[trigger] s.take(k + 1)[m] == f;
                        assert(s.take(k as int)[m] == f);
                        assert(before.contains(f));
                        let q = choose|q: int| 0 <= q < before.len() && #[trigger] before[q] == f;
                        assert(result@[q] == f);
                    }
                    if f == e {
                        assert(result@[result@.len() - 1] == e);
                        assert(s.take(k + 1)[k as int] == e);
                    }
                }
            }
        } else {
            proof {
                assert(result@.last() == e);
                assert forall|f: Edge| result@.contains(f) <==> s.take(k + 1).contains(f) by {
                    if s.take(k + 1).contains(f) {
                        let m = choose|m: int| 0 <= m < k + 1 && #[trigger] s.take(k + 1)[m] == f;
                        if m < k {
                            assert(s.take(k as int)[m] == f);
                        } else {
                            assert(result@[result@.len() - 1] == f);
                        }
                    }
                    if result@.contains(f) {
                        let m = choose|m: int| 0 <= m < result@.len() && #[trigger] result@[m] == f;
                        assert(s.take(k as int).contains(f));
                        let q = choose|q: int| 0 <= q < k && #[trigger] s.take(k as int)[q] == f;
                        assert(s.take(k + 1)[q] == f);
                    }
                }
            }
        }
        k = k + 1;
    }
    proof {
        assert(s.take(s.len() as int) =~= s);
    }
    result
}

/// Number of distinct nodes that occur in both rows.
pub open spec fn shared(a: Seq<usize>, b: Seq<usize>) -> nat
    decreases a.len(),
{
    if a.len() == 0 {
        0
    } else {
        shared(a.drop_last(), b) + if b.contains(a.last()) && !a.drop_last().contains(a.last()) {
            1nat
        } else {
            0nat
        }
    }
}

proof fn lemma_shared_bounded(a: Seq<usize>, b: Seq<usize>)
    ensures
        shared(a, b) <= a.len(),
    decreases a.len(),
{
    if a.len() > 0 {
        lemma_shared_bounded(a.drop_last(), b);
    }
}

/// Number of neighbours two nodes have in common.
pub fn shared_neighbors(a: &Vec<usize>, b: &Vec<usize>) -> (result: usize)
    ensures
        result == shared(a@, b@),
{
    let mut count: usize = 0;
    let mut i: usize = 0;
    while i < a.len()
        invariant
            i <= a@.len(),
            count == shared(a@.take(i as int), b@),
            count <= i,
        decreases a@.len() - i,
    {
        let x = a[i];
        let mut seen = false;
        let mut m: usize = 0;
        while m < i
            invariant
                i < a@.len(),
                m <= i,
                seen == a@.take(m as int).contains(x),
            decreases i - m,
        {
            proof {
                assert(a@.take(m + 1) =~= a@.take(m as int).push(a@[m as int]));
            }
            if a[m] == x {
                seen = true;
                proof {
                    assert(a@.take(m + 1)[m as int] == x);
                }
            } else {
                proof {
                    if a@.take(m + 1).contains(x) {
                        let q = choose|q: int| 0 <= q < m + 1 && #[trigger] a@.take(m + 1)[q] == x;
                        assert(a@.take(m as int)[q] == x);
                    }
                    if a@.take(m as int).contains(x) {
                        let q = choose|q: int| 0 <= q < m && #[trigger] a@.take(m as int)[q] == x;
                        assert(a@.take(m + 1)[q] == x);
                    }
                }
            }
            m = m + 1;
        }
        let in_b = row_contains(b, x);
        proof {
            assert(a@.take(i + 1).drop_last() =~= a@.take(i as int));
            assert(a@.take(i + 1).last() == x);
            lemma_shared_bounded(a@.take(i as int), b@);
        }
        if in_b && !seen {
            count = count + 1;
        }
        i = i + 1;
    }
    proof {
        assert(a@.take(a@.len() as int) =~= a@);
    }
    count
}

/// 1-based rank of `node` in a neighbour row (its last position), if present.
pub fn neighbor_rank(row: &Vec<usize>, node: usize) -> (result: Option<usize>)
    ensures
        match result {
            Some(r) => 1 <= r <= row@.len() && row@[r - 1] == node
                && forall|m: int| r <= m < row@.len() ==> row@[m] != node,
            None => !row@.contains(node),
        },
{
    let mut k: usize = row.len();
    while k > 0
        invariant
            k <= row@.len(),
            forall|m: int| k <= m < row@.len() ==> row@[m] != node,
        decreases k,
    {
        if row[k - 1] == node {
            return Some(k);
        }
        k = k - 1;
    }
    None
}

/// Why neighbour counts cannot be fixed for a vocabulary.
#[derive(Clone, Copy, Debug, PartialEq, Eq)]
pub enum ScaleError {
    /// There are no tokens.
    EmptyInput,
    /// The local scale exceeds the effective neighbour count (given).
    ScaleTooLarge(usize),
}

/// The neighbour count actually used, `min(k, n - 1)`, and the local scale
/// rank: the requested one, else `min(7, k_eff)`, and 0 without neighbours.
pub fn effective_scales(tokens: usize, k: usize, k_scale: Option<usize>) -> (result: Result<(usize, usize), ScaleError>)
    ensures
        tokens == 0 ==> result == Err::<(usize, usize), ScaleError>(ScaleError::EmptyInput),
        tokens > 0 ==> {
            let k_eff = if k < tokens - 1 { k as int } else { tokens - 1 };
            let scale = if k_eff == 0 {
                0
            } else {
                match k_scale {
                    Some(s) => s as int,
                    None => if 7 < k_eff { 7 } else { k_eff },
                }
            };
            if scale <= k_eff {
                result == Ok::<(usize, usize), ScaleError>((k_eff as usize, scale as usize))
            } else {
                result == Err::<(usize, usize), ScaleError>(ScaleError::ScaleTooLarge(k_eff as usize))
            }
        },
{
    if tokens == 0 {
        return Err(ScaleError::EmptyInput);
    }
    let k_eff = if k < tokens - 1 { k } else { tokens - 1 };
    let scale = if k_eff == 0 {
        0
    } else {
        match k_scale {
            Some(s) => s,
            None => if 7 < k_eff { 7 } else { k_eff },
        }
    };
    if scale <= k_eff {
        Ok((k_eff, scale))
    } else {
        Err(ScaleError::ScaleTooLarge(k_eff))
    }
}

/// Entries in the first `m` rows.
pub open spec fn entries(nb: Seq<Vec<usize>>, m: int) -> nat
    decreases m,
{
    if m <= 0 {
        0
    } else {
        entries(nb, m - 1) + nb[m - 1]@.len()
    }
}

/// Times `j` is listed in the first `m` rows.
pub open spec fn incoming(nb: Seq<Vec<usize>>, m: int, j: usize) -> nat
    decreases m,
{
    if m <= 0 {
        0
    } else {
        incoming(nb, m - 1, j) + occurrences(nb[m - 1]@, j)
    }
}

/// Entries of `row` (row `i`'s list, or a prefix of it) whose own row lists `i`.
pub open spec fn row_reciprocal(nb: Seq<Vec<usize>>, i: int, row: Seq<usize>) -> nat
    decreases row.len(),
{
    if row.len() == 0 {
        0
    } else {
        row_reciprocal(nb, i, row.drop_last()) + if nb[row.last() as int]@.contains(i as usize) {
            1nat
        } else {
            0nat
        }
    }
}

/// Reciprocated entries in the first `m` rows.
pub open spec fn reciprocal(nb: Seq<Vec<usize>>, m: int) -> nat
    decreases m,
{
    if m <= 0 {
        0
    } else {
        reciprocal(nb, m - 1) + row_reciprocal(nb, m - 1, nb[m - 1]@)
    }
}

/// Directed neighbour statistics: how often each node is listed, how many
/// entries there are, and how many of them are reciprocated.
#[derive(Clone, Debug)]
pub struct NeighborCounts {
    pub incoming: Vec<usize>,
    pub total: usize,
    pub reciprocated: usize,
}

proof fn lemma_entries_monotone(nb: Seq<Vec<usize>>, a: int, b: int)
    requires
        a <= b,
    ensures
        entries(nb, a) <= entries(nb, b),
    decreases b - a,
{
    if a < b {
        lemma_entries_monotone(nb, a, b - 1);
    }
}

proof fn lemma_row_reciprocal_bounded(nb: Seq<Vec<usize>>, i: int, row: Seq<usize>)
    ensures
        row_reciprocal(nb, i, row) <= row.len(),
    decreases row.len(),
{
    if row.len() > 0 {
        lemma_row_reciprocal_bounded(nb, i, row.drop_last());
    }
}

proof fn lemma_counts_bounded(nb: Seq<Vec<usize>>, m: int, j: usize)
    ensures
        reciprocal(nb, m) <= entries(nb, m),
        incoming(nb, m, j) <= entries(nb, m),
    decreases m,
{
    if m > 0 {
        lemma_counts_bounded(nb, m - 1, j);
        lemma_row_reciprocal_bounded(nb, m - 1, nb[m - 1]@);
        crate::tally::lemma_occurrences_bounded(nb[m - 1]@, j);
    }
}

/// Count incoming and reciprocated entries of directed neighbour rows.
pub fn neighbor_counts(neighbors: &Vec<Vec<usize>>) -> (result: NeighborCounts)
    requires
        rows_in_range(neighbors@),
        entries(neighbors@, neighbors@.len() as int) <= usize::MAX,
    ensures
        result.incoming@.len() == neighbors@.len(),
        forall|j: int| 0 <= j < neighbors@.len() ==> #[trigger] result.incoming@[j] == incoming(neighbors@, neighbors@.len() as int, j as usize),
        result.total == entries(neighbors@, neighbors@.len() as int),
        result.reciprocated == reciprocal(neighbors@, neighbors@.len() as int),
{
    let ghost nb = neighbors@;
    let n = neighbors.len();
    let mut incoming_counts: Vec<usize> = Vec::new();
    let mut j: usize = 0;
    while j < n
        invariant
            j <= n,
            incoming_counts@.len() == j,
            forall|q: int| 0 <= q < j ==> #[trigger] incoming_counts@[q] == 0,
        decreases n - j,
    {
        incoming_counts.push(0);
        j = j + 1;
    }
    let mut total: usize = 0;
    let mut reciprocated: usize = 0;
    let mut i: usize = 0;
    while i < n
        invariant
            nb == neighbors@,
            n == nb.len(),
            rows_in_range(nb),
            entries(nb, n as int) <= usize::MAX,
            i <= n,
            incoming_counts@.len() == n,
            forall|q: int| 0 <= q < n ==> #[trigger] incoming_counts@[q] == incoming(nb, i as int, q as usize),
            total == entries(nb, i as int),
            reciprocated == reciprocal(nb, i as int),
        decreases n - i,
    {
        let row = &neighbors[i];
        let mut x: usize = 0;
        proof {
            lemma_entries_monotone(nb, i + 1, n as int);
        }
        while x < row.len()
            invariant
                nb == neighbors@,
                n == nb.len(),
                rows_in_range(nb),
                i < n,
                *row == nb[i as int],
                entries(nb, i + 1) <= usize::MAX,
                x <= row@.len(),
                incoming_counts@.len() == n,
                forall|q: int| 0 <= q < n ==> #[trigger] incoming_counts@[q] == incoming(nb, i as int, q as usize) + occurrences(row@.take(x as int), q as usize),
                total == entries(nb, i as int) + x,
                reciprocated == reciprocal(nb, i as int) + row_reciprocal(nb, i as int, row@.take(x as int)),
            decreases row@.len() - x,
        {
            let target = row[x];
            proof {
                assert(row@.take(x + 1).drop_last() =~= row@.take(x as int));
                assert(row@.take(x + 1).last() == target);
                lemma_counts_bounded(nb, i as int, target);
                crate::tally::lemma_occurrences_bounded(row@.take(x as int), target);
                lemma_row_reciprocal_bounded(nb, i as int, row@.take(x as int));
                assert(target < n);
            }
            incoming_counts.set(target, incoming_counts[target] + 1);
            total = total + 1;
            if row_contains(&neighbors[target], i) {
                reciprocated = reciprocated + 1;
            }
            x = x + 1;
        }
        proof {
            assert(row@.take(row@.len() as int) =~= row@);
        }
        i = i + 1;
    }
    NeighborCounts { incoming: incoming_counts, total, reciprocated }
}

} // verus!
