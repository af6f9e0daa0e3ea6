//! Connected components of the subgraphs that communities induce.
use vstd::prelude::*;
use crate::graph::{entries_sorted, incidences, joins, lemma_incidences_contains, Edge, Graph};
use crate::partition::{canonical_labels, canonical_with_count, label_order, AssignmentError};
use crate::tally::occurrences;

verus! {

/// One step inside a community: an edge joins `z` and `y`, both with the same label.
pub open spec fn step(edges: Seq<Edge>, labels: Seq<usize>, z: int, y: int) -> bool {
    &&& 0 <= z < labels.len()
    &&& 0 <= y < labels.len()
    &&& labels[z] == labels[y]
    &&& exists|e: int| joins(edges, e, z, y)
}

/// A walk whose consecutive tokens are joined by steps inside one community.
pub open spec fn is_walk(edges: Seq<Edge>, labels: Seq<usize>, p: Seq<int>) -> bool {
    &&& p.len() >= 1
    &&& 0 <= p[0] < labels.len()
    &&& forall|i: int| 0 <= i < p.len() - 1 ==> #[trigger] step(edges, labels, p[i], p[i + 1])
}

/// `x` and `y` lie in the same connected component of their community's induced subgraph.
pub open spec fn connected(edges: Seq<Edge>, labels: Seq<usize>, x: int, y: int) -> bool {
    exists|p: Seq<int>| #[trigger] is_walk(edges, labels, p) && p[0] == x && p.last() == y
}

/// `r` is the least token of its induced component.
pub open spec fn is_root(edges: Seq<Edge>, labels: Seq<usize>, r: int) -> bool {
    forall|j: int| 0 <= j < r ==> !#[trigger] connected(edges, labels, j, r)
}

/// Number of induced components of community `c` whose least token is below `m`.
pub open spec fn root_count(edges: Seq<Edge>, labels: Seq<usize>, c: usize, m: int) -> nat
    decreases m,
{
    if m <= 0 {
        0
    } else {
        root_count(edges, labels, c, m - 1) + (if canonical_labels(labels)[m - 1] == c && is_root(
            edges,
            labels,
            m - 1,
        ) {
            1nat
        } else {
            0nat
        })
    }
}

pub proof fn lemma_connected_refl(edges: Seq<Edge>, labels: Seq<usize>, x: int)
    requires
        0 <= x < labels.len(),
    ensures
        connected(edges, labels, x, x),
{
    let p = seq![x];
    assert(is_walk(edges, labels, p));
}

pub proof fn lemma_connected_extend(edges: Seq<Edge>, labels: Seq<usize>, x: int, z: int, y: int)
    requires
        connected(edges, labels, x, z),
        step(edges, labels, z, y),
    ensures
        connected(edges, labels, x, y),
{
    let p = choose|p: Seq<int>| #[trigger] is_walk(edges, labels, p) && p[0] == x && p.last() == z;
    let q = p.push(y);
    assert forall|i: int| 0 <= i < q.len() - 1 implies #[trigger] step(edges, labels, q[i], q[i + 1]) by {
        if i < p.len() - 1 {
            assert(q[i] == p[i] && q[i + 1] == p[i + 1]);
        } else {
            assert(q[i] == z);
        }
    }
    assert(is_walk(edges, labels, q));
}

proof fn lemma_step_symmetric(edges: Seq<Edge>, labels: Seq<usize>, z: int, y: int)
    requires
        step(edges, labels, z, y),
    ensures
        step(edges, labels, y, z),
{
    let e = choose|e: int| joins(edges, e, z, y);
    assert(joins(edges, e, y, z));
}

/// Connectivity inside communities is symmetric.
pub proof fn law_connected_symmetric(edges: Seq<Edge>, labels: Seq<usize>, x: int, y: int)
    requires
        connected(edges, labels, x, y),
    ensures
        connected(edges, labels, y, x),
{
    let p = choose|p: Seq<int>| #[trigger] is_walk(edges, labels, p) && p[0] == x && p.last() == y;
    let q = p.reverse();
    assert forall|i: int| 0 <= i < q.len() - 1 implies #[trigger] step(edges, labels, q[i], q[i + 1]) by {
        let j = p.len() - 2 - i;
        assert(step(edges, labels, p[j], p[j + 1]));
        assert(q[i] == p[j + 1]);
        assert(q[i + 1] == p[j]);
        lemma_step_symmetric(edges, labels, p[j], p[j + 1]);
    }
    if p.len() > 1 {
        let j = p.len() - 2;
        assert(step(edges, labels, p[j], p[j + 1]));
    }
    assert(q[0] == y);
    assert(is_walk(edges, labels, q));
}

/// Connectivity inside communities is transitive.
pub proof fn law_connected_transitive(edges: Seq<Edge>, labels: Seq<usize>, x: int, y: int, z: int)
    requires
        connected(edges, labels, x, y),
        connected(edges, labels, y, z),
    ensures
        connected(edges, labels, x, z),
{
    let p = choose|p: Seq<int>| #[trigger] is_walk(edges, labels, p) && p[0] == x && p.last() == y;
    let r = choose|p: Seq<int>| #[trigger] is_walk(edges, labels, p) && p[0] == y && p.last() == z;
    let q = p + r.drop_first();
    assert forall|i: int| 0 <= i < q.len() - 1 implies #[trigger] step(edges, labels, q[i], q[i + 1]) by {
        if i < p.len() - 1 {
            assert(q[i] == p[i] && q[i + 1] == p[i + 1]);
        } else if i == p.len() - 1 {
            assert(q[i] == y);
            assert(q[i + 1] == r[1]);
            assert(step(edges, labels, r[0], r[1]));
        } else {
            let j = i - p.len() + 1;
            assert(q[i] == r[j] && q[i + 1] == r[j + 1]);
            assert(step(edges, labels, r[j], r[j + 1]));
        }
    }
    if r.len() == 1 {
        assert(q =~= p);
    } else {
        assert(q.last() == r.last());
    }
    assert(is_walk(edges, labels, q));
}

/// Steps stay within one community.
proof fn lemma_walk_same_label(edges: Seq<Edge>, labels: Seq<usize>, p: Seq<int>, i: int)
    requires
        is_walk(edges, labels, p),
        0 <= i < p.len(),
    ensures
        0 <= p[i] < labels.len(),
        labels[p[0]] == labels[p[i]],
    decreases i,
{
    if i > 0 {
        lemma_walk_same_label(edges, labels, p, i - 1);
        let j = i - 1;
        assert(step(edges, labels, p[j], p[j + 1]));
    }
}

pub proof fn lemma_connected_same_label(edges: Seq<Edge>, labels: Seq<usize>, x: int, y: int)
    requires
        connected(edges, labels, x, y),
    ensures
        0 <= x < labels.len(),
        0 <= y < labels.len(),
        labels[x] == labels[y],
{
    let p = choose|p: Seq<int>| #[trigger] is_walk(edges, labels, p) && p[0] == x && p.last() == y;
    lemma_walk_same_label(edges, labels, p, p.len() - 1);
}

/// A set closed under steps contains everything reachable from its members.
pub open spec fn closed(edges: Seq<Edge>, labels: Seq<usize>, seen: Seq<bool>) -> bool {
    forall|z: int, y: int| #![trigger seen[z], seen[y]]
        0 <= z < seen.len() && seen[z] && step(edges, labels, z, y) ==> seen[y]
}

proof fn lemma_closed_walk(edges: Seq<Edge>, labels: Seq<usize>, seen: Seq<bool>, p: Seq<int>, i: int)
    requires
        closed(edges, labels, seen),
        seen.len() == labels.len(),
        is_walk(edges, labels, p),
        seen[p[0]],
        0 <= i < p.len(),
    ensures
        0 <= p[i] < seen.len(),
        seen[p[i]],
    decreases i,
{
    lemma_walk_same_label(edges, labels, p, i);
    if i > 0 {
        lemma_closed_walk(edges, labels, seen, p, i - 1);
        let j = i - 1;
        assert(step(edges, labels, p[j], p[j + 1]));
    }
}

/// A step-closed set that holds `x` holds every token connected to `x`.
proof fn lemma_closed_connected(edges: Seq<Edge>, labels: Seq<usize>, seen: Seq<bool>, x: int, y: int)
    requires
        closed(edges, labels, seen),
        seen.len() == labels.len(),
        0 <= x < seen.len(),
        seen[x],
        connected(edges, labels, x, y),
    ensures
        0 <= y < seen.len(),
        seen[y],
{
    let p = choose|p: Seq<int>| #[trigger] is_walk(edges, labels, p) && p[0] == x && p.last() == y;
    lemma_closed_walk(edges, labels, seen, p, p.len() - 1);
}


pub open spec fn count_unseen(s: Seq<bool>) -> nat
    decreases s.len(),
{
    if s.len() == 0 {
        0
    } else {
        count_unseen(s.drop_last()) + (if s.last() {
            0nat
        } else {
            1nat
        })
    }
}

proof fn lemma_count_unseen_mark(s: Seq<bool>, j: int)
    requires
        0 <= j < s.len(),
        !s[j],
    ensures
        count_unseen(s.update(j, true)) + 1 == count_unseen(s),
    decreases s.len(),
{
    let t = s.update(j, true);
    if j < s.len() - 1 {
        assert(t.drop_last() =~= s.drop_last().update(j, true));
        lemma_count_unseen_mark(s.drop_last(), j);
    } else {
        assert(t.drop_last() =~= s.drop_last());
    }
}

/// Least-token representatives of induced components.
pub open spec fn roots_spec(edges: Seq<Edge>, labels: Seq<usize>, roots: Seq<usize>, v: int) -> bool {
    &&& roots[v] <= v
    &&& connected(edges, labels, roots[v] as int, v)
    &&& forall|j: int| #[trigger] connected(edges, labels, j, v) ==> roots[v] <= j
}

/// For every token, the least token in the same connected component of its
/// community's induced subgraph.
pub fn component_roots(graph: &Graph, labels: &[usize]) -> (roots: Vec<usize>)
    requires
        graph.edges_in_range(),
        labels@.len() == graph.tokens@.len(),
    ensures
        roots@.len() == labels@.len(),
        forall|v: int| 0 <= v < labels@.len() ==> #[trigger] roots_spec(graph.edges@, labels@, roots@, v),
{
    let ghost edges = graph.edges@;
    let ghost lab = labels@;
    let n = labels.len();
    let m = graph.edges.len();
    let adjacency = graph.adjacency();
    let mut seen: Vec<bool> = Vec::new();
    let mut roots: Vec<usize> = Vec::new();
    let mut i: usize = 0;
    while i < n
        invariant
            i <= n,
            seen@.len() == i,
            roots@.len() == i,
            forall|v: int| 0 <= v < i ==> !#[trigger] seen@[v],
        decreases n - i,
    {
        seen.push(false);
        roots.push(0);
        i = i + 1;
    }
    let mut start: usize = 0;
    while start < n
        invariant
            n == lab.len(),
            lab == labels@,
            edges == graph.edges@,
            m == edges.len(),
            n == graph.tokens@.len(),
            graph.edges_in_range(),
            adjacency@.len() == n,
            forall|x: int| 0 <= x < n ==> (#[trigger] adjacency@[x]@).to_multiset() == incidences(edges, x).to_multiset(),
            start <= n,
            seen@.len() == n,
            roots@.len() == n,
            forall|v: int| 0 <= v < start ==> #[trigger] seen@[v],
            closed(edges, lab, seen@),
            forall|v: int| 0 <= v < n && #[trigger] seen@[v] ==> roots_spec(edges, lab, roots@, v),
        decreases n - start,
    {
        if !seen[start] {
            let ghost s_old = seen@;
            let ghost old_roots = roots@;
            proof {
                assert forall|j: int| 0 <= j < start implies !#[trigger] connected(edges, lab, j, start as int) by {
                    if connected(edges, lab, j, start as int) {
                        lemma_closed_connected(edges, lab, s_old, j, start as int);
                    }
                }
                lemma_connected_refl(edges, lab, start as int);
                lemma_count_unseen_mark(seen@, start as int);
            }
            seen.set(start, true);
            roots.set(start, start);
            let mut stack: Vec<usize> = Vec::new();
            stack.push(start);
            let ghost mut unseen: nat = count_unseen(seen@);
            proof {
                assert(seen@ == s_old.update(start as int, true));
                assert(stack@[0] == start);
                assert(stack@.contains(start));
                assert forall|v: int| 0 <= v < n && seen@[v] && !s_old[v] implies v == start by {}
            }
            loop
                invariant
                    n == lab.len(),
                    lab == labels@,
                    edges == graph.edges@,
                    m == edges.len(),
                    n == graph.tokens@.len(),
                    graph.edges_in_range(),
                    adjacency@.len() == n,
                    forall|x: int| 0 <= x < n ==> (#[trigger] adjacency@[x]@).to_multiset() == incidences(edges, x).to_multiset(),
                    start < n,
                    s_old.len() == n,
                    !s_old[start as int],
                    forall|v: int| 0 <= v < start ==> #[trigger] s_old[v],
                    closed(edges, lab, s_old),
                    is_root(edges, lab, start as int),
                    seen@.len() == n,
                    roots@.len() == n,
                    unseen == count_unseen(seen@),
                    seen@[start as int],
                    forall|v: int| 0 <= v < n && #[trigger] s_old[v] ==> seen@[v] && roots@[v] == old_roots[v],
                    forall|v: int| 0 <= v < n && s_old[v] ==> #[trigger] roots_spec(edges, lab, old_roots, v),
                    forall|v: int| 0 <= v < n && #[trigger] seen@[v] && !s_old[v] ==> roots@[v] == start && connected(edges, lab, start as int, v),
                    forall|k: int| 0 <= k < stack@.len() ==> #[trigger] stack@[k] < n && seen@[stack@[k] as int] && !s_old[stack@[k] as int],
                    forall|v: int, y: int| #![trigger seen@[v], step(edges, lab, v, y)]
                        0 <= v < n && seen@[v] && !s_old[v] && !stack@.contains(v as usize) && step(edges, lab, v, y) ==> seen@[y],
                ensures
                    stack@.len() == 0,
                decreases 2 * unseen + stack@.len(),
            {
                let ghost old_stack = stack@;
                match stack.pop() {
                    None => {
                        break;
                    },
                    Some(v) => {
                        let ghost budget = 2 * unseen + stack@.len();
                        proof {
                            assert(old_stack == stack@.push(v));
                            assert forall|w: int, y: int| #![trigger seen@[w], step(edges, lab, w, y)]
                                0 <= w < n && seen@[w] && !s_old[w] && w != v && !stack@.contains(w as usize) && step(edges, lab, w, y) implies seen@[y] by {
                                if old_stack.contains(w as usize) {
                                    let q = choose|q: int| 0 <= q < old_stack.len() && old_stack[q] == w as usize;
                                    assert(q < stack@.len());
                                    assert(stack@[q] == w as usize);
                                }
                            }
                            assert forall|q: int| 0 <= q < stack@.len() implies #[trigger] stack@[q] < n && seen@[stack@[q] as int] && !s_old[stack@[q] as int] by {
                                assert(stack@[q] == old_stack[q]);
                            }
                            assert(v == old_stack[old_stack.len() - 1]);
                        }
                        let row = &adjacency[v];
                        let len = row.len();
                        let mut k: usize = 0;
                        while k < len
                            invariant
                                n == lab.len(),
                                lab == labels@,
                                edges == graph.edges@,
                                m == edges.len(),
                                n == graph.tokens@.len(),
                                v < n,
                                seen@[v as int],
                                !s_old[v as int],
                                row@ == adjacency@[v as int]@,
                                row@.to_multiset() == incidences(edges, v as int).to_multiset(),
                                2 * unseen + stack@.len() <= budget,
                                len == row@.len(),
                                k <= len,
                                graph.edges_in_range(),
                                s_old.len() == n,
                                forall|v: int| 0 <= v < start ==> #[trigger] s_old[v],
                                seen@.len() == n,
                                roots@.len() == n,
                                unseen == count_unseen(seen@),
                                seen@[start as int],
                                connected(edges, lab, start as int, v as int),
                                forall|w: int| 0 <= w < n && #[trigger] s_old[w] ==> seen@[w] && roots@[w] == old_roots[w],
                                forall|w: int| 0 <= w < n && #[trigger] seen@[w] && !s_old[w] ==> roots@[w] == start && connected(edges, lab, start as int, w),
                                forall|q: int| 0 <= q < stack@.len() ==> #[trigger] stack@[q] < n && seen@[stack@[q] as int] && !s_old[stack@[q] as int],
                                forall|w: int, y: int| #![trigger seen@[w], step(edges, lab, w, y)]
                                    0 <= w < n && seen@[w] && !s_old[w] && w != v && !stack@.contains(w as usize) && step(edges, lab, w, y) ==> seen@[y],
                                forall|q: int| 0 <= q < k ==> #[trigger] row@[q].0 < n && (lab[row@[q].0 as int] == lab[v as int] ==> seen@[row@[q].0 as int]),
                            decreases len - k,
                        {
                            let (j, e) = row[k];
                            proof {
                                broadcast use vstd::seq_lib::to_multiset_contains;
                                assert(row@[k as int] == (j, e));
                                assert(row@.contains((j, e)));
                                assert(row@.to_multiset().count((j, e)) > 0);
                                assert(incidences(edges, v as int).to_multiset().count((j, e)) > 0);
                                assert(incidences(edges, v as int).contains((j, e)));
                                lemma_incidences_contains(edges, v as int, j, e);
                                assert(joins(edges, e as int, v as int, j as int));
                                assert(graph.edges@[e as int].u < n && graph.edges@[e as int].v < n);
                            }
                            if !seen[j] && labels[v] == labels[j] {
                                proof {
                                    assert(step(edges, lab, v as int, j as int));
                                    lemma_connected_extend(edges, lab, start as int, v as int, j as int);
                                    lemma_count_unseen_mark(seen@, j as int);
                                    unseen = (unseen - 1) as nat;
                                }
                                let ghost seen_before = seen@;
                                let ghost stack_before = stack@;
                                seen.set(j, true);
                                roots.set(j, start);
                                stack.push(j);
                                proof {
                                    assert forall|w: int, y: int| #![trigger seen@[w], step(edges, lab, w, y)]
                                        0 <= w < n && seen@[w] && !s_old[w] && w != v && !stack@.contains(w as usize) && step(edges, lab, w, y) implies seen@[y] by {
                                        assert(stack@[stack_before.len() as int] == j);
                                        if w != j as int {
                                            assert(seen_before[w]);
                                            if stack_before.contains(w as usize) {
                                                let q = choose|q: int| 0 <= q < stack_before.len() && stack_before[q] == w as usize;
                                                assert(stack@[q] == w as usize);
                                            }
                                            assert(seen_before[y]);
                                        }
                                    }
                                }
                            }
                            k = k + 1;
                        }
                        proof {
                            assert forall|y: int| step(edges, lab, v as int, y) implies seen@[y] by {
                                broadcast use vstd::seq_lib::to_multiset_contains;
                                let e = choose|e: int| joins(edges, e, v as int, y);
                                lemma_incidences_contains(edges, v as int, y as usize, e as usize);
                                assert(incidences(edges, v as int).contains((y as usize, e as usize)));
                                assert(incidences(edges, v as int).to_multiset().count((y as usize, e as usize)) > 0);
                                assert(row@.to_multiset().count((y as usize, e as usize)) > 0);
                                assert(row@.contains((y as usize, e as usize)));
                                let q = choose|q: int| 0 <= q < row@.len() && row@[q] == (y as usize, e as usize);
                                assert(row@[q].0 < n);
                            }
                        }
                    },
                }
            }
            proof {
                assert forall|v: int| 0 <= v < start + 1 implies #[trigger] seen@[v] by {
                    if v < start {
                        assert(s_old[v]);
                    }
                }
                assert forall|z: int, y: int| #![trigger seen@[z], seen@[y]]
                    0 <= z < seen@.len() && seen@[z] && step(edges, lab, z, y) implies seen@[y] by {
                    if s_old[z] {
                        assert(s_old[y]);
                    }
                }
                assert forall|v: int| 0 <= v < n && #[trigger] seen@[v] implies roots_spec(edges, lab, roots@, v) by {
                    if s_old[v] {
                        assert(roots_spec(edges, lab, old_roots, v));
                    } else {
                        assert(start <= v);
                        assert forall|j: int| #[trigger] connected(edges, lab, j, v) implies roots@[v] <= j by {
                            if j < start {
                                law_connected_symmetric(edges, lab, start as int, v);
                                law_connected_transitive(edges, lab, j, v, start as int);
                                lemma_connected_same_label(edges, lab, j, v);
                            }
                        }
                    }
                }
            }
        }
        start = start + 1;
    }
    proof {
        assert forall|v: int| 0 <= v < labels@.len() implies #[trigger] roots_spec(graph.edges@, labels@, roots@, v) by {
            assert(seen@[v]);
        }
    }
    roots
}


proof fn lemma_root_count_bound(edges: Seq<Edge>, labels: Seq<usize>, c: usize, m: int)
    requires
        m >= 0,
    ensures
        root_count(edges, labels, c, m) <= m,
    decreases m,
{
    if m > 0 {
        lemma_root_count_bound(edges, labels, c, m - 1);
    }
}

/// Number of connected components that each canonical community induces.
pub fn community_components(graph: &Graph, labels: &[usize]) -> (result: Result<Vec<usize>, AssignmentError>)
    requires
        graph.edges_in_range(),
    ensures
        labels@.len() != graph.tokens@.len() ==> result == Err::<Vec<usize>, AssignmentError>(AssignmentError::IncompleteAssignments),
        labels@.len() == graph.tokens@.len() ==> result is Ok,
        result matches Ok(counts) ==> {
            &&& counts@.len() == label_order(labels@).len()
            &&& forall|c: int| 0 <= c < counts@.len() ==> #[trigger] counts@[c] == root_count(graph.edges@, labels@, c as usize, labels@.len() as int)
        },
{
    if labels.len() != graph.tokens.len() {
        return Err(AssignmentError::IncompleteAssignments);
    }
    let n = labels.len();
    let roots = component_roots(graph, labels);
    let (canonical, count) = canonical_with_count(labels);
    let ghost edges = graph.edges@;
    let ghost lab = labels@;
    let mut counts: Vec<usize> = Vec::new();
    let mut c: usize = 0;
    while c < count
        invariant
            c <= count,
            counts@.len() == c,
            forall|d: int| 0 <= d < c ==> #[trigger] counts@[d] == 0,
        decreases count - c,
    {
        counts.push(0);
        c = c + 1;
    }
    let mut i: usize = 0;
    while i < n
        invariant
            n == lab.len(),
            lab == labels@,
            edges == graph.edges@,
            roots@.len() == n,
            forall|v: int| 0 <= v < n ==> #[trigger] roots_spec(edges, lab, roots@, v),
            canonical@ == canonical_labels(lab),
            count == label_order(lab).len(),
            forall|v: int| 0 <= v < n ==> canonical@[v] < count,
            i <= n,
            counts@.len() == count,
            forall|d: int| 0 <= d < count ==> #[trigger] counts@[d] == root_count(edges, lab, d as usize, i as int),
        decreases n - i,
    {
        proof {
            assert(roots_spec(edges, lab, roots@, i as int));
            lemma_connected_refl(edges, lab, i as int);
            if is_root(edges, lab, i as int) {
                if roots@[i as int] < i {
                    assert(connected(edges, lab, roots@[i as int] as int, i as int));
                }
            }
            assert forall|d: int| 0 <= d < count implies #[trigger] root_count(edges, lab, d as usize, i + 1) == root_count(edges, lab, d as usize, i as int) + (if canonical@[i as int] == d && is_root(edges, lab, i as int) { 1nat } else { 0nat }) by {}
        }
        if roots[i] == i {
            let d = canonical[i];
            proof {
                lemma_root_count_bound(edges, lab, d, i as int);
            }
            counts.set(d, counts[d] + 1);
        }
        i = i + 1;
    }
    Ok(counts)
}


/// The least token connected to `i`, searching upwards from `k`.
proof fn lemma_least_connected(edges: Seq<Edge>, labels: Seq<usize>, i: int, k: int) -> (r: int)
    requires
        0 <= k <= i < labels.len(),
        forall|j: int| 0 <= j < k ==> !#[trigger] connected(edges, labels, j, i),
    ensures
        0 <= r <= i,
        connected(edges, labels, r, i),
        forall|j: int| 0 <= j < r ==> !#[trigger] connected(edges, labels, j, i),
    decreases i - k,
{
    if connected(edges, labels, k, i) {
        k
    } else if k == i {
        lemma_connected_refl(edges, labels, i);
        i
    } else {
        lemma_least_connected(edges, labels, i, k + 1)
    }
}

/// Two distinct roots of community `c` below `m` make `root_count` at least two.
proof fn lemma_two_roots(edges: Seq<Edge>, labels: Seq<usize>, c: usize, r1: int, r2: int, m: int)
    requires
        0 <= r1 < r2 < m,
        canonical_labels(labels)[r1] == c,
        canonical_labels(labels)[r2] == c,
        is_root(edges, labels, r1),
        is_root(edges, labels, r2),
    ensures
        root_count(edges, labels, c, m) >= 2,
    decreases m,
{
    if r2 < m - 1 {
        lemma_two_roots(edges, labels, c, r1, r2, m - 1);
    } else {
        lemma_one_root(edges, labels, c, r1, m - 1);
    }
}

proof fn lemma_one_root(edges: Seq<Edge>, labels: Seq<usize>, c: usize, r: int, m: int)
    requires
        0 <= r < m,
        canonical_labels(labels)[r] == c,
        is_root(edges, labels, r),
    ensures
        root_count(edges, labels, c, m) >= 1,
    decreases m,
{
    if r < m - 1 {
        lemma_one_root(edges, labels, c, r, m - 1);
    }
}

/// A community that induces a single component is connected: any two of its
/// tokens are joined by a walk that stays inside the community.
pub proof fn law_single_component_connected(edges: Seq<Edge>, labels: Seq<usize>, c: usize, i: int, j: int)
    requires
        labels.len() <= usize::MAX,
        root_count(edges, labels, c, labels.len() as int) == 1,
        0 <= i < labels.len(),
        0 <= j < labels.len(),
        canonical_labels(labels)[i] == c,
        canonical_labels(labels)[j] == c,
    ensures
        connected(edges, labels, i, j),
{
    let ri = lemma_least_connected(edges, labels, i, 0);
    let rj = lemma_least_connected(edges, labels, j, 0);
    assert forall|k: int| 0 <= k < ri implies !#[trigger] connected(edges, labels, k, ri) by {
        if connected(edges, labels, k, ri) {
            law_connected_transitive(edges, labels, k, ri, i);
        }
    }
    assert forall|k: int| 0 <= k < rj implies !#[trigger] connected(edges, labels, k, rj) by {
        if connected(edges, labels, k, rj) {
            law_connected_transitive(edges, labels, k, rj, j);
        }
    }
    lemma_connected_same_label(edges, labels, ri, i);
    lemma_connected_same_label(edges, labels, rj, j);
    crate::partition::law_canonical_same_partition(labels, ri, i);
    crate::partition::law_canonical_same_partition(labels, rj, j);
    if ri < rj {
        lemma_two_roots(edges, labels, c, ri, rj, labels.len() as int);
    } else if rj < ri {
        lemma_two_roots(edges, labels, c, rj, ri, labels.len() as int);
    }
    law_connected_symmetric(edges, labels, ri, i);
    law_connected_transitive(edges, labels, i, ri, j);
}

/// One label for every token: plain connectivity.
pub open spec fn one_community(n: nat) -> Seq<usize> {
    Seq::new(n, |i: int| 0usize)
}

/// Number of tokens below `m` connected to `r`.
pub open spec fn component_size(edges: Seq<Edge>, labels: Seq<usize>, r: int, m: int) -> nat
    decreases m,
{
    if m <= 0 {
        0
    } else {
        component_size(edges, labels, r, m - 1) + if connected(edges, labels, r, m - 1) { 1nat } else { 0nat }
    }
}

proof fn lemma_root_iff(edges: Seq<Edge>, labels: Seq<usize>, roots: Seq<usize>, r: int)
    requires
        0 <= r < labels.len(),
        roots.len() == labels.len(),
        forall|v: int| 0 <= v < labels.len() ==> #[trigger] roots_spec(edges, labels, roots, v),
    ensures
        (roots[r] == r) == is_root(edges, labels, r),
        roots[r] == r ==> forall|v: int| 0 <= v < labels.len() ==> ((roots[v] == r) == connected(edges, labels, r, v)),
{
    assert(roots_spec(edges, labels, roots, r));
    if roots[r] == r {
        assert forall|j: int| 0 <= j < r implies !#[trigger] connected(edges, labels, j, r) by {
            if connected(edges, labels, j, r) {
                assert(roots[r] <= j);
            }
        }
        assert forall|v: int| 0 <= v < labels.len() implies ((roots[v] == r) == connected(edges, labels, r, v)) by {
            assert(roots_spec(edges, labels, roots, v));
            if roots[v] == r {
            }
            if connected(edges, labels, r, v) {
                assert(roots[v] <= r);
                law_connected_symmetric(edges, labels, roots[v] as int, v);
                law_connected_transitive(edges, labels, r, v, roots[v] as int);
                law_connected_symmetric(edges, labels, r, roots[v] as int);
                if roots[v] < r {
                    assert(!connected(edges, labels, roots[v] as int, r));
                }
            }
        }
    } else {
        assert(roots[r] < r);
        assert(connected(edges, labels, roots[r] as int, r));
    }
}

proof fn lemma_size_by_roots(edges: Seq<Edge>, labels: Seq<usize>, roots: Seq<usize>, r: usize, m: int)
    requires
        0 <= m <= labels.len(),
        roots.len() == labels.len(),
        r < labels.len(),
        forall|v: int| 0 <= v < labels.len() ==> ((roots[v] == r) == connected(edges, labels, r as int, v)),
    ensures
        occurrences(roots.take(m), r) == component_size(edges, labels, r as int, m),
    decreases m,
{
    if m > 0 {
        assert(roots.take(m).drop_last() =~= roots.take(m - 1));
        assert(roots.take(m).last() == roots[m - 1]);
        assert((roots[m - 1] == r) == connected(edges, labels, r as int, m - 1));
        lemma_size_by_roots(edges, labels, roots, r, m - 1);
    }
}

/// The connected components of a graph: each one's least token and size, by
/// increasing least token.
pub fn graph_components(graph: &Graph) -> (result: Vec<(usize, usize)>)
    requires
        graph.edges_in_range(),
    ensures
        forall|a: int, b: int| 0 <= a < b < result@.len() ==> (#[trigger] result@[a]).0 < (#[trigger] result@[b]).0,
        forall|k: int| 0 <= k < result@.len() ==> {
            let r = (#[trigger] result@[k]).0 as int;
            &&& 0 <= r < graph.tokens@.len()
            &&& is_root(graph.edges@, one_community(graph.tokens@.len()), r)
            &&& result@[k].1 == component_size(graph.edges@, one_community(graph.tokens@.len()), r, graph.tokens@.len() as int)
        },
        forall|r: int| 0 <= r < graph.tokens@.len() && is_root(graph.edges@, one_community(graph.tokens@.len()), r)
            ==> exists|k: int| 0 <= k < result@.len() && (#[trigger] result@[k]).0 == r,
{
    let n = graph.tokens.len();
    let ghost lab = one_community(n as nat);
    let ghost edges = graph.edges@;
    let mut labels: Vec<usize> = Vec::new();
    let mut i: usize = 0;
    while i < n
        invariant
            i <= n,
            labels@ == Seq::new(i as nat, |q: int| 0usize),
        decreases n - i,
    {
        labels.push(0);
        i = i + 1;
        assert(labels@ =~= Seq::new(i as nat, |q: int| 0usize));
    }
    assert(labels@ =~= lab);
    let roots = component_roots(graph, &labels);
    let ghost rs = roots@;
    proof {
        assert forall|w: int| 0 <= w < n implies #[trigger] rs[w] < n by {
            assert(roots_spec(edges, lab, rs, w));
        }
    }
    let mut sizes: Vec<usize> = Vec::new();
    let mut j: usize = 0;
    while j < n
        invariant
            j <= n,
            sizes@.len() == j,
            forall|q: int| 0 <= q < j ==> #[trigger] sizes@[q] == 0,
        decreases n - j,
    {
        sizes.push(0);
        j = j + 1;
    }
    let mut v: usize = 0;
    while v < n
        invariant
            n == rs.len(),
            rs == roots@,
            forall|w: int| 0 <= w < n ==> #[trigger] rs[w] < n,
            v <= n,
            sizes@.len() == n,
            forall|q: int| 0 <= q < n ==> #[trigger] sizes@[q] == occurrences(rs.take(v as int), q as usize),
        decreases n - v,
    {
        let r = roots[v];
        proof {
            assert(rs.take(v + 1).drop_last() =~= rs.take(v as int));
            crate::tally::lemma_occurrences_bounded(rs.take(v as int), r);
        }
        sizes.set(r, sizes[r] + 1);
        v = v + 1;
    }
    proof {
        assert(rs.take(n as int) =~= rs);
    }
    let mut result: Vec<(usize, usize)> = Vec::new();
    let mut r: usize = 0;
    while r < n
        invariant
            n == rs.len(),
            n == lab.len(),
            rs == roots@,
            lab == labels@,
            n == graph.tokens@.len(),
            edges == graph.edges@,
            forall|w: int| 0 <= w < n ==> #[trigger] roots_spec(edges, lab, rs, w),
            sizes@.len() == n,
            forall|q: int| 0 <= q < n ==> #[trigger] sizes@[q] == occurrences(rs, q as usize),
            r <= n,
            forall|a: int, b: int| 0 <= a < b < result@.len() ==> (#[trigger] result@[a]).0 < (#[trigger] result@[b]).0,
            forall|k: int| 0 <= k < result@.len() ==> (#[trigger] result@[k]).0 < r,
            forall|k: int| 0 <= k < result@.len() ==> {
                let q = (#[trigger] result@[k]).0 as int;
                &&& 0 <= q < n
                &&& is_root(edges, lab, q)
                &&& result@[k].1 == component_size(edges, lab, q, n as int)
            },
            forall|q: int| 0 <= q < r && is_root(edges, lab, q) ==> exists|k: int| 0 <= k < result@.len() && (#[trigger] result@[k]).0 == q,
        decreases n - r,
    {
        let ghost before = result@;
        proof {
            lemma_root_iff(edges, lab, rs, r as int);
        }
        if roots[r] == r {
            proof {
                lemma_size_by_roots(edges, lab, rs, r, n as int);
                assert(rs.take(n as int) =~= rs);
            }
            result.push((r, sizes[r]));
            proof {
                assert forall|q: int| 0 <= q < r + 1 && is_root(edges, lab, q) implies exists|k: int| 0 <= k < result@.len() && (#[trigger] result@[k]).0 == q by {
                    if q < r {
                        let k = choose|k: int| 0 <= k < before.len() && (#[trigger] before[k]).0 == q;
                        assert(result@[k].0 == q);
                    } else {
                        assert(result@[before.len() as int].0 == q);
                    }
                }
            }
        } else {
            proof {
                assert forall|q: int| 0 <= q < r + 1 && is_root(edges, lab, q) implies exists|k: int| 0 <= k < result@.len() && (#[trigger] result@[k]).0 == q by {
                    if q == r {
                        assert(!is_root(edges, lab, q));
                    }
                }
            }
        }
        r = r + 1;
    }
    result
}

} // verus!
