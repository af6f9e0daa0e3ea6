//! Undirected vocabulary graph structure. Edge weights are real numbers and
//! stay beside this structure (edge `e` owns weight `e` of the caller's list);
//! everything here is about which tokens an edge joins.
use vstd::prelude::*;
use crate::text::{chars_less, graph_token, str_less, valid_graph_token};

verus! {

/// An undirected edge between token indices `u` and `v`.
#[derive(Clone, Copy, Debug, PartialEq, Eq)]
pub struct Edge {
    pub u: usize,
    pub v: usize,
}

/// Tokens (node names, by index) and the edges between them.
#[derive(Clone, Debug)]
pub struct Graph {
    pub tokens: Vec<String>,
    pub edges: Vec<Edge>,
}

/// Why a graph is not a well-formed vocabulary graph.
#[derive(Clone, Copy, Debug, PartialEq, Eq)]
pub enum GraphError {
    /// No tokens at all.
    Empty,
    /// Tokens are not strictly increasing (duplicated or unsorted).
    UnsortedTokens,
    /// A token is empty or holds a character XML cannot carry.
    InvalidToken,
    /// An edge is a self loop, is not written with `u < v`, or leaves the token range.
    InvalidEdge,
    /// Edges are duplicated or not sorted by `(u, v)`.
    UnorderedEdges,
    /// An edge's weight is not usable (as its caller judged it).
    InvalidWeight,
}

pub open spec fn pair_less(a: Edge, b: Edge) -> bool {
    a.u < b.u || (a.u == b.u && a.v < b.v)
}

impl Graph {
    pub open spec fn node_count(&self) -> nat {
        self.tokens@.len()
    }

    /// Every edge names two tokens of the graph.
    pub open spec fn edges_in_range(&self) -> bool {
        forall|e: int| 0 <= e < self.edges@.len() ==> #[trigger] self.edges@[e].u < self.tokens@.len()
            && self.edges@[e].v < self.tokens@.len()
    }

    pub open spec fn tokens_sorted(&self) -> bool {
        forall|i: int|
            0 <= i < self.tokens@.len() - 1 ==> chars_less(
                #[trigger] self.tokens@[i]@,
                self.tokens@[i + 1]@,
            )
    }

    pub open spec fn tokens_valid(&self) -> bool {
        forall|i: int| 0 <= i < self.tokens@.len() ==> graph_token(#[trigger] self.tokens@[i]@)
    }

    pub open spec fn edges_canonical(&self) -> bool {
        forall|e: int|
            0 <= e < self.edges@.len() ==> #[trigger] self.edges@[e].u < self.edges@[e].v
                && self.edges@[e].v < self.tokens@.len()
    }

    pub open spec fn edges_sorted(&self) -> bool {
        forall|e: int|
            0 <= e < self.edges@.len() - 1 ==> pair_less(#[trigger] self.edges@[e], self.edges@[e + 1])
    }

    /// Edge `f` lies in range with `u < v`, and after its predecessor.
    pub open spec fn edge_in_order(&self, f: int) -> bool {
        &&& self.edges@[f].u < self.edges@[f].v
        &&& self.edges@[f].v < self.tokens@.len()
        &&& (f == 0 || pair_less(self.edges@[f - 1], self.edges@[f]))
    }

    /// Every edge before `e` is in range and in order.
    pub open spec fn edges_in_order_before(&self, e: int) -> bool {
        forall|f: int| 0 <= f < e ==> #[trigger] self.edge_in_order(f)
    }

    /// The structural conditions `validate` checks.
    pub open spec fn well_formed(&self) -> bool {
        &&& self.tokens@.len() > 0
        &&& self.tokens_sorted()
        &&& self.tokens_valid()
        &&& self.edges_canonical()
        &&& self.edges_sorted()
    }

    /// The token rules, in order: nonempty, sorted, valid.
    fn check_tokens(&self) -> (result: Result<(), GraphError>)
        ensures
            result is Ok <==> (self.tokens@.len() > 0 && self.tokens_sorted() && self.tokens_valid()),
            result == Err::<(), GraphError>(GraphError::Empty) <==> self.tokens@.len() == 0,
            result == Err::<(), GraphError>(GraphError::UnsortedTokens) <==> (self.tokens@.len() > 0
                && !self.tokens_sorted()),
            result == Err::<(), GraphError>(GraphError::InvalidToken) <==> (self.tokens@.len() > 0
                && self.tokens_sorted() && !self.tokens_valid()),
            result is Err ==> (result == Err::<(), GraphError>(GraphError::Empty) || result == Err::<(), GraphError>(GraphError::UnsortedTokens)
                || result == Err::<(), GraphError>(GraphError::InvalidToken)),
    {
        let n = self.tokens.len();
        if n == 0 {
            return Err(GraphError::Empty);
        }
        let mut i: usize = 0;
        while i + 1 < n
            invariant
                n == self.tokens@.len(),
                i < n,
                forall|j: int| 0 <= j < i ==> chars_less(#[trigger] self.tokens@[j]@, self.tokens@[j + 1]@),
            decreases n - i,
        {
            if !str_less(self.tokens[i].as_str(), self.tokens[i + 1].as_str()) {
                return Err(GraphError::UnsortedTokens);
            }
            i = i + 1;
        }
        let mut i: usize = 0;
        while i < n
            invariant
                n == self.tokens@.len(),
                self.tokens_sorted(),
                i <= n,
                forall|j: int| 0 <= j < i ==> graph_token(#[trigger] self.tokens@[j]@),
            decreases n - i,
        {
            if !valid_graph_token(self.tokens[i].as_str()) {
                return Err(GraphError::InvalidToken);
            }
            i = i + 1;
        }
        Ok(())
    }

    /// Check the structure of the graph, reporting the first violated rule in
    /// the order: nonempty, sorted tokens, valid tokens, edge ranges/order.
    pub fn validate(&self) -> (result: Result<(), GraphError>)
        ensures
            result is Ok <==> self.well_formed(),
            result == Err::<(), GraphError>(GraphError::Empty) <==> self.tokens@.len() == 0,
            result == Err::<(), GraphError>(GraphError::UnsortedTokens) <==> (self.tokens@.len() > 0
                && !self.tokens_sorted()),
            result == Err::<(), GraphError>(GraphError::InvalidToken) <==> (self.tokens@.len() > 0
                && self.tokens_sorted() && !self.tokens_valid()),
            (result == Err::<(), GraphError>(GraphError::InvalidEdge) || result == Err::<(), GraphError>(GraphError::UnorderedEdges))
                <==> (self.tokens@.len() > 0 && self.tokens_sorted() && self.tokens_valid() && !(
            self.edges_canonical() && self.edges_sorted())),
            result == Err::<(), GraphError>(GraphError::InvalidEdge) ==> exists|e: int| 0 <= e < self.edges@.len()
                && #[trigger] self.edges_in_order_before(e) && !(self.edges@[e].u < self.edges@[e].v && self.edges@[e].v < self.tokens@.len()),
            result == Err::<(), GraphError>(GraphError::UnorderedEdges) ==> exists|e: int| 0 < e < self.edges@.len()
                && #[trigger] self.edges_in_order_before(e) && self.edges@[e].u < self.edges@[e].v && self.edges@[e].v < self.tokens@.len()
                && !pair_less(self.edges@[e - 1], self.edges@[e]),
    {
        let n = self.tokens.len();
        match self.check_tokens() {
            Err(error) => return Err(error),
            Ok(()) => {},
        }
        let m = self.edges.len();
        let mut e: usize = 0;
        while e < m
            invariant
                n == self.tokens@.len(),
                n > 0,
                m == self.edges@.len(),
                self.tokens_sorted(),
                self.tokens_valid(),
                e <= m,
                forall|f: int| 0 <= f < e ==> #[trigger] self.edges@[f].u < self.edges@[f].v
                    && self.edges@[f].v < n,
                forall|f: int| 0 <= f < e - 1 ==> pair_less(#[trigger] self.edges@[f], self.edges@[f + 1]),
                self.edges_in_order_before(e as int),
            decreases m - e,
        {
            let edge = self.edges[e];
            if !(edge.u < edge.v && edge.v < n) {
                assert(!self.edges_canonical());
                return Err(GraphError::InvalidEdge);
            }
            if e > 0 {
                let previous = self.edges[e - 1];
                if !(previous.u < edge.u || (previous.u == edge.u && previous.v < edge.v)) {
                    assert(!pair_less(self.edges@[e - 1], self.edges@[(e - 1) + 1]));
                    return Err(GraphError::UnorderedEdges);
                }
            }
            proof {
                assert(self.edge_in_order(e as int));
                assert forall|f: int| 0 <= f < e + 1 implies #[trigger] self.edge_in_order(f) by {
                    if f < e {
                        assert(self.edges_in_order_before(e as int));
                    }
                }
            }
            e = e + 1;
        }
        Ok(())
    }

    /// Every edge before `e` has a usable weight.
    pub open spec fn weights_ok_before(weight_ok: Seq<bool>, e: int) -> bool {
        forall|f: int| 0 <= f < e ==> #[trigger] weight_ok[f]
    }

    /// Check the structure with the callers' verdicts on the edge weights
    /// (`weight_ok[e]` says whether edge `e`'s weight is usable), reporting the
    /// first violated rule: the token rules, then edge by edge its range, its
    /// weight and its order after the previous edge.
    pub fn validate_weighted(&self, weight_ok: &Vec<bool>) -> (result: Result<(), GraphError>)
        requires
            weight_ok@.len() == self.edges@.len(),
        ensures
            result is Ok <==> (self.well_formed() && Self::weights_ok_before(weight_ok@, weight_ok@.len() as int)),
            result == Err::<(), GraphError>(GraphError::Empty) <==> self.tokens@.len() == 0,
            result == Err::<(), GraphError>(GraphError::UnsortedTokens) <==> (self.tokens@.len() > 0
                && !self.tokens_sorted()),
            result == Err::<(), GraphError>(GraphError::InvalidToken) <==> (self.tokens@.len() > 0
                && self.tokens_sorted() && !self.tokens_valid()),
            result == Err::<(), GraphError>(GraphError::InvalidEdge) ==> exists|e: int| 0 <= e < self.edges@.len()
                && #[trigger] self.edges_in_order_before(e) && Self::weights_ok_before(weight_ok@, e)
                && !(self.edges@[e].u < self.edges@[e].v && self.edges@[e].v < self.tokens@.len()),
            result == Err::<(), GraphError>(GraphError::InvalidWeight) ==> exists|e: int| 0 <= e < self.edges@.len()
                && #[trigger] self.edges_in_order_before(e) && Self::weights_ok_before(weight_ok@, e)
                && self.edges@[e].u < self.edges@[e].v && self.edges@[e].v < self.tokens@.len() && !weight_ok@[e],
            result == Err::<(), GraphError>(GraphError::UnorderedEdges) ==> exists|e: int| 0 < e < self.edges@.len()
                && #[trigger] self.edges_in_order_before(e) && Self::weights_ok_before(weight_ok@, e + 1)
                && self.edges@[e].u < self.edges@[e].v && self.edges@[e].v < self.tokens@.len()
                && !pair_less(self.edges@[e - 1], self.edges@[e]),
    {
        let n = self.tokens.len();
        match self.check_tokens() {
            Err(error) => return Err(error),
            Ok(()) => {},
        }
        let m = self.edges.len();
        let mut e: usize = 0;
        while e < m
            invariant
                n == self.tokens@.len(),
                n > 0,
                m == self.edges@.len(),
                weight_ok@.len() == m,
                self.tokens_sorted(),
                self.tokens_valid(),
                e <= m,
                forall|f: int| 0 <= f < e ==> #[trigger] self.edges@[f].u < self.edges@[f].v
                    && self.edges@[f].v < n,
                forall|f: int| 0 <= f < e - 1 ==> pair_less(#[trigger] self.edges@[f], self.edges@[f + 1]),
                self.edges_in_order_before(e as int),
                Self::weights_ok_before(weight_ok@, e as int),
            decreases m - e,
        {
            let edge = self.edges[e];
            if !(edge.u < edge.v && edge.v < n) {
                return Err(GraphError::InvalidEdge);
            }
            if !weight_ok[e] {
                return Err(GraphError::InvalidWeight);
            }
            if e > 0 {
                let previous = self.edges[e - 1];
                if !(previous.u < edge.u || (previous.u == edge.u && previous.v < edge.v)) {
                    assert(!pair_less(self.edges@[e - 1], self.edges@[(e - 1) + 1]));
                    return Err(GraphError::UnorderedEdges);
                }
            }
            proof {
                assert(self.edge_in_order(e as int));
                assert forall|f: int| 0 <= f < e + 1 implies #[trigger] self.edge_in_order(f) by {
                    if f < e {
                        assert(self.edges_in_order_before(e as int));
                    }
                }
            }
            e = e + 1;
        }
        Ok(())
    }

    /// Number of edge endpoints at each token (a self loop counts twice).
    pub fn degrees(&self) -> (result: Vec<usize>)
        requires
            self.edges_in_range(),
            self.edges@.len() <= usize::MAX / 2,
        ensures
            result@.len() == self.tokens@.len(),
            forall|x: int| 0 <= x < self.tokens@.len() ==> #[trigger] result@[x] == degree(self.edges@, x),
    {
        let n = self.tokens.len();
        let mut result: Vec<usize> = Vec::new();
        let mut x: usize = 0;
        while x < n
            invariant
                x <= n,
                result@.len() == x,
                forall|y: int| 0 <= y < x ==> #[trigger] result@[y] == 0,
            decreases n - x,
        {
            result.push(0);
            x = x + 1;
        }
        let m = self.edges.len();
        let mut e: usize = 0;
        while e < m
            invariant
                n == self.tokens@.len(),
                m == self.edges@.len(),
                m <= usize::MAX / 2,
                self.edges_in_range(),
                e <= m,
                result@.len() == n,
                forall|y: int| 0 <= y < n ==> #[trigger] result@[y] == degree(self.edges@.take(e as int), y),
            decreases m - e,
        {
            let edge = self.edges[e];
            proof {
                assert(self.edges@.take(e + 1).drop_last() =~= self.edges@.take(e as int));
                assert(self.edges@.take(e + 1).last() == edge);
                lemma_degree_bound(self.edges@.take(e as int), edge.u as int);
                lemma_degree_bound(self.edges@.take(e as int), edge.v as int);
            }
            let du = result[edge.u];
            result.set(edge.u, du + 1);
            let dv = result[edge.v];
            result.set(edge.v, dv + 1);
            e = e + 1;
        }
        proof {
            assert(self.edges@.take(m as int) =~= self.edges@);
        }
        result
    }
}

/// Endpoints of `edges` at token `x`.
pub open spec fn degree(edges: Seq<Edge>, x: int) -> nat
    decreases edges.len(),
{
    if edges.len() == 0 {
        0
    } else {
        let e = edges.last();
        degree(edges.drop_last(), x) + (if e.u == x { 1nat } else { 0nat }) + (if e.v == x {
            1nat
        } else {
            0nat
        })
    }
}

proof fn lemma_degree_bound(edges: Seq<Edge>, x: int)
    ensures
        degree(edges, x) <= 2 * edges.len(),
    decreases edges.len(),
{
    if edges.len() > 0 {
        lemma_degree_bound(edges.drop_last(), x);
    }
}


/// Entries `(neighbor, edge)` contributed at token `x`, in edge order.
pub open spec fn incidences(edges: Seq<Edge>, x: int) -> Seq<(usize, usize)>
    decreases edges.len(),
{
    if edges.len() == 0 {
        Seq::empty()
    } else {
        let p = incidences(edges.drop_last(), x);
        let e = (edges.len() - 1) as usize;
        let ed = edges.last();
        let p1 = if ed.u == x {
            p.push((ed.v, e))
        } else {
            p
        };
        if ed.v == x {
            p1.push((ed.u, e))
        } else {
            p1
        }
    }
}

/// Order of adjacency entries: by neighbor, then by edge index.
pub open spec fn entry_le(a: (usize, usize), b: (usize, usize)) -> bool {
    a.0 < b.0 || (a.0 == b.0 && a.1 <= b.1)
}

pub open spec fn entries_sorted(row: Seq<(usize, usize)>) -> bool {
    forall|i: int, j: int| 0 <= i < j < row.len() ==> entry_le(#[trigger] row[i], #[trigger] row[j])
}

/// Edge `e` joins `x` and `y`.
pub open spec fn joins(edges: Seq<Edge>, e: int, x: int, y: int) -> bool {
    0 <= e < edges.len() && ((edges[e].u == x && edges[e].v == y) || (edges[e].v == x
        && edges[e].u == y))
}

pub proof fn lemma_incidences_contains(edges: Seq<Edge>, x: int, y: usize, e: usize)
    requires
        edges.len() <= usize::MAX,
    ensures
        incidences(edges, x).contains((y, e)) <==> joins(edges, e as int, x, y as int),
    decreases edges.len(),
{
    if edges.len() > 0 {
        let t = edges.drop_last();
        lemma_incidences_contains(t, x, y, e);
        let p = incidences(t, x);
        let last = (edges.len() - 1) as usize;
        assert(last as int == edges.len() - 1);
        let ed = edges.last();
        let p1 = if ed.u == x { p.push((ed.v, last)) } else { p };
        let q = incidences(edges, x);
        assert(forall|k: int| 0 <= k < p.len() ==> p1[k] == p[k]);
        assert(forall|k: int| 0 <= k < p1.len() ==> q[k] == p1[k]);
        if q.contains((y, e)) {
            let k = choose|k: int| 0 <= k < q.len() && q[k] == (y, e);
            if k < p.len() {
                assert(p.contains((y, e)));
                assert(t[e as int] == edges[e as int]);
            } else {
                assert(e == last);
            }
        }
        if joins(edges, e as int, x, y as int) {
            if e < last {
                assert(t[e as int] == edges[e as int]);
                assert(joins(t, e as int, x, y as int));
                let k = choose|k: int| 0 <= k < p.len() && p[k] == (y, e);
                assert(q[k] == (y, e));
            } else if ed.u == x && ed.v == y {
                assert(e == last);
                assert(p1[p.len() as int] == (y, e));
                assert(q[p.len() as int] == (y, e));
            } else {
                assert(e == last);
                assert(ed.v == x && ed.u == y);
                assert(q[p1.len() as int] == (y, e));
            }
        }
    }
}

fn entry_greater(a: (usize, usize), b: (usize, usize)) -> (result: bool)
    ensures
        result == !entry_le(a, b),
{
    !(a.0 < b.0 || (a.0 == b.0 && a.1 <= b.1))
}

/// Insert `t` into a sorted row, after every entry not greater than it.
fn insert_sorted(row: &mut Vec<(usize, usize)>, t: (usize, usize))
    requires
        entries_sorted(old(row)@),
    ensures
        entries_sorted(final(row)@),
        final(row)@.to_multiset() == old(row)@.to_multiset().insert(t),
{
    let mut p = row.len();
    while p > 0 && entry_greater(row[p - 1], t)
        invariant
            p <= row@.len(),
            row@ == old(row)@,
            entries_sorted(row@),
            forall|k: int| p <= k < row@.len() ==> !entry_le(#[trigger] row@[k], t),
        decreases p,
    {
        p = p - 1;
    }
    let ghost before = row@;
    row.insert(p, t);
    proof {
        broadcast use vstd::seq_lib::to_multiset_insert;
        assert(row@ == before.insert(p as int, t));
        assert forall|i: int, j: int| 0 <= i < j < row@.len() implies entry_le(#[trigger] row@[i], #[trigger] row@[j]) by {
            if j < p {
                assert(row@[i] == before[i]);
                assert(row@[j] == before[j]);
            } else if j == p {
                assert(row@[i] == before[i]);
                assert(entry_le(before[i], before[p - 1]));
            } else if i < p {
                assert(row@[i] == before[i]);
                assert(row@[j] == before[j - 1]);
            } else if i == p {
                assert(row@[j] == before[j - 1]);
            } else {
                assert(row@[i] == before[i - 1]);
                assert(row@[j] == before[j - 1]);
            }
        }
    }
}

impl Graph {
    /// Neighbor lists: for each token, its `(neighbor, edge)` entries sorted by
    /// neighbor, ties kept in edge order.
    pub fn adjacency(&self) -> (result: Vec<Vec<(usize, usize)>>)
        requires
            self.edges_in_range(),
        ensures
            result@.len() == self.tokens@.len(),
            forall|x: int| 0 <= x < self.tokens@.len() ==> entries_sorted(#[trigger] result@[x]@),
            forall|x: int|
                0 <= x < self.tokens@.len() ==> (#[trigger] result@[x]@).to_multiset() == incidences(
                    self.edges@,
                    x,
                ).to_multiset(),
    {
        let n = self.tokens.len();
        let mut result: Vec<Vec<(usize, usize)>> = Vec::new();
        let mut x: usize = 0;
        while x < n
            invariant
                x <= n,
                result@.len() == x,
                forall|y: int| 0 <= y < x ==> (#[trigger] result@[y])@.len() == 0,
            decreases n - x,
        {
            result.push(Vec::new());
            x = x + 1;
        }
        proof {
            assert forall|y: int| 0 <= y < n implies entries_sorted(#[trigger] result@[y]@) by {}
            assert forall|y: int| 0 <= y < n implies (#[trigger] result@[y]@).to_multiset() == incidences(
                self.edges@.take(0),
                y,
            ).to_multiset() by {
                broadcast use vstd::seq_lib::to_multiset_len;
                assert(result@[y]@ =~= Seq::<(usize, usize)>::empty());
            }
        }
        let m = self.edges.len();
        let mut e: usize = 0;
        while e < m
            invariant
                n == self.tokens@.len(),
                m == self.edges@.len(),
                self.edges_in_range(),
                e <= m,
                result@.len() == n,
                forall|y: int| 0 <= y < n ==> entries_sorted(#[trigger] result@[y]@),
                forall|y: int|
                    0 <= y < n ==> (#[trigger] result@[y]@).to_multiset() == incidences(
                        self.edges@.take(e as int),
                        y,
                    ).to_multiset(),
            decreases m - e,
        {
            let edge = self.edges[e];
            let ghost before = result@;
            proof {
                assert(self.edges@.take(e + 1).drop_last() =~= self.edges@.take(e as int));
                assert(self.edges@.take(e + 1).last() == edge);
            }
            insert_sorted(&mut result[edge.u], (edge.v, e));
            let ghost middle = result@;
            insert_sorted(&mut result[edge.v], (edge.u, e));
            proof {
                broadcast use vstd::seq_lib::to_multiset_build;
                assert forall|y: int| 0 <= y < n implies (#[trigger] result@[y]@).to_multiset()
                    == incidences(self.edges@.take(e + 1), y).to_multiset() by {
                    let p = incidences(self.edges@.take(e as int), y);
                    let p1 = if edge.u == y { p.push((edge.v, e)) } else { p };
                    assert(incidences(self.edges@.take(e + 1), y) == if edge.v == y {
                        p1.push((edge.u, e))
                    } else {
                        p1
                    });
                    if y == edge.u as int {
                        assert(middle[y]@.to_multiset() == p1.to_multiset());
                    } else {
                        assert(middle[y] == before[y]);
                        assert(middle[y]@.to_multiset() == p1.to_multiset());
                    }
                    if y != edge.v as int {
                        assert(result@[y] == middle[y]);
                    }
                }
                assert forall|y: int| 0 <= y < n implies entries_sorted(#[trigger] result@[y]@) by {
                    if y != edge.v as int {
                        assert(result@[y] == middle[y]);
                        if y != edge.u as int {
                            assert(middle[y] == before[y]);
                        }
                    }
                }
            }
            e = e + 1;
        }
        proof {
            assert(self.edges@.take(m as int) =~= self.edges@);
        }
        result
    }
}

} // verus!
