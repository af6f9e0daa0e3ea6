//! Overlap of two graphs' edge sets, with edges compared by the names of the
//! tokens they join (the graphs may number their tokens differently).
use vstd::prelude::*;
use crate::graph::{pair_less, Graph};
use crate::order::{lemma_chars_less_irreflexive, lemma_chars_less_total, lemma_chars_less_transitive};
use crate::text::{chars_less, str_eq, str_less};

verus! {

/// The names of the tokens that edge `e` of `g` joins.
pub open spec fn edge_names(g: Graph, e: int) -> (Seq<char>, Seq<char>) {
    (g.tokens@[g.edges@[e].u as int]@, g.tokens@[g.edges@[e].v as int]@)
}

/// Whether some edge of `g` joins the tokens named `p`.
pub open spec fn has_named_edge(g: Graph, p: (Seq<char>, Seq<char>)) -> bool {
    exists|f: int| 0 <= f < g.edges@.len() && #[trigger] edge_names(g, f) == p
}

/// How many of the first `m` edges of `a` also join the same names in `b`.
pub open spec fn common_edges(a: Graph, b: Graph, m: int) -> nat
    decreases m,
{
    if m <= 0 {
        0
    } else {
        common_edges(a, b, m - 1) + if has_named_edge(b, edge_names(a, m - 1)) { 1nat } else { 0nat }
    }
}

/// Lexicographic order on name pairs.
pub open spec fn names_less(p: (Seq<char>, Seq<char>), q: (Seq<char>, Seq<char>)) -> bool {
    chars_less(p.0, q.0) || (p.0 == q.0 && chars_less(p.1, q.1))
}

proof fn lemma_names_less_transitive(p: (Seq<char>, Seq<char>), q: (Seq<char>, Seq<char>), r: (Seq<char>, Seq<char>))
    requires
        names_less(p, q),
        names_less(q, r),
    ensures
        names_less(p, r),
{
    if chars_less(p.0, q.0) && chars_less(q.0, r.0) {
        lemma_chars_less_transitive(p.0, q.0, r.0);
    } else if p.0 == q.0 && q.0 == r.0 {
        lemma_chars_less_transitive(p.1, q.1, r.1);
    }
}

proof fn lemma_names_less_irreflexive(p: (Seq<char>, Seq<char>), q: (Seq<char>, Seq<char>))
    requires
        names_less(p, q),
    ensures
        p != q,
        !names_less(q, p),
{
    lemma_chars_less_irreflexive(p.0);
    lemma_chars_less_irreflexive(p.1);
    if names_less(q, p) {
        lemma_names_less_transitive(p, q, p);
    }
}

/// In a well-formed graph, a smaller token index means a smaller name.
proof fn lemma_tokens_increasing(g: Graph, x: int, y: int)
    requires
        g.tokens_sorted(),
        0 <= x < y < g.tokens@.len(),
    ensures
        chars_less(g.tokens@[x]@, g.tokens@[y]@),
    decreases y - x,
{
    if y > x + 1 {
        lemma_tokens_increasing(g, x, y - 1);
        assert(chars_less(g.tokens@[y - 1]@, g.tokens@[(y - 1) + 1]@));
        lemma_chars_less_transitive(g.tokens@[x]@, g.tokens@[y - 1]@, g.tokens@[y]@);
    } else {
        assert(chars_less(g.tokens@[x]@, g.tokens@[x + 1]@));
    }
}

/// In a well-formed graph, later edges join later name pairs.
proof fn lemma_edge_names_increasing(g: Graph, e: int, f: int)
    requires
        g.well_formed(),
        0 <= e < f < g.edges@.len(),
    ensures
        names_less(edge_names(g, e), edge_names(g, f)),
    decreases f - e,
{
    if f > e + 1 {
        lemma_edge_names_increasing(g, e, f - 1);
        lemma_edge_names_increasing(g, f - 1, f);
        lemma_names_less_transitive(edge_names(g, e), edge_names(g, f - 1), edge_names(g, f));
    } else {
        let a = g.edges@[e];
        let b = g.edges@[f];
        assert(pair_less(g.edges@[e], g.edges@[e + 1]));
        assert(a.u < a.v && a.v < g.tokens@.len());
        assert(b.u < b.v && b.v < g.tokens@.len());
        if a.u < b.u {
            lemma_tokens_increasing(g, a.u as int, b.u as int);
        } else {
            lemma_tokens_increasing(g, a.v as int, b.v as int);
        }
    }
}

/// Where one name pair lies relative to another.
#[derive(Clone, Copy, Debug, PartialEq, Eq, Structural)]
pub enum Placement {
    Before,
    Same,
    After,
}

fn place(a0: &str, a1: &str, b0: &str, b1: &str) -> (result: Placement)
    ensures
        result == Placement::Before <==> names_less((a0@, a1@), (b0@, b1@)),
        result == Placement::Same <==> (a0@, a1@) == (b0@, b1@),
        result == Placement::After <==> names_less((b0@, b1@), (a0@, a1@)),
{
    proof {
        lemma_chars_less_total(a0@, b0@);
        lemma_chars_less_total(a1@, b1@);
        lemma_chars_less_irreflexive(a0@);
        lemma_chars_less_irreflexive(a1@);
        if chars_less(a0@, b0@) && chars_less(b0@, a0@) {
            lemma_chars_less_transitive(a0@, b0@, a0@);
        }
        if chars_less(a1@, b1@) && chars_less(b1@, a1@) {
            lemma_chars_less_transitive(a1@, b1@, a1@);
        }
    }
    if str_less(a0, b0) {
        Placement::Before
    } else if !str_eq(a0, b0) {
        Placement::After
    } else if str_less(a1, b1) {
        Placement::Before
    } else if str_eq(a1, b1) {
        Placement::Same
    } else {
        Placement::After
    }
}

proof fn lemma_rest_absent(a: Graph, b: Graph, i: int, m: int)
    requires
        a.well_formed(),
        0 <= i <= m <= a.edges@.len(),
        i < a.edges@.len() ==> forall|f: int| 0 <= f < b.edges@.len() ==> names_less(#[trigger] edge_names(b, f), edge_names(a, i)),
    ensures
        common_edges(a, b, m) == common_edges(a, b, i),
    decreases m - i,
{
    if m > i {
        lemma_rest_absent(a, b, i, m - 1);
        let p = edge_names(a, m - 1);
        if has_named_edge(b, p) {
            let f = choose|f: int| 0 <= f < b.edges@.len() && #[trigger] edge_names(b, f) == p;
            if m - 1 > i {
                lemma_edge_names_increasing(a, i, m - 1);
                lemma_names_less_transitive(edge_names(b, f), edge_names(a, i), p);
            }
            lemma_names_less_irreflexive(edge_names(b, f), p);
        }
    }
}

/// Edges of `left` whose token names `right` also joins, and the size of the
/// union of both edge sets (by names).
pub fn edge_overlap_counts(left: &Graph, right: &Graph) -> (result: (usize, usize))
    requires
        left.well_formed(),
        right.well_formed(),
        left.edges@.len() + right.edges@.len() <= usize::MAX,
    ensures
        result.0 == common_edges(*left, *right, left.edges@.len() as int),
        result.1 == left.edges@.len() + right.edges@.len() - result.0,
{
    let m = left.edges.len();
    let p = right.edges.len();
    let mut i: usize = 0;
    let mut j: usize = 0;
    let mut count: usize = 0;
    while i < m && j < p
        invariant
            left.well_formed(),
            right.well_formed(),
            m == left.edges@.len(),
            p == right.edges@.len(),
            i <= m,
            j <= p,
            count == common_edges(*left, *right, i as int),
            count <= i,
            i < m ==> forall|f: int| 0 <= f < j ==> names_less(#[trigger] edge_names(*right, f), edge_names(*left, i as int)),
        decreases (m - i) + (p - j),
    {
        let a = left.edges[i];
        let b = right.edges[j];
        let here = place(
            left.tokens[a.u].as_str(),
            left.tokens[a.v].as_str(),
            right.tokens[b.u].as_str(),
            right.tokens[b.v].as_str(),
        );
        let ghost x = edge_names(*left, i as int);
        let ghost y = edge_names(*right, j as int);
        proof {
            assert(x == (left.tokens@[a.u as int]@, left.tokens@[a.v as int]@));
            assert(y == (right.tokens@[b.u as int]@, right.tokens@[b.v as int]@));
        }
        match here {
            Placement::Same => {
                proof {
                    assert(has_named_edge(*right, x));
                    if i + 1 < m {
                        lemma_edge_names_increasing(*left, i as int, i + 1);
                        assert forall|f: int| 0 <= f < j + 1 implies names_less(#[trigger] edge_names(*right, f), edge_names(*left, i + 1)) by {
                            if f < j {
                                lemma_names_less_transitive(edge_names(*right, f), x, edge_names(*left, i + 1));
                            }
                        }
                    }
                }
                count = count + 1;
                i = i + 1;
                j = j + 1;
            },
            Placement::Before => {
                proof {
                    if has_named_edge(*right, x) {
                        let f = choose|f: int| 0 <= f < p && #[trigger] edge_names(*right, f) == x;
                        if f < j {
                            lemma_names_less_irreflexive(edge_names(*right, f), x);
                        } else {
                            if f > j {
                                lemma_edge_names_increasing(*right, j as int, f);
                                lemma_names_less_transitive(x, y, edge_names(*right, f));
                            }
                            lemma_names_less_irreflexive(x, edge_names(*right, f));
                        }
                    }
                    if i + 1 < m {
                        lemma_edge_names_increasing(*left, i as int, i + 1);
                        assert forall|f: int| 0 <= f < j implies names_less(#[trigger] edge_names(*right, f), edge_names(*left, i + 1)) by {
                            lemma_names_less_transitive(edge_names(*right, f), x, edge_names(*left, i + 1));
                        }
                    }
                }
                i = i + 1;
            },
            Placement::After => {
                j = j + 1;
            },
        }
    }
    proof {
        if i < m {
            assert(j == p);
        }
        lemma_rest_absent(*left, *right, i as int, m as int);
    }
    (count, m + p - count)
}

/// The name pairs of the first `m` edges of `g`.
pub open spec fn edge_name_set(g: Graph, m: int) -> Set<(Seq<char>, Seq<char>)> {
    Set::new(|p: (Seq<char>, Seq<char>)| exists|e: int| 0 <= e < m && #[trigger] edge_names(g, e) == p)
}

proof fn lemma_edge_name_set(a: Graph, b: Graph, m: int)
    requires
        a.well_formed(),
        b.well_formed(),
        0 <= m <= a.edges@.len(),
    ensures
        edge_name_set(a, m).finite(),
        edge_name_set(a, m).len() == m,
        common_edges(a, b, m) == edge_name_set(a, m).intersect(edge_name_set(b, b.edges@.len() as int)).len(),
    decreases m,
{
    broadcast use vstd::set::group_set_axioms;
    let sb = edge_name_set(b, b.edges@.len() as int);
    if m == 0 {
        assert(edge_name_set(a, 0) =~= Set::empty());
        assert(edge_name_set(a, 0).intersect(sb) =~= Set::empty());
    } else {
        lemma_edge_name_set(a, b, m - 1);
        let x = edge_names(a, m - 1);
        let before = edge_name_set(a, m - 1);
        assert(edge_name_set(a, m) =~= before.insert(x));
        assert(!before.contains(x)) by {
            if before.contains(x) {
                let e = choose|e: int| 0 <= e < m - 1 && #[trigger] edge_names(a, e) == x;
                lemma_edge_names_increasing(a, e, m - 1);
                lemma_names_less_irreflexive(edge_names(a, e), x);
            }
        }
        let inter = before.intersect(sb);
        assert(inter.finite()) by {
            vstd::set_lib::lemma_len_intersect(before, sb);
        }
        assert(!inter.contains(x));
        if has_named_edge(b, x) {
            assert(sb.contains(x));
            assert(edge_name_set(a, m).intersect(sb) =~= inter.insert(x));
        } else {
            assert(!sb.contains(x));
            assert(edge_name_set(a, m).intersect(sb) =~= inter);
        }
    }
}

/// Edge overlap counts what the two graphs' edge sets share: the common count
/// is the size of the intersection of the sets of joined name pairs, and the
/// union count the size of their union.
pub proof fn law_overlap_counts_sets(a: Graph, b: Graph)
    requires
        a.well_formed(),
        b.well_formed(),
    ensures
        common_edges(a, b, a.edges@.len() as int) == edge_name_set(a, a.edges@.len() as int).intersect(
            edge_name_set(b, b.edges@.len() as int)).len(),
        a.edges@.len() + b.edges@.len() - common_edges(a, b, a.edges@.len() as int) == edge_name_set(
            a, a.edges@.len() as int).union(edge_name_set(b, b.edges@.len() as int)).len(),
{
    lemma_edge_name_set(a, b, a.edges@.len() as int);
    lemma_edge_name_set(b, a, b.edges@.len() as int);
    vstd::set_lib::lemma_set_intersect_union_lens(
        edge_name_set(a, a.edges@.len() as int),
        edge_name_set(b, b.edges@.len() as int),
    );
}

/// Edge overlap is symmetric: each graph shares as many edges with the other.
pub proof fn law_overlap_symmetric(a: Graph, b: Graph)
    requires
        a.well_formed(),
        b.well_formed(),
    ensures
        common_edges(a, b, a.edges@.len() as int) == common_edges(b, a, b.edges@.len() as int),
{
    law_overlap_counts_sets(a, b);
    law_overlap_counts_sets(b, a);
    let sa = edge_name_set(a, a.edges@.len() as int);
    let sb = edge_name_set(b, b.edges@.len() as int);
    assert(sa.intersect(sb) =~= sb.intersect(sa));
}

} // verus!
