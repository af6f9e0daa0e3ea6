//! Contingency counts of two partitions of the same tokens: the integer core
//! of the adjusted Rand index, variation of information and best matches.
use vstd::prelude::*;
use crate::graph::{pair_less, Edge};
use crate::neighbors::{edges_nondecreasing, sort_edges};
use crate::partition::{canonical_labels, canonicalize, label_order, AssignmentError};
use crate::tally::{community_sizes, occurrences, total};

verus! {

/// Number of entries of `s` equal to `e`.
pub open spec fn pair_occurrences(s: Seq<Edge>, e: Edge) -> nat
    decreases s.len(),
{
    if s.len() == 0 {
        0
    } else {
        pair_occurrences(s.drop_last(), e) + if s.last() == e { 1nat } else { 0nat }
    }
}

/// The (left community, right community) pair of each token, by canonical labels.
pub open spec fn joint_labels(left: Seq<usize>, right: Seq<usize>) -> Seq<Edge> {
    Seq::new(left.len(), |i: int| Edge { u: canonical_labels(left)[i], v: canonical_labels(right)[i] })
}

/// Some entry of `joint` is for the pair (`x`, `y`).
pub open spec fn listed(joint: Seq<(usize, usize, usize)>, x: usize, y: usize) -> bool {
    exists|k: int| 0 <= k < joint.len() && (#[trigger] joint[k]).0 == x && joint[k].1 == y
}

/// Community sizes of both partitions and the sizes of their intersections.
#[derive(Clone, Debug)]
pub struct Contingency {
    /// Size of each canonical community on the left.
    pub left: Vec<usize>,
    /// Size of each canonical community on the right.
    pub right: Vec<usize>,
    /// (left community, right community, shared tokens) for every pair that
    /// shares a token, in (left, right) order.
    pub joint: Vec<(usize, usize, usize)>,
}

proof fn lemma_pair_occurrences_multiset(s: Seq<Edge>, e: Edge)
    ensures
        pair_occurrences(s, e) == s.to_multiset().count(e),
    decreases s.len(),
{
    broadcast use vstd::multiset::group_multiset_axioms;
    if s.len() == 0 {
        broadcast use vstd::seq_lib::group_to_multiset_ensures;
        assert(!s.contains(e));
    } else {
        lemma_pair_occurrences_multiset(s.drop_last(), e);
        vstd::seq_lib::to_multiset_build(s.drop_last(), s.last());
        assert(s.drop_last().push(s.last()) =~= s);
    }
}

proof fn lemma_pair_occurrences_bounded(s: Seq<Edge>, e: Edge)
    ensures
        pair_occurrences(s, e) <= s.len(),
    decreases s.len(),
{
    if s.len() > 0 {
        lemma_pair_occurrences_bounded(s.drop_last(), e);
    }
}

proof fn lemma_pair_occurrences_absent(s: Seq<Edge>, e: Edge)
    requires
        forall|m: int| 0 <= m < s.len() ==> pair_less(s[m], e),
    ensures
        pair_occurrences(s, e) == 0,
    decreases s.len(),
{
    if s.len() > 0 {
        lemma_pair_occurrences_absent(s.drop_last(), e);
    }
}

/// Count how the tokens split between the communities of two partitions.
pub fn contingency(left: &[usize], right: &[usize]) -> (result: Result<Contingency, AssignmentError>)
    ensures
        left@.len() != right@.len() ==> result == Err::<Contingency, AssignmentError>(AssignmentError::IncompleteAssignments),
        left@.len() == right@.len() ==> (result matches Ok(c) && {
            &&& c.left@.len() == label_order(left@).len()
            &&& forall|g: int| 0 <= g < c.left@.len() ==> #[trigger] c.left@[g] == occurrences(canonical_labels(left@), g as usize)
            &&& c.right@.len() == label_order(right@).len()
            &&& forall|g: int| 0 <= g < c.right@.len() ==> #[trigger] c.right@[g] == occurrences(canonical_labels(right@), g as usize)
            &&& forall|a: int, b: int| 0 <= a < b < c.joint@.len() ==> pair_less(
                Edge { u: (#[trigger] c.joint@[a]).0, v: c.joint@[a].1 },
                Edge { u: (#[trigger] c.joint@[b]).0, v: c.joint@[b].1 })
            &&& forall|k: int| 0 <= k < c.joint@.len() ==> (#[trigger] c.joint@[k]).2 > 0
                && c.joint@[k].2 == pair_occurrences(joint_labels(left@, right@), Edge { u: c.joint@[k].0, v: c.joint@[k].1 })
            &&& forall|i: int| 0 <= i < left@.len() ==> #[trigger] listed(c.joint@, canonical_labels(left@)[i], canonical_labels(right@)[i])
        }),
{
    if left.len() != right.len() {
        return Err(AssignmentError::IncompleteAssignments);
    }
    let cl = canonicalize(left);
    let cr = canonicalize(right);
    let n = cl.len();
    let ghost js = joint_labels(left@, right@);
    let mut pairs: Vec<Edge> = Vec::new();
    let mut i: usize = 0;
    while i < n
        invariant
            n == left@.len(),
            n == right@.len(),
            cl@ == canonical_labels(left@),
            cr@ == canonical_labels(right@),
            js == joint_labels(left@, right@),
            i <= n,
            pairs@ == js.take(i as int),
        decreases n - i,
    {
        pairs.push(Edge { u: cl[i], v: cr[i] });
        i = i + 1;
        assert(pairs@ =~= js.take(i as int));
    }
    assert(pairs@ =~= js);
    let sorted = sort_edges(pairs);
    let ghost s = sorted@;
    let mut joint: Vec<(usize, usize, usize)> = Vec::new();
    let mut k: usize = 0;
    assert(s.take(0) =~= Seq::<Edge>::empty());
    while k < sorted.len()
        invariant
            s == sorted@,
            s.len() == js.len(),
            js == joint_labels(left@, right@),
            s.to_multiset() == js.to_multiset(),
            edges_nondecreasing(s),
            k <= s.len(),
            forall|a: int, b: int| 0 <= a < b < joint@.len() ==> pair_less(
                Edge { u: (#[trigger] joint@[a]).0, v: joint@[a].1 },
                Edge { u: (#[trigger] joint@[b]).0, v: joint@[b].1 }),
            forall|q: int| 0 <= q < joint@.len() ==> (#[trigger] joint@[q]).2 > 0
                && joint@[q].2 == pair_occurrences(s.take(k as int), Edge { u: joint@[q].0, v: joint@[q].1 }),
            forall|m: int| 0 <= m < k ==> exists|q: int| 0 <= q < joint@.len()
                && (#[trigger] joint@[q]).0 == (#[trigger] s[m]).u && joint@[q].1 == s[m].v,
            k > 0 ==> joint@.len() > 0 && joint@.last().0 == s[k - 1].u && joint@.last().1 == s[k - 1].v,
            k == 0 ==> joint@.len() == 0,
        decreases s.len() - k,
    {
        let e = sorted[k];
        let ghost before = joint@;
        proof {
            assert(s.take(k + 1).drop_last() =~= s.take(k as int));
            assert(s.take(k + 1).last() == e);
            lemma_pair_occurrences_bounded(s.take(k as int), e);
        }
        let len = joint.len();
        if len > 0 && joint[len - 1].0 == e.u && joint[len - 1].1 == e.v {
            let count = joint[len - 1].2;
            joint.set(len - 1, (e.u, e.v, count + 1));
            proof {
                assert forall|m: int| 0 <= m < k + 1 implies exists|q: int| 0 <= q < joint@.len()
                    && (#[trigger] joint@[q]).0 == (#[trigger] s[m]).u && joint@[q].1 == s[m].v by {
                    if m < k {
                        let q = choose|q: int| 0 <= q < before.len() && (#[trigger] before[q]).0 == s[m].u && before[q].1 == s[m].v;
                        assert(joint@[q].0 == s[m].u);
                    } else {
                        assert(joint@[len - 1].0 == s[m].u);
                    }
                }
                assert forall|q: int| 0 <= q < joint@.len() implies (#[trigger] joint@[q]).2 > 0
                    && joint@[q].2 == pair_occurrences(s.take(k + 1), Edge { u: joint@[q].0, v: joint@[q].1 }) by {
                    if q < len - 1 {
                        assert(pair_less(Edge { u: before[q].0, v: before[q].1 }, Edge { u: before[len - 1].0, v: before[len - 1].1 }));
                    }
                }
            }
        } else {
            proof {
                if k > 0 {
                    assert(crate::neighbors::edge_le(s[k - 1], e));
                    assert(pair_less(Edge { u: before.last().0, v: before.last().1 }, e));
                }
                assert forall|m: int| 0 <= m < s.take(k as int).len() implies pair_less(s.take(k as int)[m], e) by {
                    assert(crate::neighbors::edge_le(s[m], s[k - 1]));
                }
                lemma_pair_occurrences_absent(s.take(k as int), e);
            }
            joint.push((e.u, e.v, 1));
            proof {
                assert forall|m: int| 0 <= m < k + 1 implies exists|q: int| 0 <= q < joint@.len()
                    && (#[trigger] joint@[q]).0 == (#[trigger] s[m]).u && joint@[q].1 == s[m].v by {
                    if m < k {
                        let q = choose|q: int| 0 <= q < before.len() && (#[trigger] before[q]).0 == s[m].u && before[q].1 == s[m].v;
                        assert(joint@[q].0 == s[m].u);
                    } else {
                        assert(joint@[len as int].0 == s[m].u);
                    }
                }
                assert forall|q: int| 0 <= q < joint@.len() implies (#[trigger] joint@[q]).2 > 0
                    && joint@[q].2 == pair_occurrences(s.take(k + 1), Edge { u: joint@[q].0, v: joint@[q].1 }) by {
                    if q < len {
                        if len > 0 {
                            assert(pair_less(Edge { u: before[q].0, v: before[q].1 }, Edge { u: before[len - 1].0, v: before[len - 1].1 })
                                || q == len - 1);
                        }
                    }
                }
            }
        }
        k = k + 1;
    }
    proof {
        assert(s.take(s.len() as int) =~= s);
        assert forall|q: int| 0 <= q < joint@.len() implies (#[trigger] joint@[q]).2 > 0
            && joint@[q].2 == pair_occurrences(js, Edge { u: joint@[q].0, v: joint@[q].1 }) by {
            let e = Edge { u: joint@[q].0, v: joint@[q].1 };
            lemma_pair_occurrences_multiset(s, e);
            lemma_pair_occurrences_multiset(js, e);
        }
        assert forall|i: int| 0 <= i < left@.len() implies #[trigger] listed(joint@, canonical_labels(left@)[i], canonical_labels(right@)[i]) by {
            broadcast use vstd::seq_lib::group_to_multiset_ensures;
            let e = js[i];
            assert(js.to_multiset().count(e) > 0);
            assert(s.contains(e));
            let m = choose|m: int| 0 <= m < s.len() && s[m] == e;
            assert(exists|q: int| 0 <= q < joint@.len() && (#[trigger] joint@[q]).0 == (#[trigger] s[m]).u && joint@[q].1 == s[m].v);
            let q = choose|q: int| 0 <= q < joint@.len() && (#[trigger] joint@[q]).0 == (#[trigger] s[m]).u && joint@[q].1 == s[m].v;
            assert(e.u == canonical_labels(left@)[i]);
            assert(e.v == canonical_labels(right@)[i]);
            assert(joint@[q].0 == canonical_labels(left@)[i] && joint@[q].1 == canonical_labels(right@)[i]);
        }
    }
    let left_sizes = community_sizes(left);
    let right_sizes = community_sizes(right);
    Ok(Contingency { left: left_sizes, right: right_sizes, joint })
}

} // verus!
