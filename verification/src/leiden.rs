//! Community bookkeeping of the Leiden solver: member counts and masses of
//! each community, and the set of empty ones, kept exact as nodes move.
use vstd::prelude::*;
use std::collections::BTreeSet;
use crate::partition::{canonical_labels, canonicalize, label_order};
use crate::tally::{occurrences, total};

verus! {

broadcast use vstd::std_specs::btree::group_btree_axioms;

/// Mass of the nodes below `m` labelled `c`.
pub open spec fn label_mass(labels: Seq<usize>, mass: Seq<usize>, c: usize, m: int) -> nat
    decreases m,
{
    if m <= 0 {
        0
    } else {
        label_mass(labels, mass, c, m - 1) + if labels[m - 1] == c { mass[m - 1] as nat } else { 0nat }
    }
}

/// Communities of a level's nodes with their member counts and masses.
#[derive(Clone, Debug)]
pub struct Partition {
    pub labels: Vec<usize>,
    pub mass: Vec<usize>,
    pub count: Vec<usize>,
    pub empty: BTreeSet<usize>,
}

/// `BTreeSet::first`: the least element, if the set holds any.
#[verifier::external_body]
fn least_element(set: &BTreeSet<usize>) -> (result: Option<usize>)
    ensures
        match result {
            Some(x) => set@.contains(x) && forall|y: usize| #[trigger] set@.contains(y) ==> x <= y,
            None => forall|y: usize| !#[trigger] set@.contains(y),
        },
{
    set.first().copied()
}

pub(crate) proof fn lemma_label_mass_bounded(labels: Seq<usize>, mass: Seq<usize>, c: usize, m: int)
    requires
        0 <= m <= mass.len(),
    ensures
        label_mass(labels, mass, c, m) <= total(mass.take(m)),
    decreases m,
{
    if m > 0 {
        lemma_label_mass_bounded(labels, mass, c, m - 1);
        assert(mass.take(m).drop_last() =~= mass.take(m - 1));
    }
}

pub(crate) proof fn lemma_total_take(s: Seq<usize>, m: int)
    requires
        0 <= m <= s.len(),
    ensures
        total(s.take(m)) <= total(s),
    decreases s.len() - m,
{
    if m < s.len() {
        lemma_total_take(s, m + 1);
        assert(s.take(m + 1).drop_last() =~= s.take(m));
    } else {
        assert(s.take(m) =~= s);
    }
}

proof fn lemma_label_mass_update(labels: Seq<usize>, mass: Seq<usize>, v: int, target: usize, c: usize, m: int)
    requires
        0 <= v < labels.len(),
        0 <= m <= labels.len(),
    ensures
        label_mass(labels.update(v, target), mass, c, m) + (if v < m && labels[v] == c { mass[v] as int } else { 0 })
            == label_mass(labels, mass, c, m) + (if v < m && target == c { mass[v] as int } else { 0 }),
    decreases m,
{
    if m > 0 {
        lemma_label_mass_update(labels, mass, v, target, c, m - 1);
    }
}

proof fn lemma_occurrences_update(labels: Seq<usize>, v: int, target: usize, c: usize)
    requires
        0 <= v < labels.len(),
    ensures
        occurrences(labels.update(v, target), c) + (if labels[v] == c { 1int } else { 0 })
            == occurrences(labels, c) + (if target == c { 1int } else { 0 }),
    decreases labels.len(),
{
    if v < labels.len() - 1 {
        assert(labels.update(v, target).drop_last() =~= labels.drop_last().update(v, target));
        lemma_occurrences_update(labels.drop_last(), v, target, c);
    } else {
        assert(labels.update(v, target).drop_last() =~= labels.drop_last());
    }
}

impl Partition {
    /// Counts, masses and empty set agree with the labels.
    pub open spec fn consistent(&self, node_mass: Seq<usize>) -> bool {
        let n = self.labels@.len();
        &&& node_mass.len() == n
        &&& self.mass@.len() == n
        &&& self.count@.len() == n
        &&& total(node_mass) <= usize::MAX
        &&& forall|v: int| 0 <= v < n ==> #[trigger] self.labels@[v] < n
        &&& forall|c: int| 0 <= c < n ==> #[trigger] self.mass@[c] == label_mass(self.labels@, node_mass, c as usize, n as int)
        &&& forall|c: int| 0 <= c < n ==> #[trigger] self.count@[c] == occurrences(self.labels@, c as usize)
        &&& forall|c: usize| #[trigger] self.empty@.contains(c) <==> (c < n && self.count@[c as int] == 0)
    }

    /// The partition of the level's nodes by (canonicalized) labels.
    pub fn new(node_mass: &Vec<usize>, labels: &Vec<usize>) -> (result: Self)
        requires
            labels@.len() == node_mass@.len(),
            total(node_mass@) <= usize::MAX,
        ensures
            result.consistent(node_mass@),
            result.labels@ == canonical_labels(labels@),
    {
        let canonical = canonicalize(labels.as_slice());
        let n = canonical.len();
        let mut mass: Vec<usize> = Vec::new();
        let mut count: Vec<usize> = Vec::new();
        let mut i: usize = 0;
        while i < n
            invariant
                i <= n,
                mass@.len() == i,
                count@.len() == i,
                forall|q: int| 0 <= q < i ==> #[trigger] mass@[q] == 0,
                forall|q: int| 0 <= q < i ==> #[trigger] count@[q] == 0,
            decreases n - i,
        {
            mass.push(0);
            count.push(0);
            i = i + 1;
        }
        let ghost c = canonical@;
        proof {
            crate::partition::lemma_label_order_len(labels@);
            assert(c.take(0) =~= Seq::<usize>::empty());
        }
        let mut v: usize = 0;
        while v < n
            invariant
                n == c.len(),
                c == canonical@,
                c == canonical_labels(labels@),
                n == node_mass@.len(),
                total(node_mass@) <= usize::MAX,
                forall|w: int| 0 <= w < n ==> #[trigger] c[w] < label_order(labels@).len(),
                label_order(labels@).len() <= n,
                v <= n,
                mass@.len() == n,
                count@.len() == n,
                forall|q: int| 0 <= q < n ==> #[trigger] mass@[q] == label_mass(c, node_mass@, q as usize, v as int),
                forall|q: int| 0 <= q < n ==> #[trigger] count@[q] == occurrences(c.take(v as int), q as usize),
            decreases n - v,
        {
            let g = canonical[v];
            proof {
                assert(c.take(v + 1).drop_last() =~= c.take(v as int));
                lemma_label_mass_bounded(c, node_mass@, g, v + 1);
                lemma_total_take(node_mass@, v + 1);
                crate::tally::lemma_occurrences_bounded(c.take(v as int), g);
            }
            mass.set(g, mass[g] + node_mass[v]);
            count.set(g, count[g] + 1);
            v = v + 1;
        }
        proof {
            assert(c.take(n as int) =~= c);
        }
        let mut empty: BTreeSet<usize> = BTreeSet::new();
        let mut e: usize = 0;
        while e < n
            invariant
                e <= n,
                count@.len() == n,
                forall|x: usize| #[trigger] empty@.contains(x) <==> (x < e && count@[x as int] == 0),
            decreases n - e,
        {
            if count[e] == 0 {
                empty.insert(e);
            }
            e = e + 1;
        }
        Partition { labels: canonical, mass, count, empty }
    }

    /// The least empty community, if any.
    pub fn first_empty(&self) -> (result: Option<usize>)
        ensures
            match result {
                Some(x) => self.empty@.contains(x) && forall|y: usize| #[trigger] self.empty@.contains(y) ==> x <= y,
                None => forall|y: usize| !#[trigger] self.empty@.contains(y),
            },
    {
        least_element(&self.empty)
    }

    /// Move node `v` to community `target`.
    pub fn move_node(&mut self, node_mass: &Vec<usize>, v: usize, target: usize)
        requires
            old(self).consistent(node_mass@),
            v < old(self).labels@.len(),
            target < old(self).labels@.len(),
        ensures
            final(self).consistent(node_mass@),
            final(self).labels@ == old(self).labels@.update(v as int, target),
    {
        let n = self.labels.len();
        let source = self.labels[v];
        if source == target {
            proof {
                assert(self.labels@.update(v as int, target) =~= self.labels@);
            }
            return;
        }
        let ghost labels0 = self.labels@;
        proof {
            lemma_label_mass_update(labels0, node_mass@, v as int, target, source, n as int);
            lemma_label_mass_update(labels0, node_mass@, v as int, target, target, n as int);
            lemma_occurrences_update(labels0, v as int, target, source);
            lemma_occurrences_update(labels0, v as int, target, target);
            lemma_label_mass_bounded(labels0.update(v as int, target), node_mass@, target, n as int);
            lemma_total_take(node_mass@, n as int);
            assert(node_mass@.take(n as int) =~= node_mass@);
            crate::tally::lemma_occurrences_bounded(labels0.update(v as int, target), target);
        }
        self.mass.set(source, self.mass[source] - node_mass[v]);
        self.count.set(source, self.count[source] - 1);
        self.mass.set(target, self.mass[target] + node_mass[v]);
        self.count.set(target, self.count[target] + 1);
        if self.count[source] == 0 {
            self.empty.insert(source);
        }
        self.empty.remove(&target);
        self.labels.set(v, target);
        proof {
            let labels1 = self.labels@;
            assert(labels1 == labels0.update(v as int, target));
            assert forall|c: int| 0 <= c < n implies #[trigger] self.mass@[c] == label_mass(labels1, node_mass@, c as usize, n as int) by {
                lemma_label_mass_update(labels0, node_mass@, v as int, target, c as usize, n as int);
            }
            assert forall|c: int| 0 <= c < n implies #[trigger] self.count@[c] == occurrences(labels1, c as usize) by {
                lemma_occurrences_update(labels0, v as int, target, c as usize);
            }
            assert forall|w: int| 0 <= w < n implies #[trigger] labels1[w] < n by {
                if w != v {
                    assert(labels1[w] == labels0[w]);
                }
            }
        }
    }
}

} // verus!
