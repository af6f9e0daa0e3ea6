//! Levels of the Leiden solver: collapsing each refined community into one
//! node of a coarser level, and reading a level's labels back onto the
//! original nodes.
use vstd::prelude::*;
use vstd::multiset::Multiset;
use crate::leiden::{label_mass, lemma_label_mass_bounded, lemma_total_take};
use crate::order::{nondecreasing, sort_values};
use crate::partition::{canonical_labels, canonicalize, groups, groups_spec, label_order, position};
use crate::tally::total;

verus! {

/// The original nodes gathered into community `c` from the first `m` nodes
/// of a level, where node `v` stands for `originals[v]`.
pub open spec fn gathered(originals: Seq<Seq<usize>>, labels: Seq<usize>, c: usize, m: int) -> Multiset<usize>
    decreases m,
{
    if m <= 0 {
        Multiset::empty()
    } else {
        gathered(originals, labels, c, m - 1).add(
            if labels[m - 1] == c { originals[m - 1].to_multiset() } else { Multiset::empty() },
        )
    }
}

/// The views of a level's original-node lists.
pub open spec fn member_views(originals: Seq<Vec<usize>>) -> Seq<Seq<usize>> {
    originals.map_values(|o: Vec<usize>| o@)
}

/// The community label that the coarser level inherits for refined community
/// `g`: the parent label of its first node.
pub open spec fn inherited(refined: Seq<usize>, parent: Seq<usize>) -> Seq<usize> {
    let c = canonical_labels(refined);
    Seq::new(label_order(refined).len(), |g: int| parent[position(c, g as usize)])
}

/// A coarser level: the mass and original nodes of each refined community,
/// and the (canonical) labels it starts from.
#[derive(Clone, Debug)]
pub struct Aggregate {
    pub mass: Vec<usize>,
    pub originals: Vec<Vec<usize>>,
    pub labels: Vec<usize>,
}

proof fn lemma_position_first(o: Seq<usize>, x: usize, j: int)
    requires
        0 <= j < position(o, x),
        position(o, x) <= o.len(),
    ensures
        o[j] != x,
    decreases o.len(),
{
    if j > 0 {
        assert(o.drop_first()[j - 1] == o[j]);
        lemma_position_first(o.drop_first(), x, j - 1);
    }
}

/// Mass of communities `0..k` over the first `m` nodes.
pub open spec fn mass_below(labels: Seq<usize>, mass: Seq<usize>, k: int, m: int) -> nat
    decreases k,
{
    if k <= 0 {
        0
    } else {
        mass_below(labels, mass, k - 1, m) + label_mass(labels, mass, (k - 1) as usize, m)
    }
}

proof fn lemma_mass_below_step(labels: Seq<usize>, mass: Seq<usize>, k: int, m: int)
    requires
        0 < m,
        0 <= k <= usize::MAX + 1,
    ensures
        mass_below(labels, mass, k, m) == mass_below(labels, mass, k, m - 1)
            + (if labels[m - 1] < k { mass[m - 1] as nat } else { 0nat }),
    decreases k,
{
    if k > 0 {
        lemma_mass_below_step(labels, mass, k - 1, m);
    }
}

proof fn lemma_mass_below_total(labels: Seq<usize>, mass: Seq<usize>, k: int, m: int)
    requires
        0 <= m <= mass.len(),
        0 <= k <= usize::MAX + 1,
        forall|w: int| 0 <= w < m ==> #[trigger] labels[w] < k,
    ensures
        mass_below(labels, mass, k, m) == total(mass.take(m)),
    decreases m,
{
    if m > 0 {
        lemma_mass_below_step(labels, mass, k, m);
        lemma_mass_below_total(labels, mass, k, m - 1);
        assert(mass.take(m).drop_last() =~= mass.take(m - 1));
    } else {
        assert(mass_below(labels, mass, k, 0) == 0) by {
            lemma_mass_below_zero(labels, mass, k);
        }
    }
}

proof fn lemma_mass_below_zero(labels: Seq<usize>, mass: Seq<usize>, k: int)
    ensures
        mass_below(labels, mass, k, 0) == 0,
    decreases k,
{
    if k > 0 {
        lemma_mass_below_zero(labels, mass, k - 1);
    }
}

proof fn lemma_total_of_masses(r: Seq<usize>, labels: Seq<usize>, mass: Seq<usize>, m: int)
    requires
        forall|g: int| 0 <= g < r.len() ==> #[trigger] r[g] == label_mass(labels, mass, g as usize, m),
    ensures
        total(r) == mass_below(labels, mass, r.len() as int, m),
    decreases r.len(),
{
    if r.len() > 0 {
        lemma_total_of_masses(r.drop_last(), labels, mass, m);
    }
}

fn copy_values(v: &Vec<usize>) -> (result: Vec<usize>)
    ensures
        result@ == v@,
{
    let mut result: Vec<usize> = Vec::new();
    let mut i: usize = 0;
    while i < v.len()
        invariant
            i <= v@.len(),
            result@ == v@.take(i as int),
        decreases v@.len() - i,
    {
        result.push(v[i]);
        i = i + 1;
        assert(result@ =~= v@.take(i as int));
    }
    assert(v@.take(v@.len() as int) =~= v@);
    result
}

/// Collapse each refined community of a level into one node: its mass is the
/// sum of its nodes' masses, it stands for all their original nodes (sorted),
/// and it starts in the parent community of its first node.
pub fn aggregate_level(mass: &Vec<usize>, originals: &Vec<Vec<usize>>, refined: &Vec<usize>, parent: &Vec<usize>) -> (result: Aggregate)
    requires
        mass@.len() == refined@.len(),
        originals@.len() == refined@.len(),
        parent@.len() == refined@.len(),
        total(mass@) <= usize::MAX,
    ensures
        result.mass@.len() == label_order(refined@).len(),
        result.originals@.len() == label_order(refined@).len(),
        forall|g: int| 0 <= g < result.mass@.len() ==> #[trigger] result.mass@[g] == label_mass(
            canonical_labels(refined@), mass@, g as usize, refined@.len() as int),
        forall|g: int| 0 <= g < result.originals@.len() ==> nondecreasing(#[trigger] result.originals@[g]@)
            && result.originals@[g]@.to_multiset() == gathered(member_views(originals@), canonical_labels(refined@), g as usize, refined@.len() as int),
        result.labels@ == canonical_labels(inherited(refined@, parent@)),
        total(result.mass@) == total(mass@),
{
    broadcast use vstd::seq_lib::group_to_multiset_ensures;
    broadcast use vstd::multiset::group_multiset_axioms;
    let n = refined.len();
    let canonical = canonicalize(refined.as_slice());
    let members = groups(refined.as_slice());
    let k = members.len();
    let ghost c = canonical@;
    let ghost ov = member_views(originals@);
    proof {
        crate::partition::lemma_label_order_len(refined@);
        assert(groups_spec(refined@, members@.map_values(|g: Vec<usize>| g@)));
    }
    let mut next_mass: Vec<usize> = Vec::new();
    let mut gathered_nodes: Vec<Vec<usize>> = Vec::new();
    let mut g: usize = 0;
    while g < k
        invariant
            g <= k,
            next_mass@.len() == g,
            gathered_nodes@.len() == g,
            forall|q: int| 0 <= q < g ==> #[trigger] next_mass@[q] == 0,
            forall|q: int| 0 <= q < g ==> (#[trigger] gathered_nodes@[q])@.len() == 0,
        decreases k - g,
    {
        next_mass.push(0);
        gathered_nodes.push(Vec::new());
        g = g + 1;
    }
    proof {
        assert forall|q: int| 0 <= q < k implies (#[trigger] gathered_nodes@[q])@.to_multiset() == gathered(ov, c, q as usize, 0) by {
            assert(gathered_nodes@[q]@ =~= Seq::<usize>::empty());
        }
    }
    let mut v: usize = 0;
    while v < n
        invariant
            n == refined@.len(),
            n == c.len(),
            c == canonical@,
            c == canonical_labels(refined@),
            ov == member_views(originals@),
            originals@.len() == n,
            mass@.len() == n,
            total(mass@) <= usize::MAX,
            k == label_order(refined@).len(),
            forall|w: int| 0 <= w < n ==> #[trigger] c[w] < k,
            v <= n,
            next_mass@.len() == k,
            gathered_nodes@.len() == k,
            forall|q: int| 0 <= q < k ==> #[trigger] next_mass@[q] == label_mass(c, mass@, q as usize, v as int),
            forall|q: int| 0 <= q < k ==> (#[trigger] gathered_nodes@[q])@.to_multiset() == gathered(ov, c, q as usize, v as int),
        decreases n - v,
    {
        let cv = canonical[v];
        proof {
            lemma_label_mass_bounded(c, mass@, cv, v + 1);
            lemma_total_take(mass@, v + 1);
        }
        next_mass.set(cv, next_mass[cv] + mass[v]);
        let here = &originals[v];
        let ghost start = gathered_nodes@[cv as int]@;
        let mut j: usize = 0;
        while j < here.len()
            invariant
                cv < k,
                gathered_nodes@.len() == k,
                j <= here@.len(),
                gathered_nodes@[cv as int]@ == start + here@.take(j as int),
                forall|q: int| 0 <= q < k && q != cv ==> (#[trigger] gathered_nodes@[q])@.to_multiset() == gathered(ov, c, q as usize, v as int),
            decreases here@.len() - j,
        {
            gathered_nodes[cv].push(here[j]);
            j = j + 1;
            assert(gathered_nodes@[cv as int]@ =~= start + here@.take(j as int));
        }
        proof {
            assert(here@.take(here@.len() as int) =~= here@);
            assert(ov[v as int] == here@);
            vstd::seq_lib::lemma_multiset_commutative(start, here@);
            assert forall|q: int| 0 <= q < k implies (#[trigger] gathered_nodes@[q])@.to_multiset() == gathered(ov, c, q as usize, v + 1) by {
                if q != cv {
                    assert(gathered(ov, c, q as usize, v + 1) =~= gathered(ov, c, q as usize, v as int));
                }
            }
        }
        v = v + 1;
    }
    let mut sorted: Vec<Vec<usize>> = Vec::new();
    let mut g: usize = 0;
    while g < k
        invariant
            g <= k,
            gathered_nodes@.len() == k,
            sorted@.len() == g,
            forall|q: int| 0 <= q < g ==> nondecreasing(#[trigger] sorted@[q]@)
                && sorted@[q]@.to_multiset() == gathered_nodes@[q]@.to_multiset(),
        decreases k - g,
    {
        let copy = copy_values(&gathered_nodes[g]);
        sorted.push(sort_values(copy));
        g = g + 1;
    }
    let mut raw: Vec<usize> = Vec::new();
    let mut g: usize = 0;
    while g < k
        invariant
            n == refined@.len(),
            c == canonical_labels(refined@),
            k == label_order(refined@).len(),
            k == members@.len(),
            groups_spec(refined@, members@.map_values(|m: Vec<usize>| m@)),
            parent@.len() == n,
            g <= k,
            raw@.len() == g,
            forall|q: int| 0 <= q < g ==> #[trigger] raw@[q] == inherited(refined@, parent@)[q],
        decreases k - g,
    {
        let ghost gs = members@.map_values(|m: Vec<usize>| m@);
        proof {
            crate::partition::law_canonical_dense(refined@, g as int);
            let i = choose|i: int| 0 <= i < n && c[i] == g;
            assert(gs[c[i] as int].contains(i as usize));
            assert(gs[g as int] == members@[g as int]@);
        }
        let first = members[g][0];
        proof {
            let o = c;
            assert(gs[g as int][0] == first);
            assert(o.contains(g));
            crate::partition::lemma_position_contained(o, g);
            let p = position(o, g);
            assert(gs[g as int].contains(p as usize));
            let kk = choose|kk: int| 0 <= kk < gs[g as int].len() && gs[g as int][kk] == p as usize;
            if kk > 0 {
                assert(gs[g as int][0] < gs[g as int][kk]);
            }
            if first < p {
                lemma_position_first(o, g, first as int);
            }
            assert(first == p);
        }
        raw.push(parent[first]);
        g = g + 1;
    }
    proof {
        assert(raw@ =~= inherited(refined@, parent@));
    }
    let labels = canonicalize(raw.as_slice());
    proof {
        assert(next_mass@.len() == k);
        lemma_total_of_masses(next_mass@, c, mass@, n as int);
        lemma_mass_below_total(c, mass@, k as int, n as int);
        assert(mass@.take(n as int) =~= mass@);
    }
    Aggregate { mass: next_mass, originals: sorted, labels }
}

/// The label that original node `i` reads from the first `m` nodes of a
/// level: that of the last one standing for it, and 0 when none does.
pub open spec fn flat_label(originals: Seq<Seq<usize>>, labels: Seq<usize>, i: usize, m: int) -> usize
    decreases m,
{
    if m <= 0 {
        0
    } else if originals[m - 1].contains(i) {
        labels[m - 1]
    } else {
        flat_label(originals, labels, i, m - 1)
    }
}

/// Read a level's labels back onto the `n` original nodes, canonically.
pub fn flatten(originals: &Vec<Vec<usize>>, labels: &Vec<usize>, n: usize) -> (result: Vec<usize>)
    requires
        originals@.len() == labels@.len(),
        forall|v: int, k: int| 0 <= v < originals@.len() && 0 <= k < originals@[v]@.len() ==> #[trigger] originals@[v]@[k] < n,
    ensures
        result@ == canonical_labels(Seq::new(n as nat, |i: int|
            flat_label(member_views(originals@), labels@, i as usize, originals@.len() as int))),
{
    let ghost ov = member_views(originals@);
    let mut flat: Vec<usize> = Vec::new();
    let mut i: usize = 0;
    while i < n
        invariant
            i <= n,
            flat@.len() == i,
            forall|q: int| 0 <= q < i ==> #[trigger] flat@[q] == 0,
        decreases n - i,
    {
        flat.push(0);
        i = i + 1;
    }
    let mut v: usize = 0;
    while v < originals.len()
        invariant
            ov == member_views(originals@),
            originals@.len() == labels@.len(),
            forall|w: int, k: int| 0 <= w < originals@.len() && 0 <= k < originals@[w]@.len() ==> #[trigger] originals@[w]@[k] < n,
            v <= originals@.len(),
            flat@.len() == n,
            forall|q: int| 0 <= q < n ==> #[trigger] flat@[q] == flat_label(ov, labels@, q as usize, v as int),
        decreases originals@.len() - v,
    {
        let here = &originals[v];
        let ghost before = flat@;
        let mut j: usize = 0;
        while j < here.len()
            invariant
                *here == originals@[v as int],
                forall|k: int| 0 <= k < here@.len() ==> #[trigger] here@[k] < n,
                v < labels@.len(),
                j <= here@.len(),
                flat@.len() == n,
                before.len() == n,
                forall|q: int| 0 <= q < n ==> #[trigger] flat@[q] == if here@.take(j as int).contains(q as usize) {
                    labels@[v as int]
                } else {
                    before[q]
                },
            decreases here@.len() - j,
        {
            let x = here[j];
            flat.set(x, labels[v]);
            proof {
                assert forall|q: int| 0 <= q < n implies #[trigger] flat@[q] == if here@.take(j + 1).contains(q as usize) {
                    labels@[v as int]
                } else {
                    before[q]
                } by {
                    if here@.take(j as int).contains(q as usize) {
                        let k = choose|k: int| 0 <= k < j && #[trigger] here@.take(j as int)[k] == q as usize;
                        assert(here@.take(j + 1)[k] == q as usize);
                    }
                    if here@.take(j + 1).contains(q as usize) && q != x {
                        let k = choose|k: int| 0 <= k < j + 1 && #[trigger] here@.take(j + 1)[k] == q as usize;
                        assert(here@.take(j as int)[k] == q as usize);
                    }
                    if q == x {
                        assert(here@.take(j + 1)[j as int] == x);
                    }
                }
            }
            j = j + 1;
        }
        proof {
            assert(here@.take(here@.len() as int) =~= here@);
            assert(ov[v as int] == here@);
        }
        v = v + 1;
    }
    proof {
        assert(flat@ =~= Seq::new(n as nat, |q: int| flat_label(ov, labels@, q as usize, originals@.len() as int)));
    }
    canonicalize(flat.as_slice())
}

} // verus!
