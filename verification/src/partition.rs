//! Community labels: canonical relabelling and grouping.
use vstd::prelude::*;
use std::collections::HashMap;

verus! {

broadcast use vstd::std_specs::hash::group_hash_axioms;

/// Why a labelling cannot be used with a graph or another labelling.
#[derive(Clone, Copy, Debug, PartialEq, Eq)]
pub enum AssignmentError {
    /// The labelling does not hold exactly one label per token.
    IncompleteAssignments,
}

/// Distinct labels of `s` in order of first appearance.
pub open spec fn label_order(s: Seq<usize>) -> Seq<usize>
    decreases s.len(),
{
    if s.len() == 0 {
        Seq::empty()
    } else {
        let p = label_order(s.drop_last());
        if p.contains(s.last()) {
            p
        } else {
            p.push(s.last())
        }
    }
}

/// Index of the first occurrence of `x` in `o` (or `o.len()` when absent).
pub open spec fn position(o: Seq<usize>, x: usize) -> int
    decreases o.len(),
{
    if o.len() == 0 {
        0
    } else if o[0] == x {
        0
    } else {
        1 + position(o.drop_first(), x)
    }
}

/// Canonical form of a labelling: each label is replaced by the rank of its
/// first appearance, so the first community seen is 0, the next new one 1, ...
pub open spec fn canonical_labels(s: Seq<usize>) -> Seq<usize> {
    Seq::new(s.len(), |i: int| position(label_order(s), s[i]) as usize)
}

pub proof fn lemma_position(o: Seq<usize>, j: int)
    requires
        o.no_duplicates(),
        0 <= j < o.len(),
    ensures
        position(o, o[j]) == j,
    decreases o.len(),
{
    if j > 0 {
        assert(o.drop_first()[j - 1] == o[j]);
        lemma_position(o.drop_first(), j - 1);
    }
}

pub proof fn lemma_label_order(s: Seq<usize>)
    ensures
        label_order(s).no_duplicates(),
        forall|x: usize| label_order(s).contains(x) <==> s.contains(x),
    decreases s.len(),
{
    if s.len() > 0 {
        let t = s.drop_last();
        lemma_label_order(t);
        let p = label_order(t);
        assert(s[s.len() - 1] == s.last());
        assert forall|x: usize| label_order(s).contains(x) <==> s.contains(x) by {
            if s.contains(x) && x != s.last() {
                let k = choose|k: int| 0 <= k < s.len() && s[k] == x;
                assert(t[k] == x);
            }
            if t.contains(x) {
                let k = choose|k: int| 0 <= k < t.len() && t[k] == x;
                assert(s[k] == x);
            }
            if !p.contains(s.last()) {
                let q = p.push(s.last());
                if q.contains(x) && x != s.last() {
                    let k = choose|k: int| 0 <= k < q.len() && q[k] == x;
                    assert(p[k] == x);
                }
                if p.contains(x) {
                    let k = choose|k: int| 0 <= k < p.len() && p[k] == x;
                    assert(q[k] == x);
                }
                assert(q[p.len() as int] == s.last());
            }
        }
        if !p.contains(s.last()) {
            let q = p.push(s.last());
            assert forall|a: int, b: int| 0 <= a < q.len() && 0 <= b < q.len() && a != b implies q[a] != q[b] by {
                if a < p.len() && b < p.len() {
                } else if a < p.len() {
                    assert(p.contains(q[a]));
                } else if b < p.len() {
                    assert(p.contains(q[b]));
                }
            }
        }
    }
}

/// The order of a prefix is a prefix of the order.
pub proof fn lemma_label_order_prefix(s: Seq<usize>, i: int)
    requires
        0 <= i <= s.len(),
    ensures
        label_order(s.take(i)).len() <= label_order(s).len(),
        label_order(s.take(i)) =~= label_order(s).take(label_order(s.take(i)).len() as int),
    decreases s.len() - i,
{
    if i < s.len() {
        lemma_label_order_prefix(s, i + 1);
        assert(s.take(i + 1).drop_last() =~= s.take(i));
    } else {
        assert(s.take(i) =~= s);
    }
}

/// Relabel communities by order of first appearance.
pub fn canonicalize(labels: &[usize]) -> (result: Vec<usize>)
    ensures
        result@ == canonical_labels(labels@),
        forall|i: int| 0 <= i < labels@.len() ==> result@[i] < label_order(labels@).len(),
{
    canonical_with_count(labels).0
}

/// Canonical labels together with the number of communities.
pub(crate) fn canonical_with_count(labels: &[usize]) -> (result: (Vec<usize>, usize))
    ensures
        result.0@ == canonical_labels(labels@),
        result.1 == label_order(labels@).len(),
        forall|i: int| 0 <= i < labels@.len() ==> result.0@[i] < label_order(labels@).len(),
{
    let n = labels.len();
    let mut mapping: HashMap<usize, usize> = HashMap::new();
    let mut result: Vec<usize> = Vec::new();
    let ghost mut order: Seq<usize> = Seq::empty();
    let mut next: usize = 0;
    let mut i: usize = 0;
    while i < n
        invariant
            n == labels@.len(),
            i <= n,
            order == label_order(labels@.take(i as int)),
            next == order.len(),
            order.no_duplicates(),
            forall|x: usize| mapping@.contains_key(x) <==> order.contains(x),
            forall|j: int| 0 <= j < order.len() ==> #[trigger] mapping@[order[j]] == j,
            result@.len() == i,
            forall|j: int| 0 <= j < i ==> #[trigger] result@[j] < order.len() && order[result@[j] as int] == labels@[j],
        decreases n - i,
    {
        let label = labels[i];
        proof {
            assert(labels@.take(i + 1).drop_last() =~= labels@.take(i as int));
            assert(labels@.take(i + 1).last() == label);
        }
        match mapping.get(&label) {
            Some(id) => {
                let id = *id;
                proof {
                    assert(mapping@.contains_key(label));
                    assert(order.contains(label));
                    let k = choose|k: int| 0 <= k < order.len() && order[k] == label;
                    assert(mapping@[order[k]] == k);
                }
                result.push(id);
            },
            None => {
                assert(!order.contains(label));
                assert(next < n) by {
                    lemma_label_order_prefix(labels@, i as int);
                    lemma_label_order_len(labels@.take(i as int));
                }
                mapping.insert(label, next);
                proof {
                    let old_order = order;
                    order = order.push(label);
                    assert forall|x: usize| mapping@.contains_key(x) <==> order.contains(x) by {
                        if old_order.contains(x) {
                            let k = choose|k: int| 0 <= k < old_order.len() && old_order[k] == x;
                            assert(order[k] == x);
                        }
                        if order.contains(x) && x != label {
                            let k = choose|k: int| 0 <= k < order.len() && order[k] == x;
                            assert(old_order[k] == x);
                        }
                        assert(order[old_order.len() as int] == label);
                    }
                    assert forall|j: int| 0 <= j < order.len() implies #[trigger] mapping@[order[j]] == j by {
                        if j < old_order.len() {
                            assert(order[j] == old_order[j]);
                            assert(old_order.contains(old_order[j]));
                        }
                    }
                }
                result.push(next);
                next = next + 1;
            },
        }
        i = i + 1;
    }
    proof {
        assert(labels@.take(n as int) =~= labels@);
        let o = label_order(labels@);
        lemma_label_order(labels@);
        assert forall|j: int| 0 <= j < n implies result@[j] == canonical_labels(labels@)[j] by {
            lemma_position(o, result@[j] as int);
        }
    }
    (result, next)
}

pub proof fn lemma_label_order_len(s: Seq<usize>)
    ensures
        label_order(s).len() <= s.len(),
    decreases s.len(),
{
    if s.len() > 0 {
        lemma_label_order_len(s.drop_last());
    }
}


pub proof fn lemma_position_contained(o: Seq<usize>, x: usize)
    requires
        o.contains(x),
    ensures
        0 <= position(o, x) < o.len(),
        o[position(o, x)] == x,
    decreases o.len(),
{
    if o[0] != x {
        let k = choose|k: int| 0 <= k < o.len() && o[k] == x;
        assert(o.drop_first()[k - 1] == x);
        lemma_position_contained(o.drop_first(), x);
    }
}

pub proof fn lemma_position_push(o: Seq<usize>, x: usize, y: usize)
    requires
        o.contains(y),
    ensures
        position(o.push(x), y) == position(o, y),
    decreases o.len(),
{
    if o[0] != y {
        let k = choose|k: int| 0 <= k < o.len() && o[k] == y;
        assert(o.drop_first()[k - 1] == y);
        assert(o.push(x).drop_first() =~= o.drop_first().push(x));
        lemma_position_push(o.drop_first(), x, y);
    }
}

pub proof fn lemma_position_absent(o: Seq<usize>, x: usize)
    requires
        !o.contains(x),
    ensures
        position(o, x) == o.len(),
    decreases o.len(),
{
    if o.len() > 0 {
        assert(o[0] != x);
        assert forall|k: int| 0 <= k < o.drop_first().len() implies o.drop_first()[k] != x by {
            assert(o[k + 1] == o.drop_first()[k]);
        }
        lemma_position_absent(o.drop_first(), x);
    }
}

/// Canonical labels induce exactly the same partition as the input labels:
/// two tokens share a canonical community iff they shared a community.
pub proof fn law_canonical_same_partition(s: Seq<usize>, i: int, j: int)
    requires
        s.len() <= usize::MAX,
        0 <= i < s.len(),
        0 <= j < s.len(),
    ensures
        canonical_labels(s)[i] == canonical_labels(s)[j] <==> s[i] == s[j],
{
    let o = label_order(s);
    lemma_label_order_len(s);
    lemma_label_order(s);
    assert(s.contains(s[i]));
    assert(s.contains(s[j]));
    lemma_position_contained(o, s[i]);
    lemma_position_contained(o, s[j]);
}

/// Canonical labels are dense: they are exactly `0..k` for `k` communities,
/// and each one occurs.
pub proof fn law_canonical_dense(s: Seq<usize>, g: int)
    requires
        s.len() <= usize::MAX,
        0 <= g < label_order(s).len(),
    ensures
        exists|i: int| 0 <= i < s.len() && canonical_labels(s)[i] == g,
{
    let o = label_order(s);
    lemma_label_order(s);
    lemma_label_order_len(s);
    assert(o.contains(o[g]));
    assert(s.contains(o[g]));
    let i = choose|i: int| 0 <= i < s.len() && s[i] == o[g];
    lemma_position(o, g);
    assert(canonical_labels(s)[i] == g);
}

/// Canonical positions of a prefix agree with those of the whole sequence.
proof fn lemma_prefix_positions(s: Seq<usize>, i: int, j: int)
    requires
        0 <= j < i <= s.len(),
    ensures
        position(label_order(s.take(i)), s[j]) == position(label_order(s), s[j]),
        position(label_order(s), s[j]) < label_order(s.take(i)).len(),
{
    let p = label_order(s.take(i));
    let o = label_order(s);
    lemma_label_order_prefix(s, i);
    lemma_label_order(s.take(i));
    lemma_label_order(s);
    assert(s.take(i)[j] == s[j]);
    assert(s.take(i).contains(s[j]));
    lemma_position_contained(p, s[j]);
    let k = position(p, s[j]);
    assert(o[k] == p[k]);
    lemma_position(o, k);
}

/// Order of first appearance of canonical labels is `0, 1, ..., k-1`.
proof fn lemma_canonical_order(s: Seq<usize>, i: int)
    requires
        s.len() <= usize::MAX,
        0 <= i <= s.len(),
    ensures
        label_order(canonical_labels(s).take(i)) =~= Seq::new(
            label_order(s.take(i)).len(),
            |g: int| g as usize,
        ),
    decreases i,
{
    let c = canonical_labels(s);
    lemma_label_order_len(s.take(i));
    if i > 0 {
        lemma_canonical_order(s, i - 1);
        let prev = label_order(c.take(i - 1));
        let op = label_order(s.take(i - 1));
        let x = s[i - 1];
        assert(c.take(i).drop_last() =~= c.take(i - 1));
        assert(s.take(i).drop_last() =~= s.take(i - 1));
        assert(c.take(i).last() == c[i - 1]);
        assert(s.take(i).last() == x);
        lemma_prefix_positions(s, i, i - 1);
        lemma_label_order(s.take(i - 1));
        lemma_label_order(s.take(i));
        lemma_label_order_len(s.take(i - 1));
        let p = label_order(s.take(i));
        if op.contains(x) {
            assert(p == op);
            lemma_position_contained(op, x);
            assert(c[i - 1] == position(op, x) as usize);
            assert(prev[position(op, x)] == c[i - 1]);
            assert(prev.contains(c[i - 1]));
            assert(label_order(c.take(i)) == prev);
        } else {
            assert(p == op.push(x));
            assert(p[op.len() as int] == x);
            lemma_position(p, op.len() as int);
            assert(c[i - 1] == op.len() as usize);
            assert(!prev.contains(c[i - 1])) by {
                if prev.contains(c[i - 1]) {
                    let k = choose|k: int| 0 <= k < prev.len() && prev[k] == c[i - 1];
                    assert(prev[k] == k as usize);
                }
            }
            assert(label_order(c.take(i)) == prev.push(c[i - 1]));
        }
    }
}

/// Canonicalizing is idempotent.
pub proof fn law_canonical_idempotent(s: Seq<usize>)
    requires
        s.len() <= usize::MAX,
    ensures
        canonical_labels(canonical_labels(s)) == canonical_labels(s),
{
    let c = canonical_labels(s);
    lemma_canonical_order(s, s.len() as int);
    assert(c.take(s.len() as int) =~= c);
    assert(s.take(s.len() as int) =~= s);
    let o = label_order(c);
    lemma_label_order(c);
    assert forall|i: int| 0 <= i < c.len() implies canonical_labels(c)[i] == c[i] by {
        law_range_bound(s, i);
        lemma_position(o, c[i] as int);
    }
    assert(canonical_labels(c) =~= c);
}

proof fn law_range_bound(s: Seq<usize>, i: int)
    requires
        s.len() <= usize::MAX,
        0 <= i < s.len(),
    ensures
        canonical_labels(s)[i] < label_order(s).len(),
{
    lemma_label_order(s);
    lemma_label_order_len(s);
    assert(s.contains(s[i]));
    lemma_position_contained(label_order(s), s[i]);
}


/// Two labellings induce the same partition.
pub open spec fn same_partition(a: Seq<usize>, b: Seq<usize>) -> bool {
    &&& a.len() == b.len()
    &&& forall|i: int, j: int|
        0 <= i < a.len() && 0 <= j < a.len() ==> (#[trigger] a[i] == #[trigger] a[j] <==> b[i] == b[j])
}

proof fn lemma_same_partition_prefix(a: Seq<usize>, b: Seq<usize>, i: int)
    requires
        same_partition(a, b),
        0 <= i <= a.len(),
    ensures
        label_order(a.take(i)).len() == label_order(b.take(i)).len(),
        forall|j: int|
            0 <= j < i ==> #[trigger] position(label_order(a.take(i)), a[j]) == position(
                label_order(b.take(i)),
                b[j],
            ),
    decreases i,
{
    if i > 0 {
        lemma_same_partition_prefix(a, b, i - 1);
        let oa = label_order(a.take(i - 1));
        let ob = label_order(b.take(i - 1));
        let x = a[i - 1];
        let y = b[i - 1];
        assert(a.take(i).drop_last() =~= a.take(i - 1));
        assert(b.take(i).drop_last() =~= b.take(i - 1));
        assert(a.take(i).last() == x);
        assert(b.take(i).last() == y);
        lemma_label_order(a.take(i - 1));
        lemma_label_order(b.take(i - 1));
        lemma_label_order(a.take(i));
        lemma_label_order(b.take(i));
        assert(oa.contains(x) <==> ob.contains(y)) by {
            if oa.contains(x) {
                assert(a.take(i - 1).contains(x));
                let k = choose|k: int| 0 <= k < a.take(i - 1).len() && #[trigger] a.take(i - 1)[k] == x;
                assert(a[k] == a[i - 1]);
                assert(b.take(i - 1)[k] == y);
                assert(b.take(i - 1).contains(y));
            }
            if ob.contains(y) {
                assert(b.take(i - 1).contains(y));
                let k = choose|k: int| 0 <= k < b.take(i - 1).len() && #[trigger] b.take(i - 1)[k] == y;
                assert(b[k] == b[i - 1]);
                assert(a.take(i - 1)[k] == x);
                assert(a.take(i - 1).contains(x));
            }
        }
        if oa.contains(x) {
            assert(label_order(a.take(i)) == oa);
            assert(label_order(b.take(i)) == ob);
            assert(a.take(i - 1).contains(x));
            let k = choose|k: int| 0 <= k < a.take(i - 1).len() && #[trigger] a.take(i - 1)[k] == x;
            assert(a[k] == a[i - 1]);
            assert(b[k] == b[i - 1]);
            assert(position(oa, a[k]) == position(ob, b[k]));
        } else {
            let pa = oa.push(x);
            let pb = ob.push(y);
            assert(label_order(a.take(i)) == pa);
            assert(label_order(b.take(i)) == pb);
            assert forall|j: int| 0 <= j < i implies #[trigger] position(pa, a[j]) == position(pb, b[j]) by {
                if j < i - 1 {
                    assert(a.take(i - 1)[j] == a[j]);
                    assert(b.take(i - 1)[j] == b[j]);
                    assert(a.take(i - 1).contains(a[j]));
                    assert(b.take(i - 1).contains(b[j]));
                    lemma_position_push(oa, x, a[j]);
                    lemma_position_push(ob, y, b[j]);
                    assert(position(oa, a[j]) == position(ob, b[j]));
                } else {
                    assert(pa[oa.len() as int] == x);
                    assert(pb[ob.len() as int] == y);
                    lemma_position(pa, oa.len() as int);
                    lemma_position(pb, ob.len() as int);
                }
            }
        }
    }
}

/// The canonical form depends only on the partition: two labellings that group
/// the tokens identically have identical canonical labels.
pub proof fn law_canonical_determined_by_partition(a: Seq<usize>, b: Seq<usize>)
    requires
        same_partition(a, b),
    ensures
        canonical_labels(a) == canonical_labels(b),
{
    lemma_same_partition_prefix(a, b, a.len() as int);
    assert(a.take(a.len() as int) =~= a);
    assert(b.take(b.len() as int) =~= b);
    assert forall|j: int| 0 <= j < a.len() implies canonical_labels(a)[j] == canonical_labels(b)[j] by {
        assert(position(label_order(a), a[j]) == position(label_order(b), b[j]));
    }
    assert(canonical_labels(a) =~= canonical_labels(b));
}


/// `groups(labels)[g]` holds, in increasing order, exactly the tokens whose
/// canonical community is `g`.
pub open spec fn groups_spec(labels: Seq<usize>, result: Seq<Seq<usize>>) -> bool {
    let c = canonical_labels(labels);
    &&& result.len() == label_order(labels).len()
    &&& forall|g: int, a: int, b: int|
        0 <= g < result.len() && 0 <= a < b < result[g].len() ==> #[trigger] result[g][a] < #[trigger] result[g][b]
    &&& forall|g: int, k: int|
        0 <= g < result.len() && 0 <= k < result[g].len() ==> #[trigger] result[g][k] < labels.len() && c[result[g][k] as int] == g
    &&& forall|i: int| 0 <= i < labels.len() ==> #[trigger] result[c[i] as int].contains(i as usize)
}

/// Members of each canonical community, in token order.
pub fn groups(labels: &[usize]) -> (result: Vec<Vec<usize>>)
    ensures
        groups_spec(labels@, result@.map_values(|g: Vec<usize>| g@)),
{
    let (canonical, count) = canonical_with_count(labels);
    let n = canonical.len();
    let mut result: Vec<Vec<usize>> = Vec::new();
    let mut g: usize = 0;
    while g < count
        invariant
            g <= count,
            result@.len() == g,
            forall|h: int| 0 <= h < g ==> (#[trigger] result@[h])@.len() == 0,
        decreases count - g,
    {
        result.push(Vec::new());
        g = g + 1;
    }
    let ghost c = canonical_labels(labels@);
    let mut i: usize = 0;
    while i < n
        invariant
            n == labels@.len(),
            canonical@ == c,
            c == canonical_labels(labels@),
            count == label_order(labels@).len(),
            forall|j: int| 0 <= j < n ==> c[j] < count,
            i <= n,
            result@.len() == count,
            forall|h: int, a: int, b: int|
                0 <= h < count && 0 <= a < b < result@[h]@.len() ==> #[trigger] result@[h]@[a] < #[trigger] result@[h]@[b],
            forall|h: int, k: int|
                0 <= h < count && 0 <= k < result@[h]@.len() ==> #[trigger] result@[h]@[k] < i && c[result@[h]@[k] as int] == h,
            forall|j: int| 0 <= j < i ==> #[trigger] result@[c[j] as int]@.contains(j as usize),
        decreases n - i,
    {
        let h = canonical[i];
        let ghost before = result@;
        result[h].push(i);
        proof {
            assert forall|j: int| 0 <= j < i + 1 implies #[trigger] result@[c[j] as int]@.contains(j as usize) by {
                if j < i {
                    assert(before[c[j] as int]@.contains(j as usize));
                    let k = choose|k: int| 0 <= k < before[c[j] as int]@.len() && before[c[j] as int]@[k] == j as usize;
                    assert(result@[c[j] as int]@[k] == j as usize);
                } else {
                    assert(result@[h as int]@[before[h as int]@.len() as int] == i);
                }
            }
        }
        i = i + 1;
    }
    proof {
        let r = result@.map_values(|g: Vec<usize>| g@);
        assert forall|h: int| 0 <= h < r.len() implies r[h] == result@[h]@ by {}
    }
    result
}

} // verus!
