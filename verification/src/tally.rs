//! Integer summaries of partitions and degree lists: community sizes, size
//! bands, degree histograms and degree quintiles.
use vstd::prelude::*;
use crate::order::{nondecreasing, sort_values};
use crate::partition::{canonical_labels, canonical_with_count, label_order};

verus! {

/// Number of entries of `s` equal to `x`.
pub open spec fn occurrences(s: Seq<usize>, x: usize) -> nat
    decreases s.len(),
{
    if s.len() == 0 {
        0
    } else {
        occurrences(s.drop_last(), x) + if s.last() == x { 1nat } else { 0nat }
    }
}

/// Sum of the entries of `s`.
pub open spec fn total(s: Seq<usize>) -> nat
    decreases s.len(),
{
    if s.len() == 0 {
        0
    } else {
        total(s.drop_last()) + s.last() as nat
    }
}

/// Number of entries of `s` in `lo..=hi`.
pub open spec fn count_between(s: Seq<usize>, lo: int, hi: int) -> nat
    decreases s.len(),
{
    if s.len() == 0 {
        0
    } else {
        count_between(s.drop_last(), lo, hi) + if lo <= s.last() <= hi { 1nat } else { 0nat }
    }
}

/// Sum of the entries of `s` in `lo..=hi`.
pub open spec fn sum_between(s: Seq<usize>, lo: int, hi: int) -> nat
    decreases s.len(),
{
    if s.len() == 0 {
        0
    } else {
        sum_between(s.drop_last(), lo, hi) + if lo <= s.last() <= hi { s.last() as nat } else { 0nat }
    }
}

/// Largest entry of `s` (0 when empty).
pub open spec fn largest(s: Seq<usize>) -> nat
    decreases s.len(),
{
    if s.len() == 0 {
        0
    } else if largest(s.drop_last()) >= s.last() {
        largest(s.drop_last())
    } else {
        s.last() as nat
    }
}

proof fn lemma_total_update(s: Seq<usize>, k: int, v: usize)
    requires
        0 <= k < s.len(),
    ensures
        total(s.update(k, v)) + s[k] == total(s) + v,
    decreases s.len(),
{
    if k < s.len() - 1 {
        assert(s.update(k, v).drop_last() =~= s.drop_last().update(k, v));
        lemma_total_update(s.drop_last(), k, v);
    } else {
        assert(s.update(k, v).drop_last() =~= s.drop_last());
    }
}

proof fn lemma_between_bounded(s: Seq<usize>, lo: int, hi: int)
    requires
        lo >= 0,
    ensures
        sum_between(s, lo, hi) <= total(s),
        count_between(s, lo, hi) <= s.len(),
        largest(s) <= total(s),
        count_between(s, lo, hi) <= total(s) || lo == 0,
    decreases s.len(),
{
    if s.len() > 0 {
        lemma_between_bounded(s.drop_last(), lo, hi);
    }
}

proof fn lemma_occurrences_zero(n: nat, g: usize)
    ensures
        occurrences(Seq::new(n, |i: int| 0usize), g) == (if g == 0 { n } else { 0 }),
    decreases n,
{
    if n > 0 {
        assert(Seq::new(n, |i: int| 0usize).drop_last() =~= Seq::new((n - 1) as nat, |i: int| 0usize));
        lemma_occurrences_zero((n - 1) as nat, g);
    }
}

proof fn lemma_total_zero(n: nat)
    ensures
        total(Seq::new(n, |i: int| 0usize)) == 0,
    decreases n,
{
    if n > 0 {
        assert(Seq::new(n, |i: int| 0usize).drop_last() =~= Seq::new((n - 1) as nat, |i: int| 0usize));
        lemma_total_zero((n - 1) as nat);
    }
}

/// Size of each canonical community.
pub fn community_sizes(labels: &[usize]) -> (sizes: Vec<usize>)
    ensures
        sizes@.len() == label_order(labels@).len(),
        forall|g: int| 0 <= g < sizes@.len() ==> #[trigger] sizes@[g] == occurrences(canonical_labels(labels@), g as usize),
        total(sizes@) == labels@.len(),
{
    let (canonical, count) = canonical_with_count(labels);
    let ghost c = canonical@;
    let mut sizes: Vec<usize> = Vec::new();
    let mut g: usize = 0;
    while g < count
        invariant
            g <= count,
            sizes@ == Seq::new(g as nat, |i: int| 0usize),
        decreases count - g,
    {
        sizes.push(0);
        g = g + 1;
        assert(sizes@ =~= Seq::new(g as nat, |i: int| 0usize));
    }
    proof {
        lemma_total_zero(count as nat);
        assert(c.take(0) =~= Seq::<usize>::empty());
    }
    let n = canonical.len();
    let mut i: usize = 0;
    while i < n
        invariant
            n == c.len(),
            c == canonical@,
            c == canonical_labels(labels@),
            n == labels@.len(),
            count == label_order(labels@).len(),
            forall|j: int| 0 <= j < n ==> c[j] < count,
            i <= n,
            sizes@.len() == count,
            forall|h: int| 0 <= h < count ==> #[trigger] sizes@[h] == occurrences(c.take(i as int), h as usize),
            total(sizes@) == i,
        decreases n - i,
    {
        let h = canonical[i];
        proof {
            assert(c.take(i + 1).drop_last() =~= c.take(i as int));
            lemma_total_update(sizes@, h as int, (sizes@[h as int] + 1) as usize);
            assert(occurrences(c.take(i as int), h) <= i) by {
                lemma_occurrences_bounded(c.take(i as int), h);
            }
        }
        sizes.set(h, sizes[h] + 1);
        i = i + 1;
    }
    proof {
        assert(c.take(n as int) =~= c);
    }
    sizes
}

pub proof fn lemma_occurrences_bounded(s: Seq<usize>, x: usize)
    ensures
        occurrences(s, x) <= s.len(),
    decreases s.len(),
{
    if s.len() > 0 {
        lemma_occurrences_bounded(s.drop_last(), x);
    }
}

/// Integer summary of a list of community sizes.
#[derive(Clone, Copy, Debug, PartialEq, Eq)]
pub struct SizeSummary {
    pub communities: usize,
    pub largest: usize,
    pub singletons: usize,
    pub pairs: usize,
    /// Tokens in communities of 3 to 30 members.
    pub tokens_in_3_to_30: usize,
    /// Tokens in communities of more than 100 members.
    pub tokens_over_100: usize,
}

/// Count the communities and tokens in each size band.
pub fn size_summary(sizes: &[usize]) -> (result: SizeSummary)
    requires
        total(sizes@) <= usize::MAX,
    ensures
        result.communities == sizes@.len(),
        result.largest == largest(sizes@),
        result.singletons == count_between(sizes@, 1, 1),
        result.pairs == count_between(sizes@, 2, 2),
        result.tokens_in_3_to_30 == sum_between(sizes@, 3, 30),
        result.tokens_over_100 == sum_between(sizes@, 101, usize::MAX as int),
{
    let ghost s = sizes@;
    let mut summary = SizeSummary {
        communities: sizes.len(),
        largest: 0,
        singletons: 0,
        pairs: 0,
        tokens_in_3_to_30: 0,
        tokens_over_100: 0,
    };
    let mut i: usize = 0;
    while i < sizes.len()
        invariant
            s == sizes@,
            total(s) <= usize::MAX,
            i <= s.len(),
            summary.communities == s.len(),
            summary.largest == largest(s.take(i as int)),
            summary.singletons == count_between(s.take(i as int), 1, 1),
            summary.pairs == count_between(s.take(i as int), 2, 2),
            summary.tokens_in_3_to_30 == sum_between(s.take(i as int), 3, 30),
            summary.tokens_over_100 == sum_between(s.take(i as int), 101, usize::MAX as int),
        decreases s.len() - i,
    {
        let x = sizes[i];
        proof {
            let t = s.take(i + 1);
            assert(t.drop_last() =~= s.take(i as int));
            lemma_total_prefix(s, i + 1);
            lemma_between_bounded(t, 1, 1);
            lemma_between_bounded(t, 2, 2);
            lemma_between_bounded(t, 3, 30);
            lemma_between_bounded(t, 101, usize::MAX as int);
        }
        if x > summary.largest {
            summary.largest = x;
        }
        if x == 1 {
            summary.singletons = summary.singletons + 1;
        } else if x == 2 {
            summary.pairs = summary.pairs + 1;
        } else if 3 <= x && x <= 30 {
            summary.tokens_in_3_to_30 = summary.tokens_in_3_to_30 + x;
        } else if x > 100 {
            summary.tokens_over_100 = summary.tokens_over_100 + x;
        }
        i = i + 1;
    }
    proof {
        assert(s.take(s.len() as int) =~= s);
    }
    summary
}

proof fn lemma_total_prefix(s: Seq<usize>, i: int)
    requires
        0 <= i <= s.len(),
    ensures
        total(s.take(i)) <= total(s),
    decreases s.len() - i,
{
    if i < s.len() {
        lemma_total_prefix(s, i + 1);
        assert(s.take(i + 1).drop_last() =~= s.take(i));
    } else {
        assert(s.take(i) =~= s);
    }
}

pub proof fn lemma_occurrences_multiset(s: Seq<usize>, x: usize)
    ensures
        occurrences(s, x) == s.to_multiset().count(x),
    decreases s.len(),
{
    broadcast use vstd::multiset::group_multiset_axioms;
    if s.len() == 0 {
        broadcast use vstd::seq_lib::group_to_multiset_ensures;
        assert(!s.contains(x));
    } else {
        lemma_occurrences_multiset(s.drop_last(), x);
        vstd::seq_lib::to_multiset_build(s.drop_last(), s.last());
        assert(s.drop_last().push(s.last()) =~= s);
    }
}

/// How many entries take each value, by increasing value; only values that
/// occur are listed.
pub fn degree_histogram(values: &[usize]) -> (result: Vec<(usize, usize)>)
    ensures
        forall|a: int, b: int| 0 <= a < b < result@.len() ==> (#[trigger] result@[a]).0 < (#[trigger] result@[b]).0,
        forall|k: int| 0 <= k < result@.len() ==> (#[trigger] result@[k]).1 == occurrences(values@, result@[k].0)
            && result@[k].1 > 0,
        forall|j: int| 0 <= j < values@.len() ==> exists|k: int| 0 <= k < result@.len() && (#[trigger] result@[k]).0 == #[trigger] values@[j],
{
    let mut copy: Vec<usize> = Vec::new();
    let mut j: usize = 0;
    while j < values.len()
        invariant
            j <= values@.len(),
            copy@ == values@.take(j as int),
        decreases values@.len() - j,
    {
        copy.push(values[j]);
        j = j + 1;
        assert(copy@ =~= values@.take(j as int));
    }
    assert(copy@ =~= values@);
    let sorted = sort_values(copy);
    let ghost s = sorted@;
    let mut result: Vec<(usize, usize)> = Vec::new();
    let mut i: usize = 0;
    proof {
        assert(s.take(0) =~= Seq::<usize>::empty());
    }
    while i < sorted.len()
        invariant
            s == sorted@,
            nondecreasing(s),
            i <= s.len(),
            forall|a: int, b: int| 0 <= a < b < result@.len() ==> (#[trigger] result@[a]).0 < (#[trigger] result@[b]).0,
            forall|k: int| 0 <= k < result@.len() ==> (#[trigger] result@[k]).1 == occurrences(s.take(i as int), result@[k].0)
                && result@[k].1 > 0,
            forall|m: int| 0 <= m < i ==> exists|k: int| 0 <= k < result@.len() && (#[trigger] result@[k]).0 == #[trigger] s[m],
            i > 0 ==> result@.len() > 0 && result@.last().0 == s[i - 1],
            i == 0 ==> result@.len() == 0,
        decreases s.len() - i,
    {
        let x = sorted[i];
        let ghost before = result@;
        proof {
            assert(s.take(i + 1).drop_last() =~= s.take(i as int));
            assert(s.take(i + 1).last() == x);
            lemma_occurrences_bounded(s.take(i as int), x);
        }
        let n = result.len();
        if n > 0 && result[n - 1].0 == x {
            let count = result[n - 1].1;
            result.set(n - 1, (x, count + 1));
            proof {
                assert forall|m: int| 0 <= m < i + 1 implies exists|k: int| 0 <= k < result@.len() && (#[trigger] result@[k]).0 == #[trigger] s[m] by {
                    if m < i {
                        let k = choose|k: int| 0 <= k < before.len() && (#[trigger] before[k]).0 == s[m];
                        assert(result@[k].0 == s[m]);
                    } else {
                        assert(result@[n - 1].0 == s[m]);
                    }
                }
            }
        } else {
            proof {
                if i > 0 {
                    assert(s[i - 1] <= x);
                    assert(before.last().0 < x);
                }
                lemma_occurrences_absent(s.take(i as int), x);
            }
            result.push((x, 1));
            proof {
                assert forall|m: int| 0 <= m < i + 1 implies exists|k: int| 0 <= k < result@.len() && (#[trigger] result@[k]).0 == #[trigger] s[m] by {
                    if m < i {
                        let k = choose|k: int| 0 <= k < before.len() && (#[trigger] before[k]).0 == s[m];
                        assert(result@[k].0 == s[m]);
                    } else {
                        assert(result@[n as int].0 == s[m]);
                    }
                }
            }
        }
        i = i + 1;
    }
    proof {
        assert(s.take(s.len() as int) =~= s);
        assert forall|k: int| 0 <= k < result@.len() implies (#[trigger] result@[k]).1 == occurrences(values@, result@[k].0) by {
            lemma_occurrences_multiset(s, result@[k].0);
            lemma_occurrences_multiset(values@, result@[k].0);
        }
        assert forall|j: int| 0 <= j < values@.len() implies exists|k: int| 0 <= k < result@.len() && (#[trigger] result@[k]).0 == #[trigger] values@[j] by {
            broadcast use vstd::seq_lib::group_to_multiset_ensures;
            assert(values@.to_multiset().count(values@[j]) > 0);
            assert(s.contains(values@[j]));
            let m = choose|m: int| 0 <= m < s.len() && s[m] == values@[j];
            assert(exists|k: int| 0 <= k < result@.len() && (#[trigger] result@[k]).0 == s[m]);
        }
    }
    result
}

proof fn lemma_occurrences_absent(s: Seq<usize>, x: usize)
    requires
        forall|m: int| 0 <= m < s.len() ==> s[m] < x,
    ensures
        occurrences(s, x) == 0,
    decreases s.len(),
{
    if s.len() > 0 {
        lemma_occurrences_absent(s.drop_last(), x);
    }
}

/// Degree quintile boundaries: in the sorted degrees `t` of `n` tokens, the
/// entries at `(n - 1) * i / 5` for `i` in `1..=4`.
pub fn quintile_boundaries(degrees: &[usize]) -> (result: Vec<usize>)
    requires
        degrees@.len() > 0,
        degrees@.len() <= usize::MAX / 4,
    ensures
        result@.len() == 4,
        exists|t: Seq<usize>|
            #[trigger] nondecreasing(t) && t.to_multiset() == degrees@.to_multiset() && t.len() == degrees@.len()
            && forall|i: int| 0 <= i < 4 ==> #[trigger] result@[i] == t[(degrees@.len() - 1) * (i + 1) / 5],
{
    let mut copy: Vec<usize> = Vec::new();
    let mut j: usize = 0;
    while j < degrees.len()
        invariant
            j <= degrees@.len(),
            copy@ == degrees@.take(j as int),
        decreases degrees@.len() - j,
    {
        copy.push(degrees[j]);
        j = j + 1;
        assert(copy@ =~= degrees@.take(j as int));
    }
    assert(copy@ =~= degrees@);
    let sorted = sort_values(copy);
    let last = sorted.len() - 1;
    let mut result: Vec<usize> = Vec::new();
    let mut i: usize = 1;
    while i <= 4
        invariant
            1 <= i <= 5,
            last == sorted@.len() - 1,
            sorted@.len() == degrees@.len(),
            degrees@.len() <= usize::MAX / 4,
            result@.len() == i - 1,
            forall|m: int| 0 <= m < i - 1 ==> #[trigger] result@[m] == sorted@[last * (m + 1) / 5],
        decreases 5 - i,
    {
        assert(last * i <= last * 4) by (nonlinear_arith)
            requires i <= 4;
        assert(last * i / 5 <= last) by (nonlinear_arith)
            requires i <= 4;
        result.push(sorted[last * i / 5]);
        i = i + 1;
    }
    proof {
        assert(nondecreasing(sorted@));
    }
    result
}

/// Quintile band of a degree: one more than the number of boundaries it exceeds.
pub fn degree_band(boundaries: &[usize], degree: usize) -> (band: usize)
    requires
        boundaries@.len() < usize::MAX,
    ensures
        band == 1 + count_between(boundaries@, 0, degree as int - 1),
{
    let ghost b = boundaries@;
    let mut band: usize = 1;
    let mut i: usize = 0;
    while i < boundaries.len()
        invariant
            b == boundaries@,
            i <= b.len(),
            band == 1 + count_between(b.take(i as int), 0, degree as int - 1),
            b.len() < usize::MAX,
        decreases b.len() - i,
    {
        proof {
            assert(b.take(i + 1).drop_last() =~= b.take(i as int));
            lemma_between_bounded(b.take(i as int), 0, degree as int - 1);
        }
        if degree > boundaries[i] {
            band = band + 1;
        }
        i = i + 1;
    }
    proof {
        assert(b.take(b.len() as int) =~= b);
    }
    band
}

/// How many entries equal `x` (with `x = 0` on degrees: the isolates).
pub fn count_equal(values: &[usize], x: usize) -> (result: usize)
    ensures
        result == occurrences(values@, x),
{
    let mut count: usize = 0;
    let mut i: usize = 0;
    while i < values.len()
        invariant
            i <= values@.len(),
            count == occurrences(values@.take(i as int), x),
        decreases values@.len() - i,
    {
        proof {
            assert(values@.take(i + 1).drop_last() =~= values@.take(i as int));
            lemma_occurrences_bounded(values@.take(i as int), x);
        }
        if values[i] == x {
            count = count + 1;
        }
        i = i + 1;
    }
    proof {
        assert(values@.take(values@.len() as int) =~= values@);
    }
    count
}

/// Number of the first `m` listed tokens whose community has another member.
pub open spec fn shared_members(labels: Seq<usize>, indices: Seq<usize>, m: int) -> nat
    decreases m,
{
    if m <= 0 {
        0
    } else {
        shared_members(labels, indices, m - 1) + if occurrences(labels, labels[indices[m - 1] as int]) > 1 { 1nat } else { 0nat }
    }
}

proof fn lemma_occurrences_matched(a: Seq<usize>, x: usize, b: Seq<usize>, y: usize)
    requires
        a.len() == b.len(),
        forall|j: int| 0 <= j < a.len() ==> (a[j] == x <==> b[j] == y),
    ensures
        occurrences(a, x) == occurrences(b, y),
    decreases a.len(),
{
    if a.len() > 0 {
        lemma_occurrences_matched(a.drop_last(), x, b.drop_last(), y);
    }
}

/// How many of the listed tokens belong to a community with more than one member.
pub fn nonsingleton_members(labels: &[usize], indices: &[usize]) -> (result: usize)
    requires
        forall|k: int| 0 <= k < indices@.len() ==> #[trigger] indices@[k] < labels@.len(),
    ensures
        result == shared_members(labels@, indices@, indices@.len() as int),
{
    let sizes = community_sizes(labels);
    let (canonical, count) = canonical_with_count(labels);
    let ghost c = canonical_labels(labels@);
    let n = labels.len();
    let mut result: usize = 0;
    let mut k: usize = 0;
    while k < indices.len()
        invariant
            n == labels@.len(),
            forall|q: int| 0 <= q < indices@.len() ==> #[trigger] indices@[q] < labels@.len(),
            canonical@ == c,
            c == canonical_labels(labels@),
            count == label_order(labels@).len(),
            forall|j: int| 0 <= j < labels@.len() ==> c[j] < count,
            sizes@.len() == count,
            forall|g: int| 0 <= g < count ==> #[trigger] sizes@[g] == occurrences(c, g as usize),
            k <= indices@.len(),
            result == shared_members(labels@, indices@, k as int),
            result <= k,
        decreases indices@.len() - k,
    {
        let i = indices[k];
        proof {
            assert forall|j: int| 0 <= j < labels@.len() implies (c[j] == c[i as int] <==> labels@[j] == labels@[i as int]) by {
                crate::partition::law_canonical_same_partition(labels@, j, i as int);
            }
            lemma_occurrences_matched(c, c[i as int], labels@, labels@[i as int]);
        }
        if sizes[canonical[i]] > 1 {
            result = result + 1;
        }
        k = k + 1;
    }
    result
}

/// Distance between two counts.
pub open spec fn count_gap(a: int, b: int) -> int {
    if a >= b { a - b } else { b - a }
}

/// Choose a similarity threshold by edge count: given a histogram of edge
/// weights by bin, the cumulative counts from each bin upward, and the bin
/// whose cumulative count is nearest to `target` (the highest such bin on a tie).
pub fn nearest_cumulative_bin(histogram: &Vec<usize>, target: usize) -> (result: (usize, Vec<usize>))
    requires
        histogram@.len() > 0,
        total(histogram@) <= usize::MAX,
    ensures
        result.1@.len() == histogram@.len(),
        forall|b: int| 0 <= b < histogram@.len() ==> #[trigger] result.1@[b] == total(histogram@.subrange(b, histogram@.len() as int)),
        result.0 < histogram@.len(),
        forall|b: int| 0 <= b < histogram@.len() ==> count_gap(result.1@[result.0 as int] as int, target as int)
            <= count_gap(#[trigger] result.1@[b] as int, target as int),
        forall|b: int| result.0 < b < histogram@.len() ==> count_gap(result.1@[result.0 as int] as int, target as int)
            < count_gap(#[trigger] result.1@[b] as int, target as int),
{
    let n = histogram.len();
    let ghost h = histogram@;
    let mut counts: Vec<usize> = Vec::new();
    let mut z: usize = 0;
    while z < n
        invariant
            z <= n,
            counts@.len() == z,
        decreases n - z,
    {
        counts.push(0);
        z = z + 1;
    }
    let mut accumulated: usize = 0;
    let mut best_bin: usize = n - 1;
    let mut best_gap: usize = usize::MAX;
    let mut bin: usize = n;
    proof {
        assert(h.subrange(n as int, n as int) =~= Seq::<usize>::empty());
    }
    while bin > 0
        invariant
            n == h.len(),
            h == histogram@,
            total(h) <= usize::MAX,
            bin <= n,
            counts@.len() == n,
            accumulated == total(h.subrange(bin as int, n as int)),
            forall|b: int| bin <= b < n ==> #[trigger] counts@[b] == total(h.subrange(b, n as int)),
            best_bin < n,
            bin < n ==> bin <= best_bin,
            bin < n ==> best_gap == count_gap(counts@[best_bin as int] as int, target as int),
            bin == n ==> best_gap == usize::MAX && best_bin == n - 1,
            forall|b: int| bin <= b < n ==> best_gap <= count_gap(#[trigger] counts@[b] as int, target as int),
            forall|b: int| best_bin < b < n ==> best_gap < count_gap(#[trigger] counts@[b] as int, target as int),
        decreases bin,
    {
        bin = bin - 1;
        proof {
            lemma_total_split(h, bin as int, n as int);
            lemma_total_suffix_bounded(h, bin as int);
        }
        accumulated = accumulated + histogram[bin];
        counts.set(bin, accumulated);
        let gap = if accumulated >= target { accumulated - target } else { target - accumulated };
        if gap < best_gap || bin == n - 1 {
            best_gap = gap;
            best_bin = bin;
        }
    }
    (best_bin, counts)
}

proof fn lemma_total_split(h: Seq<usize>, b: int, n: int)
    requires
        0 <= b < n == h.len(),
    ensures
        total(h.subrange(b, n)) == h[b] + total(h.subrange(b + 1, n)),
    decreases n - b,
{
    if b + 1 < n {
        lemma_total_split(h.drop_last(), b, n - 1);
        assert(h.drop_last().subrange(b, n - 1) =~= h.subrange(b, n).drop_last());
        assert(h.drop_last().subrange(b + 1, n - 1) =~= h.subrange(b + 1, n).drop_last());
    } else {
        assert(h.subrange(b + 1, n) =~= Seq::<usize>::empty());
        assert(h.subrange(b, n).drop_last() =~= Seq::<usize>::empty());
    }
}

proof fn lemma_total_suffix_bounded(h: Seq<usize>, b: int)
    requires
        0 <= b <= h.len(),
    ensures
        total(h.subrange(b, h.len() as int)) <= total(h),
    decreases b,
{
    if b > 0 {
        lemma_total_suffix_bounded(h, b - 1);
        lemma_total_split(h, b - 1, h.len() as int);
    } else {
        assert(h.subrange(0, h.len() as int) =~= h);
    }
}

} // verus!
