//! Ranking (name, count) entries: by count, largest first, then by name.
use vstd::prelude::*;
use crate::order::{chars_le, is_permutation, index_range, lemma_chars_le_transitive, lemma_chars_less_irreflexive, lemma_chars_less_transitive};
use crate::text::{chars_less, str_less};

verus! {

/// `a` ranks no later than `b`: a larger count, or the same count and a name
/// not after `b`'s.
pub open spec fn entry_le(a: (String, usize), b: (String, usize)) -> bool {
    a.1 > b.1 || (a.1 == b.1 && chars_le(a.0@, b.0@))
}

pub open spec fn entries_in_range(entries: Seq<(String, usize)>, idx: Seq<usize>) -> bool {
    forall|a: int| 0 <= a < idx.len() ==> #[trigger] idx[a] < entries.len()
}

/// `idx` lists entry positions in rank order.
pub open spec fn sorted_by_rank(entries: Seq<(String, usize)>, idx: Seq<usize>) -> bool {
    forall|a: int, b: int|
        0 <= a < b < idx.len() ==> entry_le(#[trigger] entries[idx[a] as int], #[trigger] entries[idx[b] as int])
}

proof fn lemma_entry_le_transitive(a: (String, usize), b: (String, usize), c: (String, usize))
    requires
        entry_le(a, b),
        entry_le(b, c),
    ensures
        entry_le(a, c),
{
    if a.1 == b.1 && b.1 == c.1 {
        lemma_chars_le_transitive(a.0@, b.0@, c.0@);
    }
}

proof fn lemma_entry_le_total(a: (String, usize), b: (String, usize))
    ensures
        entry_le(a, b) || entry_le(b, a),
{
    if a.1 == b.1 && chars_less(b.0@, a.0@) && chars_less(a.0@, b.0@) {
        lemma_chars_less_transitive(a.0@, b.0@, a.0@);
        lemma_chars_less_irreflexive(a.0@);
    }
}

fn rank_le(entries: &[(String, usize)], a: usize, b: usize) -> (result: bool)
    requires
        a < entries@.len(),
        b < entries@.len(),
    ensures
        result == entry_le(entries@[a as int], entries@[b as int]),
{
    entries[a].1 > entries[b].1 || (entries[a].1 == entries[b].1 && !str_less(entries[b].0.as_str(), entries[a].0.as_str()))
}

fn merge_entries(entries: &[(String, usize)], left: Vec<usize>, right: Vec<usize>) -> (result: Vec<usize>)
    requires
        entries_in_range(entries@, left@),
        entries_in_range(entries@, right@),
        sorted_by_rank(entries@, left@),
        sorted_by_rank(entries@, right@),
    ensures
        entries_in_range(entries@, result@),
        sorted_by_rank(entries@, result@),
        result@.to_multiset() == left@.to_multiset().add(right@.to_multiset()),
        result@.len() == left@.len() + right@.len(),
{
    broadcast use vstd::seq_lib::to_multiset_build;
    let ghost t = entries@;
    let mut result: Vec<usize> = Vec::new();
    let mut i: usize = 0;
    let mut j: usize = 0;
    proof {
        assert(left@.take(0) =~= Seq::<usize>::empty());
        assert(right@.take(0) =~= Seq::<usize>::empty());
        vstd::seq_lib::lemma_multiset_commutative(Seq::<usize>::empty(), Seq::<usize>::empty());
        assert(result@ =~= Seq::<usize>::empty());
        broadcast use vstd::seq_lib::to_multiset_len;
        assert(result@.to_multiset() =~= left@.take(0).to_multiset().add(right@.take(0).to_multiset()));
    }
    while i < left.len() || j < right.len()
        invariant
            t == entries@,
            entries_in_range(t, left@),
            entries_in_range(t, right@),
            sorted_by_rank(t, left@),
            sorted_by_rank(t, right@),
            i <= left@.len(),
            j <= right@.len(),
            result@.len() == i + j,
            entries_in_range(t, result@),
            sorted_by_rank(t, result@),
            result@.to_multiset() == left@.take(i as int).to_multiset().add(right@.take(j as int).to_multiset()),
            result@.len() > 0 && i < left@.len() ==> entry_le(t[result@.last() as int], t[left@[i as int] as int]),
            result@.len() > 0 && j < right@.len() ==> entry_le(t[result@.last() as int], t[right@[j as int] as int]),
        decreases left@.len() + right@.len() - i - j,
    {
        let take_left = if i == left.len() {
            false
        } else if j == right.len() {
            true
        } else {
            rank_le(entries, left[i], right[j])
        };
        let ghost before = result@;
        if take_left {
            let x = left[i];
            result.push(x);
            proof {
                assert(left@.take(i + 1) =~= left@.take(i as int).push(x));
                broadcast use vstd::multiset::group_multiset_axioms;
                assert(result@ =~= before.push(x));
                let lm = left@.take(i as int).to_multiset();
                let rm = right@.take(j as int).to_multiset();
                vstd::seq_lib::to_multiset_build(left@.take(i as int), x);
                vstd::seq_lib::to_multiset_build(before, x);
                assert(left@.take(i + 1).to_multiset() == lm.insert(x));
                assert(result@.to_multiset() == lm.add(rm).insert(x));
                assert(lm.insert(x).add(rm) =~= lm.add(rm).insert(x));
                assert forall|a: int, b: int| 0 <= a < b < result@.len() implies entry_le(#[trigger] t[result@[a] as int], #[trigger] t[result@[b] as int]) by {
                    if b == result@.len() - 1 && a < b {
                        if a < before.len() - 1 {
                            assert(entry_le(t[before[a] as int], t[before.last() as int]));
                            lemma_entry_le_transitive(t[before[a] as int], t[before.last() as int], t[x as int]);
                        }
                    } else {
                        assert(result@[a] == before[a] && result@[b] == before[b]);
                    }
                }
                if i + 1 < left@.len() {
                    assert(entry_le(t[left@[i as int] as int], t[left@[i + 1] as int]));
                }
                if j < right@.len() {
                    lemma_entry_le_total(t[x as int], t[right@[j as int] as int]);
                }
            }
            i = i + 1;
        } else {
            let x = right[j];
            result.push(x);
            proof {
                assert(right@.take(j + 1) =~= right@.take(j as int).push(x));
                broadcast use vstd::multiset::group_multiset_axioms;
                assert(result@ =~= before.push(x));
                let lm = left@.take(i as int).to_multiset();
                let rm = right@.take(j as int).to_multiset();
                vstd::seq_lib::to_multiset_build(right@.take(j as int), x);
                vstd::seq_lib::to_multiset_build(before, x);
                assert(right@.take(j + 1).to_multiset() == rm.insert(x));
                assert(result@.to_multiset() == lm.add(rm).insert(x));
                assert(lm.add(rm.insert(x)) =~= lm.add(rm).insert(x));
                assert forall|a: int, b: int| 0 <= a < b < result@.len() implies entry_le(#[trigger] t[result@[a] as int], #[trigger] t[result@[b] as int]) by {
                    if b == result@.len() - 1 && a < b {
                        if a < before.len() - 1 {
                            assert(entry_le(t[before[a] as int], t[before.last() as int]));
                            lemma_entry_le_transitive(t[before[a] as int], t[before.last() as int], t[x as int]);
                        }
                    } else {
                        assert(result@[a] == before[a] && result@[b] == before[b]);
                    }
                }
                if j + 1 < right@.len() {
                    assert(entry_le(t[right@[j as int] as int], t[right@[j + 1] as int]));
                }
                if i < left@.len() {
                    lemma_entry_le_total(t[x as int], t[left@[i as int] as int]);
                }
            }
            j = j + 1;
        }
    }
    proof {
        assert(left@.take(left@.len() as int) =~= left@);
        assert(right@.take(right@.len() as int) =~= right@);
    }
    result
}

fn sort_entries(entries: &[(String, usize)], idx: Vec<usize>) -> (result: Vec<usize>)
    requires
        entries_in_range(entries@, idx@),
    ensures
        entries_in_range(entries@, result@),
        sorted_by_rank(entries@, result@),
        result@.to_multiset() == idx@.to_multiset(),
        result@.len() == idx@.len(),
    decreases idx@.len(),
{
    if idx.len() <= 1 {
        return idx;
    }
    let mut left = idx;
    let mid = left.len() / 2;
    let ghost whole = left@;
    let right = left.split_off(mid);
    proof {
        assert(whole =~= left@ + right@);
        vstd::seq_lib::lemma_multiset_commutative(left@, right@);
    }
    let left = sort_entries(entries, left);
    let right = sort_entries(entries, right);
    merge_entries(entries, left, right)
}

/// The `k` highest-ranked entries, by count (largest first) and then by name.
pub fn top_entries_usize(entries: &[(String, usize)], k: usize) -> (result: Vec<(String, usize)>)
    ensures
        result@.len() == if k < entries@.len() { k as int } else { entries@.len() as int },
        exists|p: Seq<usize>|
            #[trigger] is_permutation(p, entries@.len() as int) && sorted_by_rank(entries@, p)
            && forall|j: int| 0 <= j < result@.len() ==> result@[j] == entries@[#[trigger] p[j] as int],
{
    let idx = index_range(entries.len());
    let ghost start = idx@;
    let order = sort_entries(entries, idx);
    proof {
        crate::order::lemma_same_multiset_permutation(start, order@, entries@.len() as int);
    }
    let count = if k < entries.len() { k } else { entries.len() };
    let mut result: Vec<(String, usize)> = Vec::new();
    let mut j: usize = 0;
    while j < count
        invariant
            count <= order@.len(),
            order@.len() == entries@.len(),
            entries_in_range(entries@, order@),
            j <= count,
            result@.len() == j,
            forall|m: int| 0 <= m < j ==> result@[m] == entries@[#[trigger] order@[m] as int],
        decreases count - j,
    {
        let i = order[j];
        result.push((entries[i].0.clone(), entries[i].1));
        j = j + 1;
    }
    result
}

} // verus!
