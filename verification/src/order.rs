//! Ordering tokens: a stable merge sort of token indices by code-point order.
use vstd::prelude::*;
use crate::text::{chars_less, str_less};

verus! {

/// `a` is not after `b` in code-point order.
pub open spec fn chars_le(a: Seq<char>, b: Seq<char>) -> bool {
    !chars_less(b, a)
}

pub proof fn lemma_chars_less_irreflexive(a: Seq<char>)
    ensures
        !chars_less(a, a),
    decreases a.len(),
{
    if a.len() > 0 {
        lemma_chars_less_irreflexive(a.drop_first());
    }
}

pub proof fn lemma_chars_less_transitive(a: Seq<char>, b: Seq<char>, c: Seq<char>)
    requires
        chars_less(a, b),
        chars_less(b, c),
    ensures
        chars_less(a, c),
    decreases a.len(),
{
    if a.len() > 0 && b.len() > 0 && c.len() > 0 && a[0] == b[0] && b[0] == c[0] {
        lemma_chars_less_transitive(a.drop_first(), b.drop_first(), c.drop_first());
    }
}

pub proof fn lemma_chars_less_total(a: Seq<char>, b: Seq<char>)
    ensures
        chars_less(a, b) || chars_less(b, a) || a == b,
    decreases a.len(),
{
    if a.len() > 0 && b.len() > 0 {
        if a[0] == b[0] {
            lemma_chars_less_total(a.drop_first(), b.drop_first());
            if a.drop_first() == b.drop_first() {
                assert(a =~= seq![a[0]] + a.drop_first());
                assert(b =~= seq![b[0]] + b.drop_first());
            }
        } else {
            assert((a[0] as u32) != (b[0] as u32)) by {
                vstd::utf8::char_u32_cast(a[0], a[0] as u32);
                vstd::utf8::char_u32_cast(b[0], b[0] as u32);
            };
        }
    } else if a.len() == 0 && b.len() == 0 {
        assert(a =~= b);
    }
}

pub proof fn lemma_chars_le_transitive(a: Seq<char>, b: Seq<char>, c: Seq<char>)
    requires
        chars_le(a, b),
        chars_le(b, c),
    ensures
        chars_le(a, c),
{
    if chars_less(c, a) {
        lemma_chars_less_total(a, b);
        lemma_chars_less_total(b, c);
        if chars_less(a, b) {
            lemma_chars_less_transitive(c, a, b);
        } else if a == b {
        } else {
            // b < a
            if chars_less(b, c) {
                lemma_chars_less_transitive(b, c, a);
            }
        }
    }
}

/// `idx` lists token indices in non-decreasing token order.
pub open spec fn sorted_by_token(tokens: Seq<String>, idx: Seq<usize>) -> bool {
    forall|a: int, b: int|
        0 <= a < b < idx.len() ==> chars_le(#[trigger] tokens[idx[a] as int]@, #[trigger] tokens[idx[b] as int]@)
}

pub open spec fn indices_in_range(tokens: Seq<String>, idx: Seq<usize>) -> bool {
    forall|a: int| 0 <= a < idx.len() ==> #[trigger] idx[a] < tokens.len()
}

fn token_le(tokens: &[String], a: usize, b: usize) -> (result: bool)
    requires
        a < tokens@.len(),
        b < tokens@.len(),
    ensures
        result == chars_le(tokens@[a as int]@, tokens@[b as int]@),
{
    !str_less(tokens[b].as_str(), tokens[a].as_str())
}

fn merge(tokens: &[String], left: Vec<usize>, right: Vec<usize>) -> (result: Vec<usize>)
    requires
        indices_in_range(tokens@, left@),
        indices_in_range(tokens@, right@),
        sorted_by_token(tokens@, left@),
        sorted_by_token(tokens@, right@),
    ensures
        indices_in_range(tokens@, result@),
        sorted_by_token(tokens@, result@),
        result@.to_multiset() == left@.to_multiset().add(right@.to_multiset()),
        result@.len() == left@.len() + right@.len(),
{
    broadcast use vstd::seq_lib::to_multiset_build;
    let ghost t = tokens@;
    let mut result: Vec<usize> = Vec::new();
    let mut i: usize = 0;
    let mut j: usize = 0;
    proof {
        assert(left@.take(0) =~= Seq::<usize>::empty());
        assert(right@.take(0) =~= Seq::<usize>::empty());
        vstd::seq_lib::lemma_multiset_commutative(Seq::<usize>::empty(), Seq::<usize>::empty());
        assert(result@ =~= Seq::<usize>::empty());
        broadcast use vstd::seq_lib::to_multiset_len;
        assert(result@.to_multiset() =~= left@.take(0).to_multiset().add(right@.take(0).to_multiset()));
    }
    while i < left.len() || j < right.len()
        invariant
            t == tokens@,
            indices_in_range(t, left@),
            indices_in_range(t, right@),
            sorted_by_token(t, left@),
            sorted_by_token(t, right@),
            i <= left@.len(),
            j <= right@.len(),
            result@.len() == i + j,
            indices_in_range(t, result@),
            sorted_by_token(t, result@),
            result@.to_multiset() == left@.take(i as int).to_multiset().add(right@.take(j as int).to_multiset()),
            result@.len() > 0 && i < left@.len() ==> chars_le(t[result@.last() as int]@, t[left@[i as int] as int]@),
            result@.len() > 0 && j < right@.len() ==> chars_le(t[result@.last() as int]@, t[right@[j as int] as int]@),
        decreases left@.len() + right@.len() - i - j,
    {
        let take_left = if i == left.len() {
            false
        } else if j == right.len() {
            true
        } else {
            token_le(tokens, left[i], right[j])
        };
        let ghost before = result@;
        if take_left {
            let x = left[i];
            result.push(x);
            proof {
                assert(left@.take(i + 1) =~= left@.take(i as int).push(x));
                broadcast use vstd::multiset::group_multiset_axioms;
                assert(result@ =~= before.push(x));
                let lm = left@.take(i as int).to_multiset();
                let rm = right@.take(j as int).to_multiset();
                vstd::seq_lib::to_multiset_build(left@.take(i as int), x);
                vstd::seq_lib::to_multiset_build(before, x);
                assert(left@.take(i + 1).to_multiset() == lm.insert(x));
                assert(result@.to_multiset() == lm.add(rm).insert(x));
                assert(lm.insert(x).add(rm) =~= lm.add(rm).insert(x));
                assert forall|a: int, b: int| 0 <= a < b < result@.len() implies chars_le(#[trigger] t[result@[a] as int]@, #[trigger] t[result@[b] as int]@) by {
                    if b == result@.len() - 1 && a < b {
                        if a < before.len() - 1 {
                            assert(chars_le(t[before[a] as int]@, t[before.last() as int]@));
                            lemma_chars_le_transitive(t[before[a] as int]@, t[before.last() as int]@, t[x as int]@);
                        }
                    } else {
                        assert(result@[a] == before[a] && result@[b] == before[b]);
                    }
                }
                if i + 1 < left@.len() {
                    assert(chars_le(t[left@[i as int] as int]@, t[left@[i + 1] as int]@));
                }
                if j < right@.len() {
                    lemma_chars_less_total(t[x as int]@, t[right@[j as int] as int]@);
                }
            }
            i = i + 1;
        } else {
            let x = right[j];
            result.push(x);
            proof {
                assert(right@.take(j + 1) =~= right@.take(j as int).push(x));
                broadcast use vstd::multiset::group_multiset_axioms;
                assert(result@ =~= before.push(x));
                let lm = left@.take(i as int).to_multiset();
                let rm = right@.take(j as int).to_multiset();
                vstd::seq_lib::to_multiset_build(right@.take(j as int), x);
                vstd::seq_lib::to_multiset_build(before, x);
                assert(right@.take(j + 1).to_multiset() == rm.insert(x));
                assert(result@.to_multiset() == lm.add(rm).insert(x));
                assert(lm.add(rm.insert(x)) =~= lm.add(rm).insert(x));
                assert forall|a: int, b: int| 0 <= a < b < result@.len() implies chars_le(#[trigger] t[result@[a] as int]@, #[trigger] t[result@[b] as int]@) by {
                    if b == result@.len() - 1 && a < b {
                        if a < before.len() - 1 {
                            assert(chars_le(t[before[a] as int]@, t[before.last() as int]@));
                            lemma_chars_le_transitive(t[before[a] as int]@, t[before.last() as int]@, t[x as int]@);
                        }
                    } else {
                        assert(result@[a] == before[a] && result@[b] == before[b]);
                    }
                }
                if j + 1 < right@.len() {
                    assert(chars_le(t[right@[j as int] as int]@, t[right@[j + 1] as int]@));
                }
                if i < left@.len() && chars_less(t[left@[i as int] as int]@, t[x as int]@) {
                    lemma_chars_less_transitive(t[left@[i as int] as int]@, t[x as int]@, t[left@[i as int] as int]@);
                    lemma_chars_less_irreflexive(t[left@[i as int] as int]@);
                }
            }
            j = j + 1;
        }
    }
    proof {
        assert(left@.take(left@.len() as int) =~= left@);
        assert(right@.take(right@.len() as int) =~= right@);
    }
    result
}

/// Sort token indices by token, keeping equal tokens in their input order.
pub fn sort_by_token(tokens: &[String], idx: Vec<usize>) -> (result: Vec<usize>)
    requires
        indices_in_range(tokens@, idx@),
    ensures
        indices_in_range(tokens@, result@),
        sorted_by_token(tokens@, result@),
        result@.to_multiset() == idx@.to_multiset(),
        result@.len() == idx@.len(),
    decreases idx@.len(),
{
    if idx.len() <= 1 {
        return idx;
    }
    let mut left = idx;
    let mid = left.len() / 2;
    let ghost whole = left@;
    let right = left.split_off(mid);
    proof {
        assert(whole =~= left@ + right@);
        vstd::seq_lib::lemma_multiset_commutative(left@, right@);
    }
    let left = sort_by_token(tokens, left);
    let right = sort_by_token(tokens, right);
    merge(tokens, left, right)
}

/// `s` is in non-decreasing order.
pub open spec fn nondecreasing(s: Seq<usize>) -> bool {
    forall|a: int, b: int| 0 <= a < b < s.len() ==> s[a] <= s[b]
}

fn merge_values(left: Vec<usize>, right: Vec<usize>) -> (result: Vec<usize>)
    requires
        nondecreasing(left@),
        nondecreasing(right@),
    ensures
        nondecreasing(result@),
        result@.to_multiset() == left@.to_multiset().add(right@.to_multiset()),
        result@.len() == left@.len() + right@.len(),
{
    let mut result: Vec<usize> = Vec::new();
    let mut i: usize = 0;
    let mut j: usize = 0;
    proof {
        broadcast use vstd::multiset::group_multiset_axioms;
        assert(left@.take(0) =~= Seq::<usize>::empty());
        assert(right@.take(0) =~= Seq::<usize>::empty());
        vstd::seq_lib::lemma_multiset_commutative(Seq::<usize>::empty(), Seq::<usize>::empty());
        assert(result@ =~= Seq::<usize>::empty());
        broadcast use vstd::seq_lib::to_multiset_len;
        assert(result@.to_multiset() =~= left@.take(0).to_multiset().add(right@.take(0).to_multiset()));
    }
    while i < left.len() || j < right.len()
        invariant
            nondecreasing(left@),
            nondecreasing(right@),
            i <= left@.len(),
            j <= right@.len(),
            result@.len() == i + j,
            nondecreasing(result@),
            result@.to_multiset() == left@.take(i as int).to_multiset().add(right@.take(j as int).to_multiset()),
            result@.len() > 0 && i < left@.len() ==> result@.last() <= left@[i as int],
            result@.len() > 0 && j < right@.len() ==> result@.last() <= right@[j as int],
        decreases left@.len() + right@.len() - i - j,
    {
        let take_left = if i == left.len() {
            false
        } else if j == right.len() {
            true
        } else {
            left[i] <= right[j]
        };
        let ghost before = result@;
        let ghost lm = left@.take(i as int).to_multiset();
        let ghost rm = right@.take(j as int).to_multiset();
        if take_left {
            let x = left[i];
            result.push(x);
            proof {
                broadcast use vstd::multiset::group_multiset_axioms;
                assert(left@.take(i + 1) =~= left@.take(i as int).push(x));
                vstd::seq_lib::to_multiset_build(left@.take(i as int), x);
                vstd::seq_lib::to_multiset_build(before, x);
                assert(result@ =~= before.push(x));
                assert(lm.insert(x).add(rm) =~= lm.add(rm).insert(x));
                if i + 1 < left@.len() {
                    assert(left@[i as int] <= left@[i + 1]);
                }
            }
            i = i + 1;
        } else {
            let x = right[j];
            result.push(x);
            proof {
                broadcast use vstd::multiset::group_multiset_axioms;
                assert(right@.take(j + 1) =~= right@.take(j as int).push(x));
                vstd::seq_lib::to_multiset_build(right@.take(j as int), x);
                vstd::seq_lib::to_multiset_build(before, x);
                assert(result@ =~= before.push(x));
                assert(lm.add(rm.insert(x)) =~= lm.add(rm).insert(x));
                if j + 1 < right@.len() {
                    assert(right@[j as int] <= right@[j + 1]);
                }
            }
            j = j + 1;
        }
    }
    proof {
        assert(left@.take(left@.len() as int) =~= left@);
        assert(right@.take(right@.len() as int) =~= right@);
    }
    result
}

/// Sort integers into non-decreasing order.
pub fn sort_values(values: Vec<usize>) -> (result: Vec<usize>)
    ensures
        nondecreasing(result@),
        result@.to_multiset() == values@.to_multiset(),
        result@.len() == values@.len(),
    decreases values@.len(),
{
    if values.len() <= 1 {
        return values;
    }
    let mut left = values;
    let mid = left.len() / 2;
    let ghost whole = left@;
    let right = left.split_off(mid);
    proof {
        assert(whole =~= left@ + right@);
        vstd::seq_lib::lemma_multiset_commutative(left@, right@);
    }
    let left = sort_values(left);
    let right = sort_values(right);
    merge_values(left, right)
}

/// `p` lists each of `0..n` exactly once.
pub open spec fn is_permutation(p: Seq<usize>, n: int) -> bool {
    &&& p.len() == n
    &&& forall|k: int| 0 <= k < p.len() ==> #[trigger] p[k] < n
    &&& p.no_duplicates()
}

/// `0, 1, ..., n-1`.
pub fn index_range(n: usize) -> (result: Vec<usize>)
    ensures
        result@ == Seq::new(n as nat, |k: int| k as usize),
        is_permutation(result@, n as int),
{
    let mut result: Vec<usize> = Vec::new();
    let mut i: usize = 0;
    while i < n
        invariant
            i <= n,
            result@ == Seq::new(i as nat, |k: int| k as usize),
        decreases n - i,
    {
        result.push(i);
        i = i + 1;
        assert(result@ =~= Seq::new(i as nat, |k: int| k as usize));
    }
    result
}

pub proof fn lemma_same_multiset_permutation(a: Seq<usize>, b: Seq<usize>, n: int)
    requires
        is_permutation(a, n),
        b.to_multiset() == a.to_multiset(),
        b.len() == a.len(),
    ensures
        is_permutation(b, n),
{
    broadcast use vstd::seq_lib::group_to_multiset_ensures;
    a.lemma_multiset_has_no_duplicates();
    b.lemma_multiset_has_no_duplicates_conv();
    assert forall|k: int| 0 <= k < b.len() implies #[trigger] b[k] < n by {
        assert(b.to_multiset().count(b[k]) > 0);
        assert(a.contains(b[k]));
    }
}

/// The positions of `tokens`, ordered by token.
pub fn token_order(tokens: &[String]) -> (order: Vec<usize>)
    ensures
        is_permutation(order@, tokens@.len() as int),
        sorted_by_token(tokens@, order@),
{
    let idx = index_range(tokens.len());
    let ghost start = idx@;
    let order = sort_by_token(tokens, idx);
    proof {
        lemma_same_multiset_permutation(start, order@, tokens@.len() as int);
    }
    order
}

/// `0..n` as a set.
pub open spec fn below(n: int) -> Set<usize> {
    Set::new(|x: usize| x < n)
}

proof fn lemma_below_len(n: int)
    requires
        0 <= n <= usize::MAX + 1,
    ensures
        below(n).finite(),
        below(n).len() == n,
    decreases n,
{
    if n == 0 {
        assert(below(0) =~= Set::<usize>::empty());
    } else {
        lemma_below_len(n - 1);
        assert(below(n) =~= below(n - 1).insert((n - 1) as usize));
    }
}

/// A permutation of `0..n` lists every one of `0..n`.
pub proof fn lemma_permutation_covers(p: Seq<usize>, n: int, k: usize)
    requires
        is_permutation(p, n),
        k < n,
    ensures
        p.contains(k),
{
    broadcast use vstd::set::group_set_axioms, vstd::seq_lib::seq_to_set_is_finite;
    p.unique_seq_to_set();
    assert(n <= usize::MAX + 1) by {
        assert(k < n);
        if n > usize::MAX + 1 {
            // p holds n distinct values, all of them usize: more than there are.
            lemma_below_len(usize::MAX + 1);
            assert(p.to_set().subset_of(below(usize::MAX + 1)));
            vstd::set_lib::lemma_len_subset(p.to_set(), below(usize::MAX + 1));
        }
    }
    lemma_below_len(n);
    assert(p.to_set().subset_of(below(n)));
    vstd::set_lib::lemma_subset_equality(p.to_set(), below(n));
    assert(below(n).contains(k));
    assert(p.to_set().contains(k));
}

} // verus!
