//! Checking and ordering a partition that a community-detection routine
//! returned: every node exactly once, members and communities in token order.
use vstd::prelude::*;
use vstd::hash_map::StringHashMap;
use crate::order::{chars_le, is_permutation, sorted_by_token, token_order};

verus! {

/// Why a returned partition is unusable.
#[derive(Clone, Debug, PartialEq, Eq)]
pub enum PartitionError {
    /// A community without members.
    EmptyCommunity,
    /// A member that is not a node, or that an earlier community already holds.
    UnknownOrDuplicate(String),
    /// This many nodes belong to no community.
    Omitted(usize),
}

/// The names of the nodes.
pub open spec fn node_names(nodes: Seq<String>) -> Set<Seq<char>> {
    Set::new(|s: Seq<char>| exists|i: int| 0 <= i < nodes.len() && (#[trigger] nodes[i])@ == s)
}

/// Members of the first `c` communities, in order.
pub open spec fn members_before(cs: Seq<Vec<String>>, c: int) -> Seq<Seq<char>>
    decreases c,
{
    if c <= 0 {
        Seq::empty()
    } else {
        members_before(cs, c - 1) + cs[c - 1]@.map_values(|t: String| t@)
    }
}

/// Member `t` of community `c` is a node that no earlier member repeats.
pub open spec fn fresh_member(cs: Seq<Vec<String>>, names: Set<Seq<char>>, c: int, t: int) -> bool {
    let m = cs[c]@[t]@;
    &&& names.contains(m)
    &&& !members_before(cs, c).contains(m)
    &&& forall|u: int| 0 <= u < t ==> (#[trigger] cs[c]@[u])@ != m
}

/// The first `c` communities are nonempty and all their members fresh.
pub open spec fn clean_upto(cs: Seq<Vec<String>>, names: Set<Seq<char>>, c: int) -> bool {
    forall|d: int| 0 <= d < c ==> #[trigger] cs[d]@.len() > 0
        && forall|t: int| 0 <= t < cs[d]@.len() ==> #[trigger] fresh_member(cs, names, d, t)
}

proof fn lemma_members_before_len(cs: Seq<Vec<String>>, c: int)
    requires
        0 <= c <= cs.len(),
    ensures
        members_before(cs, c).len() == crate::community::member_count(cs, c),
    decreases c,
{
    if c > 0 {
        lemma_members_before_len(cs, c - 1);
    }
}

/// Number of members of the first `c` communities.
pub open spec fn member_count(cs: Seq<Vec<String>>, c: int) -> nat
    decreases c,
{
    if c <= 0 {
        0
    } else {
        member_count(cs, c - 1) + cs[c - 1]@.len()
    }
}

/// Names of the first `t` members.
pub open spec fn first_members(members: Seq<String>, t: int) -> Set<Seq<char>> {
    Set::new(|s: Seq<char>| exists|u: int| 0 <= u < t && (#[trigger] members[u])@ == s)
}

/// `out` holds the same members as `cs[c]`, by token order.
pub open spec fn sorted_copy(out: Seq<String>, members: Seq<String>) -> bool {
    exists|q: Seq<usize>| #[trigger] is_permutation(q, members.len() as int)
        && out.len() == members.len()
        && forall|x: int| 0 <= x < out.len() ==> (#[trigger] out[x])@ == members[q[x] as int]@
            && (x + 1 < out.len() ==> chars_le(out[x]@, out[x + 1]@))
}

fn sorted_members(members: &Vec<String>) -> (result: Vec<String>)
    ensures
        sorted_copy(result@, members@),
        forall|a: int, b: int| 0 <= a < b < result@.len() ==> chars_le((#[trigger] result@[a])@, (#[trigger] result@[b])@),
{
    let order = token_order(members.as_slice());
    let mut result: Vec<String> = Vec::new();
    let mut x: usize = 0;
    while x < order.len()
        invariant
            is_permutation(order@, members@.len() as int),
            sorted_by_token(members@, order@),
            x <= order@.len(),
            result@.len() == x,
            forall|y: int| 0 <= y < x ==> (#[trigger] result@[y])@ == members@[order@[y] as int]@,
        decreases order@.len() - x,
    {
        result.push(members[order[x]].clone());
        x = x + 1;
    }
    proof {
        assert forall|a: int, b: int| 0 <= a < b < result@.len() implies chars_le((#[trigger] result@[a])@, (#[trigger] result@[b])@) by {
            assert(chars_le(members@[order@[a] as int]@, members@[order@[b] as int]@));
        }
        assert forall|y: int| 0 <= y < result@.len() implies (#[trigger] result@[y])@ == members@[order@[y] as int]@
            && (y + 1 < result@.len() ==> chars_le(result@[y]@, result@[y + 1]@)) by {
            if y + 1 < result@.len() {
                assert(chars_le(members@[order@[y] as int]@, members@[order@[y + 1] as int]@));
            }
        }
        assert(is_permutation(order@, members@.len() as int));
    }
    result
}

fn copy_strings(v: &Vec<String>) -> (result: Vec<String>)
    ensures
        result@.len() == v@.len(),
        forall|i: int| 0 <= i < v@.len() ==> (#[trigger] result@[i])@ == v@[i]@,
{
    let mut result: Vec<String> = Vec::new();
    let mut i: usize = 0;
    while i < v.len()
        invariant
            i <= v@.len(),
            result@.len() == i,
            forall|q: int| 0 <= q < i ==> (#[trigger] result@[q])@ == v@[q]@,
        decreases v@.len() - i,
    {
        result.push(v[i].clone());
        i = i + 1;
    }
    result
}

proof fn lemma_sorted_copy_views(a: Seq<String>, b: Seq<String>, members: Seq<String>)
    requires
        sorted_copy(b, members),
        a.len() == b.len(),
        forall|x: int| 0 <= x < a.len() ==> (#[trigger] a[x])@ == b[x]@,
    ensures
        sorted_copy(a, members),
{
    let q = choose|q: Seq<usize>| #[trigger] is_permutation(q, members.len() as int)
        && b.len() == members.len()
        && forall|x: int| 0 <= x < b.len() ==> (#[trigger] b[x])@ == members[q[x] as int]@
            && (x + 1 < b.len() ==> chars_le(b[x]@, b[x + 1]@));
    assert forall|x: int| 0 <= x < a.len() implies (#[trigger] a[x])@ == members[q[x] as int]@
        && (x + 1 < a.len() ==> chars_le(a[x]@, a[x + 1]@)) by {
        assert(b[x]@ == members[q[x] as int]@);
        if x + 1 < a.len() {
            assert(a[x + 1]@ == b[x + 1]@);
        }
    }
    assert(is_permutation(q, members.len() as int));
}

/// Check that the communities cover every node exactly once, then sort each
/// community's members and order the communities by their first member.
pub fn canonicalize_partition(nodes: &Vec<String>, communities: &Vec<Vec<String>>) -> (result: Result<Vec<Vec<String>>, PartitionError>)
    ensures
        match result {
            Err(PartitionError::EmptyCommunity) => exists|c: int| 0 <= c < communities@.len()
                && clean_upto(communities@, node_names(nodes@), c) && (#[trigger] communities@[c])@.len() == 0,
            Err(PartitionError::UnknownOrDuplicate(token)) => exists|c: int, t: int|
                0 <= c < communities@.len() && clean_upto(communities@, node_names(nodes@), c)
                && 0 <= t < communities@[c]@.len()
                && (forall|u: int| 0 <= u < t ==> #[trigger] fresh_member(communities@, node_names(nodes@), c, u))
                && !#[trigger] fresh_member(communities@, node_names(nodes@), c, t)
                && token@ == communities@[c]@[t]@,
            Err(PartitionError::Omitted(count)) => clean_upto(communities@, node_names(nodes@), communities@.len() as int)
                && count == node_names(nodes@).len() - member_count(communities@, communities@.len() as int)
                && count > 0,
            Ok(out) => clean_upto(communities@, node_names(nodes@), communities@.len() as int)
                && node_names(nodes@).len() == member_count(communities@, communities@.len() as int)
                && out@.len() == communities@.len()
                && (exists|p: Seq<usize>| #[trigger] is_permutation(p, communities@.len() as int)
                    && forall|k: int| 0 <= k < p.len() ==> sorted_copy((#[trigger] out@[k])@, communities@[p[k] as int]@))
                && forall|a: int, b: int| 0 <= a < b < out@.len() ==> chars_le((#[trigger] out@[a])@[0]@, (#[trigger] out@[b])@[0]@),
        },
{
    let ghost cs = communities@;
    let ghost names = node_names(nodes@);
    let mut remaining: StringHashMap<usize> = StringHashMap::new();
    let mut i: usize = 0;
    while i < nodes.len()
        invariant
            i <= nodes@.len(),
            remaining@.dom() == Set::new(|s: Seq<char>| exists|j: int| 0 <= j < i && (#[trigger] nodes@[j])@ == s),
            remaining@.dom().finite(),
        decreases nodes@.len() - i,
    {
        let ghost before = remaining@.dom();
        remaining.insert(nodes[i].clone(), i);
        proof {
            assert(remaining@.dom() =~= before.insert(nodes@[i as int]@));
            assert(remaining@.dom() =~= Set::new(|s: Seq<char>| exists|j: int| 0 <= j < i + 1 && (#[trigger] nodes@[j])@ == s)) by {
                assert forall|s: Seq<char>| remaining@.dom().contains(s) implies exists|j: int| 0 <= j < i + 1 && (#[trigger] nodes@[j])@ == s by {
                    if s == nodes@[i as int]@ {
                        assert(nodes@[i as int]@ == s);
                    }
                }
            }
        }
        i = i + 1;
    }
    proof {
        assert(remaining@.dom() =~= names);
        assert(members_before(cs, 0) =~= Seq::<Seq<char>>::empty());
        assert(names.difference(members_before(cs, 0).to_set()) =~= names);
    }
    let mut sorted: Vec<Vec<String>> = Vec::new();
    let mut c: usize = 0;
    while c < communities.len()
        invariant
            cs == communities@,
            names == node_names(nodes@),
            names.finite(),
            c <= cs.len(),
            clean_upto(cs, names, c as int),
            remaining@.dom() == names.difference(members_before(cs, c as int).to_set()),
            remaining@.dom().finite(),
            remaining@.len() + member_count(cs, c as int) == names.len(),
            sorted@.len() == c,
            forall|k: int| 0 <= k < c ==> sorted_copy((#[trigger] sorted@[k])@, cs[k]@),
        decreases cs.len() - c,
    {
        let members = &communities[c];
        if members.len() == 0 {
            return Err(PartitionError::EmptyCommunity);
        }
        let mut t: usize = 0;
        proof {
            assert(names.difference(members_before(cs, c as int).to_set()) =~= names.difference(members_before(cs, c as int).to_set()).difference(
                first_members(members@, 0)));
        }
        while t < members.len()
            invariant
                cs == communities@,
                names == node_names(nodes@),
                names.finite(),
                c < cs.len(),
                clean_upto(cs, names, c as int),
                sorted@.len() == c,
                forall|k: int| 0 <= k < c ==> sorted_copy((#[trigger] sorted@[k])@, cs[k]@),
                *members == cs[c as int],
                t <= members@.len(),
                forall|u: int| 0 <= u < t ==> #[trigger] fresh_member(cs, names, c as int, u),
                remaining@.dom() == names.difference(members_before(cs, c as int).to_set()).difference(
                    first_members(members@, t as int)),
                remaining@.dom().finite(),
                remaining@.len() + member_count(cs, c as int) + t == names.len(),
            decreases members@.len() - t,
        {
            let ghost m = members@[t as int]@;
            let ghost before = remaining@.dom();
            if !remaining.contains_key(members[t].as_str()) {
                proof {
                    if fresh_member(cs, names, c as int, t as int) {
                        assert(names.contains(m));
                        assert(!members_before(cs, c as int).to_set().contains(m));
                        if first_members(members@, t as int).contains(m) {
                            let u = choose|u: int| 0 <= u < t && (#[trigger] members@[u])@ == m;
                            assert(cs[c as int]@[u]@ != m);
                        }
                        assert(remaining@.dom().contains(m));
                        assert(false);
                    }
                    assert(!fresh_member(cs, names, c as int, t as int));
                }
                let token = members[t].clone();
                proof {
                    assert(token@ == cs[c as int]@[t as int]@);
                }
                return Err(PartitionError::UnknownOrDuplicate(token));
            }
            proof {
                assert(names.contains(m));
                assert(!members_before(cs, c as int).to_set().contains(m));
                assert(!members_before(cs, c as int).contains(m));
                assert forall|u: int| 0 <= u < t implies (#[trigger] cs[c as int]@[u])@ != m by {
                    if cs[c as int]@[u]@ == m {
                        assert(first_members(members@, t as int).contains(m));
                    }
                }
                assert(fresh_member(cs, names, c as int, t as int));
            }
            remaining.remove(members[t].as_str());
            proof {
                assert(remaining@.dom() =~= before.remove(m));
                assert(remaining@.dom() =~= names.difference(members_before(cs, c as int).to_set()).difference(
                    first_members(members@, t + 1))) by {
                    assert forall|s: Seq<char>| #[trigger] first_members(members@, t + 1).contains(s)
                        implies (s == m || first_members(members@, t as int).contains(s)) by {
                        let u = choose|u: int| 0 <= u < t + 1 && (#[trigger] members@[u])@ == s;
                        if u < t {
                            assert(members@[u]@ == s);
                        }
                    }
                    assert(members@[t as int]@ == m);
                }
            }
            t = t + 1;
        }
        proof {
            let next = members_before(cs, c + 1);
            assert(next == members_before(cs, c as int) + cs[c as int]@.map_values(|x: String| x@));
            assert(remaining@.dom() =~= names.difference(next.to_set())) by {
                assert forall|s: Seq<char>| #[trigger] next.to_set().contains(s) <==> (members_before(cs, c as int).to_set().contains(s)
                    || first_members(members@, t as int).contains(s)) by {
                    let prev = members_before(cs, c as int);
                    let mine = cs[c as int]@.map_values(|x: String| x@);
                    if next.contains(s) {
                        let q = choose|q: int| 0 <= q < next.len() && next[q] == s;
                        if q >= prev.len() {
                            assert(mine[q - prev.len()] == s);
                            assert(members@[q - prev.len()]@ == s);
                        } else {
                            assert(prev[q] == s);
                        }
                    }
                    if prev.contains(s) {
                        let q = choose|q: int| 0 <= q < prev.len() && prev[q] == s;
                        assert(next[q] == s);
                    }
                    if first_members(members@, t as int).contains(s) {
                        let u = choose|u: int| 0 <= u < t && (#[trigger] members@[u])@ == s;
                        assert(next[prev.len() + u] == s);
                    }
                }
            }
            assert(clean_upto(cs, names, c + 1)) by {
                assert forall|d: int| 0 <= d < c + 1 implies #[trigger] cs[d]@.len() > 0
                    && forall|t2: int| 0 <= t2 < cs[d]@.len() ==> #[trigger] fresh_member(cs, names, d, t2) by {
                    if d < c {
                    }
                }
            }
        }
        let ordered = sorted_members(members);
        sorted.push(ordered);
        c = c + 1;
    }
    if remaining.len() > 0 {
        return Err(PartitionError::Omitted(remaining.len()));
    }
    let mut firsts: Vec<String> = Vec::new();
    let mut k: usize = 0;
    proof {
        assert forall|q: int| 0 <= q < sorted@.len() implies (#[trigger] sorted@[q])@.len() > 0 by {
            assert(sorted_copy(sorted@[q]@, cs[q]@));
            assert(cs[q]@.len() > 0);
        }
    }
    while k < sorted.len()
        invariant
            k <= sorted@.len(),
            firsts@.len() == k,
            forall|q: int| 0 <= q < sorted@.len() ==> (#[trigger] sorted@[q])@.len() > 0,
            forall|q: int| 0 <= q < k ==> (#[trigger] firsts@[q])@ == sorted@[q]@[0]@,
        decreases sorted@.len() - k,
    {
        firsts.push(sorted[k][0].clone());
        k = k + 1;
    }
    let order = token_order(firsts.as_slice());
    let mut out: Vec<Vec<String>> = Vec::new();
    let mut j: usize = 0;
    while j < order.len()
        invariant
            is_permutation(order@, firsts@.len() as int),
            sorted_by_token(firsts@, order@),
            firsts@.len() == sorted@.len(),
            j <= order@.len(),
            out@.len() == j,
            forall|q: int| 0 <= q < j ==> (#[trigger] out@[q])@.len() == sorted@[order@[q] as int]@.len()
                && forall|x: int| 0 <= x < out@[q]@.len() ==> (#[trigger] out@[q]@[x])@ == sorted@[order@[q] as int]@[x]@,
        decreases order@.len() - j,
    {
        out.push(copy_strings(&sorted[order[j]]));
        j = j + 1;
    }
    proof {
        assert forall|q: int| 0 <= q < order@.len() implies sorted_copy((#[trigger] out@[q])@, cs[order@[q] as int]@) by {
            assert(sorted_copy(sorted@[order@[q] as int]@, cs[order@[q] as int]@));
            assert forall|x: int| 0 <= x < out@[q]@.len() implies (#[trigger] out@[q]@[x])@ == sorted@[order@[q] as int]@[x]@ by {}
            lemma_sorted_copy_views(out@[q]@, sorted@[order@[q] as int]@, cs[order@[q] as int]@);
        }
        assert forall|a: int, b: int| 0 <= a < b < out@.len() implies chars_le((#[trigger] out@[a])@[0]@, (#[trigger] out@[b])@[0]@) by {
            assert(chars_le(firsts@[order@[a] as int]@, firsts@[order@[b] as int]@));
            assert(out@[a]@[0]@ == sorted@[order@[a] as int]@[0]@);
            assert(out@[b]@[0]@ == sorted@[order@[b] as int]@[0]@);
        }
        assert(is_permutation(order@, cs.len() as int));
    }
    Ok(out)
}

} // verus!
