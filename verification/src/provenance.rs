//! Content hashes that identify the code and inputs of an experiment.
use vstd::prelude::*;
use crate::order::{
    chars_le, is_permutation, lemma_chars_less_irreflexive, lemma_chars_less_total, lemma_chars_less_transitive,
    lemma_permutation_covers, token_order,
};
use crate::text::chars_less;

verus! {

/// The SHA-256 digest of a byte string.
pub uninterp spec fn sha256(bytes: Seq<u8>) -> Seq<u8>;

/// `sha2::Sha256::digest` (the `digest::Digest` trait): the SHA-256 digest of
/// `bytes`, which is 32 bytes long.
#[verifier::external_body]
fn sha256_digest(bytes: &[u8]) -> (digest: Vec<u8>)
    ensures
        digest@ == sha256(bytes@),
        digest@.len() == 32,
{
    <sha2::Sha256 as sha2::Digest>::digest(bytes).to_vec()
}

/// `String`'s `FromIterator<char>`: the string of exactly these characters.
#[verifier::external_body]
pub(crate) fn string_from_chars(chars: &Vec<char>) -> (s: String)
    ensures
        s@ == chars@,
{
    chars.iter().collect()
}

/// Lower-case hexadecimal digit of a value below 16.
pub open spec fn hex_char(d: int) -> char {
    if d < 10 {
        (48 + d) as char
    } else {
        (87 + d) as char
    }
}

/// Lower-case hexadecimal form of a byte string, two digits per byte.
pub open spec fn hex(bytes: Seq<u8>) -> Seq<char>
    decreases bytes.len(),
{
    if bytes.len() == 0 {
        Seq::empty()
    } else {
        hex(bytes.drop_last()) + seq![hex_char((bytes.last() / 16) as int), hex_char((bytes.last() % 16) as int)]
    }
}

proof fn lemma_hex_len(bytes: Seq<u8>)
    ensures
        hex(bytes).len() == 2 * bytes.len(),
    decreases bytes.len(),
{
    if bytes.len() > 0 {
        lemma_hex_len(bytes.drop_last());
    }
}

fn hex_digit(d: u8) -> (c: char)
    requires
        d < 16,
    ensures
        c == hex_char(d as int),
{
    match d {
        0 => '0',
        1 => '1',
        2 => '2',
        3 => '3',
        4 => '4',
        5 => '5',
        6 => '6',
        7 => '7',
        8 => '8',
        9 => '9',
        10 => 'a',
        11 => 'b',
        12 => 'c',
        13 => 'd',
        14 => 'e',
        _ => 'f',
    }
}

/// Lower-case hexadecimal form of a digest.
pub fn hex_digest(digest: &[u8]) -> (result: String)
    ensures
        result@ == hex(digest@),
        result@.len() == 2 * digest@.len(),
{
    proof {
        lemma_hex_len(digest@);
    }
    let mut chars: Vec<char> = Vec::new();
    let mut i: usize = 0;
    while i < digest.len()
        invariant
            i <= digest@.len(),
            chars@ == hex(digest@.take(i as int)),
        decreases digest@.len() - i,
    {
        let b = digest[i];
        chars.push(hex_digit(b / 16));
        chars.push(hex_digit(b % 16));
        proof {
            assert(digest@.take(i + 1).drop_last() =~= digest@.take(i as int));
            assert(digest@.take(i + 1).last() == b);
            assert(chars@ =~= hex(digest@.take(i + 1)));
        }
        i = i + 1;
    }
    proof {
        assert(digest@.take(digest@.len() as int) =~= digest@);
    }
    string_from_chars(&chars)
}

/// The SHA-256 of `bytes`, in lower-case hex (64 characters).
pub fn sha256_hex(bytes: &[u8]) -> (result: String)
    ensures
        result@ == hex(sha256(bytes@)),
        result@.len() == 64,
{
    let digest = sha256_digest(bytes);
    hex_digest(digest.as_slice())
}

/// The files' names read pairwise differently.
pub open spec fn distinct_names(files: Seq<(String, Vec<u8>)>) -> bool {
    forall|a: int, b: int| 0 <= a < b < files.len() ==> (#[trigger] files[a]).0@ != (#[trigger] files[b]).0@
}

/// `result` lists each file once, as its name and the hex SHA-256 of its
/// contents, ordered by name.
pub open spec fn hashed_by_name(files: Seq<(String, Vec<u8>)>, result: Seq<(String, String)>) -> bool {
    &&& result.len() == files.len()
    &&& forall|a: int, b: int| 0 <= a < b < result.len() ==> chars_le((#[trigger] result[a]).0@, (#[trigger] result[b]).0@)
    &&& exists|p: Seq<usize>| #[trigger] is_permutation(p, files.len() as int)
        && forall|k: int| 0 <= k < p.len() ==> (#[trigger] result[k]).0@ == files[p[k] as int].0@
            && result[k].1@ == hex(sha256(files[p[k] as int].1@))
}

/// The SHA-256 of each named file, in hex, ordered by name.
pub fn code_hashes(files: &Vec<(String, Vec<u8>)>) -> (result: Vec<(String, String)>)
    requires
        distinct_names(files@),
    ensures
        hashed_by_name(files@, result@),
        forall|k: int| 0 <= k < result@.len() ==> (#[trigger] result@[k]).1@.len() == 64,
{
    let mut names: Vec<String> = Vec::new();
    let mut i: usize = 0;
    while i < files.len()
        invariant
            i <= files@.len(),
            names@.len() == i,
            forall|q: int| 0 <= q < i ==> (#[trigger] names@[q])@ == files@[q].0@,
        decreases files@.len() - i,
    {
        names.push(files[i].0.clone());
        i = i + 1;
    }
    let order = token_order(&names);
    let mut result: Vec<(String, String)> = Vec::new();
    let mut k: usize = 0;
    while k < order.len()
        invariant
            names@.len() == files@.len(),
            forall|q: int| 0 <= q < names@.len() ==> (#[trigger] names@[q])@ == files@[q].0@,
            is_permutation(order@, names@.len() as int),
            crate::order::sorted_by_token(names@, order@),
            k <= order@.len(),
            result@.len() == k,
            forall|q: int| 0 <= q < k ==> (#[trigger] result@[q]).0@ == files@[order@[q] as int].0@
                && result@[q].1@ == hex(sha256(files@[order@[q] as int].1@))
                && result@[q].1@.len() == 64,
        decreases order@.len() - k,
    {
        let f = order[k];
        let text = sha256_hex(files[f].1.as_slice());
        result.push((files[f].0.clone(), text));
        k = k + 1;
    }
    proof {
        assert forall|a: int, b: int| 0 <= a < b < result@.len() implies chars_le((#[trigger] result@[a]).0@, (#[trigger] result@[b]).0@) by {
            assert(chars_le(names@[order@[a] as int]@, names@[order@[b] as int]@));
        }
    }
    result
}

/// `x` rises strictly in code-point order.
pub open spec fn strictly_rising(x: Seq<Seq<char>>) -> bool {
    forall|i: int, j: int| 0 <= i < j < x.len() ==> chars_less(#[trigger] x[i], #[trigger] x[j])
}

/// Two strictly rising lists of names with the same members are the same list.
pub proof fn lemma_rising_determined(x: Seq<Seq<char>>, y: Seq<Seq<char>>)
    requires
        strictly_rising(x),
        strictly_rising(y),
        forall|s: Seq<char>| x.contains(s) <==> y.contains(s),
    ensures
        x == y,
    decreases x.len() + y.len(),
{
    if x.len() > 0 && y.len() > 0 {
        let (u, v) = (x.last(), y.last());
        assert(x.contains(u));
        assert(y.contains(v));
        let i = choose|i: int| 0 <= i < y.len() && y[i] == u;
        let j = choose|j: int| 0 <= j < x.len() && x[j] == v;
        if u != v {
            lemma_chars_less_total(u, v);
            if chars_less(u, v) {
                assert(j < x.len() - 1);
                assert(chars_less(x[j], x[x.len() - 1]));
                lemma_chars_less_transitive(u, v, u);
                lemma_chars_less_irreflexive(u);
            } else {
                assert(i < y.len() - 1);
                assert(chars_less(y[i], y[y.len() - 1]));
                lemma_chars_less_transitive(v, u, v);
                lemma_chars_less_irreflexive(v);
            }
        }
        assert forall|s: Seq<char>| x.drop_last().contains(s) <==> y.drop_last().contains(s) by {
            if x.drop_last().contains(s) {
                let q = choose|q: int| 0 <= q < x.len() - 1 && x.drop_last()[q] == s;
                assert(chars_less(x[q], x[x.len() - 1]));
                lemma_chars_less_irreflexive(u);
                assert(x.contains(s));
                let r = choose|r: int| 0 <= r < y.len() && y[r] == s;
                assert(r != y.len() - 1);
                assert(y.drop_last()[r] == s);
            }
            if y.drop_last().contains(s) {
                let q = choose|q: int| 0 <= q < y.len() - 1 && y.drop_last()[q] == s;
                assert(chars_less(y[q], y[y.len() - 1]));
                lemma_chars_less_irreflexive(v);
                assert(y.contains(s));
                let r = choose|r: int| 0 <= r < x.len() && x[r] == s;
                assert(r != x.len() - 1);
                assert(x.drop_last()[r] == s);
            }
        }
        lemma_rising_determined(x.drop_last(), y.drop_last());
        assert(x =~= x.drop_last().push(u));
        assert(y =~= y.drop_last().push(v));
    } else if x.len() > 0 {
        assert(x.contains(x.last()));
    } else if y.len() > 0 {
        assert(y.contains(y.last()));
    } else {
        assert(x =~= y);
    }
}

/// The names of a hash list.
pub open spec fn listed_names(result: Seq<(String, String)>) -> Seq<Seq<char>> {
    Seq::new(result.len(), |k: int| result[k].0@)
}

proof fn lemma_hashed_names(files: Seq<(String, Vec<u8>)>, a: Seq<(String, String)>) -> (p: Seq<usize>)
    requires
        files.len() <= usize::MAX,
        distinct_names(files),
        hashed_by_name(files, a),
    ensures
        is_permutation(p, files.len() as int),
        forall|k: int| 0 <= k < p.len() ==> (#[trigger] a[k]).0@ == files[p[k] as int].0@
            && a[k].1@ == hex(sha256(files[p[k] as int].1@)),
        strictly_rising(listed_names(a)),
        forall|s: Seq<char>| listed_names(a).contains(s) <==> exists|m: int| 0 <= m < files.len() && s == (#[trigger] files[m]).0@,
{
    let p = choose|p: Seq<usize>| #[trigger] is_permutation(p, files.len() as int)
        && forall|k: int| 0 <= k < p.len() ==> (#[trigger] a[k]).0@ == files[p[k] as int].0@
            && a[k].1@ == hex(sha256(files[p[k] as int].1@));
    let x = listed_names(a);
    assert forall|i: int, j: int| 0 <= i < j < x.len() implies chars_less(#[trigger] x[i], #[trigger] x[j]) by {
        assert(chars_le(a[i].0@, a[j].0@));
        assert(p[i] != p[j]);
        if p[i] < p[j] {
            assert(files[p[i] as int].0@ != files[p[j] as int].0@);
        } else {
            assert(files[p[j] as int].0@ != files[p[i] as int].0@);
        }
        lemma_chars_less_total(x[i], x[j]);
    }
    assert forall|s: Seq<char>| x.contains(s) <==> exists|m: int| 0 <= m < files.len() && s == (#[trigger] files[m]).0@ by {
        if x.contains(s) {
            let k = choose|k: int| 0 <= k < x.len() && x[k] == s;
            assert(s == files[p[k] as int].0@);
        }
        if exists|m: int| 0 <= m < files.len() && s == (#[trigger] files[m]).0@ {
            let m = choose|m: int| 0 <= m < files.len() && s == (#[trigger] files[m]).0@;
            lemma_permutation_covers(p, files.len() as int, m as usize);
            let k = choose|k: int| 0 <= k < p.len() && p[k] == m as usize;
            assert(x[k] == s);
        }
    }
    p
}

/// Hashing the same files twice gives the same list: the same names in the
/// same order, with the same digests.
pub proof fn law_code_hashes_repeatable(files: Seq<(String, Vec<u8>)>, a: Seq<(String, String)>, b: Seq<(String, String)>)
    requires
        files.len() <= usize::MAX,
        distinct_names(files),
        hashed_by_name(files, a),
        hashed_by_name(files, b),
    ensures
        a.len() == b.len(),
        forall|k: int| 0 <= k < a.len() ==> (#[trigger] a[k]).0@ == b[k].0@ && a[k].1@ == b[k].1@,
{
    let pa = lemma_hashed_names(files, a);
    let pb = lemma_hashed_names(files, b);
    lemma_rising_determined(listed_names(a), listed_names(b));
    assert forall|k: int| 0 <= k < a.len() implies (#[trigger] a[k]).0@ == b[k].0@ && a[k].1@ == b[k].1@ by {
        assert(listed_names(a)[k] == listed_names(b)[k]);
        if pa[k] < pb[k] {
            assert(files[pa[k] as int].0@ != files[pb[k] as int].0@);
        } else if pb[k] < pa[k] {
            assert(files[pb[k] as int].0@ != files[pa[k] as int].0@);
        }
    }
}

} // verus!
