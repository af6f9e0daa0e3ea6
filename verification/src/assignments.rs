//! Assignment files (`token,community` rows): parsing community ids, finding
//! columns, and aligning a file's rows with a vocabulary.
use vstd::prelude::*;
use vstd::hash_map::StringHashMap;
use crate::order::{chars_le, is_permutation, lemma_permutation_covers, sorted_by_token, token_order};
use crate::partition::AssignmentError;
use crate::csv_table::{csv_read, csv_records, find_column, first_named, table_view, views};

verus! {

/// Why an assignment file cannot be aligned with a vocabulary.
#[derive(Clone, Debug, PartialEq, Eq)]
pub enum AlignError {
    /// A community id is not a non-negative integer.
    InvalidCommunity,
    /// The token occurs in two rows.
    Duplicate(String),
    /// The vocabulary token has no row of its own.
    Missing(String),
    /// This many rows name tokens outside the vocabulary.
    Unknown(usize),
}

pub open spec fn is_digit(c: char) -> bool {
    '0' <= c <= '9'
}

pub open spec fn digit_value(c: char) -> int {
    c as int - '0' as int
}

/// Value of a string of decimal digits.
pub open spec fn decimal(s: Seq<char>) -> int
    decreases s.len(),
{
    if s.len() == 0 {
        0
    } else {
        decimal(s.drop_last()) * 10 + digit_value(s.last())
    }
}

/// The digits of an unsigned integer literal: an optional `+` sign is dropped.
pub open spec fn unsigned_digits(s: Seq<char>) -> Seq<char> {
    if s.len() > 0 && s[0] == '+' {
        s.drop_first()
    } else {
        s
    }
}

/// What parsing `s` as a `usize` gives: an optional `+`, then one or more
/// decimal digits whose value fits in a `usize`.
pub open spec fn parsed_count(s: Seq<char>) -> Option<usize> {
    let d = unsigned_digits(s);
    if d.len() > 0 && (forall|i: int| 0 <= i < d.len() ==> is_digit(#[trigger] d[i]))
        && decimal(d) <= usize::MAX {
        Some(decimal(d) as usize)
    } else {
        None
    }
}

proof fn lemma_decimal_nonnegative(s: Seq<char>)
    requires
        forall|i: int| 0 <= i < s.len() ==> is_digit(#[trigger] s[i]),
    ensures
        decimal(s) >= 0,
    decreases s.len(),
{
    if s.len() > 0 {
        lemma_decimal_nonnegative(s.drop_last());
        assert(is_digit(s[s.len() - 1]));
    }
}

proof fn lemma_decimal_monotone(s: Seq<char>, i: int)
    requires
        0 <= i <= s.len(),
        forall|k: int| 0 <= k < s.len() ==> is_digit(#[trigger] s[k]),
    ensures
        decimal(s.take(i)) <= decimal(s),
    decreases s.len() - i,
{
    if i < s.len() {
        lemma_decimal_monotone(s, i + 1);
        assert(s.take(i + 1).drop_last() =~= s.take(i));
        assert(is_digit(s.take(i + 1).last()));
        lemma_decimal_nonnegative(s.take(i));
        assert(decimal(s.take(i + 1)) == decimal(s.take(i)) * 10 + digit_value(s[i]));
    } else {
        assert(s.take(i) =~= s);
    }
}

/// Parse a community id as Rust parses a `usize`.
pub fn parse_count(text: &str) -> (result: Option<usize>)
    ensures
        result == parsed_count(text@),
{
    let len = text.unicode_len();
    let mut start: usize = 0;
    if len > 0 && text.get_char(0) == '+' {
        start = 1;
    }
    let ghost d = unsigned_digits(text@);
    proof {
        assert(d =~= text@.skip(start as int));
    }
    if start == len {
        return None;
    }
    let mut value: usize = 0;
    let mut i: usize = start;
    while i < len
        invariant
            len == text@.len(),
            start <= i <= len,
            start < len,
            d == unsigned_digits(text@),
            d =~= text@.skip(start as int),
            forall|k: int| 0 <= k < i - start ==> is_digit(#[trigger] d[k]),
            value == decimal(d.take(i - start)),
        decreases len - i,
    {
        let c = text.get_char(i);
        let ghost k: int = i - start;
        if !('0' <= c && c <= '9') {
            proof {
                assert(d[k] == c);
                assert(!is_digit(d[k]));
            }
            return None;
        }
        let digit = (c as u32 - '0' as u32) as usize;
        proof {
            assert(d[k] == c);
            assert(d.take(k + 1).drop_last() =~= d.take(k));
        }
        match value.checked_mul(10) {
            None => {
                proof {
                    lemma_decimal_nonnegative(d.take(k));
                    assert(is_digit(d.take(k + 1).last()));
                    assert(decimal(d.take(k + 1)) == value * 10 + digit_value(d[k]));
                    if forall|m: int| 0 <= m < d.len() ==> is_digit(#[trigger] d[m]) {
                        lemma_decimal_monotone(d, k + 1);
                    }
                }
                return None;
            },
            Some(shifted) => match shifted.checked_add(digit) {
                None => {
                    proof {
                        lemma_decimal_nonnegative(d.take(k));
                        assert(decimal(d.take(k + 1)) == value * 10 + digit_value(d[k]));
                        if forall|m: int| 0 <= m < d.len() ==> is_digit(#[trigger] d[m]) {
                            lemma_decimal_monotone(d, k + 1);
                        }
                    }
                    return None;
                },
                Some(next) => {
                    value = next;
                },
            },
        }
        i = i + 1;
    }
    proof {
        assert(d.take(len - start) =~= d);
    }
    Some(value)
}

/// The row's token repeats the token of an earlier row.
pub open spec fn repeats_earlier(rows: Seq<(String, String)>, j: int) -> bool {
    exists|i: int| 0 <= i < j && (#[trigger] rows[i]).0@ == rows[j].0@
}

/// The row stops the file from being read: its community id does not parse,
/// or its token was already assigned.
pub open spec fn bad_row(rows: Seq<(String, String)>, j: int) -> bool {
    parsed_count(rows[j].1@) is None || repeats_earlier(rows, j)
}

/// `j` is the first row that stops the file from being read.
pub open spec fn first_bad_row(rows: Seq<(String, String)>, j: int) -> bool {
    &&& 0 <= j < rows.len()
    &&& bad_row(rows, j)
    &&& forall|i: int| 0 <= i < j ==> !#[trigger] bad_row(rows, i)
}

pub open spec fn rows_readable(rows: Seq<(String, String)>) -> bool {
    forall|j: int| 0 <= j < rows.len() ==> !#[trigger] bad_row(rows, j)
}

/// Some row assigns `token`.
pub open spec fn has_row(rows: Seq<(String, String)>, token: Seq<char>) -> bool {
    exists|i: int| 0 <= i < rows.len() && (#[trigger] rows[i]).0@ == token
}

/// Vocabulary token `k` gets a row: one exists, and no earlier vocabulary
/// token (which would have consumed it) is the same.
pub open spec fn token_matched(rows: Seq<(String, String)>, tokens: Seq<String>, k: int) -> bool {
    &&& has_row(rows, tokens[k]@)
    &&& forall|m: int| 0 <= m < k ==> (#[trigger] tokens[m])@ != tokens[k]@
}

pub open spec fn first_unmatched(rows: Seq<(String, String)>, tokens: Seq<String>, k: int) -> bool {
    &&& 0 <= k < tokens.len()
    &&& !token_matched(rows, tokens, k)
    &&& forall|m: int| 0 <= m < k ==> #[trigger] token_matched(rows, tokens, m)
}

pub open spec fn all_matched(rows: Seq<(String, String)>, tokens: Seq<String>) -> bool {
    forall|k: int| 0 <= k < tokens.len() ==> #[trigger] token_matched(rows, tokens, k)
}

/// `label` is the community id in the row of `token`.
pub open spec fn row_label(rows: Seq<(String, String)>, token: Seq<char>, label: usize) -> bool {
    exists|i: int| 0 <= i < rows.len() && (#[trigger] rows[i]).0@ == token && parsed_count(rows[i].1@) == Some(label)
}

/// What reading an assignment file gives for a vocabulary, by the file's rows
/// of (token, community text): every row is read in order (a bad id or a
/// repeated token stops it), then each vocabulary token takes its own row, and
/// no row may be left over.
pub open spec fn alignment_spec(rows: Seq<(String, String)>, tokens: Seq<String>, result: Result<Vec<usize>, AlignError>) -> bool {
    match result {
        Err(AlignError::InvalidCommunity) => exists|j: int| first_bad_row(rows, j) && parsed_count(rows[j].1@) is None,
        Err(AlignError::Duplicate(t)) => exists|j: int|
            first_bad_row(rows, j) && parsed_count(rows[j].1@) is Some && t@ == rows[j].0@,
        Err(AlignError::Missing(t)) => rows_readable(rows) && exists|k: int|
            first_unmatched(rows, tokens, k) && t@ == tokens[k]@,
        Err(AlignError::Unknown(count)) => rows_readable(rows) && all_matched(rows, tokens)
            && count == rows.len() - tokens.len() && count > 0,
        Ok(labels) => rows_readable(rows) && all_matched(rows, tokens) && rows.len() == tokens.len()
            && labels@.len() == tokens.len()
            && forall|k: int| 0 <= k < tokens.len() ==> row_label(rows, tokens[k]@, #[trigger] labels@[k]),
    }
}

/// Align assignment rows with a vocabulary: the labels in vocabulary order,
/// requiring exactly the vocabulary (never its intersection).
pub fn align_assignments(rows: &[(String, String)], tokens: &[String]) -> (result: Result<Vec<usize>, AlignError>)
    ensures
        alignment_spec(rows@, tokens@, result),
{
    let ghost r = rows@;
    let ghost t = tokens@;
    let mut map: StringHashMap<usize> = StringHashMap::new();
    let mut j: usize = 0;
    while j < rows.len()
        invariant
            r == rows@,
            j <= r.len(),
            forall|i: int| 0 <= i < j ==> !#[trigger] bad_row(r, i),
            forall|key: Seq<char>| #[trigger] map@.contains_key(key) <==> exists|i: int| 0 <= i < j && (#[trigger] r[i]).0@ == key,
            forall|i: int| 0 <= i < j ==> Some(map@[(#[trigger] r[i]).0@]) == parsed_count(r[i].1@),
            map@.dom().finite(),
            map@.len() == j,
        decreases r.len() - j,
    {
        let parsed = parse_count(rows[j].1.as_str());
        match parsed {
            None => {
                proof {
                    assert(first_bad_row(r, j as int));
                }
                return Err(AlignError::InvalidCommunity);
            },
            Some(value) => {
                if map.contains_key(rows[j].0.as_str()) {
                    proof {
                        let i = choose|i: int| 0 <= i < j && (#[trigger] r[i]).0@ == r[j as int].0@;
                        assert(repeats_earlier(r, j as int));
                        assert(first_bad_row(r, j as int));
                    }
                    return Err(AlignError::Duplicate(rows[j].0.clone()));
                }
                let ghost before = map@;
                map.insert(rows[j].0.clone(), value);
                proof {
                    assert(!repeats_earlier(r, j as int));
                    assert(!bad_row(r, j as int));
                    assert forall|key: Seq<char>| #[trigger] map@.contains_key(key) <==> exists|i: int| 0 <= i < j + 1 && (#[trigger] r[i]).0@ == key by {
                        if key == r[j as int].0@ {
                            assert(r[j as int].0@ == key);
                        }
                        if map@.contains_key(key) && key != r[j as int].0@ {
                            assert(before.contains_key(key));
                        }
                    }
                    assert forall|i: int| 0 <= i < j + 1 implies Some(map@[(#[trigger] r[i]).0@]) == parsed_count(r[i].1@) by {
                        if i < j {
                            assert(before.contains_key(r[i].0@));
                            assert(r[i].0@ != r[j as int].0@);
                        }
                    }
                    assert(map@.dom() =~= before.dom().insert(r[j as int].0@));
                }
            },
        }
        j = j + 1;
    }
    let mut labels: Vec<usize> = Vec::new();
    let mut k: usize = 0;
    while k < tokens.len()
        invariant
            r == rows@,
            t == tokens@,
            rows_readable(r),
            k <= t.len(),
            labels@.len() == k,
            forall|m: int| 0 <= m < k ==> #[trigger] token_matched(r, t, m),
            forall|m: int| 0 <= m < k ==> row_label(r, t[m]@, #[trigger] labels@[m]),
            forall|key: Seq<char>| #[trigger] map@.contains_key(key) <==> (has_row(r, key) && forall|m: int| 0 <= m < k ==> (#[trigger] t[m])@ != key),
            forall|i: int| 0 <= i < r.len() && map@.contains_key((#[trigger] r[i]).0@) ==> Some(map@[r[i].0@]) == parsed_count(r[i].1@),
            map@.dom().finite(),
            map@.len() + k == r.len(),
        decreases t.len() - k,
    {
        let found = map.get(tokens[k].as_str());
        match found {
            None => {
                proof {
                    assert(!token_matched(r, t, k as int));
                    assert(first_unmatched(r, t, k as int));
                }
                return Err(AlignError::Missing(tokens[k].clone()));
            },
            Some(value) => {
                let value = *value;
                let ghost before = map@;
                proof {
                    let key = t[k as int]@;
                    assert(has_row(r, key));
                    let i = choose|i: int| 0 <= i < r.len() && (#[trigger] r[i]).0@ == key;
                    assert(Some(before[r[i].0@]) == parsed_count(r[i].1@));
                    assert(row_label(r, key, value));
                    assert(token_matched(r, t, k as int));
                }
                map.remove(tokens[k].as_str());
                let ghost lbefore = labels@;
                labels.push(value);
                proof {
                    assert(map@.dom() =~= before.dom().remove(t[k as int]@));
                    assert forall|key: Seq<char>| #[trigger] map@.contains_key(key) <==> (has_row(r, key) && forall|m: int| 0 <= m < k + 1 ==> (#[trigger] t[m])@ != key) by {
                        if map@.contains_key(key) {
                            assert forall|m: int| 0 <= m < k + 1 implies (#[trigger] t[m])@ != key by {
                                if m < k {
                                } else {
                                    assert(key != t[k as int]@);
                                }
                            }
                        }
                        if has_row(r, key) && (forall|m: int| 0 <= m < k + 1 ==> (#[trigger] t[m])@ != key) {
                            assert(t[k as int]@ != key);
                            assert(before.contains_key(key));
                        }
                    }
                    assert forall|m: int| 0 <= m < k + 1 implies row_label(r, t[m]@, #[trigger] labels@[m]) by {
                        if m < k {
                            assert(labels@[m] == lbefore[m]);
                        }
                    }
                }
            },
        }
        k = k + 1;
    }
    if map.len() > 0 {
        return Err(AlignError::Unknown(map.len()));
    }
    Ok(labels)
}

/// One of `names` reads `s`.
pub open spec fn names_contain(names: Seq<String>, s: Seq<char>) -> bool {
    exists|y: int| 0 <= y < names.len() && (#[trigger] names[y])@ == s
}

/// Position of the first header equal to one of `names`.
pub fn column_position(headers: &[String], names: &[String]) -> (result: Option<usize>)
    ensures
        match result {
            Some(h) => h < headers@.len() && names_contain(names@, headers@[h as int]@)
                && forall|g: int| 0 <= g < h ==> !names_contain(names@, (#[trigger] headers@[g])@),
            None => forall|g: int| 0 <= g < headers@.len() ==> !names_contain(names@, (#[trigger] headers@[g])@),
        },
{
    let mut h: usize = 0;
    while h < headers.len()
        invariant
            h <= headers@.len(),
            forall|g: int| 0 <= g < h ==> !names_contain(names@, (#[trigger] headers@[g])@),
        decreases headers@.len() - h,
    {
        let mut x: usize = 0;
        while x < names.len()
            invariant
                h < headers@.len(),
                x <= names@.len(),
                forall|g: int| 0 <= g < h ==> !names_contain(names@, (#[trigger] headers@[g])@),
                forall|y: int| 0 <= y < x ==> (#[trigger] names@[y])@ != headers@[h as int]@,
            decreases names@.len() - x,
        {
            if headers[h] == names[x] {
                proof {
                    assert((names@[x as int])@ == headers@[h as int]@);
                }
                return Some(h);
            }
            x = x + 1;
        }
        h = h + 1;
    }
    None
}

/// The order in which the rows of an assignment file are written: the token
/// positions, by token.
pub fn assignment_order(tokens: &[String], labels: &[usize]) -> (result: Result<Vec<usize>, AssignmentError>)
    ensures
        match result {
            Ok(order) => tokens@.len() == labels@.len() && is_permutation(order@, tokens@.len() as int)
                && sorted_by_token(tokens@, order@),
            Err(e) => tokens@.len() != labels@.len() && e == AssignmentError::IncompleteAssignments,
        },
{
    if tokens.len() != labels.len() {
        return Err(AssignmentError::IncompleteAssignments);
    }
    Ok(token_order(tokens))
}

/// The (token, community) rows of a list of communities, community by community.
pub open spec fn partition_rows(communities: Seq<Vec<String>>) -> Seq<(String, usize)>
    decreases communities.len(),
{
    if communities.len() == 0 {
        Seq::empty()
    } else {
        let c = (communities.len() - 1) as usize;
        partition_rows(communities.drop_last()) + communities.last()@.map_values(|t: String| (t, c))
    }
}

/// `rows` are the partition's rows (each member once, with its community's
/// index), sorted by token.
pub open spec fn partition_written(communities: Seq<Vec<String>>, rows: Seq<(String, usize)>) -> bool {
    &&& exists|p: Seq<usize>|
        #[trigger] is_permutation(p, partition_rows(communities).len() as int)
        && forall|k: int| 0 <= k < p.len() ==> rows[k] == partition_rows(communities)[#[trigger] p[k] as int]
    &&& rows.len() == partition_rows(communities).len()
    &&& forall|a: int, b: int| 0 <= a < b < rows.len() ==> chars_le(#[trigger] rows[a].0@, #[trigger] rows[b].0@)
}

/// The rows of a partition file: every member with the index of its
/// community, in token order.
pub fn write_partition(communities: &[Vec<String>]) -> (result: Vec<(String, usize)>)
    ensures
        partition_written(communities@, result@),
{
    let ghost cs = communities@;
    let mut tokens: Vec<String> = Vec::new();
    let mut rows: Vec<(String, usize)> = Vec::new();
    let mut c: usize = 0;
    while c < communities.len()
        invariant
            cs == communities@,
            c <= cs.len(),
            rows@ == partition_rows(cs.take(c as int)),
            tokens@.len() == rows@.len(),
            forall|k: int| 0 <= k < rows@.len() ==> #[trigger] tokens@[k] == rows@[k].0,
        decreases cs.len() - c,
    {
        let members = &communities[c];
        let ghost before = rows@;
        let mut t: usize = 0;
        while t < members.len()
            invariant
                cs == communities@,
                c < cs.len(),
                *members == cs[c as int],
                t <= members@.len(),
                rows@ == before + members@.take(t as int).map_values(|x: String| (x, c)),
                tokens@.len() == rows@.len(),
                forall|k: int| 0 <= k < rows@.len() ==> #[trigger] tokens@[k] == rows@[k].0,
            decreases members@.len() - t,
        {
            let token = members[t].clone();
            tokens.push(members[t].clone());
            rows.push((token, c));
            proof {
                assert(members@.take(t + 1).map_values(|x: String| (x, c)) =~= members@.take(t as int).map_values(|x: String| (x, c)).push((members@[t as int], c)));
                assert(rows@ =~= before + members@.take(t + 1).map_values(|x: String| (x, c)));
            }
            t = t + 1;
        }
        proof {
            assert(members@.take(members@.len() as int) =~= members@);
            assert(cs.take(c + 1).drop_last() =~= cs.take(c as int));
            assert(cs.take(c + 1).last() == cs[c as int]);
        }
        c = c + 1;
    }
    proof {
        assert(cs.take(cs.len() as int) =~= cs);
    }
    let order = token_order(&tokens);
    let mut result: Vec<(String, usize)> = Vec::new();
    let mut k: usize = 0;
    while k < order.len()
        invariant
            rows@ == partition_rows(cs),
            tokens@.len() == rows@.len(),
            forall|m: int| 0 <= m < rows@.len() ==> #[trigger] tokens@[m] == rows@[m].0,
            is_permutation(order@, tokens@.len() as int),
            sorted_by_token(tokens@, order@),
            k <= order@.len(),
            result@.len() == k,
            forall|m: int| 0 <= m < k ==> result@[m] == rows@[#[trigger] order@[m] as int],
        decreases order@.len() - k,
    {
        let i = order[k];
        let row = (rows[i].0.clone(), rows[i].1);
        result.push(row);
        k = k + 1;
    }
    proof {
        assert forall|a: int, b: int| 0 <= a < b < result@.len() implies chars_le(#[trigger] result@[a].0@, #[trigger] result@[b].0@) by {
            assert(result@[a] == rows@[order@[a] as int]);
            assert(result@[b] == rows@[order@[b] as int]);
            assert(chars_le(tokens@[order@[a] as int]@, tokens@[order@[b] as int]@));
        }
        assert(is_permutation(order@, partition_rows(cs).len() as int));
    }
    result
}

/// Reading back what was written gives the labels back: when the rows hold
/// each of a vocabulary's distinct tokens once, in any order, with a community
/// id that reads as that token's label, alignment with the vocabulary returns
/// exactly the labels.
pub proof fn law_alignment_recovers_labels(
    rows: Seq<(String, String)>,
    tokens: Seq<String>,
    labels: Seq<usize>,
    p: Seq<usize>,
    result: Result<Vec<usize>, AlignError>,
)
    requires
        labels.len() == tokens.len(),
        tokens.len() <= usize::MAX,
        forall|a: int, b: int| 0 <= a < b < tokens.len() ==> (#[trigger] tokens[a])@ != (#[trigger] tokens[b])@,
        is_permutation(p, tokens.len() as int),
        rows.len() == tokens.len(),
        forall|k: int| 0 <= k < rows.len() ==> (#[trigger] rows[k]).0@ == tokens[p[k] as int]@
            && parsed_count(rows[k].1@) == Some(labels[p[k] as int]),
        alignment_spec(rows, tokens, result),
    ensures
        result matches Ok(l) && l@ == labels,
{
    let n = tokens.len() as int;
    assert forall|j: int| 0 <= j < rows.len() implies !#[trigger] bad_row(rows, j) by {
        if repeats_earlier(rows, j) {
            let i = choose|i: int| 0 <= i < j && (#[trigger] rows[i]).0@ == rows[j].0@;
            assert(tokens[p[i] as int]@ == tokens[p[j] as int]@);
            if p[i] < p[j] {
                assert(tokens[p[i] as int]@ != tokens[p[j] as int]@);
            } else if p[j] < p[i] {
                assert(tokens[p[j] as int]@ != tokens[p[i] as int]@);
            } else {
                assert(p[i] != p[j]);
            }
        }
    }
    assert forall|k: int| 0 <= k < n implies #[trigger] token_matched(rows, tokens, k) by {
        lemma_permutation_covers(p, n, k as usize);
        let i = choose|i: int| 0 <= i < p.len() && p[i] == k as usize;
        assert(rows[i].0@ == tokens[k]@);
        assert forall|m: int| 0 <= m < k implies (#[trigger] tokens[m])@ != tokens[k]@ by {}
    }
    match result {
        Ok(l) => {
            assert forall|k: int| 0 <= k < n implies l@[k] == labels[k] by {
                assert(row_label(rows, tokens[k]@, l@[k]));
                let i = choose|i: int| 0 <= i < rows.len() && (#[trigger] rows[i]).0@ == tokens[k]@
                    && parsed_count(rows[i].1@) == Some(l@[k]);
                let q = p[i] as int;
                assert(tokens[q]@ == tokens[k]@);
                if q < k {
                    assert(tokens[q]@ != tokens[k]@);
                } else if k < q {
                    assert(tokens[k]@ != tokens[q]@);
                }
            }
            assert(l@ =~= labels);
        },
        Err(AlignError::InvalidCommunity) => {
            let j = choose|j: int| first_bad_row(rows, j) && parsed_count(rows[j].1@) is None;
        },
        Err(AlignError::Duplicate(t)) => {
            let j = choose|j: int| first_bad_row(rows, j) && parsed_count(rows[j].1@) is Some && t@ == rows[j].0@;
        },
        Err(AlignError::Missing(t)) => {
            let k = choose|k: int| first_unmatched(rows, tokens, k) && t@ == tokens[k]@;
        },
        Err(AlignError::Unknown(c)) => {},
    }
}

/// The decimal digit for a value below 10.
pub open spec fn digit_char(d: int) -> char {
    if d == 0 { '0' } else if d == 1 { '1' } else if d == 2 { '2' } else if d == 3 { '3' } else if d == 4 {
        '4'
    } else if d == 5 { '5' } else if d == 6 { '6' } else if d == 7 { '7' } else if d == 8 { '8' } else { '9' }
}

/// The decimal digits of `n`, most significant first, with no leading zero.
pub open spec fn digits_of(n: nat) -> Seq<char>
    decreases n,
{
    if n < 10 {
        seq![digit_char(n as int)]
    } else {
        digits_of(n / 10).push(digit_char((n % 10) as int))
    }
}

proof fn lemma_digit_char(d: int)
    requires
        0 <= d < 10,
    ensures
        is_digit(digit_char(d)),
        digit_value(digit_char(d)) == d,
{
    assert(digit_value('0') == 0 && digit_value('1') == 1 && digit_value('2') == 2 && digit_value('3') == 3
        && digit_value('4') == 4 && digit_value('5') == 5 && digit_value('6') == 6 && digit_value('7') == 7
        && digit_value('8') == 8 && digit_value('9') == 9);
}

proof fn lemma_digits_of(n: nat)
    ensures
        digits_of(n).len() > 0,
        forall|k: int| 0 <= k < digits_of(n).len() ==> is_digit(#[trigger] digits_of(n)[k]),
        decimal(digits_of(n)) == n,
    decreases n,
{
    lemma_digit_char((n % 10) as int);
    if n >= 10 {
        lemma_digits_of(n / 10);
        let d = digits_of(n);
        assert(d.drop_last() =~= digits_of(n / 10));
        assert(forall|k: int| 0 <= k < d.len() - 1 ==> d[k] == digits_of(n / 10)[k]);
        assert(d.last() == digit_char((n % 10) as int));
        assert(decimal(d) == decimal(digits_of(n / 10)) * 10 + digit_value(d.last()));
        assert((n / 10) * 10 + n % 10 == n);
    } else {
        let d = seq![digit_char(n as int)];
        assert(d.drop_last() =~= Seq::<char>::empty());
        assert(decimal(Seq::<char>::empty()) == 0);
        assert(decimal(d) == decimal(d.drop_last()) * 10 + digit_value(d.last()));
        assert(n % 10 == n);
    }
}

fn digit(d: usize) -> (c: char)
    requires
        d < 10,
    ensures
        c == digit_char(d as int),
{
    match d {
        0 => '0',
        1 => '1',
        2 => '2',
        3 => '3',
        4 => '4',
        5 => '5',
        6 => '6',
        7 => '7',
        8 => '8',
        _ => '9',
    }
}

fn push_digits(n: usize, out: &mut Vec<char>)
    ensures
        final(out)@ == old(out)@ + digits_of(n as nat),
    decreases n,
{
    if n >= 10 {
        push_digits(n / 10, out);
    }
    let ghost before = out@;
    out.push(digit(n % 10));
    proof {
        if n >= 10 {
            assert(out@ =~= old(out)@ + digits_of(n as nat));
        } else {
            assert(out@ =~= old(out)@ + digits_of(n as nat));
        }
    }
}

/// A community id as a partition file writes it: its decimal digits, which
/// read back as the same id.
pub fn format_count(n: usize) -> (result: String)
    ensures
        result@ == digits_of(n as nat),
        parsed_count(result@) == Some(n),
{
    let mut chars: Vec<char> = Vec::new();
    push_digits(n, &mut chars);
    proof {
        lemma_digits_of(n as nat);
        assert(chars@ =~= digits_of(n as nat));
        assert(unsigned_digits(chars@) == chars@);
    }
    crate::provenance::string_from_chars(&chars)
}

/// A written partition file reads back: when the communities' tokens are
/// pairwise distinct, `written` holds the rows `write_partition` gives,
/// `file_rows` those rows with each community id as text that reads as the
/// id, and the vocabulary lists each member once (`tokens[i]` is member
/// `q[i]` of the partition's rows), aligning the file with the vocabulary
/// gives every token its community's index.
pub proof fn law_partition_round_trip(
    communities: Seq<Vec<String>>,
    written: Seq<(String, usize)>,
    file_rows: Seq<(String, String)>,
    tokens: Seq<String>,
    q: Seq<usize>,
    result: Result<Vec<usize>, AlignError>,
)
    requires
        partition_written(communities, written),
        forall|a: int, b: int| 0 <= a < b < partition_rows(communities).len()
            ==> (#[trigger] partition_rows(communities)[a]).0@ != (#[trigger] partition_rows(communities)[b]).0@,
        file_rows.len() == written.len(),
        forall|k: int| 0 <= k < file_rows.len() ==> (#[trigger] file_rows[k]).0@ == written[k].0@
            && parsed_count(file_rows[k].1@) == Some(written[k].1),
        tokens.len() <= usize::MAX,
        is_permutation(q, partition_rows(communities).len() as int),
        tokens.len() == q.len(),
        forall|i: int| 0 <= i < tokens.len() ==> (#[trigger] tokens[i])@ == partition_rows(communities)[q[i] as int].0@,
        alignment_spec(file_rows, tokens, result),
    ensures
        result matches Ok(l) && l@.len() == tokens.len() && forall|i: int| 0 <= i < tokens.len()
            ==> #[trigger] l@[i] == partition_rows(communities)[q[i] as int].1,
{
    let pr = partition_rows(communities);
    let n = pr.len() as int;
    let pw = choose|p: Seq<usize>| #[trigger] is_permutation(p, n)
        && forall|k: int| 0 <= k < p.len() ==> written[k] == pr[#[trigger] p[k] as int];
    let labels = Seq::new(tokens.len(), |i: int| pr[q[i] as int].1);
    let p = Seq::new(written.len(), |k: int| choose|i: usize| i < n && q[i as int] == pw[k]);
    assert forall|k: int| 0 <= k < p.len() implies p[k] < n && q[p[k] as int] == pw[k] by {
        assert(pw[k] < n);
        lemma_permutation_covers(q, n, pw[k]);
        let i = choose|i: int| 0 <= i < q.len() && q[i] == pw[k];
        assert(q[i as usize as int] == pw[k]);
    }
    assert(p.no_duplicates()) by {
        assert forall|a: int, b: int| 0 <= a < b < p.len() implies p[a] != p[b] by {
            if p[a] == p[b] {
                assert(pw[a] == pw[b]);
            }
        }
    }
    assert(is_permutation(p, tokens.len() as int));
    assert forall|a: int, b: int| 0 <= a < b < tokens.len() implies (#[trigger] tokens[a])@ != (#[trigger] tokens[b])@ by {
        if q[a] < q[b] {
            assert(pr[q[a] as int].0@ != pr[q[b] as int].0@);
        } else {
            assert(pr[q[b] as int].0@ != pr[q[a] as int].0@);
        }
    }
    assert forall|k: int| 0 <= k < file_rows.len() implies (#[trigger] file_rows[k]).0@ == tokens[p[k] as int]@
        && parsed_count(file_rows[k].1@) == Some(labels[p[k] as int]) by {
        assert(written[k] == pr[pw[k] as int]);
    }
    law_alignment_recovers_labels(file_rows, tokens, labels, p, result);
}

/// Why an assignment file cannot be read for a vocabulary.
#[derive(Clone, Debug, PartialEq, Eq)]
pub enum AssignmentFileError {
    /// The CSV reader stopped with this message.
    Csv(String),
    /// No column is called `token`.
    MissingTokenColumn,
    /// No column is called `community`.
    MissingCommunityColumn,
    /// The rows do not align with the vocabulary.
    Align(AlignError),
}

/// The rows as pairs of character sequences.
pub open spec fn pair_views(rows: Seq<(String, String)>) -> Seq<(Seq<char>, Seq<char>)> {
    rows.map_values(|r: (String, String)| (r.0@, r.1@))
}

/// The (token, community) fields of the records after the header.
pub open spec fn column_pairs(table: Seq<Seq<Seq<char>>>, t: int, l: int) -> Seq<(Seq<char>, Seq<char>)> {
    table.drop_first().map_values(|r: Seq<Seq<char>>| (r[t], r[l]))
}

/// What reading the data rows gives: rows are checked in order as they are
/// read, so a bad row before the reader's error is reported first; otherwise
/// an error of the reader is reported, and a complete file is aligned.
pub open spec fn rows_outcome(
    rows: Seq<(String, String)>,
    tokens: Seq<String>,
    failed: bool,
    result: Result<Vec<usize>, AssignmentFileError>,
) -> bool {
    if failed && rows_readable(rows) {
        result matches Err(AssignmentFileError::Csv(_))
    } else {
        match result {
            Ok(labels) => alignment_spec(rows, tokens, Ok::<Vec<usize>, AlignError>(labels)),
            Err(AssignmentFileError::Align(e)) => alignment_spec(rows, tokens, Err::<Vec<usize>, AlignError>(e)),
            _ => false,
        }
    }
}

/// What reading an assignment file's bytes gives for a vocabulary: the header
/// must name a `token` and a `community` column, then the rows below it are
/// read and aligned with the vocabulary.
pub open spec fn assignment_file_spec(bytes: Seq<u8>, tokens: Seq<String>, result: Result<Vec<usize>, AssignmentFileError>) -> bool {
    let (table, failed) = csv_read(bytes);
    if table.len() == 0 {
        if failed {
            result matches Err(AssignmentFileError::Csv(_))
        } else {
            result == Err::<Vec<usize>, AssignmentFileError>(AssignmentFileError::MissingTokenColumn)
        }
    } else {
        match first_named(table[0], seq!["token"@]) {
            None => result == Err::<Vec<usize>, AssignmentFileError>(AssignmentFileError::MissingTokenColumn),
            Some(t) => match first_named(table[0], seq!["community"@]) {
                None => result == Err::<Vec<usize>, AssignmentFileError>(AssignmentFileError::MissingCommunityColumn),
                Some(l) => exists|rows: Seq<(String, String)>|
                    pair_views(rows) == column_pairs(table, t, l) && #[trigger] rows_outcome(rows, tokens, failed, result),
            },
        }
    }
}

/// Read an assignment file's bytes for a vocabulary: the labels in vocabulary
/// order, requiring exactly the vocabulary.
pub fn read_assignment_bytes(bytes: &[u8], tokens: &[String]) -> (result: Result<Vec<usize>, AssignmentFileError>)
    ensures
        assignment_file_spec(bytes@, tokens@, result),
{
    let (table, error) = csv_records(bytes);
    let ghost tv = table_view(table@);
    if table.len() == 0 {
        return match error {
            Some(message) => Err(AssignmentFileError::Csv(message)),
            None => Err(AssignmentFileError::MissingTokenColumn),
        };
    }
    let token_name = vec![String::from_str("token")];
    let community_name = vec![String::from_str("community")];
    proof {
        reveal_strlit("token");
        reveal_strlit("community");
        assert(views(token_name@) =~= seq!["token"@]);
        assert(views(community_name@) =~= seq!["community"@]);
        assert(tv[0] == views(table@[0]@));
        assert(views(table@[0]@) =~= table@[0]@.map_values(|s: String| s@));
    }
    let t = match find_column(&table[0], &token_name) {
        Some(t) => t,
        None => return Err(AssignmentFileError::MissingTokenColumn),
    };
    let l = match find_column(&table[0], &community_name) {
        Some(l) => l,
        None => return Err(AssignmentFileError::MissingCommunityColumn),
    };
    let width = table[0].len();
    proof {
        crate::csv_table::lemma_first_named_in_range(views(table@[0]@), seq!["token"@]);
        crate::csv_table::lemma_first_named_in_range(views(table@[0]@), seq!["community"@]);
    }
    let mut rows: Vec<(String, String)> = Vec::new();
    let mut k: usize = 1;
    while k < table.len()
        invariant
            1 <= k <= table@.len(),
            tv == table_view(table@),
            width == table@[0]@.len(),
            t < width,
            l < width,
            forall|i: int| 0 <= i < table@.len() ==> (#[trigger] table@[i])@.len() == width,
            pair_views(rows@) == column_pairs(tv, t as int, l as int).take(k - 1),
        decreases table@.len() - k,
    {
        let ghost before = rows@;
        rows.push((table[k][t].clone(), table[k][l].clone()));
        proof {
            assert(tv[k as int] == table@[k as int]@.map_values(|s: String| s@));
            assert(pair_views(rows@) =~= pair_views(before).push((table@[k as int]@[t as int]@, table@[k as int]@[l as int]@)));
            assert(column_pairs(tv, t as int, l as int).take(k as int) =~= column_pairs(tv, t as int, l as int).take(k - 1).push(
                (tv[k as int][t as int], tv[k as int][l as int])));
        }
        k = k + 1;
    }
    proof {
        assert(column_pairs(tv, t as int, l as int).take(k - 1) =~= column_pairs(tv, t as int, l as int));
    }
    let aligned = align_assignments(rows.as_slice(), tokens);
    let result = match aligned {
        Err(AlignError::InvalidCommunity) => Err(AssignmentFileError::Align(AlignError::InvalidCommunity)),
        Err(AlignError::Duplicate(token)) => Err(AssignmentFileError::Align(AlignError::Duplicate(token))),
        other => match error {
            Some(message) => Err(AssignmentFileError::Csv(message)),
            None => match other {
                Ok(labels) => Ok(labels),
                Err(e) => Err(AssignmentFileError::Align(e)),
            },
        },
    };
    proof {
        assert(rows_outcome(rows@, tokens@, error is Some, result));
    }
    result
}

} // verus!
