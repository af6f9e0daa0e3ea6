//! Token metadata cells: a cell lists several names (spellings or parts of
//! speech) separated by `|`, each trimmed of surrounding white space; empty
//! names are skipped.
use vstd::prelude::*;
use crate::provenance::string_from_chars;
use crate::config::TokenMetadata;
use crate::text::str_eq;
use crate::csv_table::{csv_read, csv_records, find_column, first_named, lemma_first_named_in_range, table_view, views};
use vstd::hash_map::StringHashMap;

verus! {

/// Whether a character has the Unicode `White_Space` property, as
/// `char::is_whitespace` reports it: U+0009 to U+000D, U+0020, U+0085, U+00A0,
/// U+1680, U+2000 to U+200A, U+2028, U+2029, U+202F, U+205F and U+3000.
pub open spec fn white_space(c: char) -> bool {
    let x = c as u32;
    ||| 0x9 <= x <= 0xD
    ||| x == 0x20
    ||| x == 0x85
    ||| x == 0xA0
    ||| x == 0x1680
    ||| 0x2000 <= x <= 0x200A
    ||| x == 0x2028
    ||| x == 0x2029
    ||| x == 0x202F
    ||| x == 0x205F
    ||| x == 0x3000
}

/// Whether `c` is white space.
fn is_white_space(c: char) -> (b: bool)
    ensures
        b == white_space(c),
{
    let x = c as u32;
    (0x9 <= x && x <= 0xD) || x == 0x20 || x == 0x85 || x == 0xA0 || x == 0x1680 || (0x2000 <= x && x <= 0x200A)
        || x == 0x2028 || x == 0x2029 || x == 0x202F || x == 0x205F || x == 0x3000
}

/// `s` without its leading white space.
pub open spec fn trim_start(s: Seq<char>) -> Seq<char>
    decreases s.len(),
{
    if s.len() > 0 && white_space(s[0]) {
        trim_start(s.drop_first())
    } else {
        s
    }
}

/// `s` without its trailing white space.
pub open spec fn trim_end(s: Seq<char>) -> Seq<char>
    decreases s.len(),
{
    if s.len() > 0 && white_space(s.last()) {
        trim_end(s.drop_last())
    } else {
        s
    }
}

/// `s` without leading and trailing white space.
pub open spec fn trimmed(s: Seq<char>) -> Seq<char> {
    trim_end(trim_start(s))
}

/// The pieces of `s` between `|` separators (one more than there are separators).
pub open spec fn pieces(s: Seq<char>) -> Seq<Seq<char>>
    decreases s.len(),
{
    if s.len() == 0 {
        seq![Seq::<char>::empty()]
    } else {
        let p = pieces(s.drop_last());
        if s.last() == '|' {
            p.push(Seq::<char>::empty())
        } else {
            p.update(p.len() - 1, p.last().push(s.last()))
        }
    }
}

/// The trimmed pieces that are not empty, in order.
pub open spec fn kept_names(ps: Seq<Seq<char>>) -> Seq<Seq<char>>
    decreases ps.len(),
{
    if ps.len() == 0 {
        Seq::empty()
    } else {
        let rest = kept_names(ps.drop_last());
        let t = trimmed(ps.last());
        if t.len() > 0 {
            rest.push(t)
        } else {
            rest
        }
    }
}

/// The names a metadata cell lists.
pub open spec fn names(s: Seq<char>) -> Seq<Seq<char>> {
    kept_names(pieces(s))
}

proof fn lemma_pieces_nonempty(s: Seq<char>)
    ensures
        pieces(s).len() >= 1,
    decreases s.len(),
{
    if s.len() > 0 {
        lemma_pieces_nonempty(s.drop_last());
    }
}

proof fn lemma_trim_start_skip(s: Seq<char>, k: int)
    requires
        0 <= k <= s.len(),
        forall|j: int| 0 <= j < k ==> white_space(#[trigger] s[j]),
    ensures
        trim_start(s) == trim_start(s.subrange(k, s.len() as int)),
    decreases k,
{
    if k == 0 {
        assert(s.subrange(0, s.len() as int) =~= s);
    } else {
        assert(white_space(s[0]));
        let t = s.drop_first();
        assert forall|j: int| 0 <= j < k - 1 implies white_space(#[trigger] t[j]) by {
            assert(t[j] == s[j + 1]);
        }
        lemma_trim_start_skip(t, k - 1);
        assert(t.subrange(k - 1, t.len() as int) =~= s.subrange(k, s.len() as int));
    }
}

proof fn lemma_trim_end_skip(s: Seq<char>, h: int)
    requires
        0 <= h <= s.len(),
        forall|j: int| h <= j < s.len() ==> white_space(#[trigger] s[j]),
    ensures
        trim_end(s) == trim_end(s.subrange(0, h)),
    decreases s.len() - h,
{
    if h == s.len() {
        assert(s.subrange(0, h) =~= s);
    } else {
        assert(white_space(s.last()));
        let t = s.drop_last();
        assert forall|j: int| h <= j < t.len() implies white_space(#[trigger] t[j]) by {
            assert(t[j] == s[j]);
        }
        lemma_trim_end_skip(t, h);
        assert(t.subrange(0, h) =~= s.subrange(0, h));
    }
}

/// The characters of `s` without leading and trailing white space.
fn trim_chars(s: &Vec<char>) -> (t: Vec<char>)
    ensures
        t@ == trimmed(s@),
{
    let n = s.len();
    let mut lo: usize = 0;
    loop
        invariant
            n == s@.len(),
            lo <= n,
            forall|j: int| 0 <= j < lo ==> white_space(#[trigger] s@[j]),
        ensures
            lo <= n,
            forall|j: int| 0 <= j < lo ==> white_space(#[trigger] s@[j]),
            lo == n || !white_space(s@[lo as int]),
        decreases n - lo,
    {
        if lo == n {
            break;
        }
        if !is_white_space(s[lo]) {
            break;
        }
        lo = lo + 1;
    }
    let ghost u = s@.subrange(lo as int, n as int);
    proof {
        lemma_trim_start_skip(s@, lo as int);
        if lo < n {
            assert(u[0] == s@[lo as int]);
        }
        assert(trim_start(s@) == u);
    }
    let mut hi: usize = n;
    loop
        invariant
            n == s@.len(),
            lo <= hi <= n,
            u == s@.subrange(lo as int, n as int),
            forall|j: int| hi - lo <= j < u.len() ==> white_space(#[trigger] u[j]),
        ensures
            lo <= hi <= n,
            forall|j: int| hi - lo <= j < u.len() ==> white_space(#[trigger] u[j]),
            hi == lo || !white_space(u[hi - lo - 1]),
        decreases hi - lo,
    {
        if hi == lo {
            break;
        }
        if !is_white_space(s[hi - 1]) {
            assert(u[hi - lo - 1] == s@[hi - 1]);
            break;
        }
        assert(u[hi - lo - 1] == s@[hi - 1]);
        hi = hi - 1;
    }
    let mut t: Vec<char> = Vec::new();
    let mut k: usize = lo;
    while k < hi
        invariant
            n == s@.len(),
            lo <= k <= hi <= n,
            t@ == s@.subrange(lo as int, k as int),
        decreases hi - k,
    {
        t.push(s[k]);
        k = k + 1;
        assert(t@ =~= s@.subrange(lo as int, k as int));
    }
    proof {
        lemma_trim_end_skip(u, hi - lo);
        let w = u.subrange(0, hi - lo);
        assert(w =~= s@.subrange(lo as int, hi as int));
        if hi > lo {
            assert(w.last() == u[hi - lo - 1]);
        }
        assert(trim_end(w) == w);
    }
    t
}

/// The views of a list of strings.
pub open spec fn string_views(v: Seq<String>) -> Seq<Seq<char>> {
    v.map_values(|x: String| x@)
}

/// The names listed in a metadata cell: split at `|`, trim white space, and
/// skip the names that are then empty.
pub fn split_names(field: &str) -> (result: Vec<String>)
    ensures
        string_views(result@) == names(field@),
{
    let n = field.unicode_len();
    let mut result: Vec<String> = Vec::new();
    let mut current: Vec<char> = Vec::new();
    proof {
        assert(field@.take(0) =~= Seq::<char>::empty());
        assert(string_views(result@) =~= Seq::<Seq<char>>::empty());
    }
    let mut i: usize = 0;
    while i < n
        invariant
            n == field@.len(),
            i <= n,
            pieces(field@.take(i as int)).len() >= 1,
            current@ == pieces(field@.take(i as int)).last(),
            string_views(result@) == kept_names(pieces(field@.take(i as int)).drop_last()),
        decreases n - i,
    {
        let c = field.get_char(i);
        let ghost p = pieces(field@.take(i as int));
        proof {
            assert(field@.take(i + 1).drop_last() =~= field@.take(i as int));
            assert(field@.take(i + 1).last() == c);
        }
        if c == '|' {
            let t = trim_chars(&current);
            proof {
                let q = pieces(field@.take(i + 1));
                assert(q == p.push(Seq::<char>::empty()));
                assert(q.drop_last() =~= p);
            }
            if t.len() > 0 {
                let ghost before = result@;
                result.push(string_from_chars(&t));
                proof {
                    assert(string_views(result@) =~= string_views(before).push(t@));
                }
            }
            current = Vec::new();
            proof {
                assert(current@ =~= Seq::<char>::empty());
            }
        } else {
            current.push(c);
            proof {
                let q = pieces(field@.take(i + 1));
                assert(q == p.update(p.len() - 1, p.last().push(c)));
                assert(q.drop_last() =~= p.drop_last());
            }
        }
        i = i + 1;
    }
    let t = trim_chars(&current);
    proof {
        assert(field@.take(n as int) =~= field@);
    }
    if t.len() > 0 {
        let ghost before = result@;
        result.push(string_from_chars(&t));
        proof {
            assert(string_views(result@) =~= string_views(before).push(t@));
        }
    }
    result
}

/// What the metadata says of one spelling: the rows that name it, its bands
/// and its parts of speech.
pub type Entry = (nat, Set<Seq<char>>, Set<Seq<char>>);

/// Count one row for each of `spellings` (once per occurrence), adding the
/// row's band, if any, and its parts of speech.
pub open spec fn add_spellings(
    m: Map<Seq<char>, Entry>,
    spellings: Seq<Seq<char>>,
    band: Option<Seq<char>>,
    parts: Set<Seq<char>>,
) -> Map<Seq<char>, Entry>
    decreases spellings.len(),
{
    if spellings.len() == 0 {
        m
    } else {
        let before = add_spellings(m, spellings.drop_last(), band, parts);
        let s = spellings.last();
        let e: Entry = if before.contains_key(s) { before[s] } else { (0nat, Set::empty(), Set::empty()) };
        before.insert(s, (e.0 + 1, match band {
            Some(b) => e.1.insert(b),
            None => e.1,
        }, e.2.union(parts)))
    }
}

/// The row's band: its level cell when there is a level column and the cell
/// is not empty.
pub open spec fn row_band(row: Seq<Seq<char>>, level: Option<int>) -> Option<Seq<char>> {
    match level {
        Some(c) => if row[c].len() > 0 { Some(row[c]) } else { None },
        None => None,
    }
}

/// The row's parts of speech: the names in its part-of-speech cell.
pub open spec fn row_parts(row: Seq<Seq<char>>, pos: Option<int>) -> Set<Seq<char>> {
    match pos {
        Some(c) => names(row[c]).to_set(),
        None => Set::empty(),
    }
}

/// The metadata of the data rows, by spelling: each row counts for every
/// spelling its token cell names.
pub open spec fn metadata_of(rows: Seq<Seq<Seq<char>>>, token: int, level: Option<int>, pos: Option<int>) -> Map<Seq<char>, Entry>
    decreases rows.len(),
{
    if rows.len() == 0 {
        Map::empty()
    } else {
        let row = rows.last();
        add_spellings(metadata_of(rows.drop_last(), token, level, pos), names(row[token]), row_band(row, level), row_parts(row, pos))
    }
}

/// Why a metadata file cannot be read.
#[derive(Clone, Debug, PartialEq, Eq)]
pub enum MetadataError {
    /// The CSV reader stopped with this message.
    Csv(String),
    /// No column is called `Simplified` or `token`.
    MissingTokenColumn,
    /// A spelling is named by more rows than a `usize` counts.
    CountOverflow,
}

/// The names of a list, as a set.
pub open spec fn name_set(v: Seq<String>) -> Set<Seq<char>> {
    views(v).to_set()
}

/// The entries are the metadata `m`: one per spelling, each with its count,
/// and its bands and parts of speech listed once each.
pub open spec fn entries_are(entries: Seq<(String, TokenMetadata)>, m: Map<Seq<char>, Entry>) -> bool {
    &&& forall|i: int, j: int| 0 <= i < j < entries.len() ==> (#[trigger] entries[i]).0@ != (#[trigger] entries[j]).0@
    &&& forall|k: Seq<char>| #[trigger] m.contains_key(k) <==> exists|i: int| 0 <= i < entries.len() && (#[trigger] entries[i]).0@ == k
    &&& forall|i: int| 0 <= i < entries.len() ==> {
        let (k, t) = #[trigger] entries[i];
        &&& t.mapped_rows == m[k@].0
        &&& name_set(t.bands@) == m[k@].1 && views(t.bands@).no_duplicates()
        &&& name_set(t.parts_of_speech@) == m[k@].2 && views(t.parts_of_speech@).no_duplicates()
    }
}

/// What reading a metadata file's bytes gives: the header must name a
/// `Simplified` or `token` column; `Level` or `hsk_level` and `pos`, `POS` or
/// `part_of_speech` are optional.
pub open spec fn metadata_file_spec(bytes: Seq<u8>, result: Result<Vec<(String, TokenMetadata)>, MetadataError>) -> bool {
    let (table, failed) = csv_read(bytes);
    if table.len() == 0 {
        if failed {
            result matches Err(MetadataError::Csv(_))
        } else {
            result == Err::<Vec<(String, TokenMetadata)>, MetadataError>(MetadataError::MissingTokenColumn)
        }
    } else {
        match first_named(table[0], seq!["Simplified"@, "token"@]) {
            None => result == Err::<Vec<(String, TokenMetadata)>, MetadataError>(MetadataError::MissingTokenColumn),
            Some(t) => {
                let m = metadata_of(
                    table.drop_first(),
                    t,
                    first_named(table[0], seq!["Level"@, "hsk_level"@]),
                    first_named(table[0], seq!["pos"@, "POS"@, "part_of_speech"@]),
                );
                if exists|k: Seq<char>| #[trigger] m.contains_key(k) && m[k].0 > usize::MAX {
                    result == Err::<Vec<(String, TokenMetadata)>, MetadataError>(MetadataError::CountOverflow)
                } else if failed {
                    result matches Err(MetadataError::Csv(_))
                } else {
                    result matches Ok(entries) && entries_are(entries@, m)
                }
            },
        }
    }
}

proof fn lemma_push_to_set(s: Seq<Seq<char>>, x: Seq<char>)
    ensures
        s.push(x).to_set() == s.to_set().insert(x),
{
    broadcast use vstd::set::group_set_axioms;
    assert forall|y: Seq<char>| #[trigger] s.push(x).to_set().contains(y) <==> s.to_set().insert(x).contains(y) by {
        if s.push(x).contains(y) {
            let i = choose|i: int| 0 <= i < s.push(x).len() && s.push(x)[i] == y;
            if i < s.len() {
                assert(s[i] == y);
            }
        }
        if s.contains(y) {
            let i = choose|i: int| 0 <= i < s.len() && s[i] == y;
            assert(s.push(x)[i] == y);
        }
        if y == x {
            assert(s.push(x)[s.len() as int] == x);
        }
    }
    assert(s.push(x).to_set() =~= s.to_set().insert(x));
}

/// Add `name` to a list of distinct names unless it is there.
fn add_name(list: &mut Vec<String>, name: &String)
    requires
        views(old(list)@).no_duplicates(),
    ensures
        views(final(list)@).no_duplicates(),
        name_set(final(list)@) == name_set(old(list)@).insert(name@),
{
    let mut i: usize = 0;
    while i < list.len()
        invariant
            i <= list@.len(),
            list@ == old(list)@,
            views(list@).no_duplicates(),
            forall|j: int| 0 <= j < i ==> (#[trigger] list@[j])@ != name@,
        decreases list@.len() - i,
    {
        if str_eq(list[i].as_str(), name.as_str()) {
            proof {
                assert(views(list@)[i as int] == name@);
                assert(name_set(list@).contains(name@));
                assert(name_set(list@).insert(name@) =~= name_set(list@));
            }
            return;
        }
        i = i + 1;
    }
    let ghost before = list@;
    list.push(name.clone());
    proof {
        assert(views(list@) =~= views(before).push(name@));
        lemma_push_to_set(views(before), name@);
        assert forall|a: int, b: int| 0 <= a < b < views(list@).len() implies views(list@)[a] != views(list@)[b] by {
            if b == before.len() {
                assert(views(before)[a] == before[a]@);
            } else {
                assert(views(before)[a] != views(before)[b]);
            }
        }
    }
}

/// Add each of `names` to a list of distinct names.
fn add_names(list: &mut Vec<String>, names: &Vec<String>)
    requires
        views(old(list)@).no_duplicates(),
    ensures
        views(final(list)@).no_duplicates(),
        name_set(final(list)@) == name_set(old(list)@).union(name_set(names@)),
{
    let ghost start = name_set(list@);
    let mut j: usize = 0;
    while j < names.len()
        invariant
            j <= names@.len(),
            views(list@).no_duplicates(),
            name_set(list@) == start.union(views(names@.take(j as int)).to_set()),
        decreases names@.len() - j,
    {
        add_name(list, &names[j]);
        proof {
            assert(views(names@.take(j + 1)) =~= views(names@.take(j as int)).push(names@[j as int]@));
            lemma_push_to_set(views(names@.take(j as int)), names@[j as int]@);
            assert(name_set(list@) =~= start.union(views(names@.take(j + 1)).to_set()));
        }
        j = j + 1;
    }
    proof {
        assert(names@.take(j as int) =~= names@);
    }
}

/// Every spelling of `a` is in `b`, named by at least as many rows.
pub open spec fn counts_below(a: Map<Seq<char>, Entry>, b: Map<Seq<char>, Entry>) -> bool {
    forall|k: Seq<char>| #[trigger] a.contains_key(k) ==> b.contains_key(k) && a[k].0 <= b[k].0
}

proof fn lemma_add_grows(m: Map<Seq<char>, Entry>, sp: Seq<Seq<char>>, band: Option<Seq<char>>, parts: Set<Seq<char>>, j: int)
    requires
        0 <= j <= sp.len(),
    ensures
        counts_below(m, add_spellings(m, sp, band, parts)),
        counts_below(add_spellings(m, sp.take(j), band, parts), add_spellings(m, sp, band, parts)),
    decreases sp.len(),
{
    if sp.len() == 0 {
        assert(sp.take(j) =~= sp);
    } else if j == sp.len() {
        assert(sp.take(j) =~= sp);
        lemma_add_grows(m, sp.drop_last(), band, parts, j - 1);
    } else {
        lemma_add_grows(m, sp.drop_last(), band, parts, j);
        assert(sp.drop_last().take(j) =~= sp.take(j));
    }
}

proof fn lemma_metadata_grows(rows: Seq<Seq<Seq<char>>>, t: int, l: Option<int>, p: Option<int>, i: int)
    requires
        0 <= i <= rows.len(),
    ensures
        counts_below(metadata_of(rows.take(i), t, l, p), metadata_of(rows, t, l, p)),
    decreases rows.len(),
{
    if i == rows.len() {
        assert(rows.take(i) =~= rows);
    } else {
        lemma_metadata_grows(rows.drop_last(), t, l, p, i);
        assert(rows.drop_last().take(i) =~= rows.take(i));
        let row = rows.last();
        lemma_add_grows(metadata_of(rows.drop_last(), t, l, p), names(row[t]), row_band(row, l), row_parts(row, p), 0);
    }
}

/// The working state of `metadata_from_bytes` holds the metadata `m`: one
/// slot per spelling, found through `index`.
pub open spec fn slots_hold(
    keys: Seq<String>,
    counts: Seq<usize>,
    bands: Seq<Vec<String>>,
    parts: Seq<Vec<String>>,
    index: Map<Seq<char>, usize>,
    m: Map<Seq<char>, Entry>,
) -> bool {
    &&& counts.len() == keys.len() && bands.len() == keys.len() && parts.len() == keys.len()
    &&& forall|k: Seq<char>| #[trigger] index.contains_key(k) <==> m.contains_key(k)
    &&& forall|k: Seq<char>| #[trigger] index.contains_key(k) ==> index[k] < keys.len() && keys[index[k] as int]@ == k
    &&& forall|i: int| 0 <= i < keys.len() ==> {
        let k = (#[trigger] keys[i])@;
        &&& index.contains_key(k) && index[k] == i
        &&& counts[i] == m[k].0
        &&& name_set(bands[i]@) == m[k].1 && views(bands[i]@).no_duplicates()
        &&& name_set(parts[i]@) == m[k].2 && views(parts[i]@).no_duplicates()
    }
}

/// The outcome of a metadata file whose header names a token column, from
/// its metadata: a count beyond `usize` is an overflow, then a reader's error.
proof fn lemma_file_outcome(
    bytes: Seq<u8>,
    t: int,
    lv: Option<int>,
    pv: Option<int>,
    key: Seq<char>,
    result: Result<Vec<(String, TokenMetadata)>, MetadataError>,
)
    requires
        csv_read(bytes).0.len() > 0,
        first_named(csv_read(bytes).0[0], seq!["Simplified"@, "token"@]) == Some(t),
        lv == first_named(csv_read(bytes).0[0], seq!["Level"@, "hsk_level"@]),
        pv == first_named(csv_read(bytes).0[0], seq!["pos"@, "POS"@, "part_of_speech"@]),
        ({
            let m = metadata_of(csv_read(bytes).0.drop_first(), t, lv, pv);
            if m.contains_key(key) && m[key].0 > usize::MAX {
                result == Err::<Vec<(String, TokenMetadata)>, MetadataError>(MetadataError::CountOverflow)
            } else {
                &&& forall|k: Seq<char>| #[trigger] m.contains_key(k) ==> m[k].0 <= usize::MAX
                &&& if csv_read(bytes).1 {
                    result matches Err(MetadataError::Csv(_))
                } else {
                    result matches Ok(entries) && entries_are(entries@, m)
                }
            }
        }),
    ensures
        metadata_file_spec(bytes, result),
{
    let table = csv_read(bytes).0;
    let m = metadata_of(table.drop_first(), t, lv, pv);
    let found = first_named(table[0], seq!["Simplified"@, "token"@]);
    assert(found->Some_0 == t);
    assert(m == metadata_of(table.drop_first(), found->Some_0, first_named(table[0], seq!["Level"@, "hsk_level"@]),
        first_named(table[0], seq!["pos"@, "POS"@, "part_of_speech"@])));
    if m.contains_key(key) && m[key].0 > usize::MAX {
        assert(exists|k: Seq<char>| #[trigger] m.contains_key(k) && m[k].0 > usize::MAX);
    } else {
        assert(!exists|k: Seq<char>| #[trigger] m.contains_key(k) && m[k].0 > usize::MAX);
    }
}

/// Read a metadata file's bytes: for each spelling, how many rows name it and
/// the bands and parts of speech they give.
pub fn metadata_from_bytes(bytes: &[u8]) -> (result: Result<Vec<(String, TokenMetadata)>, MetadataError>)
    ensures
        metadata_file_spec(bytes@, result),
{
    let (table, error) = csv_records(bytes);
    let ghost tv = table_view(table@);
    if table.len() == 0 {
        return match error {
            Some(message) => Err(MetadataError::Csv(message)),
            None => Err(MetadataError::MissingTokenColumn),
        };
    }
    let token_names = vec![String::from_str("Simplified"), String::from_str("token")];
    let level_names = vec![String::from_str("Level"), String::from_str("hsk_level")];
    let pos_names = vec![String::from_str("pos"), String::from_str("POS"), String::from_str("part_of_speech")];
    proof {
        reveal_strlit("Simplified");
        reveal_strlit("token");
        reveal_strlit("Level");
        reveal_strlit("hsk_level");
        reveal_strlit("pos");
        reveal_strlit("POS");
        reveal_strlit("part_of_speech");
        assert(views(token_names@) =~= seq!["Simplified"@, "token"@]);
        assert(views(level_names@) =~= seq!["Level"@, "hsk_level"@]);
        assert(views(pos_names@) =~= seq!["pos"@, "POS"@, "part_of_speech"@]);
        assert(tv[0] == table@[0]@.map_values(|s: String| s@));
        assert(views(table@[0]@) =~= tv[0]);
    }
    let t = match find_column(&table[0], &token_names) {
        Some(t) => t,
        None => return Err(MetadataError::MissingTokenColumn),
    };
    let level = find_column(&table[0], &level_names);
    let pos = find_column(&table[0], &pos_names);
    let ghost lv: Option<int> = match level { Some(c) => Some(c as int), None => None };
    let ghost pv: Option<int> = match pos { Some(c) => Some(c as int), None => None };
    let width = table[0].len();
    proof {
        assert(first_named(tv[0], seq!["Simplified"@, "token"@]) == Some(t as int));
        assert(lv == first_named(tv[0], seq!["Level"@, "hsk_level"@]));
        assert(pv == first_named(tv[0], seq!["pos"@, "POS"@, "part_of_speech"@]));
        lemma_first_named_in_range(tv[0], seq!["Simplified"@, "token"@]);
        lemma_first_named_in_range(tv[0], seq!["Level"@, "hsk_level"@]);
        lemma_first_named_in_range(tv[0], seq!["pos"@, "POS"@, "part_of_speech"@]);
    }
    let ghost data = tv.drop_first();
    let mut keys: Vec<String> = Vec::new();
    let mut counts: Vec<usize> = Vec::new();
    let mut bands: Vec<Vec<String>> = Vec::new();
    let mut parts: Vec<Vec<String>> = Vec::new();
    let mut index: StringHashMap<usize> = StringHashMap::new();
    let mut k: usize = 1;
    proof {
        assert(data.take(0) =~= Seq::<Seq<Seq<char>>>::empty());
    }
    while k < table.len()
        invariant
            1 <= k <= table@.len(),
            tv == table_view(table@),
            data == tv.drop_first(),
            width == table@[0]@.len(),
            t < width,
            level matches Some(c) ==> c < width,
            pos matches Some(c) ==> c < width,
            lv == (match level { Some(c) => Some(c as int), None => None::<int> }),
            pv == (match pos { Some(c) => Some(c as int), None => None::<int> }),
            forall|i: int| 0 <= i < table@.len() ==> (#[trigger] table@[i])@.len() == width,
            slots_hold(keys@, counts@, bands@, parts@, index@, metadata_of(data.take(k - 1), t as int, lv, pv)),
            tv == csv_read(bytes@).0,
            first_named(tv[0], seq!["Simplified"@, "token"@]) == Some(t as int),
            lv == first_named(tv[0], seq!["Level"@, "hsk_level"@]),
            pv == first_named(tv[0], seq!["pos"@, "POS"@, "part_of_speech"@]),
        decreases table@.len() - k,
    {
        let row = &table[k];
        let ghost rv = tv[k as int];
        proof {
            assert(rv == row@.map_values(|s: String| s@));
            assert(data.take(k as int).drop_last() =~= data.take(k - 1));
            assert(data.take(k as int).last() == rv);
        }
        let spellings = split_names(row[t].as_str());
        let band: Option<&String> = match level {
            Some(c) => if row[c].as_str().unicode_len() > 0 { Some(&row[c]) } else { None },
            None => None,
        };
        let cell_parts: Vec<String> = match pos {
            Some(c) => split_names(row[c].as_str()),
            None => Vec::new(),
        };
        let ghost before = metadata_of(data.take(k - 1), t as int, lv, pv);
        let ghost sp = views(spellings@);
        let ghost bv: Option<Seq<char>> = match band { Some(b) => Some(b@), None => None };
        let ghost pset = name_set(cell_parts@);
        proof {
            assert(sp == names(rv[t as int])) by {
                assert(string_views(spellings@) =~= sp);
            }
            assert(bv == row_band(rv, lv));
            assert(pset == row_parts(rv, pv)) by {
                if pos is Some {
                    assert(string_views(cell_parts@) =~= views(cell_parts@));
                } else {
                    assert(views(cell_parts@) =~= Seq::<Seq<char>>::empty());
                    assert(pset =~= Set::<Seq<char>>::empty());
                }
            }
            assert(sp.take(0) =~= Seq::<Seq<char>>::empty());
        }
        let mut j: usize = 0;
        while j < spellings.len()
            invariant
                j <= spellings@.len(),
                sp == views(spellings@),
                slots_hold(keys@, counts@, bands@, parts@, index@, add_spellings(before, sp.take(j as int), bv, pset)),
                bv == (match band { Some(b) => Some(b@), None => None::<Seq<char>> }),
                pset == name_set(cell_parts@),
                1 <= k < table@.len(),
                data.len() == table@.len() - 1,
                before == metadata_of(data.take(k - 1), t as int, lv, pv),
                data.take(k as int).drop_last() == data.take(k - 1),
                data.take(k as int).last() == rv,
                sp == names(rv[t as int]),
                bv == row_band(rv, lv),
                pset == row_parts(rv, pv),
                tv == csv_read(bytes@).0,
                first_named(tv[0], seq!["Simplified"@, "token"@]) == Some(t as int),
                lv == first_named(tv[0], seq!["Level"@, "hsk_level"@]),
                pv == first_named(tv[0], seq!["pos"@, "POS"@, "part_of_speech"@]),
                data == tv.drop_first(),
                tv.len() == table@.len(),
            decreases spellings@.len() - j,
        {
            let ghost m = add_spellings(before, sp.take(j as int), bv, pset);
            let s = &spellings[j];
            let ghost sv = s@;
            proof {
                assert(sp[j as int] == sv);
            }
            let i = match index.get(s.as_str()) {
                Some(found) => *found,
                None => {
                    let n = keys.len();
                    keys.push(s.clone());
                    counts.push(0);
                    bands.push(Vec::new());
                    parts.push(Vec::new());
                    index.insert(s.clone(), n);
                    n
                },
            };
            let ghost m0: Map<Seq<char>, Entry> = if m.contains_key(sv) { m } else { m.insert(sv, (0nat, Set::empty(), Set::empty())) };
            proof {
                assert(views(bands@[i as int]@) =~= Seq::<Seq<char>>::empty() || m.contains_key(sv));
                assert forall|q: int| 0 <= q < keys@.len() implies {
                    let kq = (#[trigger] keys@[q])@;
                    &&& index@.contains_key(kq) && index@[kq] == q
                    &&& counts@[q] == m0[kq].0
                    &&& name_set(bands@[q]@) == m0[kq].1 && views(bands@[q]@).no_duplicates()
                    &&& name_set(parts@[q]@) == m0[kq].2 && views(parts@[q]@).no_duplicates()
                } by {
                    if !m.contains_key(sv) && q == keys@.len() - 1 {
                        assert(views(bands@[q]@) =~= Seq::<Seq<char>>::empty());
                        assert(views(parts@[q]@) =~= Seq::<Seq<char>>::empty());
                        assert(name_set(bands@[q]@) =~= Set::<Seq<char>>::empty());
                        assert(name_set(parts@[q]@) =~= Set::<Seq<char>>::empty());
                    }
                }
                assert(slots_hold(keys@, counts@, bands@, parts@, index@, m0));
                assert(index@[sv] == i);
            }
            if counts[i] == usize::MAX {
                proof {
                    let e = m0[sv];
                    assert(sp.take(j + 1).drop_last() =~= sp.take(j as int));
                    assert(sp.take(j + 1).last() == sv);
                    let after = add_spellings(before, sp.take(j + 1), bv, pset);
                    assert(after.contains_key(sv) && after[sv].0 == e.0 + 1);
                    lemma_add_grows(before, sp, bv, pset, j + 1);
                    lemma_metadata_grows(data, t as int, lv, pv, k as int);
                    assert(metadata_of(data.take(k as int), t as int, lv, pv) == add_spellings(before, sp, bv, pset));
                    assert(add_spellings(before, sp, bv, pset).contains_key(sv));
                    assert(metadata_of(data.take(k as int), t as int, lv, pv).contains_key(sv));
                    let full = metadata_of(data, t as int, lv, pv);
                    assert(full.contains_key(sv) && full[sv].0 > usize::MAX);
                    assert(tv.len() > 0);
                    lemma_file_outcome(bytes@, t as int, lv, pv, sv, Err::<Vec<(String, TokenMetadata)>, MetadataError>(MetadataError::CountOverflow));
                }
                return Err(MetadataError::CountOverflow);
            }
            let c = counts[i] + 1;
            counts.set(i, c);
            match band {
                Some(b) => add_name(&mut bands[i], b),
                None => {},
            }
            add_names(&mut parts[i], &cell_parts);
            proof {
                let e = m0[sv];
                let m1 = m0.insert(sv, (e.0 + 1, match bv { Some(b) => e.1.insert(b), None => e.1 }, e.2.union(pset)));
                assert(sp.take(j + 1).drop_last() =~= sp.take(j as int));
                assert(sp.take(j + 1).last() == sv);
                assert(add_spellings(before, sp.take(j + 1), bv, pset) == m1);
                assert forall|k2: Seq<char>| #[trigger] index@.contains_key(k2) <==> m1.contains_key(k2) by {}
                assert forall|q: int| 0 <= q < keys@.len() implies {
                    let kq = (#[trigger] keys@[q])@;
                    &&& index@.contains_key(kq) && index@[kq] == q
                    &&& counts@[q] == m1[kq].0
                    &&& name_set(bands@[q]@) == m1[kq].1 && views(bands@[q]@).no_duplicates()
                    &&& name_set(parts@[q]@) == m1[kq].2 && views(parts@[q]@).no_duplicates()
                } by {
                    if q != i {
                        assert(keys@[q]@ != sv);
                    }
                }
            }
            j = j + 1;
        }
        proof {
            assert(sp.take(j as int) =~= sp);
        }
        k = k + 1;
    }
    proof {
        assert(data.take(k - 1) =~= data);
    }
    let ghost m = metadata_of(data, t as int, lv, pv);
    proof {
        assert forall|key: Seq<char>| #[trigger] m.contains_key(key) implies m[key].0 <= usize::MAX by {
            assert(index@.contains_key(key));
            let q = index@[key];
            assert(keys@[q as int]@ == key);
        }
    }
    match error {
        Some(message) => return Err(MetadataError::Csv(message)),
        None => {},
    }
    let ghost (keys0, counts0, bands0, parts0) = (keys@, counts@, bands@, parts@);
    let mut entries: Vec<(String, TokenMetadata)> = Vec::new();
    let mut i: usize = 0;
    while i < keys.len()
        invariant
            i <= keys@.len(),
            keys@ == keys0,
            counts@ == counts0,
            bands@.len() == bands0.len(),
            parts@.len() == parts0.len(),
            forall|q: int| i <= q < bands@.len() ==> #[trigger] bands@[q] == bands0[q],
            forall|q: int| i <= q < parts@.len() ==> #[trigger] parts@[q] == parts0[q],
            slots_hold(keys0, counts0, bands0, parts0, index@, m),
            entries@.len() == i,
            forall|q: int| 0 <= q < i ==> {
                let (kq, tq) = #[trigger] entries@[q];
                kq@ == keys0[q]@ && tq.mapped_rows == counts0[q] && tq.bands@ == bands0[q]@
                    && tq.parts_of_speech@ == parts0[q]@
            },
        decreases keys@.len() - i,
    {
        let mut b: Vec<String> = Vec::new();
        std::mem::swap(&mut b, &mut bands[i]);
        let mut p: Vec<String> = Vec::new();
        std::mem::swap(&mut p, &mut parts[i]);
        entries.push((keys[i].clone(), TokenMetadata { bands: b, parts_of_speech: p, mapped_rows: counts[i] }));
        i = i + 1;
    }
    proof {
        let es = entries@;
        assert forall|a: int, b: int| 0 <= a < b < es.len() implies (#[trigger] es[a]).0@ != (#[trigger] es[b]).0@ by {
            assert(index@[keys0[a]@] == a);
            assert(index@[keys0[b]@] == b);
        }
        assert forall|key: Seq<char>| #[trigger] m.contains_key(key) <==> exists|q: int| 0 <= q < es.len() && (#[trigger] es[q]).0@ == key by {
            if m.contains_key(key) {
                assert(index@.contains_key(key));
                let q = index@[key] as int;
                assert(es[q].0@ == key);
            }
            if exists|q: int| 0 <= q < es.len() && (#[trigger] es[q]).0@ == key {
                let q = choose|q: int| 0 <= q < es.len() && (#[trigger] es[q]).0@ == key;
                assert(keys0[q]@ == key);
            }
        }
        assert(entries_are(es, m));
    }
    Ok(entries)
}

/// The strata a token falls in by its metadata: each HSK band, or `missing`
/// when it has none; each part of speech, or `missing`; and whether the
/// metadata is ambiguous.
#[derive(Clone, Debug)]
pub struct TokenStrata {
    pub hsk: Vec<String>,
    pub pos: Vec<String>,
    pub missing_hsk: bool,
    pub missing_pos: bool,
    pub ambiguous: bool,
}

fn copy_names(names: &Vec<String>) -> (result: Vec<String>)
    ensures
        result@ == names@,
{
    let mut result: Vec<String> = Vec::new();
    let mut i: usize = 0;
    while i < names.len()
        invariant
            i <= names@.len(),
            result@ == names@.take(i as int),
        decreases names@.len() - i,
    {
        result.push(names[i].clone());
        i = i + 1;
        assert(result@ =~= names@.take(i as int));
    }
    assert(names@.take(i as int) =~= names@);
    result
}

/// The strata of a token with this metadata (`None` when the metadata does
/// not name it).
pub fn token_strata(item: Option<&TokenMetadata>) -> (result: TokenStrata)
    ensures
        result.missing_hsk == (item matches Some(m) ==> m.bands@.len() == 0),
        result.missing_hsk ==> views(result.hsk@) == seq!["missing"@],
        !result.missing_hsk ==> result.hsk@ == item->Some_0.bands@,
        result.missing_pos == (item matches Some(m) ==> m.parts_of_speech@.len() == 0),
        result.missing_pos ==> views(result.pos@) == seq!["missing"@],
        !result.missing_pos ==> result.pos@ == item->Some_0.parts_of_speech@,
        result.ambiguous == (item matches Some(m) && (m.mapped_rows > 1 || m.bands@.len() > 1
            || m.parts_of_speech@.len() > 1)),
{
    proof {
        reveal_strlit("missing");
    }
    let missing = vec![String::from_str("missing")];
    proof {
        assert(views(missing@) =~= seq!["missing"@]);
    }
    match item {
        Some(m) => {
            let missing_hsk = m.bands.len() == 0;
            let missing_pos = m.parts_of_speech.len() == 0;
            TokenStrata {
                hsk: if missing_hsk { copy_names(&missing) } else { copy_names(&m.bands) },
                pos: if missing_pos { copy_names(&missing) } else { copy_names(&m.parts_of_speech) },
                missing_hsk,
                missing_pos,
                ambiguous: m.ambiguous(),
            }
        },
        None => TokenStrata {
            hsk: copy_names(&missing),
            pos: copy_names(&missing),
            missing_hsk: true,
            missing_pos: true,
            ambiguous: false,
        },
    }
}

} // verus!
