//! Tables read from CSV bytes with the `csv` crate's default reader settings
//! (comma separated, double quotes, records of equal length), every record
//! returned in order, the header row included, and the column lookups that
//! the file formats share.
use vstd::prelude::*;
use crate::assignments::{column_position, names_contain};

verus! {

/// What the `csv` crate reads from these bytes: the records read before the
/// first error (all of them when there is none), each as its fields, and
/// whether an error stopped the reading.
pub uninterp spec fn csv_read(bytes: Seq<u8>) -> (Seq<Seq<Seq<char>>>, bool);

/// The records as character sequences.
pub open spec fn table_view(rows: Seq<Vec<String>>) -> Seq<Seq<Seq<char>>> {
    rows.map_values(|r: Vec<String>| r@.map_values(|s: String| s@))
}

/// `csv::ReaderBuilder` with its defaults except `has_headers(false)`, then
/// `Reader::records`: the records in order as strings, until the first error,
/// whose message is returned. As the reader is not flexible, every record has
/// as many fields as the first.
#[verifier::external_body]
pub(crate) fn csv_records(bytes: &[u8]) -> (result: (Vec<Vec<String>>, Option<String>))
    ensures
        table_view(result.0@) == csv_read(bytes@).0,
        result.1 is Some <==> csv_read(bytes@).1,
        forall|i: int| 0 <= i < result.0@.len() ==> (#[trigger] result.0@[i])@.len() == result.0@[0]@.len(),
{
    let mut rows = Vec::new();
    for record in csv::ReaderBuilder::new().has_headers(false).from_reader(bytes).records() {
        match record {
            Ok(fields) => rows.push(fields.iter().map(String::from).collect()),
            Err(error) => return (rows, Some(error.to_string())),
        }
    }
    (rows, None)
}

/// The first of `header`'s names that is one of `names`.
pub open spec fn first_named(header: Seq<Seq<char>>, names: Seq<Seq<char>>) -> Option<int>
    decreases header.len(),
{
    if header.len() == 0 {
        None
    } else {
        match first_named(header.drop_last(), names) {
            Some(i) => Some(i),
            None => if names.contains(header.last()) {
                Some(header.len() - 1)
            } else {
                None
            },
        }
    }
}

proof fn lemma_first_named(header: Seq<Seq<char>>, names: Seq<Seq<char>>, n: int)
    requires
        0 <= n <= header.len(),
    ensures
        match first_named(header.take(n), names) {
            Some(h) => 0 <= h < n && names.contains(header[h])
                && forall|g: int| 0 <= g < h ==> !names.contains(#[trigger] header[g]),
            None => forall|g: int| 0 <= g < n ==> !names.contains(#[trigger] header[g]),
        },
    decreases n,
{
    if n > 0 {
        lemma_first_named(header, names, n - 1);
        assert(header.take(n).drop_last() =~= header.take(n - 1));
        assert(header.take(n).last() == header[n - 1]);
    }
}

/// The string views of a list of strings.
pub open spec fn views(v: Seq<String>) -> Seq<Seq<char>> {
    v.map_values(|s: String| s@)
}

/// Position of the first header that is one of `names`.
pub fn find_column(header: &Vec<String>, names: &Vec<String>) -> (result: Option<usize>)
    ensures
        match result {
            Some(h) => first_named(views(header@), views(names@)) == Some(h as int),
            None => first_named(views(header@), views(names@)) is None,
        },
{
    let result = column_position(header.as_slice(), names.as_slice());
    proof {
        let (hv, nv) = (views(header@), views(names@));
        lemma_first_named(hv, nv, hv.len() as int);
        assert(hv.take(hv.len() as int) =~= hv);
        assert forall|g: int| 0 <= g < hv.len() implies (nv.contains(#[trigger] hv[g]) <==> names_contain(names@, header@[g]@)) by {
            if nv.contains(hv[g]) {
                let y = choose|y: int| 0 <= y < nv.len() && nv[y] == hv[g];
                assert(names@[y]@ == header@[g]@);
            }
            if names_contain(names@, header@[g]@) {
                let y = choose|y: int| 0 <= y < names@.len() && (#[trigger] names@[y])@ == header@[g]@;
                assert(nv[y] == hv[g]);
            }
        }
        match result {
            Some(h) => {
                assert(nv.contains(hv[h as int]));
                match first_named(hv, nv) {
                    Some(f) => {
                        if f < h {
                            assert(!names_contain(names@, header@[f]@));
                        } else if h < f {
                            assert(!nv.contains(hv[h as int]));
                        }
                    },
                    None => {},
                }
            },
            None => {
                match first_named(hv, nv) {
                    Some(f) => {
                        assert(!names_contain(names@, header@[f]@));
                    },
                    None => {},
                }
            },
        }
    }
    result
}

/// A column found among the names of a header lies within it.
pub proof fn lemma_first_named_in_range(header: Seq<Seq<char>>, names: Seq<Seq<char>>)
    ensures
        first_named(header, names) matches Some(h) ==> 0 <= h < header.len(),
{
    lemma_first_named(header, names, header.len() as int);
    assert(header.take(header.len() as int) =~= header);
}

} // verus!
