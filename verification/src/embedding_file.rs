//! The shape of a text embedding file: a `<count> <dimension>` header, then one
//! row per token. The vector values are floats and are read by the caller;
//! this module decides whether the header and the sequence of row tokens are
//! acceptable: no more rows than the header announced, and no token twice.
use vstd::prelude::*;
use vstd::hash_set::StringHashSet;
use crate::assignments::{parse_count, parsed_count};

verus! {

/// Why a header line is refused.
#[derive(Clone, Copy, Debug, PartialEq, Eq)]
pub enum HeaderError {
    MissingCount,
    BadCount,
    MissingDimension,
    BadDimension,
    ExtraField,
    ZeroDimension,
}

/// What the header's whitespace-separated fields give: the token count and
/// the dimension, checked in the order the fields are read.
pub open spec fn header_result(fields: Seq<String>) -> Result<(usize, usize), HeaderError> {
    if fields.len() == 0 {
        Err(HeaderError::MissingCount)
    } else if parsed_count(fields[0]@) is None {
        Err(HeaderError::BadCount)
    } else if fields.len() == 1 {
        Err(HeaderError::MissingDimension)
    } else if parsed_count(fields[1]@) is None {
        Err(HeaderError::BadDimension)
    } else if fields.len() > 2 {
        Err(HeaderError::ExtraField)
    } else if parsed_count(fields[1]@)->0 == 0 {
        Err(HeaderError::ZeroDimension)
    } else {
        Ok((parsed_count(fields[0]@)->0, parsed_count(fields[1]@)->0))
    }
}

/// Read the header's fields as a token count and a positive dimension.
pub fn parse_header(fields: &[String]) -> (result: Result<(usize, usize), HeaderError>)
    ensures
        result == header_result(fields@),
{
    if fields.len() == 0 {
        return Err(HeaderError::MissingCount);
    }
    let n = match parse_count(fields[0].as_str()) {
        Some(n) => n,
        None => return Err(HeaderError::BadCount),
    };
    if fields.len() == 1 {
        return Err(HeaderError::MissingDimension);
    }
    let d = match parse_count(fields[1].as_str()) {
        Some(d) => d,
        None => return Err(HeaderError::BadDimension),
    };
    if fields.len() > 2 {
        return Err(HeaderError::ExtraField);
    }
    if d == 0 {
        return Err(HeaderError::ZeroDimension);
    }
    Ok((n, d))
}

/// Why a row's token is refused.
#[derive(Clone, Copy, Debug, PartialEq, Eq)]
pub enum RowError {
    TooManyRows,
    DuplicateToken,
}

/// No token occurs twice.
pub open spec fn distinct(tokens: Seq<Seq<char>>) -> bool {
    forall|i: int, j: int| 0 <= i < j < tokens.len() ==> tokens[i] != tokens[j]
}

/// The tokens of the rows accepted so far, against the header's count.
pub struct EmbeddingRows {
    expected: usize,
    count: usize,
    seen: StringHashSet,
    tokens: Ghost<Seq<Seq<char>>>,
}

impl View for EmbeddingRows {
    type V = Seq<Seq<char>>;

    closed spec fn view(&self) -> Seq<Seq<char>> {
        self.tokens@
    }
}

impl EmbeddingRows {
    /// The token count that the header announced.
    pub closed spec fn expected(&self) -> nat {
        self.expected as nat
    }

    /// The state invariant: the count and the set of seen tokens agree with
    /// the accepted tokens, which are distinct and no more than announced.
    pub closed spec fn well_formed(&self) -> bool {
        &&& self.count == self.tokens@.len()
        &&& self.count <= self.expected
        &&& forall|s: Seq<char>| self.seen@.contains(s) <==> self.tokens@.contains(s)
        &&& distinct(self.tokens@)
    }

    /// No rows yet, against a header that announced `expected` tokens.
    pub fn new(expected: usize) -> (result: Self)
        ensures
            result@ == Seq::<Seq<char>>::empty(),
            result.expected() == expected,
            result.well_formed(),
    {
        EmbeddingRows { expected, count: 0, seen: StringHashSet::new(), tokens: Ghost(Seq::empty()) }
    }

    /// Accept the next row's token: refused when all announced rows are
    /// already there, or when the token came before; otherwise appended.
    pub fn accept(&mut self, token: &String) -> (result: Result<(), RowError>)
        requires
            old(self).well_formed(),
        ensures
            final(self).well_formed(),
            final(self).expected() == old(self).expected(),
            old(self)@.len() >= old(self).expected() ==> result == Err::<(), RowError>(RowError::TooManyRows)
                && final(self)@ == old(self)@,
            old(self)@.len() < old(self).expected() && old(self)@.contains(token@)
                ==> result == Err::<(), RowError>(RowError::DuplicateToken) && final(self)@ == old(self)@,
            old(self)@.len() < old(self).expected() && !old(self)@.contains(token@)
                ==> result is Ok && final(self)@ == old(self)@.push(token@),
            distinct(final(self)@),
            final(self)@.len() <= final(self).expected(),
    {
        if self.count >= self.expected {
            return Err(RowError::TooManyRows);
        }
        if self.seen.contains(token.as_str()) {
            return Err(RowError::DuplicateToken);
        }
        let ghost old_tokens = self.tokens@;
        let ghost t = token@;
        proof {
            assert forall|s: Seq<char>| #[trigger] old_tokens.push(t).contains(s) <==> old_tokens.contains(s) || s == t by {
                if old_tokens.contains(s) {
                    let k = choose|k: int| 0 <= k < old_tokens.len() && old_tokens[k] == s;
                    assert(old_tokens.push(t)[k] == s);
                }
                if s == t {
                    assert(old_tokens.push(t)[old_tokens.len() as int] == s);
                }
                if old_tokens.push(t).contains(s) {
                    let k = choose|k: int| 0 <= k < old_tokens.push(t).len() && old_tokens.push(t)[k] == s;
                    if k < old_tokens.len() {
                        assert(old_tokens[k] == s);
                    }
                }
            }
            assert forall|i: int, j: int| 0 <= i < j < old_tokens.push(t).len() implies old_tokens.push(t)[i]
                != old_tokens.push(t)[j] by {
                if j == old_tokens.len() {
                    assert(old_tokens[i] == old_tokens.push(t)[i]);
                    if old_tokens[i] == t {
                        assert(old_tokens.contains(t));
                    }
                }
            }
        }
        self.seen.insert(token.clone());
        self.count = self.count + 1;
        self.tokens = Ghost(old_tokens.push(t));
        Ok(())
    }

    /// Whether exactly the announced number of rows came.
    pub fn complete(&self) -> (result: bool)
        requires
            self.well_formed(),
        ensures
            result == (self@.len() == self.expected()),
    {
        self.count == self.expected
    }
}

} // verus!
