//! Token text: code-point order, XML-safe characters and the word hash used to
//! draw deterministic samples.
use vstd::prelude::*;
use vstd::string::*;

verus! {

/// Lexicographic order on code points, which is the order Rust gives `str`
/// (UTF-8 preserves code-point order).
pub open spec fn chars_less(a: Seq<char>, b: Seq<char>) -> bool
    decreases a.len(),
{
    if a.len() == 0 {
        b.len() > 0
    } else if b.len() == 0 {
        false
    } else if a[0] != b[0] {
        (a[0] as u32) < (b[0] as u32)
    } else {
        chars_less(a.drop_first(), b.drop_first())
    }
}

proof fn lemma_chars_less_skip(a: Seq<char>, b: Seq<char>, i: int)
    requires
        0 <= i <= a.len(),
        i <= b.len(),
        a.take(i) == b.take(i),
    ensures
        chars_less(a, b) == chars_less(a.skip(i), b.skip(i)),
    decreases i,
{
    if i > 0 {
        assert(a[0] == a.take(i)[0]);
        assert(b[0] == b.take(i)[0]);
        assert(a.drop_first().take(i - 1) =~= a.take(i).drop_first());
        assert(b.drop_first().take(i - 1) =~= b.take(i).drop_first());
        lemma_chars_less_skip(a.drop_first(), b.drop_first(), i - 1);
        assert(a.drop_first().skip(i - 1) =~= a.skip(i));
        assert(b.drop_first().skip(i - 1) =~= b.skip(i));
    } else {
        assert(a.skip(0) =~= a);
        assert(b.skip(0) =~= b);
    }
}

/// `a < b` in code-point order.
pub fn str_less(a: &str, b: &str) -> (result: bool)
    ensures
        result == chars_less(a@, b@),
{
    let la = a.unicode_len();
    let lb = b.unicode_len();
    let mut i: usize = 0;
    while i < la && i < lb
        invariant
            la == a@.len(),
            lb == b@.len(),
            i <= la,
            i <= lb,
            a@.take(i as int) == b@.take(i as int),
        decreases la - i,
    {
        let ca = a.get_char(i);
        let cb = b.get_char(i);
        if ca != cb {
            proof {
                lemma_chars_less_skip(a@, b@, i as int);
                assert(a@.skip(i as int)[0] == ca);
                assert(b@.skip(i as int)[0] == cb);
            }
            return (ca as u32) < (cb as u32);
        }
        assert(a@.take(i + 1) =~= a@.take(i as int).push(ca));
        assert(b@.take(i + 1) =~= b@.take(i as int).push(cb));
        i = i + 1;
    }
    proof {
        lemma_chars_less_skip(a@, b@, i as int);
    }
    la < lb
}

/// Characters allowed in XML 1.0 documents.
pub open spec fn xml_char(c: char) -> bool {
    let x = c as u32;
    x == 0x9 || x == 0xA || x == 0xD || (0x20 <= x <= 0xD7FF) || (0xE000 <= x <= 0xFFFD) || (
    0x10000 <= x <= 0x10FFFF)
}

/// Whether `c` may appear in a GraphML document.
pub fn valid_xml_char(c: char) -> (result: bool)
    ensures
        result == xml_char(c),
{
    let x = c as u32;
    x == 0x9 || x == 0xA || x == 0xD || (0x20 <= x && x <= 0xD7FF) || (0xE000 <= x && x <= 0xFFFD)
        || (0x10000 <= x && x <= 0x10FFFF)
}

/// A token that can be written as a GraphML node id: nonempty, XML characters only.
pub open spec fn graph_token(s: Seq<char>) -> bool {
    s.len() > 0 && forall|i: int| 0 <= i < s.len() ==> xml_char(#[trigger] s[i])
}

/// Whether `token` can be written as a GraphML node id.
pub fn valid_graph_token(token: &str) -> (result: bool)
    ensures
        result == graph_token(token@),
{
    let len = token.unicode_len();
    if len == 0 {
        return false;
    }
    let mut i: usize = 0;
    while i < len
        invariant
            len == token@.len(),
            i <= len,
            forall|j: int| 0 <= j < i ==> xml_char(#[trigger] token@[j]),
        decreases len - i,
    {
        if !valid_xml_char(token.get_char(i)) {
            return false;
        }
        i = i + 1;
    }
    true
}

/// FNV-1a offset basis and prime (64 bit).
pub const FNV_OFFSET: u64 = 14695981039346656037;
pub const FNV_PRIME: u64 = 1099511628211;

/// FNV-1a hash of a byte sequence, with wrapping multiplication.
pub open spec fn fnv1a(bytes: Seq<u8>) -> u64
    decreases bytes.len(),
{
    if bytes.len() == 0 {
        FNV_OFFSET
    } else {
        (((fnv1a(bytes.drop_last()) ^ (bytes.last() as u64)) as nat * FNV_PRIME as nat) % 0x1_0000_0000_0000_0000) as u64
    }
}

/// 64-bit FNV-1a hash of the token's UTF-8 bytes; orders deterministic samples.
pub fn hash_word(s: &str) -> (h: u64)
    ensures
        h == fnv1a(s.spec_bytes()),
{
    let bytes = s.as_bytes();
    let mut h: u64 = FNV_OFFSET;
    let mut i: usize = 0;
    while i < bytes.len()
        invariant
            bytes@ == s.spec_bytes(),
            i <= bytes@.len(),
            h == fnv1a(bytes@.take(i as int)),
        decreases bytes@.len() - i,
    {
        let b = bytes[i];
        proof {
            assert(bytes@.take(i + 1).drop_last() =~= bytes@.take(i as int));
            assert(bytes@.take(i + 1).last() == b);
        }
        h = (h ^ (b as u64)).wrapping_mul(FNV_PRIME);
        i = i + 1;
    }
    proof {
        assert(bytes@.take(bytes@.len() as int) =~= bytes@);
    }
    h
}

/// Whether two strings hold the same characters.
pub fn str_eq(a: &str, b: &str) -> (result: bool)
    ensures
        result == (a@ == b@),
{
    let la = a.unicode_len();
    let lb = b.unicode_len();
    if la != lb {
        return false;
    }
    let mut i: usize = 0;
    while i < la
        invariant
            la == a@.len(),
            lb == b@.len(),
            la == lb,
            i <= la,
            a@.take(i as int) == b@.take(i as int),
        decreases la - i,
    {
        if a.get_char(i) != b.get_char(i) {
            return false;
        }
        assert(a@.take(i + 1) =~= a@.take(i as int).push(a@[i as int]));
        assert(b@.take(i + 1) =~= b@.take(i as int).push(b@[i as int]));
        i = i + 1;
    }
    assert(a@ =~= a@.take(la as int));
    assert(b@ =~= b@.take(la as int));
    true
}

} // verus!
