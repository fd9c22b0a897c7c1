//! Byte-level helpers shared by the codecs: searching for a delimiter byte
//! and comparing byte strings.
use vstd::prelude::*;

verus! {

/// The first index at or after `from` where `s` holds the byte `b`.
pub open spec fn spec_find_byte(s: Seq<u8>, from: int, b: u8) -> Option<int>
    decreases s.len() - from,
{
    if from < 0 || from >= s.len() {
        None
    } else if s[from] == b {
        Some(from)
    } else {
        spec_find_byte(s, from + 1, b)
    }
}

/// What a successful or failed search means for the bytes themselves.
pub proof fn lemma_find_byte(s: Seq<u8>, from: int, b: u8)
    requires
        0 <= from <= s.len(),
    ensures
        match spec_find_byte(s, from, b) {
            Some(i) => from <= i < s.len() && s[i] == b && (forall|j: int|
                from <= j < i ==> s[j] != b),
            None => forall|j: int| from <= j < s.len() ==> s[j] != b,
        },
    decreases s.len() - from,
{
    if from < s.len() && s[from] != b {
        lemma_find_byte(s, from + 1, b);
    }
}

/// A byte other than `b` at the front does not change where `b` is found.
pub proof fn lemma_find_byte_step(s: Seq<u8>, from: int, b: u8)
    requires
        0 <= from < s.len(),
        s[from] != b,
    ensures
        spec_find_byte(s, from, b) == spec_find_byte(s, from + 1, b),
{
}

/// When no occurrence of `b` lies in `[from, to)`, searching from `from` is
/// the same as searching from `to`.
pub proof fn lemma_find_byte_skip(s: Seq<u8>, from: int, to: int, b: u8)
    requires
        0 <= from <= to <= s.len(),
        forall|j: int| from <= j < to ==> s[j] != b,
    ensures
        spec_find_byte(s, from, b) == spec_find_byte(s, to, b),
    decreases to - from,
{
    if from < to {
        lemma_find_byte_skip(s, from + 1, to, b);
    }
}

/// When `b` first occurs at `i`, the search from `from` finds exactly `i`.
pub proof fn lemma_find_byte_exact(s: Seq<u8>, from: int, i: int, b: u8)
    requires
        0 <= from <= i < s.len(),
        s[i] == b,
        forall|j: int| from <= j < i ==> s[j] != b,
    ensures
        spec_find_byte(s, from, b) == Some(i),
{
    lemma_find_byte_skip(s, from, i, b);
}

/// Finds the first occurrence of `b` in `v` at or after `from`.
pub fn find_byte(v: &[u8], from: usize, b: u8) -> (r: Option<usize>)
    requires
        from <= v@.len(),
    ensures
        match r {
            Some(i) => spec_find_byte(v@, from as int, b) == Some(i as int) && from <= i
                < v@.len(),
            None => spec_find_byte(v@, from as int, b) is None,
        },
{
    let mut i = from;
    while i < v.len()
        invariant
            from <= i <= v@.len(),
            spec_find_byte(v@, from as int, b) == spec_find_byte(v@, i as int, b),
        decreases v@.len() - i,
    {
        if v[i] == b {
            return Some(i);
        }
        proof {
            lemma_find_byte_step(v@, i as int, b);
        }
        i = i + 1;
    }
    None
}

/// Compares two byte strings for equality of contents.
pub fn bytes_eq(a: &[u8], b: &[u8]) -> (r: bool)
    ensures
        r == (a@ == b@),
{
    if a.len() != b.len() {
        return false;
    }
    let mut i: usize = 0;
    while i < a.len()
        invariant
            a@.len() == b@.len(),
            i <= a@.len(),
            forall|j: int| 0 <= j < i ==> a@[j] == b@[j],
        decreases a@.len() - i,
    {
        if a[i] != b[i] {
            return false;
        }
        i = i + 1;
    }
    proof {
        assert(a@ =~= b@);
    }
    true
}

/// Relies on String::from_utf8: it succeeds exactly on valid UTF-8 input and
/// returns the string those bytes encode.
#[verifier::external_body]
pub fn string_from_utf8(v: Vec<u8>) -> (r: Option<String>)
    ensures
        match r {
            Some(s) => vstd::utf8::valid_utf8(v@) && s@ == vstd::utf8::decode_utf8(v@),
            None => !vstd::utf8::valid_utf8(v@),
        },
{
    String::from_utf8(v).ok()
}

/// Copies the bytes of `v` in `[i, j)` into a fresh vector.
pub fn bytes_subrange(v: &[u8], i: usize, j: usize) -> (r: Vec<u8>)
    requires
        i <= j <= v@.len(),
    ensures
        r@ == v@.subrange(i as int, j as int),
{
    vstd::slice::slice_to_vec(vstd::slice::slice_subrange(v, i, j))
}

} // verus!
