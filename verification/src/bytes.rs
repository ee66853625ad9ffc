//! Byte-string search: what it means for a needle to occur in a haystack,
//! and the executable searches the rest of the crate is built on.

use vstd::prelude::*;

verus! {

/// `needle` lies in `haystack` at offset `at`.
pub open spec fn occurs_at(haystack: Seq<u8>, needle: Seq<u8>, at: int) -> bool {
    &&& 0 <= at
    &&& at + needle.len() <= haystack.len()
    &&& haystack.subrange(at, at + needle.len()) == needle
}

/// `at` is the smallest offset not below `from` at which `needle` occurs.
pub open spec fn first_occurrence(haystack: Seq<u8>, needle: Seq<u8>, from: int, at: int) -> bool {
    &&& from <= at
    &&& occurs_at(haystack, needle, at)
    &&& forall|k: int| from <= k < at ==> !occurs_at(haystack, needle, k)
}

/// `needle` occurs nowhere in `haystack` at or after `from`.
pub open spec fn absent_from(haystack: Seq<u8>, needle: Seq<u8>, from: int) -> bool {
    forall|k: int| from <= k ==> !occurs_at(haystack, needle, k)
}

/// The smallest index not below `from` that holds `byte`, or the length of
/// `s` when there is none.
pub open spec fn first_index_of(s: Seq<u8>, byte: u8, from: int) -> int
    decreases s.len() - from,
{
    if from < 0 || from >= s.len() {
        s.len() as int
    } else if s[from] == byte {
        from
    } else {
        first_index_of(s, byte, from + 1)
    }
}

/// `first_index_of` is the first index that holds the byte.
pub proof fn lemma_first_index_of(s: Seq<u8>, byte: u8, from: int)
    requires
        0 <= from <= s.len(),
    ensures
        from <= first_index_of(s, byte, from) <= s.len(),
        first_index_of(s, byte, from) < s.len() ==> s[first_index_of(s, byte, from)] == byte,
        forall|k: int| from <= k < first_index_of(s, byte, from) ==> s[k] != byte,
    decreases s.len() - from,
{
    if from < s.len() && s[from] != byte {
        lemma_first_index_of(s, byte, from + 1);
    }
}

/// The bytes of an ASCII string, one byte for each character.
pub open spec fn ascii_bytes(text: Seq<char>) -> Seq<u8> {
    Seq::new(text.len(), |i: int| text[i] as u8)
}

/// The bytes of a string literal that holds ASCII only.
pub fn literal_bytes(text: &'static str) -> (r: &'static [u8])
    requires
        vstd::string::is_ascii(text),
    ensures
        r@ == ascii_bytes(text@),
{
    proof {
        vstd::string::is_ascii_spec_bytes(text);
    }
    text.as_bytes()
}

/// `memchr::memchr`: the index of the first byte of `haystack` that equals
/// `byte`, `None` when no byte does.
#[verifier::external_body]
pub(crate) fn find_byte(byte: u8, haystack: &[u8]) -> (r: Option<usize>)
    ensures
        match r {
            Some(i) => i < haystack@.len() && first_index_of(haystack@, byte, 0) == i,
            None => first_index_of(haystack@, byte, 0) == haystack@.len(),
        },
{
    memchr::memchr(byte, haystack)
}

/// `memchr::memmem::find`: the index of the first occurrence of `needle` in
/// `haystack`, `None` when it does not occur.
#[verifier::external_body]
pub(crate) fn find_bytes(haystack: &[u8], needle: &[u8]) -> (r: Option<usize>)
    ensures
        match r {
            Some(i) => first_occurrence(haystack@, needle@, 0, i as int),
            None => absent_from(haystack@, needle@, 0),
        },
{
    memchr::memmem::find(haystack, needle)
}

/// Whether `needle` lies in `haystack` at offset `at`.
pub fn matches_at(haystack: &[u8], needle: &[u8], at: usize) -> (r: bool)
    ensures
        r == occurs_at(haystack@, needle@, at as int),
{
    if at > haystack.len() || needle.len() > haystack.len() - at {
        return false;
    }
    let mut i: usize = 0;
    while i < needle.len()
        invariant
            i <= needle.len(),
            at + needle.len() <= haystack.len(),
            forall|k: int| 0 <= k < i ==> haystack@[at + k] == needle@[k],
        decreases needle.len() - i,
    {
        if haystack[at + i] != needle[i] {
            assert(haystack@.subrange(at as int, at + needle@.len())[i as int] == haystack@[at + i]);
            return false;
        }
        i += 1;
    }
    assert(haystack@.subrange(at as int, at + needle@.len()) =~= needle@);
    true
}

/// Whether `haystack` begins with `prefix`.
pub fn starts_with(haystack: &[u8], prefix: &[u8]) -> (r: bool)
    ensures
        r == occurs_at(haystack@, prefix@, 0),
{
    matches_at(haystack, prefix, 0)
}

} // verus!
