//! Substring search of the `bstr` crate.

use bstr::ByteSlice;
use vstd::prelude::*;

verus! {

/// `needle` stands in `haystack` at position `i`.
pub open spec fn occurs_at(haystack: Seq<u8>, needle: Seq<u8>, i: int) -> bool {
    &&& 0 <= i <= haystack.len() - needle.len()
    &&& haystack.subrange(i, i + needle.len()) == needle
}

/// `needle` stands somewhere in `haystack`.
pub open spec fn occurs(haystack: Seq<u8>, needle: Seq<u8>) -> bool {
    exists|i: int| occurs_at(haystack, needle, i)
}

/// `i` is the first position at which `needle` stands in `haystack`.
pub open spec fn occurs_first_at(haystack: Seq<u8>, needle: Seq<u8>, i: int) -> bool {
    &&& occurs_at(haystack, needle, i)
    &&& forall|k: int| k < i ==> !occurs_at(haystack, needle, k)
}

/// `bstr::ByteSlice::find` returns the position of the first occurrence of
/// `needle`, or `None` where there is no occurrence.
#[verifier::external_body]
pub(crate) fn find(haystack: &[u8], needle: &[u8]) -> (found: Option<usize>)
    ensures
        match found {
            Some(i) => occurs_first_at(haystack@, needle@, i as int),
            None => !occurs(haystack@, needle@),
        },
{
    haystack.find(needle)
}

} // verus!
