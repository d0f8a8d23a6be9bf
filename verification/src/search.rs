//! Byte searches, done by `bstr`.

use bstr::ByteSlice;
use vstd::prelude::*;

verus! {

/// `bstr::ByteSlice::find_byte`: the index of the first occurrence of `byte`
/// in `haystack`, or `None` when `byte` does not occur. Trusted, not proved.
#[verifier::external_body]
pub(crate) fn find_byte(haystack: &[u8], byte: u8) -> (found: Option<usize>)
    ensures
        match found {
            Some(i) => i < haystack@.len() && haystack@[i as int] == byte
                && forall|j: int| 0 <= j < i ==> haystack@[j] != byte,
            None => forall|j: int| 0 <= j < haystack@.len() ==> haystack@[j] != byte,
        },
{
    haystack.find_byte(byte)
}

/// `bstr::ByteSlice::rfind_byte`: the index of the last occurrence of `byte`
/// in `haystack`, or `None` when `byte` does not occur. Trusted, not proved.
#[verifier::external_body]
pub(crate) fn rfind_byte(haystack: &[u8], byte: u8) -> (found: Option<usize>)
    ensures
        match found {
            Some(i) => i < haystack@.len() && haystack@[i as int] == byte
                && forall|j: int| i < j < haystack@.len() ==> haystack@[j] != byte,
            None => forall|j: int| 0 <= j < haystack@.len() ==> haystack@[j] != byte,
        },
{
    haystack.rfind_byte(byte)
}

} // verus!
