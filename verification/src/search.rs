//! Byte search, delegated to the `memchr` crate.
use vstd::prelude::*;

verus! {

/// Whether `b` is one of the three needles.
pub open spec fn is_needle(n1: u8, n2: u8, n3: u8, b: u8) -> bool {
    b == n1 || b == n2 || b == n3
}

/// The index of the first byte of `haystack` equal to one of the three needles, as
/// `memchr::memchr3` returns it; its documentation states exactly this result, and
/// that the index is less than the haystack's length.
#[verifier::external_body]
pub(crate) fn find_any_of_three(n1: u8, n2: u8, n3: u8, haystack: &[u8]) -> (r: Option<usize>)
    ensures
        match r {
            Some(i) => i < haystack@.len() && is_needle(n1, n2, n3, haystack@[i as int]) && forall|
                j: int,
            | 0 <= j < i ==> !is_needle(n1, n2, n3, #[trigger] haystack@[j]),
            None => forall|j: int|
                0 <= j < haystack@.len() ==> !is_needle(n1, n2, n3, #[trigger] haystack@[j]),
        },
{
    memchr::memchr3(n1, n2, n3, haystack)
}

} // verus!
