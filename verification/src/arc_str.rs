//! A string slice into reference-counted bytes.
use core::ops::Bound;
use vstd::prelude::*;
use vstd::string::StringSliceAdditionalSpecFns;
use vstd::utf8::{
    encode_utf8_valid_utf8, is_char_boundary, is_char_boundary_iff_not_is_continuation_byte,
    is_char_boundary_start_end_of_seq, valid_utf8, valid_utf8_split,
};

verus! {

/// `bytes::Bytes`, a cheaply cloneable and sliceable chunk of memory.
#[verifier::external_type_specification]
#[verifier::external_body]
pub struct ExBytes(bytes::Bytes);

/// `core::str::Utf8Error`, the error of a failed UTF-8 conversion.
#[verifier::external_type_specification]
#[verifier::external_body]
pub struct ExUtf8Error(core::str::Utf8Error);

/// `core::ops::Bound`, one end of a range.
#[verifier::external_type_specification]
#[verifier::reject_recursive_types(T)]
pub struct ExBound<T>(Bound<T>);

/// The bytes that a `Bytes` holds.
pub uninterp spec fn bytes_of(b: bytes::Bytes) -> Seq<u8>;

/// `Bytes::clone`: another handle on the same bytes.
pub assume_specification[ <bytes::Bytes as Clone>::clone ](b: &bytes::Bytes) -> (r: bytes::Bytes)
    ensures
        bytes_of(r) == bytes_of(*b),
;

/// `Bytes::new`: an empty `Bytes`.
#[verifier::external_body]
fn bytes_new() -> (r: bytes::Bytes)
    ensures
        bytes_of(r) == Seq::<u8>::empty(),
{
    bytes::Bytes::new()
}

/// `Bytes::from_static`: a `Bytes` that points at `bytes`.
#[verifier::external_body]
fn bytes_from_static(data: &'static [u8]) -> (r: bytes::Bytes)
    ensures
        bytes_of(r) == data@,
{
    bytes::Bytes::from_static(data)
}

/// `Bytes::copy_from_slice`: a `Bytes` that holds a copy of `data`.
#[verifier::external_body]
fn bytes_copy_from_slice(data: &[u8]) -> (r: bytes::Bytes)
    ensures
        bytes_of(r) == data@,
{
    bytes::Bytes::copy_from_slice(data)
}

/// `Bytes::len`: how many bytes `b` holds.
#[verifier::external_body]
fn bytes_len(b: &bytes::Bytes) -> (r: usize)
    ensures
        r == bytes_of(*b).len(),
{
    b.len()
}

/// `Bytes::is_empty`: whether `b` holds no byte.
#[verifier::external_body]
fn bytes_is_empty(b: &bytes::Bytes) -> (r: bool)
    ensures
        r == (bytes_of(*b).len() == 0),
{
    b.is_empty()
}

/// `Bytes::slice`: the bytes of `b` from `begin` to `end`, which it panics on
/// unless `begin <= end <= b.len()`.
#[verifier::external_body]
fn bytes_slice(b: &bytes::Bytes, begin: usize, end: usize) -> (r: bytes::Bytes)
    requires
        begin <= end <= bytes_of(*b).len(),
    ensures
        bytes_of(r) == bytes_of(*b).subrange(begin as int, end as int),
{
    b.slice(begin..end)
}

/// `Bytes::as_ref`: the bytes of `b` as a slice.
#[verifier::external_body]
fn bytes_as_slice<'a>(b: &'a bytes::Bytes) -> (r: &'a [u8])
    ensures
        r@ == bytes_of(*b),
{
    b.as_ref()
}

/// `core::str::from_utf8`: `data` as a string slice, or an error where it is not
/// UTF-8.
#[verifier::external_body]
fn str_from_utf8<'a>(data: &'a [u8]) -> (r: Result<&'a str, core::str::Utf8Error>)
    ensures
        r is Ok <==> valid_utf8(data@),
        r matches Ok(s) ==> s.spec_bytes() == data@,
{
    core::str::from_utf8(data)
}

/// A slice into a reference-counted string.
#[derive(Debug)]
pub struct ArcStr(bytes::Bytes);

impl Clone for ArcStr {
    /// Another handle on the same string.
    fn clone(&self) -> (r: Self)
        ensures
            r@ == self@,
    {
        proof {
            use_type_invariant(self);
        }
        ArcStr(self.0.clone())
    }
}

impl View for ArcStr {
    type V = Seq<u8>;

    closed spec fn view(&self) -> Seq<u8> {
        bytes_of(self.0)
    }
}

impl ArcStr {
    /// The bytes are UTF-8.
    #[verifier::type_invariant]
    closed spec fn inv(&self) -> bool {
        valid_utf8(bytes_of(self.0))
    }

    /// An empty string.
    pub fn new() -> (r: Self)
        ensures
            r@ == Seq::<u8>::empty(),
    {
        let b = bytes_new();
        proof {
            assert(bytes_of(b) =~= vstd::utf8::encode_utf8(Seq::<char>::empty()));
            encode_utf8_valid_utf8(Seq::<char>::empty());
        }
        ArcStr(b)
    }

    /// A string that points at `text`.
    pub fn from_static(text: &'static str) -> (r: Self)
        ensures
            r@ == text.spec_bytes(),
    {
        proof {
            encode_utf8_valid_utf8(text@);
        }
        ArcStr(bytes_from_static(text.as_bytes()))
    }

    /// A copy of `data`, where it is UTF-8.
    pub fn from_utf8(data: &[u8]) -> (r: Result<Self, core::str::Utf8Error>)
        ensures
            r is Ok <==> valid_utf8(data@),
            r matches Ok(s) ==> s@ == data@,
    {
        match str_from_utf8(data) {
            Err(e) => Err(e),
            Ok(_) => Ok(ArcStr(bytes_copy_from_slice(data))),
        }
    }

    /// How many bytes the string takes.
    pub fn len(&self) -> (r: usize)
        ensures
            r == self@.len(),
    {
        bytes_len(&self.0)
    }

    pub fn is_empty(&self) -> (r: bool)
        ensures
            r == (self@.len() == 0),
    {
        bytes_is_empty(&self.0)
    }

    /// A copy of `data`.
    pub fn copy_from_slice(data: &str) -> (r: Self)
        ensures
            r@ == data.spec_bytes(),
    {
        proof {
            encode_utf8_valid_utf8(data@);
        }
        ArcStr(bytes_copy_from_slice(data.as_bytes()))
    }

    /// The part of the string in `range`, sharing its memory; `None` where an end of
    /// the range does not fall between two characters. The range must not run
    /// backward where both its ends do.
    pub fn slice(&self, range: (Bound<usize>, Bound<usize>)) -> (r: Option<Self>)
        requires
            !(range.0 matches Bound::Excluded(n) && n == usize::MAX),
            !(range.1 matches Bound::Included(n) && n == usize::MAX),
            is_char_boundary(self@, begin_of(range)) && is_char_boundary(self@, end_of(range, self@.len()))
                ==> begin_of(range) <= end_of(range, self@.len()),
        ensures
            is_char_boundary(self@, begin_of(range)) && is_char_boundary(self@, end_of(range, self@.len()))
                ==> (r matches Some(s) && s@ == self@.subrange(
                begin_of(range),
                end_of(range, self@.len()),
            )),
            !(is_char_boundary(self@, begin_of(range)) && is_char_boundary(self@, end_of(range, self@.len())))
                ==> r is None,
    {
        proof {
            use_type_invariant(self);
        }
        let len = self.len();
        let begin = match range.0 {
            Bound::Included(n) => n,
            Bound::Excluded(n) => n + 1,
            Bound::Unbounded => 0,
        };
        let end = match range.1 {
            Bound::Included(n) => n + 1,
            Bound::Excluded(n) => n,
            Bound::Unbounded => len,
        };
        if !self.as_str().is_char_boundary(begin) || !self.as_str().is_char_boundary(end) {
            return None;
        }
        proof {
            is_char_boundary_start_end_of_seq(self@);
            assert(end <= self@.len());
            valid_utf8_split(self@, end as int);
            let head = self@.subrange(0, end as int);
            assert(is_char_boundary(head, begin as int)) by {
                lemma_boundary_in_prefix(self@, begin as int, end as int);
            }
            valid_utf8_split(head, begin as int);
            assert(head.subrange(begin as int, head.len() as int) =~= self@.subrange(begin as int, end as int));
        }
        Some(ArcStr(bytes_slice(&self.0, begin, end)))
    }

    /// The string as a string slice.
    pub fn as_str(&self) -> (r: &str)
        ensures
            r.spec_bytes() == self@,
    {
        proof {
            use_type_invariant(self);
        }
        match str_from_utf8(bytes_as_slice(&self.0)) {
            Ok(s) => s,
            Err(_) => "",
        }
    }
}

/// A character boundary of a text stays one in the part of the text up to a later
/// character boundary.
proof fn lemma_boundary_in_prefix(bytes: Seq<u8>, b: int, e: int)
    requires
        valid_utf8(bytes),
        is_char_boundary(bytes, b),
        is_char_boundary(bytes, e),
        0 <= b <= e <= bytes.len(),
    ensures
        is_char_boundary(bytes.subrange(0, e), b),
{
    valid_utf8_split(bytes, e);
    let head = bytes.subrange(0, e);
    is_char_boundary_start_end_of_seq(head);
    if b < e {
        is_char_boundary_iff_not_is_continuation_byte(bytes, b);
        is_char_boundary_iff_not_is_continuation_byte(head, b);
    } else {
        assert(head.len() == e);
    }
}

/// Where a range starts.
pub open spec fn begin_of(range: (Bound<usize>, Bound<usize>)) -> int {
    match range.0 {
        Bound::Included(n) => n as int,
        Bound::Excluded(n) => n + 1,
        Bound::Unbounded => 0,
    }
}

/// Where a range ends, in a text of `len` bytes.
pub open spec fn end_of(range: (Bound<usize>, Bound<usize>), len: nat) -> int {
    match range.1 {
        Bound::Included(n) => n + 1,
        Bound::Excluded(n) => n as int,
        Bound::Unbounded => len as int,
    }
}

} // verus!
