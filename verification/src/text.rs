//! Conversions between byte strings and `String`.
use vstd::prelude::*;
use vstd::utf8::*;

verus! {

/// Decodes `bytes` as UTF-8 into an owned `String`, calling `String::from_utf8_lossy`.
/// Its documentation promises that valid UTF-8 comes back unchanged; what it makes of
/// invalid sequences (replacement characters) is left unsaid here.
#[verifier::external_body]
pub(crate) fn string_from_bytes(bytes: &[u8]) -> (s: String)
    ensures
        valid_utf8(bytes@) ==> s@ == decode_utf8(bytes@),
{
    String::from_utf8_lossy(bytes).into_owned()
}

/// The one-character string of `c`, made by `char::to_string`, which writes the
/// character itself.
#[verifier::external_body]
pub(crate) fn char_to_string(c: char) -> (s: String)
    ensures
        s@ == seq![c],
{
    c.to_string()
}

/// An owned copy of `s`.
pub fn owned(s: &str) -> (r: String)
    ensures
        r@ == s@,
{
    broadcast use vstd::string::group_string_axioms;
    s.to_string()
}

} // verus!

verus! {

/// The length of the UTF-8 encoding of a white-space character that ends `b`, or 0.
/// The white-space characters are those of Unicode's `White_Space` property, which
/// `char::is_whitespace` and `str::trim_end` use.
pub open spec fn ws_suffix_len(b: Seq<u8>) -> int {
    let n = b.len() as int;
    if n >= 1 && ((9 <= b[n - 1] && b[n - 1] <= 13) || b[n - 1] == 32) {
        1
    } else if n >= 2 && b[n - 2] == 0xC2 && (b[n - 1] == 0x85 || b[n - 1] == 0xA0) {
        2
    } else if n >= 3 && ((b[n - 3] == 0xE1 && b[n - 2] == 0x9A && b[n - 1] == 0x80) || (b[n - 3]
        == 0xE2 && b[n - 2] == 0x80 && ((0x80 <= b[n - 1] && b[n - 1] <= 0x8A) || b[n - 1] == 0xA8
        || b[n - 1] == 0xA9 || b[n - 1] == 0xAF)) || (b[n - 3] == 0xE2 && b[n - 2] == 0x81 && b[n
        - 1] == 0x9F) || (b[n - 3] == 0xE3 && b[n - 2] == 0x80 && b[n - 1] == 0x80)) {
        3
    } else {
        0
    }
}

/// `b` without its trailing white space.
pub open spec fn trim_end(b: Seq<u8>) -> Seq<u8>
    decreases b.len(),
{
    if ws_suffix_len(b) > 0 {
        trim_end(b.subrange(0, b.len() - ws_suffix_len(b)))
    } else {
        b
    }
}

/// The length `b` keeps once its trailing white space is removed.
pub fn trimmed_len(b: &[u8]) -> (r: usize)
    ensures
        r <= b@.len(),
        trim_end(b@) == b@.subrange(0, r as int),
{
    let mut n = b.len();
    assert(b@.subrange(0, n as int) =~= b@);
    loop
        invariant
            n <= b@.len(),
            trim_end(b@) == trim_end(b@.subrange(0, n as int)),
        ensures
            n <= b@.len(),
            trim_end(b@) == b@.subrange(0, n as int),
        decreases n,
    {
        let ghost s = b@.subrange(0, n as int);
        let k: usize = if n >= 1 && ((9 <= b[n - 1] && b[n - 1] <= 13) || b[n - 1] == 32) {
            1
        } else if n >= 2 && b[n - 2] == 0xC2 && (b[n - 1] == 0x85 || b[n - 1] == 0xA0) {
            2
        } else if n >= 3 && ((b[n - 3] == 0xE1 && b[n - 2] == 0x9A && b[n - 1] == 0x80) || (b[n
            - 3] == 0xE2 && b[n - 2] == 0x80 && ((0x80 <= b[n - 1] && b[n - 1] <= 0x8A) || b[n - 1]
            == 0xA8 || b[n - 1] == 0xA9 || b[n - 1] == 0xAF)) || (b[n - 3] == 0xE2 && b[n - 2]
            == 0x81 && b[n - 1] == 0x9F) || (b[n - 3] == 0xE3 && b[n - 2] == 0x80 && b[n - 1]
            == 0x80)) {
            3
        } else {
            0
        };
        assert(k == ws_suffix_len(s));
        if k == 0 {
            break;
        }
        assert(s.subrange(0, s.len() - k) =~= b@.subrange(0, n - k));
        n = n - k;
    }
    n
}

/// The length of the UTF-8 encoding of a white-space character that starts `b`, or 0
/// (the same characters as [`ws_suffix_len`]).
pub open spec fn ws_prefix_len(b: Seq<u8>) -> int {
    let n = b.len() as int;
    if n >= 1 && ((9 <= b[0] && b[0] <= 13) || b[0] == 32) {
        1
    } else if n >= 2 && b[0] == 0xC2 && (b[1] == 0x85 || b[1] == 0xA0) {
        2
    } else if n >= 3 && ((b[0] == 0xE1 && b[1] == 0x9A && b[2] == 0x80) || (b[0] == 0xE2 && b[1]
        == 0x80 && ((0x80 <= b[2] && b[2] <= 0x8A) || b[2] == 0xA8 || b[2] == 0xA9 || b[2] == 0xAF))
        || (b[0] == 0xE2 && b[1] == 0x81 && b[2] == 0x9F) || (b[0] == 0xE3 && b[1] == 0x80 && b[2]
        == 0x80)) {
        3
    } else {
        0
    }
}

/// `b` without its leading white space.
pub open spec fn trim_start(b: Seq<u8>) -> Seq<u8>
    decreases b.len(),
{
    if ws_prefix_len(b) > 0 {
        trim_start(b.subrange(ws_prefix_len(b), b.len() as int))
    } else {
        b
    }
}

/// How many leading bytes of `b` are white space.
pub fn leading_space_len(b: &[u8]) -> (r: usize)
    ensures
        r <= b@.len(),
        trim_start(b@) == b@.subrange(r as int, b@.len() as int),
{
    let mut n: usize = 0;
    let len = b.len();
    assert(b@.subrange(0, len as int) =~= b@);
    loop
        invariant
            n <= len,
            len == b@.len(),
            trim_start(b@) == trim_start(b@.subrange(n as int, len as int)),
        ensures
            n <= len,
            trim_start(b@) == b@.subrange(n as int, len as int),
        decreases len - n,
    {
        let ghost s = b@.subrange(n as int, len as int);
        let m = len - n;
        let k: usize = if m >= 1 && ((9 <= b[n] && b[n] <= 13) || b[n] == 32) {
            1
        } else if m >= 2 && b[n] == 0xC2 && (b[n + 1] == 0x85 || b[n + 1] == 0xA0) {
            2
        } else if m >= 3 && ((b[n] == 0xE1 && b[n + 1] == 0x9A && b[n + 2] == 0x80) || (b[n]
            == 0xE2 && b[n + 1] == 0x80 && ((0x80 <= b[n + 2] && b[n + 2] <= 0x8A) || b[n + 2]
            == 0xA8 || b[n + 2] == 0xA9 || b[n + 2] == 0xAF)) || (b[n] == 0xE2 && b[n + 1] == 0x81
            && b[n + 2] == 0x9F) || (b[n] == 0xE3 && b[n + 1] == 0x80 && b[n + 2] == 0x80)) {
            3
        } else {
            0
        };
        assert(k == ws_prefix_len(s));
        if k == 0 {
            break;
        }
        assert(s.subrange(k as int, s.len() as int) =~= b@.subrange(n + k, len as int));
        n = n + k;
    }
    n
}

} // verus!
