//! Byte classes used by the FTL grammar.
use vstd::prelude::*;

verus! {

pub const LF: u8 = 10;
pub const CR: u8 = 13;
pub const SPACE: u8 = 32;
pub const QUOTE: u8 = 34;
pub const HASH: u8 = 35;
pub const DOLLAR: u8 = 36;
pub const OPEN_PAREN: u8 = 40;
pub const CLOSE_PAREN: u8 = 41;
pub const ASTERISK: u8 = 42;
pub const COMMA: u8 = 44;
pub const MINUS: u8 = 45;
pub const DOT: u8 = 46;
pub const COLON: u8 = 58;
pub const EQUALS: u8 = 61;
pub const GREATER: u8 = 62;
pub const OPEN_BRACKET: u8 = 91;
pub const BACKSLASH: u8 = 92;
pub const CLOSE_BRACKET: u8 = 93;
pub const UNDERSCORE: u8 = 95;
pub const OPEN_BRACE: u8 = 123;
pub const CLOSE_BRACE: u8 = 125;
pub const LOWER_U: u8 = 117;
pub const UPPER_U: u8 = 85;

/// `a-z` or `A-Z`.
pub open spec fn is_alpha(b: u8) -> bool {
    (97 <= b && b <= 122) || (65 <= b && b <= 90)
}

/// `0-9`.
pub open spec fn is_digit(b: u8) -> bool {
    48 <= b && b <= 57
}

/// `0-9`, `a-f` or `A-F`.
pub open spec fn is_hex_digit(b: u8) -> bool {
    is_digit(b) || (97 <= b && b <= 102) || (65 <= b && b <= 70)
}

/// `A-Z`.
pub open spec fn is_upper(b: u8) -> bool {
    65 <= b && b <= 90
}

/// A byte that may continue an identifier: a letter, a digit, `_` or `-`.
pub open spec fn is_ident_char(b: u8) -> bool {
    is_alpha(b) || is_digit(b) || b == UNDERSCORE || b == MINUS
}

/// A byte allowed in the name of a function: an upper-case letter, a digit, `_` or `-`.
pub open spec fn is_callee_char(b: u8) -> bool {
    is_upper(b) || is_digit(b) || b == UNDERSCORE || b == MINUS
}

pub fn alpha(b: u8) -> (r: bool)
    ensures
        r == is_alpha(b),
{
    (97 <= b && b <= 122) || (65 <= b && b <= 90)
}

pub fn digit(b: u8) -> (r: bool)
    ensures
        r == is_digit(b),
{
    48 <= b && b <= 57
}

pub fn hex_digit(b: u8) -> (r: bool)
    ensures
        r == is_hex_digit(b),
{
    (48 <= b && b <= 57) || (97 <= b && b <= 102) || (65 <= b && b <= 70)
}

pub fn ident_char(b: u8) -> (r: bool)
    ensures
        r == is_ident_char(b),
{
    alpha(b) || digit(b) || b == UNDERSCORE || b == MINUS
}

pub fn callee_char(b: u8) -> (r: bool)
    ensures
        r == is_callee_char(b),
{
    (65 <= b && b <= 90) || digit(b) || b == UNDERSCORE || b == MINUS
}

/// The byte at `p`, if `p` is inside `src`.
pub open spec fn byte_at(src: Seq<u8>, p: int) -> Option<u8> {
    if 0 <= p < src.len() {
        Some(src[p])
    } else {
        None
    }
}

/// Classes of bytes that the grammar skips over in runs.
pub enum ByteClass {
    Space,
    SpaceOrLf,
    Digit,
    HexDigit,
    IdentChar,
    Hash,
}

pub open spec fn in_class(c: ByteClass, b: u8) -> bool {
    match c {
        ByteClass::Space => b == SPACE,
        ByteClass::SpaceOrLf => b == SPACE || b == LF,
        ByteClass::Digit => is_digit(b),
        ByteClass::HexDigit => is_hex_digit(b),
        ByteClass::IdentChar => is_ident_char(b),
        ByteClass::Hash => b == HASH,
    }
}

/// The end of the longest run of bytes of class `c` that starts at `p`.
pub open spec fn span_while(src: Seq<u8>, p: int, c: ByteClass) -> int
    decreases src.len() - p,
{
    if 0 <= p < src.len() && in_class(c, src[p]) {
        span_while(src, p + 1, c)
    } else {
        p
    }
}

pub proof fn lemma_span_while(src: Seq<u8>, p: int, c: ByteClass)
    requires
        0 <= p,
    ensures
        p <= span_while(src, p, c),
        p <= src.len() ==> span_while(src, p, c) <= src.len(),
        forall|i: int| p <= i < span_while(src, p, c) ==> in_class(c, #[trigger] src[i]),
        span_while(src, p, c) < src.len() ==> !in_class(c, src[span_while(src, p, c)]),
    decreases src.len() - p,
{
    if 0 <= p < src.len() && in_class(c, src[p]) {
        lemma_span_while(src, p + 1, c);
    }
}

/// A run may be entered in its middle: skipping bytes of the class first does not
/// change where it ends.
pub proof fn lemma_span_while_from(src: Seq<u8>, p: int, q: int, c: ByteClass)
    requires
        0 <= p <= q <= src.len(),
        forall|i: int| p <= i < q ==> in_class(c, #[trigger] src[i]),
    ensures
        span_while(src, p, c) == span_while(src, q, c),
    decreases q - p,
{
    if p < q {
        lemma_span_while_from(src, p + 1, q, c);
    }
}

} // verus!
