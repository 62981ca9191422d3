//! The FTL grammar as the parser reads it: for each step of the parser, what it
//! yields for a source and a starting position, and where it stops.
use super::ftlstream::{blank_block, eol_len, is_entry_boundary};
use crate::ascii::{
    byte_at, is_alpha, is_callee_char, is_digit, span_while, ByteClass, ASTERISK, CLOSE_BRACE,
    CLOSE_BRACKET, CLOSE_PAREN, COLON, COMMA, CR, DOLLAR, DOT, EQUALS, GREATER, HASH, LF, MINUS,
    OPEN_BRACE, OPEN_BRACKET, OPEN_PAREN, QUOTE, SPACE, BACKSLASH, LOWER_U, UPPER_U,
};
use crate::model;
use crate::model::{
    CallArguments, Entry, Error, ErrorKind, Expression, InlineExpression, NamedArgument, Pattern,
    PatternElement, Variant, VariantKey,
};
use crate::text::trim_end;
use vstd::prelude::*;

verus! {

/// How a text element ends.
#[derive(Clone, Copy, Debug, PartialEq, Eq, Structural)]
pub enum TextElementTermination {
    LineFeed,
    Crlf,
    PlaceableStart,
    Eof,
}

/// Where a text element stands in its pattern; this decides how it is dedented.
#[derive(Clone, Copy, Debug, PartialEq, Eq, Structural)]
pub enum TextElementPosition {
    InitialLineStart,
    LineStart,
    Continuation,
}

/// Whether a text element holds anything but spaces.
#[derive(Clone, Copy, Debug, PartialEq, Eq, Structural)]
pub enum TextElementType {
    Blank,
    NonBlank,
}

/// A pattern element before dedentation: a placeable, or the range, indent and
/// position of a text element.
pub enum Placeholder {
    Placeable(Expression),
    Text(int, int, int, TextElementPosition),
}

/// Where a step stops and what it yields, or the error it reports and where it stopped.
pub type PResult<T> = Result<(T, int), (Error, int)>;

/// An error at the byte `at`, reported with the cursor at `at`.
pub open spec fn err_at(kind: ErrorKind, at: int) -> (Error, int) {
    (Error { pos: (at, at + 1), slice: None, kind }, at)
}

pub open spec fn fail<T>(kind: ErrorKind, at: int) -> PResult<T> {
    Err(err_at(kind, at))
}

/// A step that moved forward without leaving the source.
pub open spec fn advances(src: Seq<u8>, p: int, q: int) -> bool {
    p < q <= src.len()
}

/// A step that did not move backward nor leave the source.
pub open spec fn stays(src: Seq<u8>, p: int, q: int) -> bool {
    p <= q <= src.len()
}

pub open spec fn is_byte(src: Seq<u8>, p: int, b: u8) -> bool {
    byte_at(src, p) == Some(b)
}

/// `a-zA-Z`, the range an identifier starts with.
pub open spec fn alpha_range() -> Seq<char> {
    seq!['a', '-', 'z', 'A', '-', 'Z']
}

/// `0-9`.
pub open spec fn digit_range() -> Seq<char> {
    seq!['0', '-', '9']
}

/// `\n | \r\n`, the line endings a selector's arrow is followed by.
pub open spec fn eol_range() -> Seq<char> {
    seq!['\n', ' ', '|', ' ', '\r', '\n']
}

/// Skips spaces, line feeds and `\r\n` pairs.
pub open spec fn blank_end(src: Seq<u8>, p: int) -> int
    decreases src.len() - p,
{
    if is_byte(src, p, SPACE) || is_byte(src, p, LF) {
        blank_end(src, p + 1)
    } else if is_byte(src, p, CR) && is_byte(src, p + 1, LF) {
        blank_end(src, p + 2)
    } else {
        p
    }
}

pub proof fn lemma_blank_end(src: Seq<u8>, p: int)
    requires
        0 <= p <= src.len(),
    ensures
        p <= blank_end(src, p) <= src.len(),
    decreases src.len() - p,
{
    if is_byte(src, p, SPACE) || is_byte(src, p, LF) {
        lemma_blank_end(src, p + 1);
    } else if is_byte(src, p, CR) && is_byte(src, p + 1, LF) {
        lemma_blank_end(src, p + 2);
    }
}

pub open spec fn spaces_end(src: Seq<u8>, p: int) -> int {
    span_while(src, p, ByteClass::Space)
}

/// The first place at or after `p` where an entry may start.
pub open spec fn next_entry_start(src: Seq<u8>, p: int) -> int
    decreases src.len() - p,
{
    if p < src.len() && !is_entry_boundary(src, p) {
        next_entry_start(src, p + 1)
    } else {
        p
    }
}

/// An identifier: a letter followed by letters, digits, `_` and `-`.
pub open spec fn identifier(src: Seq<u8>, p: int) -> PResult<Seq<u8>> {
    match byte_at(src, p) {
        Some(b) if is_alpha(b) => {
            let e = span_while(src, p + 1, ByteClass::IdentChar);
            Ok((src.subrange(p, e), e))
        },
        _ => fail(ErrorKind::ExpectedCharRange(alpha_range()), p),
    }
}

/// An optional `-`, digits, and optionally `.` and more digits.
pub open spec fn number_literal(src: Seq<u8>, p: int) -> PResult<Seq<u8>> {
    let q = if is_byte(src, p, MINUS) {
        p + 1
    } else {
        p
    };
    let d = span_while(src, q, ByteClass::Digit);
    if d == q {
        fail(ErrorKind::ExpectedCharRange(digit_range()), q)
    } else if is_byte(src, d, DOT) {
        let d2 = span_while(src, d + 1, ByteClass::Digit);
        if d2 == d + 1 {
            fail(ErrorKind::ExpectedCharRange(digit_range()), d + 1)
        } else {
            Ok((src.subrange(p, d2), d2))
        }
    } else {
        Ok((src.subrange(p, d), d))
    }
}

pub open spec fn is_number_start(src: Seq<u8>, p: int) -> bool {
    match byte_at(src, p) {
        Some(b) => b == MINUS || is_digit(b),
        None => false,
    }
}

/// `[key]`, where the key is a number literal or an identifier.
pub open spec fn variant_key(src: Seq<u8>, p: int) -> PResult<VariantKey> {
    if !is_byte(src, p, OPEN_BRACKET) {
        fail(ErrorKind::ExpectedToken(OPEN_BRACKET), p)
    } else {
        let q = blank_end(src, p + 1);
        let k: PResult<VariantKey> = if is_number_start(src, q) {
            match number_literal(src, q) {
                Ok((v, r)) => Ok((VariantKey::NumberLiteral(v), r)),
                Err(e) => Err(e),
            }
        } else {
            match identifier(src, q) {
                Ok((v, r)) => Ok((VariantKey::Identifier(v), r)),
                Err(e) => Err(e),
            }
        };
        match k {
            Ok((key, r)) => {
                let s = blank_end(src, r);
                if is_byte(src, s, CLOSE_BRACKET) {
                    Ok((key, s + 1))
                } else {
                    fail(ErrorKind::ExpectedToken(CLOSE_BRACKET), s)
                }
            },
            Err(e) => Err(e),
        }
    }
}

/// The hex digits of a unicode escape, which must number `length`; yields where they end.
pub open spec fn unicode_escape(src: Seq<u8>, p: int, length: int) -> Result<int, (Error, int)> {
    let q = span_while(src, p, ByteClass::HexDigit);
    let end = if q < p + length {
        q
    } else {
        p + length
    };
    if end == p + length {
        Ok(end)
    } else {
        let last = if end >= src.len() {
            end
        } else {
            end + 1
        };
        Err(
            (
                Error {
                    pos: (end, end + 1),
                    slice: None,
                    kind: ErrorKind::InvalidUnicodeEscapeSequence(src.subrange(p, last)),
                },
                end,
            ),
        )
    }
}

/// The body of a string literal from `p`: yields where it stops, at the closing quote
/// or at the end of the source.
pub open spec fn string_body(src: Seq<u8>, p: int) -> Result<int, (Error, int)>
    decreases src.len() - p,
{
    if p < 0 || p >= src.len() {
        Ok(p)
    } else if src[p] == BACKSLASH {
        match byte_at(src, p + 1) {
            Some(b) if b == BACKSLASH || b == OPEN_BRACE || b == QUOTE => string_body(src, p + 2),
            Some(b) if b == LOWER_U || b == UPPER_U => {
                let n = if b == LOWER_U {
                    4
                } else {
                    6
                };
                match unicode_escape(src, p + 2, n) {
                    Ok(q) => if p < q <= src.len() {
                        string_body(src, q)
                    } else {
                        Ok(p)
                    },
                    Err(e) => Err(e),
                }
            },
            _ => Err(err_at(ErrorKind::Generic, p)),
        }
    } else if src[p] == QUOTE {
        Ok(p)
    } else if src[p] == LF {
        Err(err_at(ErrorKind::Generic, p))
    } else {
        string_body(src, p + 1)
    }
}

/// An optional `.attribute` after a reference.
pub open spec fn attribute_accessor(src: Seq<u8>, p: int) -> PResult<Option<Seq<u8>>> {
    if is_byte(src, p, DOT) {
        match identifier(src, p + 1) {
            Ok((id, q)) => Ok((Some(id), q)),
            Err(e) => Err(e),
        }
    } else {
        Ok((None, p))
    }
}

/// A selector that may not stand before `->`, and the error that says so.
pub open spec fn selector_error(e: InlineExpression) -> Option<ErrorKind> {
    match e {
        InlineExpression::MessageReference { attribute, .. } => if attribute is None {
            Some(ErrorKind::MessageReferenceAsSelector)
        } else {
            Some(ErrorKind::MessageAttributeAsSelector)
        },
        InlineExpression::TermReference { attribute, .. } => if attribute is None {
            Some(ErrorKind::TermReferenceAsSelector)
        } else {
            None
        },
        InlineExpression::Placeable(_) => Some(ErrorKind::ExpectedSimpleExpressionAsSelector),
        _ => None,
    }
}

pub open spec fn is_term_attribute(e: InlineExpression) -> bool {
    e matches InlineExpression::TermReference { attribute: Some(_), .. }
}

/// A placeable: `{`, an expression, `}`.
pub open spec fn placeable(src: Seq<u8>, p: int) -> PResult<Expression>
    decreases src.len() - p, 0int,
{
    if !is_byte(src, p, OPEN_BRACE) {
        fail(ErrorKind::ExpectedToken(OPEN_BRACE), p)
    } else {
        let q = blank_end(src, p + 1);
        if !advances(src, p, q) {
            fail(ErrorKind::Generic, p)
        } else {
            match expression(src, q) {
                Ok((exp, q1)) => {
                    let q2 = spaces_end(src, q1);
                    if !is_byte(src, q2, CLOSE_BRACE) {
                        fail(ErrorKind::ExpectedToken(CLOSE_BRACE), q2)
                    } else if exp matches Expression::Inline(i) && is_term_attribute(i) {
                        fail(ErrorKind::TermAttributeAsPlaceable, q2 + 1)
                    } else {
                        Ok((exp, q2 + 1))
                    }
                },
                Err(e) => Err(e),
            }
        }
    }
}

/// An inline expression, or a select expression: a selector, `->`, a line end and variants.
pub open spec fn expression(src: Seq<u8>, p: int) -> PResult<Expression>
    decreases src.len() - p, 2int,
{
    match inline_expression(src, p) {
        Ok((exp, q1)) => if !stays(src, p, q1) {
            fail(ErrorKind::Generic, p)
        } else {
            let q2 = blank_end(src, q1);
            if !(is_byte(src, q2, MINUS) && is_byte(src, q2 + 1, GREATER)) {
                if is_term_attribute(exp) {
                    fail(ErrorKind::TermAttributeAsPlaceable, q2)
                } else {
                    Ok((Expression::Inline(exp), q2))
                }
            } else if selector_error(exp) is Some {
                fail(selector_error(exp).unwrap(), q2)
            } else {
                let q4 = spaces_end(src, q2 + 2);
                if eol_len(src, q4) == 0 {
                    fail(ErrorKind::ExpectedCharRange(eol_range()), q4)
                } else {
                    let q5 = blank_end(src, q4 + eol_len(src, q4));
                    if !advances(src, p, q5) {
                        fail(ErrorKind::Generic, p)
                    } else {
                        match variants_from(src, q5, Seq::empty(), false) {
                            Ok((vs, q6)) => Ok(
                                (Expression::Select { selector: exp, variants: vs }, q6),
                            ),
                            Err(e) => Err(e),
                        }
                    }
                }
            }
        },
        Err(e) => Err(e),
    }
}

/// The variants of a select expression from `q`, after those already read.
pub open spec fn variants_from(src: Seq<u8>, q: int, acc: Seq<Variant>, has_default: bool) -> PResult<
    Seq<Variant>,
>
    decreases src.len() - q, 1int,
{
    if is_byte(src, q, ASTERISK) || is_byte(src, q, OPEN_BRACKET) {
        let default = is_byte(src, q, ASTERISK);
        let q1 = if default {
            q + 1
        } else {
            q
        };
        if default && has_default {
            fail(ErrorKind::MultipleDefaultVariants, q1)
        } else {
            match variant_key(src, q1) {
                Ok((key, q2)) => if !advances(src, q, q2) {
                    fail(ErrorKind::Generic, q)
                } else {
                    match pattern(src, q2) {
                        Ok((Some(value), q3)) => {
                            let q4 = blank_end(src, q3);
                            if !advances(src, q, q4) {
                                fail(ErrorKind::Generic, q)
                            } else {
                                variants_from(
                                    src,
                                    q4,
                                    acc.push(Variant { key, value, default }),
                                    has_default || default,
                                )
                            }
                        },
                        Ok((None, q3)) => fail(ErrorKind::MissingValue, q3),
                        Err(e) => Err(e),
                    }
                },
                Err(e) => Err(e),
            }
        }
    } else if !has_default {
        fail(ErrorKind::MissingDefaultVariant, q)
    } else {
        Ok((acc, q))
    }
}

/// An inline expression: a string or number literal, a reference, or a nested placeable.
pub open spec fn inline_expression(src: Seq<u8>, p: int) -> PResult<InlineExpression>
    decreases src.len() - p, 1int,
{
    match byte_at(src, p) {
        Some(b) if b == QUOTE => match string_body(src, p + 1) {
            Ok(c) => if is_byte(src, c, QUOTE) {
                Ok((InlineExpression::StringLiteral(src.subrange(p + 1, c)), c + 1))
            } else {
                fail(ErrorKind::ExpectedToken(QUOTE), c)
            },
            Err(e) => Err(e),
        },
        Some(b) if is_digit(b) => match number_literal(src, p) {
            Ok((v, q)) => Ok((InlineExpression::NumberLiteral(v), q)),
            Err(e) => Err(e),
        },
        Some(b) if b == MINUS => if byte_at(src, p + 1) matches Some(c) && is_alpha(c) {
            match identifier(src, p + 1) {
                Ok((id, q1)) => match attribute_accessor(src, q1) {
                    Ok((attribute, q2)) => if !advances(src, p, q2) {
                        fail(ErrorKind::Generic, p)
                    } else {
                        match call_arguments(src, q2) {
                            Ok((arguments, q3)) => Ok(
                                (InlineExpression::TermReference { id, attribute, arguments }, q3),
                            ),
                            Err(e) => Err(e),
                        }
                    },
                    Err(e) => Err(e),
                },
                Err(e) => Err(e),
            }
        } else {
            match number_literal(src, p) {
                Ok((v, q)) => Ok((InlineExpression::NumberLiteral(v), q)),
                Err(e) => Err(e),
            }
        },
        Some(b) if b == DOLLAR => match identifier(src, p + 1) {
            Ok((id, q)) => Ok((InlineExpression::VariableReference(id), q)),
            Err(e) => Err(e),
        },
        Some(b) if is_alpha(b) => match identifier(src, p) {
            Ok((id, q1)) => if !advances(src, p, q1) {
                fail(ErrorKind::Generic, p)
            } else {
                match call_arguments(src, q1) {
                    Ok((Some(args), q2)) => if forall|i: int|
                        0 <= i < id.len() ==> is_callee_char(#[trigger] id[i]) {
                        Ok(
                            (
                                InlineExpression::FunctionReference { id, arguments: Some(args) },
                                q2,
                            ),
                        )
                    } else {
                        fail(ErrorKind::ForbiddenCallee, q2)
                    },
                    Ok((None, q2)) => match attribute_accessor(src, q2) {
                        Ok((attribute, q3)) => Ok(
                            (InlineExpression::MessageReference { id, attribute }, q3),
                        ),
                        Err(e) => Err(e),
                    },
                    Err(e) => Err(e),
                }
            },
            Err(e) => Err(e),
        },
        Some(b) if b == OPEN_BRACE => match placeable(src, p) {
            Ok((exp, q)) => Ok((InlineExpression::Placeable(Box::new(exp)), q)),
            Err(e) => Err(e),
        },
        _ => fail(ErrorKind::ExpectedInlineExpression, p),
    }
}

/// Optional call arguments: `(`, positional then named arguments, `)`.
pub open spec fn call_arguments(src: Seq<u8>, p: int) -> PResult<Option<CallArguments>>
    decreases src.len() - p, 0int,
{
    let q = blank_end(src, p);
    if !is_byte(src, q, OPEN_PAREN) {
        Ok((None, q))
    } else {
        let r = blank_end(src, q + 1);
        if !advances(src, p, r) {
            fail(ErrorKind::Generic, p)
        } else {
            arguments_from(src, r, Seq::empty(), Seq::empty(), Seq::empty())
        }
    }
}

/// The arguments of a call from `q`, after those already read; `names` are the names
/// of the named ones.
pub open spec fn arguments_from(
    src: Seq<u8>,
    q: int,
    positional: Seq<InlineExpression>,
    named: Seq<NamedArgument>,
    names: Seq<Seq<u8>>,
) -> PResult<Option<CallArguments>>
    decreases src.len() - q, 2int,
{
    if q < src.len() && src[q] != CLOSE_PAREN {
        match inline_expression(src, q) {
            Ok((exp, q1)) => if !stays(src, q, q1) {
                fail(ErrorKind::Generic, q)
            } else {
                let step: Result<(Seq<InlineExpression>, Seq<NamedArgument>, Seq<Seq<u8>>, int), (Error, int)> =
                    match exp {
                    InlineExpression::MessageReference { id, attribute: None } => {
                        let q2 = blank_end(src, q1);
                        if is_byte(src, q2, COLON) {
                            if names.contains(id) {
                                Err((Error { pos: (q2, q2 + 1), slice: None, kind: ErrorKind::DuplicatedNamedArgument(id) }, q2))
                            } else {
                                let q3 = blank_end(src, q2 + 1);
                                if !advances(src, q, q3) {
                                    Err((Error { pos: (q, q + 1), slice: None, kind: ErrorKind::Generic }, q))
                                } else {
                                    match inline_expression(src, q3) {
                                        Ok((value, q4)) => Ok(
                                            (
                                                positional,
                                                named.push(NamedArgument { name: id, value }),
                                                names.push(id),
                                                q4,
                                            ),
                                        ),
                                        Err(e) => Err(e),
                                    }
                                }
                            }
                        } else if names.len() > 0 {
                            Err((Error { pos: (q2, q2 + 1), slice: None, kind: ErrorKind::PositionalArgumentFollowsNamed }, q2))
                        } else {
                            Ok((positional.push(exp), named, names, q2))
                        }
                    },
                    _ => if names.len() > 0 {
                        Err((Error { pos: (q1, q1 + 1), slice: None, kind: ErrorKind::PositionalArgumentFollowsNamed }, q1))
                    } else {
                        Ok((positional.push(exp), named, names, q1))
                    },
                };
                match step {
                    Ok((ps, ns, nms, next)) => {
                        let n1 = blank_end(src, next);
                        let n2 = if is_byte(src, n1, COMMA) {
                            n1 + 1
                        } else {
                            n1
                        };
                        let n3 = blank_end(src, n2);
                        if !advances(src, q, n3) {
                            fail(ErrorKind::Generic, q)
                        } else {
                            arguments_from(src, n3, ps, ns, nms)
                        }
                    },
                    Err(e) => Err(e),
                }
            },
            Err(e) => Err(e),
        }
    } else if is_byte(src, q, CLOSE_PAREN) {
        Ok((Some(CallArguments { positional, named }), q + 1))
    } else {
        fail(ErrorKind::ExpectedToken(CLOSE_PAREN), q)
    }
}

/// The first `\n`, `{` or `}` at or after `q`, or the end of the source.
pub open spec fn text_delimiter(src: Seq<u8>, q: int) -> int
    decreases src.len() - q,
{
    if 0 <= q < src.len() && src[q] != LF && src[q] != OPEN_BRACE && src[q] != CLOSE_BRACE {
        text_delimiter(src, q + 1)
    } else {
        q
    }
}

pub open spec fn text_type(t: Seq<u8>) -> TextElementType {
    if exists|i: int| 0 <= i < t.len() && t[i] != SPACE {
        TextElementType::NonBlank
    } else {
        TextElementType::Blank
    }
}

/// A run of text from `q`: its start and end, its type, how it ends, and where the
/// cursor stops.
pub open spec fn text_slice(src: Seq<u8>, q: int) -> Result<
    (int, int, TextElementType, TextElementTermination, int),
    (Error, int),
> {
    let i = text_delimiter(src, q);
    if i >= src.len() {
        Ok((q, src.len() as int, text_type(src.subrange(q, src.len() as int)), TextElementTermination::Eof, src.len() as int))
    } else if src[i] == CLOSE_BRACE {
        Err(err_at(ErrorKind::UnbalancedClosingBrace, i))
    } else if src[i] == LF && i > q && src[i - 1] == CR {
        Ok((q, i - 1, text_type(src.subrange(q, i - 1)), TextElementTermination::Crlf, i))
    } else if src[i] == LF {
        Ok((q, i + 1, text_type(src.subrange(q, i)), TextElementTermination::LineFeed, i + 1))
    } else {
        Ok((q, i, text_type(src.subrange(q, i)), TextElementTermination::PlaceableStart, i))
    }
}

pub open spec fn is_pattern_continuation(b: u8) -> bool {
    b != CLOSE_BRACE && b != DOT && b != OPEN_BRACKET && b != ASTERISK
}

/// The state of a pattern being read: its elements so far, the index of the last
/// non-blank one, the smallest indent of its indented lines, and where the next
/// element stands.
pub struct PatternState {
    pub elements: Seq<Placeholder>,
    pub last_non_blank: Option<int>,
    pub common_indent: Option<int>,
    pub role: TextElementPosition,
}

/// Reads the elements of a pattern from `q`; yields the final state and where it stops.
pub open spec fn pattern_from(src: Seq<u8>, q: int, st: PatternState) -> PResult<PatternState>
    decreases src.len() - q, 1int,
{
    if q < 0 || q >= src.len() {
        Ok((st, q))
    } else if src[q] == OPEN_BRACE {
        let ci = if st.role is LineStart {
            Some(0int)
        } else {
            st.common_indent
        };
        match placeable(src, q) {
            Ok((exp, q1)) => if !advances(src, q, q1) {
                fail(ErrorKind::Generic, q)
            } else {
                pattern_from(
                    src,
                    q1,
                    PatternState {
                        elements: st.elements.push(Placeholder::Placeable(exp)),
                        last_non_blank: Some(st.elements.len() as int),
                        common_indent: ci,
                        role: TextElementPosition::Continuation,
                    },
                )
            },
            Err(e) => Err(e),
        }
    } else {
        let at_line_start = st.role is LineStart;
        let q1 = if at_line_start {
            spaces_end(src, q)
        } else {
            q
        };
        let indent = q1 - q;
        if at_line_start && q1 >= src.len() {
            Ok((st, q1))
        } else if at_line_start && indent == 0 && src[q1] != LF {
            Ok((st, q1))
        } else if at_line_start && indent != 0 && !is_pattern_continuation(src[q1]) {
            Ok((st, q))
        } else {
            match text_slice(src, q1) {
                Ok((start, end, ty, term, next)) => {
                    let nonblank = ty is NonBlank;
                    let ci = if start != end && at_line_start && nonblank {
                        match st.common_indent {
                            Some(c) => if indent < c {
                                Some(indent)
                            } else {
                                Some(c)
                            },
                            None => Some(indent),
                        }
                    } else {
                        st.common_indent
                    };
                    let keep = start != end && (!at_line_start || nonblank || term is LineFeed);
                    let els = if keep {
                        st.elements.push(Placeholder::Text(q, end, indent, st.role))
                    } else {
                        st.elements
                    };
                    let lnb = if keep && nonblank {
                        Some(st.elements.len() as int)
                    } else {
                        st.last_non_blank
                    };
                    let role = match term {
                        TextElementTermination::LineFeed => TextElementPosition::LineStart,
                        TextElementTermination::Crlf => TextElementPosition::LineStart,
                        TextElementTermination::PlaceableStart => TextElementPosition::Continuation,
                        TextElementTermination::Eof => TextElementPosition::Continuation,
                    };
                    if !advances(src, q, next) {
                        fail(ErrorKind::Generic, q)
                    } else {
                        pattern_from(
                            src,
                            next,
                            PatternState {
                                elements: els,
                                last_non_blank: lnb,
                                common_indent: ci,
                                role,
                            },
                        )
                    }
                },
                Err(e) => Err(e),
            }
        }
    }
}

/// The element a placeholder becomes once the pattern's common indent is known;
/// the last element also loses its trailing white space.
pub open spec fn finish_element(src: Seq<u8>, ph: Placeholder, common_indent: Option<int>, last: bool) -> PatternElement {
    match ph {
        Placeholder::Placeable(e) => PatternElement::Placeable(e),
        Placeholder::Text(start, end, indent, role) => {
            let s = if role is LineStart {
                match common_indent {
                    Some(c) => start + if indent < c {
                        indent
                    } else {
                        c
                    },
                    None => start + indent,
                }
            } else {
                start
            };
            let value = src.subrange(s, end);
            PatternElement::Text(
                if last {
                    trim_end(value)
                } else {
                    value
                },
            )
        },
    }
}

/// The elements of a pattern, up to its last non-blank one.
pub open spec fn finish_pattern(src: Seq<u8>, st: PatternState, last: int) -> Seq<PatternElement> {
    Seq::new(
        (last + 1) as nat,
        |k: int| finish_element(src, st.elements[k], st.common_indent, k == last),
    )
}

/// A pattern: the value of a message, term, attribute or variant. Yields `None` where
/// there is no value.
pub open spec fn pattern(src: Seq<u8>, p: int) -> PResult<Option<Pattern>>
    decreases src.len() - p, 2int,
{
    let q0 = spaces_end(src, p);
    let (q1, role) = if eol_len(src, q0) > 0 {
        (blank_block(src, q0 + eol_len(src, q0)).1, TextElementPosition::LineStart)
    } else {
        (q0, TextElementPosition::InitialLineStart)
    };
    if !stays(src, p, q1) {
        fail(ErrorKind::Generic, p)
    } else {
        let st0 = PatternState {
            elements: Seq::empty(),
            last_non_blank: None,
            common_indent: None,
            role,
        };
        match pattern_from(src, q1, st0) {
            Ok((st, end)) => match st.last_non_blank {
                Some(last) => Ok(
                    (Some(Pattern { elements: finish_pattern(src, st, last) }), end),
                ),
                None => Ok((None, end)),
            },
            Err(e) => Err(e),
        }
    }
}

/// Where the comment line starting at `q` ends: at the next line ending or at the
/// end of the source.
pub open spec fn line_end(src: Seq<u8>, q: int) -> int
    decreases src.len() - q,
{
    if 0 <= q < src.len() && eol_len(src, q) == 0 {
        line_end(src, q + 1)
    } else {
        q
    }
}

/// Reads the lines of a comment from `q`; yields its lines, its level (the number of
/// `#`), and where it stops.
pub open spec fn comment_from(src: Seq<u8>, q: int, level: Option<int>, content: Seq<Seq<u8>>) -> Result<
    (Seq<Seq<u8>>, Option<int>, int),
    (Error, int),
>
    decreases src.len() - q,
{
    if q < 0 || q >= src.len() {
        Ok((content, level, q))
    } else {
        let q1 = span_while(src, q, ByteClass::Hash);
        let ll = q1 - q;
        if ll == 0 {
            Ok((content, level, q - 1))
        } else if level matches Some(l) && l != ll {
            Ok((content, level, q))
        } else if q1 >= src.len() {
            Ok((content, Some(ll), q1))
        } else {
            let start = if src[q1] == LF {
                Some(q1)
            } else if src[q1] == SPACE {
                Some(q1 + 1)
            } else {
                None
            };
            match start {
                Some(s) => {
                    let e = line_end(src, s);
                    let q3 = e + eol_len(src, e);
                    if advances(src, q, q3) {
                        comment_from(src, q3, Some(ll), content.push(src.subrange(s, e)))
                    } else {
                        Ok((content, Some(ll), q))
                    }
                },
                None => if content.len() == 0 {
                    Err(err_at(ErrorKind::ExpectedToken(SPACE), q1))
                } else {
                    Ok((content, Some(ll), q))
                },
            }
        }
    }
}

/// A comment: its lines, its level, and where it stops.
pub open spec fn comment(src: Seq<u8>, p: int) -> PResult<(Seq<Seq<u8>>, int)> {
    match comment_from(src, p, None, Seq::empty()) {
        Ok((content, level, q)) => Ok(((content, level.unwrap()), q)),
        Err(e) => Err(e),
    }
}

/// An attribute: `.`, an identifier, `=` and a pattern.
pub open spec fn attribute(src: Seq<u8>, p: int) -> PResult<model::Attribute> {
    if !is_byte(src, p, DOT) {
        fail(ErrorKind::ExpectedToken(DOT), p)
    } else {
        match identifier(src, p + 1) {
            Ok((id, q1)) => {
                let q2 = spaces_end(src, q1);
                if !is_byte(src, q2, EQUALS) {
                    fail(ErrorKind::ExpectedToken(EQUALS), q2)
                } else {
                    match pattern(src, q2 + 1) {
                        Ok((Some(value), q3)) => Ok((model::Attribute { id, value }, q3)),
                        Ok((None, q3)) => fail(ErrorKind::MissingValue, q3),
                        Err(e) => Err(e),
                    }
                }
            },
            Err(e) => Err(e),
        }
    }
}

/// The attributes that follow, each on its own line; reading stops before the first
/// line that is not a valid attribute.
pub open spec fn attributes_from(src: Seq<u8>, q: int, acc: Seq<model::Attribute>) -> (Seq<model::Attribute>, int)
    decreases src.len() - q,
{
    let q1 = spaces_end(src, q);
    if !is_byte(src, q1, DOT) {
        (acc, q)
    } else {
        match attribute(src, q1) {
            Ok((a, q2)) => if advances(src, q, q2) {
                attributes_from(src, q2, acc.push(a))
            } else {
                (acc, q)
            },
            Err(_) => (acc, q),
        }
    }
}

/// A message: an identifier, `=`, an optional value and attributes; one of them must be there.
pub open spec fn message(src: Seq<u8>, p: int) -> PResult<model::Message> {
    match identifier(src, p) {
        Ok((id, q1)) => {
            let q2 = spaces_end(src, q1);
            if !is_byte(src, q2, EQUALS) {
                fail(ErrorKind::ExpectedToken(EQUALS), q2)
            } else {
                match pattern(src, q2 + 1) {
                    Ok((value, q3)) => {
                        let q4 = blank_block(src, q3).1;
                        let (attrs, q5) = attributes_from(src, q4, Seq::empty());
                        if value is None && attrs.len() == 0 {
                            Err(
                                (
                                    Error {
                                        pos: (p, q5),
                                        slice: None,
                                        kind: ErrorKind::ExpectedMessageField(id),
                                    },
                                    q5,
                                ),
                            )
                        } else {
                            Ok(
                                (
                                    model::Message { id, value, attributes: attrs, comment: None },
                                    q5,
                                ),
                            )
                        }
                    },
                    Err(e) => Err(e),
                }
            }
        },
        Err(e) => Err(e),
    }
}

/// A term: `-`, an identifier, `=`, a value and attributes.
pub open spec fn term(src: Seq<u8>, p: int) -> PResult<model::Term> {
    if !is_byte(src, p, MINUS) {
        fail(ErrorKind::ExpectedToken(MINUS), p)
    } else {
        match identifier(src, p + 1) {
            Ok((id, q1)) => {
                let q2 = spaces_end(src, q1);
                if !is_byte(src, q2, EQUALS) {
                    fail(ErrorKind::ExpectedToken(EQUALS), q2)
                } else {
                    let q3 = spaces_end(src, q2 + 1);
                    match pattern(src, q3) {
                        Ok((value, q4)) => {
                            let q5 = blank_block(src, q4).1;
                            let (attrs, q6) = attributes_from(src, q5, Seq::empty());
                            match value {
                                Some(v) => Ok(
                                    (
                                        model::Term {
                                            id,
                                            value: v,
                                            attributes: attrs,
                                            comment: None,
                                        },
                                        q6,
                                    ),
                                ),
                                None => Err(
                                    (
                                        Error {
                                            pos: (p, q6),
                                            slice: None,
                                            kind: ErrorKind::ExpectedTermField(id),
                                        },
                                        q6,
                                    ),
                                ),
                            }
                        },
                        Err(e) => Err(e),
                    }
                }
            },
            Err(e) => Err(e),
        }
    }
}

/// An entry: a comment, a term or a message, told apart by their first byte. A comment
/// of more than three `#` is an error at its start, and the cursor stays after it.
#[verifier::opaque]
pub open spec fn entry(src: Seq<u8>, p: int) -> Option<PResult<Entry>> {
    if is_byte(src, p, HASH) {
        match comment(src, p) {
            Ok(((content, level), q)) => if level == 1 {
                Some(Ok((Entry::Comment(content), q)))
            } else if level == 2 {
                Some(Ok((Entry::GroupComment(content), q)))
            } else if level == 3 {
                Some(Ok((Entry::ResourceComment(content), q)))
            } else {
                Some(Err((Error { pos: (p, p + 1), slice: None, kind: ErrorKind::Generic }, q)))
            },
            Err(e) => Some(Err(e)),
        }
    } else if is_byte(src, p, MINUS) {
        match term(src, p) {
            Ok((t, q)) => Some(Ok((Entry::Term(t), q))),
            Err(e) => Some(Err(e)),
        }
    } else {
        match message(src, p) {
            Ok((m, q)) => Some(Ok((Entry::Message(m), q))),
            Err(e) => Some(Err(e)),
        }
    }
}

/// Gives a comment to the message or term that follows it closely enough (fewer than
/// two blank lines between); otherwise the comment becomes an entry of its own.
pub open spec fn attach_comment(
    body: Seq<Entry>,
    comment: Option<Seq<Seq<u8>>>,
    blank_lines: int,
    r: PResult<Entry>,
) -> (Seq<Entry>, PResult<Entry>) {
    match comment {
        None => (body, r),
        Some(c) => match r {
            Ok((Entry::Message(m), q)) if blank_lines < 2 => (
                body,
                Ok((Entry::Message(model::Message { comment: Some(c), ..m }), q)),
            ),
            Ok((Entry::Term(t), q)) if blank_lines < 2 => (
                body,
                Ok((Entry::Term(model::Term { comment: Some(c), ..t }), q)),
            ),
            _ => (body.push(Entry::Comment(c)), r),
        },
    }
}

/// The state of the parse loop: the entries and errors so far, a comment waiting for
/// the entry it may belong to, and how many blank lines came before the next entry.
pub struct ParseState {
    pub body: Seq<Entry>,
    pub errors: Seq<Error>,
    pub last_comment: Option<Seq<Seq<u8>>>,
    pub last_blank_count: int,
}

/// The state once the entry starting at `p` is read, and where the next one starts;
/// an entry that fails to parse becomes junk up to the next entry start.
pub open spec fn parse_step(src: Seq<u8>, p: int, st: ParseState, r: PResult<Entry>) -> (ParseState, int) {
    let (body1, r1) = attach_comment(st.body, st.last_comment, st.last_blank_count, r);
    let (body2, errors2, comment2, q) = match r1 {
        Ok((Entry::Comment(c), q)) => (body1, st.errors, Some(c), q),
        Ok((e, q)) => (body1.push(e), st.errors, None, q),
        Err((err, eq)) => {
            let q = next_entry_start(src, eq);
            (
                body1.push(Entry::Junk(src.subrange(p, q))),
                st.errors.push(Error { slice: Some((p, q)), ..err }),
                None,
                q,
            )
        },
    };
    let (n, next) = blank_block(src, q);
    (ParseState { body: body2, errors: errors2, last_comment: comment2, last_blank_count: n }, next)
}

/// Reads entries from `p` to the end; yields the entries and the errors, or `None`
/// where a step would not move on (the parser shows that none ever does).
pub open spec fn parse_from(src: Seq<u8>, p: int, st: ParseState) -> Option<(Seq<Entry>, Seq<Error>)>
    decreases src.len() - p,
{
    if p < 0 || p >= src.len() {
        match st.last_comment {
            Some(c) => Some((st.body.push(Entry::Comment(c)), st.errors)),
            None => Some((st.body, st.errors)),
        }
    } else {
        match entry(src, p) {
            None => None,
            Some(r) => {
                let (st2, next) = parse_step(src, p, st, r);
                if advances(src, p, next) {
                    parse_from(src, next, st2)
                } else {
                    None
                }
            },
        }
    }
}

/// The state the parse loop starts in.
pub open spec fn initial_state() -> ParseState {
    ParseState { body: Seq::empty(), errors: Seq::empty(), last_comment: None, last_blank_count: 0 }
}

/// The entries and errors of the source read from `p`, or `None` where a step would
/// not move on.
pub open spec fn parse_at(src: Seq<u8>, p: int) -> Option<(Seq<Entry>, Seq<Error>)> {
    parse_from(src, blank_block(src, p).1, initial_state())
}

/// The entries and errors of a whole source, or `None` where a step would not move on.
pub open spec fn parse(src: Seq<u8>) -> Option<(Seq<Entry>, Seq<Error>)> {
    parse_at(src, 0)
}

/// One step of the parse loop: where the parse goes on from `p`, the entry there
/// is read and the loop goes on from where it stopped.
/// An entry can be read wherever the source has a byte left.
pub proof fn lemma_entry_some(src: Seq<u8>, p: int)
    requires
        0 <= p < src.len(),
    ensures
        entry(src, p) is Some,
{
    reveal(entry);
}

pub proof fn lemma_parse_from_step(src: Seq<u8>, p: int, st: ParseState)
    requires
        0 <= p < src.len(),
    ensures
        entry(src, p) is None ==> parse_from(src, p, st) is None,
        entry(src, p) is Some && !advances(src, p, parse_step(src, p, st, entry(src, p).unwrap()).1)
            ==> parse_from(src, p, st) is None,
        entry(src, p) is Some && advances(src, p, parse_step(src, p, st, entry(src, p).unwrap()).1)
            ==> parse_from(src, p, st) == parse_from(
            src,
            parse_step(src, p, st, entry(src, p).unwrap()).1,
            parse_step(src, p, st, entry(src, p).unwrap()).0,
        ),
{
}

pub proof fn lemma_next_entry_start(src: Seq<u8>, q: int)
    requires
        0 <= q <= src.len(),
    ensures
        q <= next_entry_start(src, q) <= src.len(),
    decreases src.len() - q,
{
    if q < src.len() && !is_entry_boundary(src, q) {
        lemma_next_entry_start(src, q + 1);
    }
}

pub proof fn lemma_text_delimiter(src: Seq<u8>, q: int, d: int)
    requires
        0 <= q <= d <= src.len(),
        forall|k: int| q <= k < d ==> src[k] != LF && src[k] != OPEN_BRACE && src[k] != CLOSE_BRACE,
        d == src.len() || src[d] == LF || src[d] == OPEN_BRACE || src[d] == CLOSE_BRACE,
    ensures
        text_delimiter(src, q) == d,
    decreases d - q,
{
    if q < d {
        lemma_text_delimiter(src, q + 1, d);
    }
}

pub proof fn lemma_line_end(src: Seq<u8>, q: int)
    requires
        0 <= q <= src.len(),
    ensures
        q <= line_end(src, q) <= src.len(),
        line_end(src, q) < src.len() ==> eol_len(src, line_end(src, q)) > 0,
    decreases src.len() - q,
{
    if q < src.len() && eol_len(src, q) == 0 {
        lemma_line_end(src, q + 1);
    }
}

} // verus!
