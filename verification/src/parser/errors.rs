//! Errors reported by the parser.
pub mod list;

use crate::text::{char_to_string, owned};
use vstd::prelude::*;
use vstd::string::StringExecFns;

verus! {

/// An error found while parsing, with the byte range it points at and, once the
/// parser has recovered, the range of the junk entry it belongs to.
#[derive(Debug, PartialEq)]
pub struct ParserError {
    pub pos: (usize, usize),
    pub slice: Option<(usize, usize)>,
    pub kind: ErrorKind,
}

/// What went wrong; texts copied from the source are kept as strings.
#[derive(Debug, PartialEq)]
pub enum ErrorKind {
    Generic,
    ExpectedEntry,
    ExpectedToken(char),
    ExpectedCharRange { range: String },
    ExpectedMessageField { entry_id: String },
    ExpectedTermField { entry_id: String },
    ForbiddenWhitespace,
    ForbiddenCallee,
    ForbiddenKey,
    MissingDefaultVariant,
    MissingVariants,
    MissingValue,
    MissingVariantKey,
    MissingLiteral,
    MultipleDefaultVariants,
    MessageReferenceAsSelector,
    TermReferenceAsSelector,
    MessageAttributeAsSelector,
    TermAttributeAsPlaceable,
    UnterminatedStringExpression,
    PositionalArgumentFollowsNamed,
    DuplicatedNamedArgument(String),
    ForbiddenVariantAccessor,
    UnknownEscapeSequence(String),
    InvalidUnicodeEscapeSequence(String),
    UnbalancedClosingBrace,
    ExpectedInlineExpression,
    ExpectedSimpleExpressionAsSelector,
}

/// What an error of this kind says.
pub open spec fn describe(k: ErrorKind) -> Seq<char> {
    match k {
        ErrorKind::Generic => "An error occurred"@,
        ErrorKind::ExpectedEntry => "Expected an entry"@,
        ErrorKind::ForbiddenWhitespace => "Whitespace is not allowed here"@,
        ErrorKind::ForbiddenCallee => "Callee is not allowed here"@,
        ErrorKind::ForbiddenKey => "Key is not allowed here"@,
        ErrorKind::MissingDefaultVariant => "The select expression must have a default variant"@,
        ErrorKind::MissingVariants => "The select expression must have one or more variants"@,
        ErrorKind::MissingValue => "Expected a value"@,
        ErrorKind::MissingVariantKey => "Expected a variant key"@,
        ErrorKind::MissingLiteral => "Expected a literal"@,
        ErrorKind::MultipleDefaultVariants => "A select expression can only have one default variant"@,
        ErrorKind::MessageReferenceAsSelector => "Message references can't be used as a selector"@,
        ErrorKind::TermReferenceAsSelector => "Term references can't be used as a selector"@,
        ErrorKind::MessageAttributeAsSelector => "Message attributes can't be used as a selector"@,
        ErrorKind::TermAttributeAsPlaceable => "Term attributes can't be used as a placeable"@,
        ErrorKind::UnterminatedStringExpression => "Unterminated string expression"@,
        ErrorKind::PositionalArgumentFollowsNamed => "Positional arguments must come before named arguments"@,
        ErrorKind::ForbiddenVariantAccessor => "Forbidden variant accessor"@,
        ErrorKind::UnbalancedClosingBrace => "Unbalanced closing brace"@,
        ErrorKind::ExpectedInlineExpression => "Expected an inline expression"@,
        ErrorKind::ExpectedSimpleExpressionAsSelector => "Expected a simple expression as selector"@,
        ErrorKind::ExpectedToken(c) => "Expected a token starting with \""@ + seq![c] + "\""@,
        ErrorKind::ExpectedCharRange { range } => "Expected one of \""@ + range@ + "\""@,
        ErrorKind::ExpectedMessageField { entry_id } => "Expected a message field for \""@ + entry_id@ + "\""@,
        ErrorKind::ExpectedTermField { entry_id } => "Expected a term field for \""@ + entry_id@ + "\""@,
        ErrorKind::DuplicatedNamedArgument(name) => "The \""@ + name@ + "\" argument appears twice"@,
        ErrorKind::UnknownEscapeSequence(seq) => "Unknown escape sequence, \""@ + seq@ + "\""@,
        ErrorKind::InvalidUnicodeEscapeSequence(seq) => "Invalid unicode escape sequence, \""@ + seq@ + "\""@,
    }
}

impl ErrorKind {
    /// What the error says.
    pub fn to_string(&self) -> (r: String)
        ensures
            r@ == describe(*self),
    {
        match self {
            ErrorKind::Generic => owned("An error occurred"),
            ErrorKind::ExpectedEntry => owned("Expected an entry"),
            ErrorKind::ForbiddenWhitespace => owned("Whitespace is not allowed here"),
            ErrorKind::ForbiddenCallee => owned("Callee is not allowed here"),
            ErrorKind::ForbiddenKey => owned("Key is not allowed here"),
            ErrorKind::MissingDefaultVariant => owned("The select expression must have a default variant"),
            ErrorKind::MissingVariants => owned("The select expression must have one or more variants"),
            ErrorKind::MissingValue => owned("Expected a value"),
            ErrorKind::MissingVariantKey => owned("Expected a variant key"),
            ErrorKind::MissingLiteral => owned("Expected a literal"),
            ErrorKind::MultipleDefaultVariants => owned("A select expression can only have one default variant"),
            ErrorKind::MessageReferenceAsSelector => owned("Message references can't be used as a selector"),
            ErrorKind::TermReferenceAsSelector => owned("Term references can't be used as a selector"),
            ErrorKind::MessageAttributeAsSelector => owned("Message attributes can't be used as a selector"),
            ErrorKind::TermAttributeAsPlaceable => owned("Term attributes can't be used as a placeable"),
            ErrorKind::UnterminatedStringExpression => owned("Unterminated string expression"),
            ErrorKind::PositionalArgumentFollowsNamed => owned("Positional arguments must come before named arguments"),
            ErrorKind::ForbiddenVariantAccessor => owned("Forbidden variant accessor"),
            ErrorKind::UnbalancedClosingBrace => owned("Unbalanced closing brace"),
            ErrorKind::ExpectedInlineExpression => owned("Expected an inline expression"),
            ErrorKind::ExpectedSimpleExpressionAsSelector => owned("Expected a simple expression as selector"),
            ErrorKind::ExpectedToken(c) => {
                let mut s = owned("Expected a token starting with \"");
                let letter = char_to_string(*c);
                s.append(letter.as_str());
                s.append("\"");
                s
            },
            ErrorKind::ExpectedCharRange { range } => {
                let mut s = owned("Expected one of \"");
                s.append(range.as_str());
                s.append("\"");
                s
            },
            ErrorKind::ExpectedMessageField { entry_id } => {
                let mut s = owned("Expected a message field for \"");
                s.append(entry_id.as_str());
                s.append("\"");
                s
            },
            ErrorKind::ExpectedTermField { entry_id } => {
                let mut s = owned("Expected a term field for \"");
                s.append(entry_id.as_str());
                s.append("\"");
                s
            },
            ErrorKind::DuplicatedNamedArgument(name) => {
                let mut s = owned("The \"");
                s.append(name.as_str());
                s.append("\" argument appears twice");
                s
            },
            ErrorKind::UnknownEscapeSequence(seq) => {
                let mut s = owned("Unknown escape sequence, \"");
                s.append(seq.as_str());
                s.append("\"");
                s
            },
            ErrorKind::InvalidUnicodeEscapeSequence(seq) => {
                let mut s = owned("Invalid unicode escape sequence, \"");
                s.append(seq.as_str());
                s.append("\"");
                s
            },
        }
    }
}

impl ParserError {
    /// What the error says: what its kind says.
    pub fn to_string(&self) -> (r: String)
        ensures
            r@ == describe(self.kind),
    {
        self.kind.to_string()
    }
}

/// An error whose range is the single byte at `start`.
pub fn error_at<T>(kind: ErrorKind, start: usize) -> (r: Result<T, ParserError>)
    requires
        start < usize::MAX,
    ensures
        r matches Err(e) && e.pos == (start, (start + 1) as usize) && e.slice is None && e.kind == kind,
{
    Err(ParserError { pos: (start, start + 1), slice: None, kind })
}

/// An error covering the byte range from `start` to `end`.
pub fn error_range<T>(kind: ErrorKind, start: usize, end: usize) -> (r: Result<T, ParserError>)
    ensures
        r matches Err(e) && e.pos == (start, end) && e.slice is None && e.kind == kind,
{
    Err(ParserError { pos: (start, end), slice: None, kind })
}

} // verus!
