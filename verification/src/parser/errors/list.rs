//! Error kinds with numbered codes, for tools that report them.
use crate::text::{char_to_string, owned};
use vstd::prelude::*;
use vstd::string::StringExecFns;

verus! {

/// An error, with where it was found where that is known.
#[derive(Debug, PartialEq)]
pub struct ParserError {
    pub info: Option<ErrorInfo>,
    pub kind: ErrorKind,
}

/// Where an error was found: the text around it, its line and its position.
#[derive(Debug, PartialEq)]
pub struct ErrorInfo {
    pub slice: String,
    pub line: usize,
    pub pos: usize,
}

/// What went wrong, in the terms of the numbered error codes.
#[derive(Debug, PartialEq)]
pub enum ErrorKind {
    Generic,
    ExpectedEntry,
    ExpectedToken { token: char },
    ExpectedCharRange { range: String },
    ExpectedMessageField { entry_id: String },
    ExpectedTermField { entry_id: String },
    ForbiddenWhitespace,
    ForbiddenCallee,
    ForbiddenKey,
    MissingDefaultVariant,
    MissingVariants,
    MissingValue,
    MissingVariantKey,
    MissingLiteral,
    MultipleDefaultVariants,
    MessageReferenceAsSelector,
    VariantAsSelector,
    MessageAttributeAsSelector,
    TermAttributeAsSelector,
    UnterminatedStringExpression,
}

/// The code, the message and the hint of an error of kind `k`.
pub open spec fn error_desc(k: ErrorKind) -> (Seq<char>, Seq<char>, Seq<char>) {
    match k {
        ErrorKind::Generic => ("E0001"@, "generic error"@, ""@),
        ErrorKind::ExpectedEntry => ("E0002"@, "Expected an entry start"@, "Expected one of ('a'...'Z' | '_' | #') here"@),
        ErrorKind::ForbiddenWhitespace => ("E0007"@, "Keyword cannot end with a whitespace"@, ""@),
        ErrorKind::ForbiddenCallee => ("E0008"@, "The callee has to be a simple, upper-case, identifier"@, ""@),
        ErrorKind::ForbiddenKey => ("E0009"@, "The key has to be a simple identifier"@, ""@),
        ErrorKind::MissingDefaultVariant => ("E0010"@, "Expected one of the variants to be marked as default (*)."@, ""@),
        ErrorKind::MissingVariants => ("E0011"@, "Expected at least one variant after \"->\"."@, ""@),
        ErrorKind::MissingValue => ("E0012"@, "Expected value"@, ""@),
        ErrorKind::MissingVariantKey => ("E0013"@, "Expected variant key"@, ""@),
        ErrorKind::MissingLiteral => ("E0014"@, "Expected literal"@, ""@),
        ErrorKind::MultipleDefaultVariants => ("E0015"@, "Only one variant can be marked as default (*)"@, ""@),
        ErrorKind::MessageReferenceAsSelector => ("E0016"@, "Message references cannot be used as selectors"@, ""@),
        ErrorKind::VariantAsSelector => ("E0017"@, "Variants cannot be used as selectors"@, ""@),
        ErrorKind::MessageAttributeAsSelector => ("E0018"@, "Attributes of messages cannot be used as selectors."@, ""@),
        ErrorKind::TermAttributeAsSelector => ("E0019"@, "Attributes of terms cannot be used as selectors."@, ""@),
        ErrorKind::UnterminatedStringExpression => ("E0020"@, "Underminated string expression"@, ""@),
        ErrorKind::ExpectedToken { token } => ("E0003"@, "expected token `"@ + seq![token] + "`"@, ""@),
        ErrorKind::ExpectedCharRange { range } => ("E0004"@, "Expected a character from range ("@ + range@ + ")"@, ""@),
        ErrorKind::ExpectedMessageField { entry_id } => ("E0005"@, "Expected message `"@ + entry_id@ + "` to have a value or attributes"@, ""@),
        ErrorKind::ExpectedTermField { entry_id } => ("E0006"@, "Expected term `"@ + entry_id@ + "` to have a value"@, ""@),
    }
}

/// The code, the message and the hint of an error.
pub fn get_error_desc(err: &ErrorKind) -> (r: (&'static str, String, &'static str))
    ensures
        (r.0@, r.1@, r.2@) == error_desc(*err),
{
    match err {
        ErrorKind::Generic => ("E0001", owned("generic error"), ""),
        ErrorKind::ExpectedEntry => ("E0002", owned("Expected an entry start"), "Expected one of ('a'...'Z' | '_' | #') here"),
        ErrorKind::ForbiddenWhitespace => ("E0007", owned("Keyword cannot end with a whitespace"), ""),
        ErrorKind::ForbiddenCallee => ("E0008", owned("The callee has to be a simple, upper-case, identifier"), ""),
        ErrorKind::ForbiddenKey => ("E0009", owned("The key has to be a simple identifier"), ""),
        ErrorKind::MissingDefaultVariant => ("E0010", owned("Expected one of the variants to be marked as default (*)."), ""),
        ErrorKind::MissingVariants => ("E0011", owned("Expected at least one variant after \"->\"."), ""),
        ErrorKind::MissingValue => ("E0012", owned("Expected value"), ""),
        ErrorKind::MissingVariantKey => ("E0013", owned("Expected variant key"), ""),
        ErrorKind::MissingLiteral => ("E0014", owned("Expected literal"), ""),
        ErrorKind::MultipleDefaultVariants => ("E0015", owned("Only one variant can be marked as default (*)"), ""),
        ErrorKind::MessageReferenceAsSelector => ("E0016", owned("Message references cannot be used as selectors"), ""),
        ErrorKind::VariantAsSelector => ("E0017", owned("Variants cannot be used as selectors"), ""),
        ErrorKind::MessageAttributeAsSelector => ("E0018", owned("Attributes of messages cannot be used as selectors."), ""),
        ErrorKind::TermAttributeAsSelector => ("E0019", owned("Attributes of terms cannot be used as selectors."), ""),
        ErrorKind::UnterminatedStringExpression => ("E0020", owned("Underminated string expression"), ""),
        ErrorKind::ExpectedToken { token } => {
            let mut s = owned("expected token `");
            let t = char_to_string(*token);
            s.append(t.as_str());
            s.append("`");
            ("E0003", s, "")
        },
        ErrorKind::ExpectedCharRange { range } => {
            let mut s = owned("Expected a character from range (");
            s.append(range.as_str());
            s.append(")");
            ("E0004", s, "")
        },
        ErrorKind::ExpectedMessageField { entry_id } => {
            let mut s = owned("Expected message `");
            s.append(entry_id.as_str());
            s.append("` to have a value or attributes");
            ("E0005", s, "")
        },
        ErrorKind::ExpectedTermField { entry_id } => {
            let mut s = owned("Expected term `");
            s.append(entry_id.as_str());
            s.append("` to have a value");
            ("E0006", s, "")
        },
    }
}

} // verus!
