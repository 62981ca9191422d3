//! A lexer that splits an FTL source into tokens: a state machine that reads one
//! token at a time, and keeps one token ahead where a text ends.
use crate::ascii::{
    alpha, byte_at, digit, ident_char, is_alpha, is_digit, lemma_span_while, span_while, ByteClass,
    CLOSE_BRACE, DOT, EQUALS, HASH, LF, MINUS, OPEN_BRACE, QUOTE, SPACE,
};
use core::ops::Range;
use vstd::prelude::*;

verus! {

/// A token, with the byte ranges of the source it covers where it has any.
#[derive(Debug)]
pub enum Token {
    Identifier(Range<usize>),
    EqSign,
    CommentSign,
    GroupCommentSign,
    ResourceCommentSign,
    /// One or more empty lines.
    Eol(usize),
    /// The end of a text.
    Eot,
    Dot,
    MinusSign,
    Indent(usize),
    Text(Range<usize>),
    Junk(Range<usize>),
    OpenCurlyBraces,
    CloseCurlyBraces,
    DoubleQuote,
    Number(Range<usize>),
}

impl PartialEq for Token {
    fn eq(&self, other: &Token) -> (r: bool) {
        match (self, other) {
            (Token::Identifier(a), Token::Identifier(b)) => a.start == b.start && a.end == b.end,
            (Token::EqSign, Token::EqSign) => true,
            (Token::CommentSign, Token::CommentSign) => true,
            (Token::GroupCommentSign, Token::GroupCommentSign) => true,
            (Token::ResourceCommentSign, Token::ResourceCommentSign) => true,
            (Token::Eol(a), Token::Eol(b)) => *a == *b,
            (Token::Eot, Token::Eot) => true,
            (Token::Dot, Token::Dot) => true,
            (Token::MinusSign, Token::MinusSign) => true,
            (Token::Indent(a), Token::Indent(b)) => *a == *b,
            (Token::Text(a), Token::Text(b)) => a.start == b.start && a.end == b.end,
            (Token::Junk(a), Token::Junk(b)) => a.start == b.start && a.end == b.end,
            (Token::OpenCurlyBraces, Token::OpenCurlyBraces) => true,
            (Token::CloseCurlyBraces, Token::CloseCurlyBraces) => true,
            (Token::DoubleQuote, Token::DoubleQuote) => true,
            (Token::Number(a), Token::Number(b)) => a.start == b.start && a.end == b.end,
            _ => false,
        }
    }
}

impl vstd::std_specs::cmp::PartialEqSpecImpl for Token {
    open spec fn obeys_eq_spec() -> bool {
        true
    }

    open spec fn eq_spec(&self, other: &Token) -> bool {
        *self == *other
    }
}

/// What the lexer reads next.
#[derive(Clone, Copy, Debug, PartialEq, Eq, Structural)]
pub enum LexerState {
    Resource,
    Pattern,
    PatternContinuation,
    Message,
    Comment,
    Expression,
}

/// The lexer met bytes that start no token in its state.
#[derive(Debug, PartialEq, Eq, Structural)]
pub enum LexerError {
    Unknown,
}

/// What follows the end of a line of a pattern.
#[derive(Debug, PartialEq, Eq, Structural)]
pub enum NextLine {
    /// An indented line that goes on with the text, with its indent.
    TextContinuation(usize),
    Attribute,
    NewEntry,
    /// Blank lines, so many of them, before an indented line.
    Eol(usize),
}

/// The range from `a` to `b`.
pub open spec fn range(a: int, b: int) -> Range<usize> {
    Range { start: a as usize, end: b as usize }
}

/// The lexer between two tokens: what it reads next, where, where the current
/// entry started, and the token it keeps ahead, if any.
pub struct LexModel {
    pub state: LexerState,
    pub ptr: int,
    pub entry_start: int,
    pub peeked: Option<Option<Token>>,
}

/// The end of an identifier that starts at `p`.
pub open spec fn ident_end(src: Seq<u8>, p: int) -> int {
    span_while(src, p + 1, ByteClass::IdentChar)
}

/// Where the spaces that start at `p` end.
pub open spec fn after_spaces(src: Seq<u8>, p: int) -> int {
    span_while(src, p, ByteClass::Space)
}

/// The end of a text at `end` once its trailing spaces are dropped.
pub open spec fn trim_spaces(src: Seq<u8>, end: int) -> int
    decreases end,
{
    if end > 0 && byte_at(src, end - 1) == Some(SPACE) {
        trim_spaces(src, end - 1)
    } else {
        end
    }
}

/// The first `\n` or `{` at or after `p`, or the end of the source.
pub open spec fn text_stop(src: Seq<u8>, p: int) -> int
    decreases src.len() - p,
{
    if 0 <= p < src.len() && src[p] != LF && src[p] != OPEN_BRACE {
        text_stop(src, p + 1)
    } else {
        p
    }
}

/// The first `"` at or after `p`, or the end of the source.
pub open spec fn quote_stop(src: Seq<u8>, p: int) -> int
    decreases src.len() - p,
{
    if 0 <= p < src.len() && src[p] != QUOTE {
        quote_stop(src, p + 1)
    } else {
        p
    }
}

/// The first `\n` at or after `p`, or the end of the source.
pub open spec fn line_stop(src: Seq<u8>, p: int) -> int
    decreases src.len() - p,
{
    if 0 <= p < src.len() && src[p] != LF {
        line_stop(src, p + 1)
    } else {
        p
    }
}

/// Where junk that runs from `p` ends: at a letter or `#` that starts a line (past
/// the second byte), or at the end of the source.
pub open spec fn junk_end(src: Seq<u8>, p: int) -> int
    decreases src.len() - p,
{
    if 0 <= p < src.len() && !((is_alpha(src[p]) || src[p] == HASH) && p > 1 && src[p - 1] == LF) {
        junk_end(src, p + 1)
    } else {
        p
    }
}

/// What follows the line end at `line_start - 1`: reads on over blank lines, of which
/// `eols` were read, the last ending at `last_eol`; yields where the lexer stops.
pub open spec fn lines_info(src: Seq<u8>, line_start: int, last_eol: int, eols: int) -> (NextLine, int)
    decreases src.len() - line_start,
{
    let q = after_spaces(src, line_start);
    match byte_at(src, q) {
        Some(b) if b == DOT => (NextLine::Attribute, q),
        Some(b) if b == LF => if 0 <= line_start <= q {
            lines_info(src, q + 1, q, eols + 1)
        } else {
            (NextLine::NewEntry, q)
        },
        Some(b) if b == OPEN_BRACE => if eols > 0 {
            (NextLine::Eol(eols as usize), last_eol)
        } else {
            (NextLine::TextContinuation((q - line_start) as usize), q)
        },
        _ => if q - line_start > 0 {
            if eols > 0 {
                (NextLine::Eol(eols as usize), last_eol)
            } else {
                (NextLine::TextContinuation((q - line_start) as usize), q)
            }
        } else {
            (NextLine::NewEntry, q)
        },
    }
}

/// What follows the line feed at `p`.
pub open spec fn next_lines(src: Seq<u8>, p: int) -> (NextLine, int) {
    lines_info(src, p + 1, p, 0)
}

/// Blank lines after the line feed at `eol` that follows the `=` of a message: the
/// pattern ends at an attribute or the end of the source, or goes on indented.
pub open spec fn blank_lines(src: Seq<u8>, eol: int) -> (Token, LexerState, int)
    decreases src.len() - eol,
{
    let q = after_spaces(src, eol + 1);
    match byte_at(src, q) {
        Some(b) if b == LF => if eol < q {
            blank_lines(src, q)
        } else {
            (Token::Eot, LexerState::Message, q)
        },
        Some(b) if b == DOT => (Token::Eot, LexerState::Message, q),
        None => (Token::Eot, LexerState::Message, q),
        _ => (Token::Indent((q - (eol + 1)) as usize), LexerState::PatternContinuation, q),
    }
}

/// The token that ends a text at the line feed at `p`, the state after it, where the
/// lexer stops and where the text ends.
pub open spec fn text_line_end(src: Seq<u8>, p: int) -> (Token, LexerState, int, int) {
    let (info, q) = next_lines(src, p);
    match info {
        NextLine::NewEntry => (Token::Eot, LexerState::Resource, q, p),
        NextLine::Eol(n) => (Token::Eol(n), LexerState::PatternContinuation, q, p),
        NextLine::Attribute => (Token::Eot, LexerState::Message, q, p),
        NextLine::TextContinuation(r) => (Token::Indent(r), LexerState::PatternContinuation, q, p + 1),
    }
}

/// A text from `start` up to `end`, then `next`: the text comes first, with `next`
/// kept ahead, unless it is empty. Outside a placeable the text loses its trailing
/// spaces.
pub open spec fn text_then(
    src: Seq<u8>,
    start: int,
    end: int,
    next: Token,
    m: LexModel,
) -> (Result<Option<Token>, LexerError>, LexModel) {
    let e = if m.state != LexerState::Expression {
        trim_spaces(src, end)
    } else {
        end
    };
    if start != e {
        (Ok(Some(Token::Text(range(start, e)))), LexModel { peeked: Some(Some(next)), ..m })
    } else {
        (Ok(Some(next)), m)
    }
}

/// The pattern after `=`: blank lines, or a text up to a line end, a placeable or
/// the end of the source.
pub open spec fn tokenize_pattern(src: Seq<u8>, m: LexModel) -> (Result<Option<Token>, LexerError>, LexModel) {
    let p = after_spaces(src, m.ptr);
    if byte_at(src, p) == Some(LF) {
        let (t, st, q) = blank_lines(src, p);
        (Ok(Some(t)), LexModel { state: st, ptr: q, ..m })
    } else {
        let i = text_stop(src, p);
        if byte_at(src, i) == Some(LF) {
            let (t, st, q, end) = text_line_end(src, i);
            text_then(src, p, end, t, LexModel { state: st, ptr: q, ..m })
        } else if byte_at(src, i) == Some(OPEN_BRACE) {
            text_then(
                src,
                p,
                i,
                Token::OpenCurlyBraces,
                LexModel { state: LexerState::Expression, ptr: after_spaces(src, i + 1), ..m },
            )
        } else {
            text_then(src, p, i, Token::Eot, LexModel { state: LexerState::Resource, ptr: i, ..m })
        }
    }
}

/// A line of a pattern after the first: a text up to a line end, a placeable or the
/// end of the source.
pub open spec fn tokenize_pattern_continuation(src: Seq<u8>, m: LexModel) -> (
    Result<Option<Token>, LexerError>,
    LexModel,
) {
    let i = text_stop(src, m.ptr);
    if byte_at(src, i) == Some(LF) {
        let (t, st, q, end) = text_line_end(src, i);
        text_then(src, m.ptr, end, t, LexModel { state: st, ptr: q, ..m })
    } else if byte_at(src, i) == Some(OPEN_BRACE) {
        text_then(
            src,
            m.ptr,
            i,
            Token::OpenCurlyBraces,
            LexModel { state: LexerState::Expression, ptr: after_spaces(src, i + 1), ..m },
        )
    } else {
        text_then(src, m.ptr, i, Token::Eot, LexModel { state: LexerState::Resource, ptr: i + 1, ..m })
    }
}

/// After the identifier of a message: `=`, `.` or an identifier.
pub open spec fn tokenize_message(src: Seq<u8>, m: LexModel) -> (Result<Option<Token>, LexerError>, LexModel) {
    let q = after_spaces(src, m.ptr);
    match byte_at(src, q) {
        Some(b) if b == EQUALS => (
            Ok(Some(Token::EqSign)),
            LexModel { state: LexerState::Pattern, ptr: q + 1, ..m },
        ),
        Some(b) if b == DOT => (Ok(Some(Token::Dot)), LexModel { ptr: q + 1, ..m }),
        Some(b) if is_alpha(b) => (
            Ok(Some(Token::Identifier(range(q, ident_end(src, q))))),
            LexModel { ptr: ident_end(src, q), ..m },
        ),
        _ => (Err(LexerError::Unknown), LexModel { ptr: q, ..m }),
    }
}

/// The sigil of a comment with `level` `#`.
pub open spec fn sigil(level: int) -> Token {
    if level == 1 {
        Token::CommentSign
    } else if level == 2 {
        Token::GroupCommentSign
    } else {
        Token::ResourceCommentSign
    }
}

/// The start of an entry: a line end, an identifier, a comment sigil or `-`.
pub open spec fn tokenize_resource(src: Seq<u8>, m0: LexModel) -> (Result<Option<Token>, LexerError>, LexModel) {
    let m = LexModel { entry_start: m0.ptr, ..m0 };
    let p = m.ptr;
    match byte_at(src, p) {
        None => (Ok(None), m),
        Some(b) if b == LF => (Ok(Some(Token::Eol(1))), LexModel { ptr: p + 1, ..m }),
        Some(b) if is_alpha(b) => (
            Ok(Some(Token::Identifier(range(p, ident_end(src, p))))),
            LexModel { state: LexerState::Message, ptr: ident_end(src, p), ..m },
        ),
        Some(b) if b == HASH => {
            let level = if byte_at(src, p + 1) == Some(HASH) {
                if byte_at(src, p + 2) == Some(HASH) {
                    3int
                } else {
                    2
                }
            } else {
                1
            };
            let q = p + level;
            if byte_at(src, q) == Some(SPACE) {
                (Ok(Some(sigil(level))), LexModel { state: LexerState::Comment, ptr: q + 1, ..m })
            } else if byte_at(src, q) == Some(LF) {
                (Ok(Some(sigil(level))), LexModel { ptr: q, ..m })
            } else {
                (Err(LexerError::Unknown), LexModel { ptr: q, ..m })
            }
        },
        Some(b) if b == MINUS => (Ok(Some(Token::MinusSign)), LexModel { ptr: p + 1, ..m }),
        _ => (Err(LexerError::Unknown), m),
    }
}

/// Inside a placeable: a number, an identifier, `.`, `-`, a string, or `}`.
pub open spec fn tokenize_expression(src: Seq<u8>, m: LexModel) -> (Result<Token, LexerError>, LexModel) {
    let p = m.ptr;
    match byte_at(src, p) {
        Some(b) if is_digit(b) => {
            let e = span_while(src, p + 1, ByteClass::Digit);
            (Ok(Token::Number(range(p, e))), LexModel { ptr: e, ..m })
        },
        Some(b) if is_alpha(b) => (
            Ok(Token::Identifier(range(p, ident_end(src, p)))),
            LexModel { ptr: ident_end(src, p), ..m },
        ),
        Some(b) if b == DOT => (Ok(Token::Dot), LexModel { ptr: p + 1, ..m }),
        Some(b) if b == MINUS => (Ok(Token::MinusSign), LexModel { ptr: p + 1, ..m }),
        Some(b) if b == QUOTE => {
            let j = quote_stop(src, p + 1);
            if j < src.len() {
                (Ok(Token::Text(range(p + 1, j))), LexModel { ptr: j + 1, ..m })
            } else {
                (Err(LexerError::Unknown), LexModel { ptr: j, ..m })
            }
        },
        Some(b) if b == SPACE => {
            let q = after_spaces(src, p);
            if byte_at(src, q) == Some(CLOSE_BRACE) {
                (
                    Ok(Token::CloseCurlyBraces),
                    LexModel { state: LexerState::PatternContinuation, ptr: q + 1, ..m },
                )
            } else {
                (Err(LexerError::Unknown), LexModel { ptr: q, ..m })
            }
        },
        Some(b) if b == CLOSE_BRACE => (
            Ok(Token::CloseCurlyBraces),
            LexModel { state: LexerState::PatternContinuation, ptr: p + 1, ..m },
        ),
        _ => (Err(LexerError::Unknown), m),
    }
}

/// The text of a comment line, up to and past its line feed.
pub open spec fn tokenize_comment(src: Seq<u8>, m: LexModel) -> (Result<Token, LexerError>, LexModel) {
    let j = line_stop(src, m.ptr);
    let q = if j < src.len() {
        j + 1
    } else {
        j
    };
    (Ok(Token::Text(range(m.ptr, q - 1))), LexModel { state: LexerState::Resource, ptr: q, ..m })
}

/// The next token read in the lexer's state.
pub open spec fn get_token(src: Seq<u8>, m: LexModel) -> (Result<Option<Token>, LexerError>, LexModel) {
    match m.state {
        LexerState::Resource => tokenize_resource(src, m),
        LexerState::PatternContinuation => tokenize_pattern_continuation(src, m),
        LexerState::Pattern => tokenize_pattern(src, m),
        LexerState::Message => tokenize_message(src, m),
        LexerState::Comment => {
            let (r, m1) = tokenize_comment(src, m);
            (
                match r {
                    Ok(t) => Ok(Some(t)),
                    Err(e) => Err(e),
                },
                m1,
            )
        },
        LexerState::Expression => {
            let (r, m1) = tokenize_expression(src, m);
            (
                match r {
                    Ok(t) => Ok(Some(t)),
                    Err(e) => Err(e),
                },
                m1,
            )
        },
    }
}

/// The junk of the current entry: from its start to the next letter or `#` that
/// starts a line.
pub open spec fn junk(src: Seq<u8>, m: LexModel) -> (Range<usize>, LexModel) {
    let e = junk_end(src, m.ptr);
    (range(m.entry_start, e), LexModel { state: LexerState::Resource, ptr: e, ..m })
}

/// The next token: the one kept ahead, or the next one read, or the junk of the entry
/// where reading fails.
pub open spec fn next_token(src: Seq<u8>, m: LexModel) -> (Option<Token>, LexModel) {
    match m.peeked {
        Some(t) => (t, LexModel { peeked: None, ..m }),
        None => {
            let (r, m1) = get_token(src, m);
            match r {
                Ok(t) => (t, m1),
                Err(_) => {
                    let (j, m2) = junk(src, m1);
                    (Some(Token::Junk(j)), m2)
                },
            }
        },
    }
}


/// Some byte before `p` is not a space, so trailing spaces can be dropped from a
/// text that ends at or after `p` without running off the start of the source.
pub open spec fn mark_before(src: Seq<u8>, p: int) -> bool {
    exists|k: int| 0 <= k < p && k < src.len() && src[k] != SPACE
}

/// A token looked at by reference is `t`.
pub open spec fn same_token<'a>(o: Option<&'a Token>, t: Option<Token>) -> bool {
    match o {
        Some(x) => t == Some(*x),
        None => t is None,
    }
}

/// The next token: the one kept ahead, or the next one read.
pub open spec fn try_next(src: Seq<u8>, m: LexModel) -> (Result<Option<Token>, LexerError>, LexModel) {
    match m.peeked {
        Some(t) => (Ok(t), LexModel { peeked: None, ..m }),
        None => get_token(src, m),
    }
}

/// The next token, kept ahead.
pub open spec fn try_peek(src: Seq<u8>, m: LexModel) -> (Result<Option<Token>, LexerError>, LexModel) {
    match m.peeked {
        Some(t) => (Ok(t), m),
        None => {
            let (g, m1) = get_token(src, m);
            match g {
                Ok(t) => (Ok(t), LexModel { peeked: Some(t), ..m1 }),
                Err(e) => (Err(e), m1),
            }
        },
    }
}

/// Takes the next token where it is `token`; otherwise keeps it ahead.
pub open spec fn take_if(src: Seq<u8>, m: LexModel, token: Token) -> (Result<bool, LexerError>, LexModel) {
    match m.peeked {
        Some(t) => if t == Some(token) {
            (Ok(true), LexModel { peeked: None, ..m })
        } else {
            (Ok(false), m)
        },
        None => {
            let (g, m1) = get_token(src, m);
            match g {
                Ok(Some(t)) => if t == token {
                    (Ok(true), m1)
                } else {
                    (Ok(false), LexModel { peeked: Some(Some(t)), ..m1 })
                },
                Ok(None) => (Ok(false), m1),
                Err(e) => (Err(e), m1),
            }
        },
    }
}

/// How far the lexer is from the end: the bytes left, then whether it is inside an
/// entry, then whether it keeps a token ahead.
pub open spec fn progress(src: Seq<u8>, m: LexModel) -> int {
    4 * (src.len() + 2 - m.ptr) + (if m.state != LexerState::Resource {
        2int
    } else {
        0
    }) + (if m.peeked is Some {
        1int
    } else {
        0
    })
}

/// The lexer's state is one it can be in between two tokens.
pub open spec fn model_wf(src: Seq<u8>, m: LexModel) -> bool {
    &&& 0 <= m.ptr <= src.len() + 1
    &&& m.state != LexerState::Resource ==> m.ptr <= src.len()
}

proof fn lemma_text_stop(src: Seq<u8>, p: int)
    requires
        0 <= p,
    ensures
        p <= text_stop(src, p),
        p <= src.len() ==> text_stop(src, p) <= src.len(),
        text_stop(src, p) < src.len() ==> src[text_stop(src, p)] == LF || src[text_stop(src, p)]
            == OPEN_BRACE,
    decreases src.len() - p,
{
    if 0 <= p < src.len() && src[p] != LF && src[p] != OPEN_BRACE {
        lemma_text_stop(src, p + 1);
    }
}

proof fn lemma_junk_end(src: Seq<u8>, p: int)
    requires
        0 <= p,
    ensures
        p <= junk_end(src, p),
        p <= src.len() ==> junk_end(src, p) <= src.len(),
        p > src.len() ==> junk_end(src, p) == p,
    decreases src.len() - p,
{
    if 0 <= p < src.len() && !((is_alpha(src[p]) || src[p] == HASH) && p > 1 && src[p - 1] == LF) {
        lemma_junk_end(src, p + 1);
    }
}

proof fn lemma_line_stop(src: Seq<u8>, p: int)
    requires
        0 <= p,
    ensures
        p <= line_stop(src, p),
        p <= src.len() ==> line_stop(src, p) <= src.len(),
    decreases src.len() - p,
{
    if 0 <= p < src.len() && src[p] != LF {
        lemma_line_stop(src, p + 1);
    }
}

proof fn lemma_quote_stop(src: Seq<u8>, p: int)
    requires
        0 <= p,
    ensures
        p <= quote_stop(src, p),
        p <= src.len() ==> quote_stop(src, p) <= src.len(),
    decreases src.len() - p,
{
    if 0 <= p < src.len() && src[p] != QUOTE {
        lemma_quote_stop(src, p + 1);
    }
}

proof fn lemma_lines_info(src: Seq<u8>, ls: int, last_eol: int, eols: int, i: int)
    requires
        0 <= i < ls <= src.len(),
        i <= last_eol < ls,
        eols >= 0,
        eols > 0 ==> i < last_eol,
    ensures
        i < lines_info(src, ls, last_eol, eols).1 <= src.len(),
    decreases src.len() - ls,
{
    lemma_span_while(src, ls, ByteClass::Space);
    let q = after_spaces(src, ls);
    if byte_at(src, q) == Some(LF) && q + 1 <= src.len() {
        lemma_lines_info(src, q + 1, q, eols + 1, i);
    }
}

proof fn lemma_blank_lines(src: Seq<u8>, eol: int)
    requires
        0 <= eol < src.len(),
    ensures
        eol < blank_lines(src, eol).2 <= src.len(),
    decreases src.len() - eol,
{
    lemma_span_while(src, eol + 1, ByteClass::Space);
    let q = after_spaces(src, eol + 1);
    if byte_at(src, q) == Some(LF) {
        lemma_blank_lines(src, q);
        assert(eol < q);
    }
}

proof fn lemma_trim_spaces(src: Seq<u8>, end: int)
    ensures
        trim_spaces(src, end) <= end,
    decreases end,
{
    if end > 0 && byte_at(src, end - 1) == Some(SPACE) {
        lemma_trim_spaces(src, end - 1);
    }
}

/// The line break or space that ends a comment sigil at `q`.
pub open spec fn sigil_end(src: Seq<u8>, q: int) -> bool {
    byte_at(src, q) == Some(SPACE) || byte_at(src, q) == Some(LF)
}

/// Between entries, a comment's sigil is told by its count of `#`: one is a comment,
/// two a group comment, three a resource comment, each followed by a space or a line
/// end.
pub proof fn lemma_comment_sigils(src: Seq<u8>, m: LexModel)
    requires
        m.peeked is None,
        m.state == LexerState::Resource,
    ensures
        byte_at(src, m.ptr) == Some(HASH) && sigil_end(src, m.ptr + 1) ==> next_token(src, m).0 == Some(
            Token::CommentSign,
        ),
        byte_at(src, m.ptr) == Some(HASH) && byte_at(src, m.ptr + 1) == Some(HASH) && sigil_end(src, m.ptr + 2)
            ==> next_token(src, m).0 == Some(Token::GroupCommentSign),
        byte_at(src, m.ptr) == Some(HASH) && byte_at(src, m.ptr + 1) == Some(HASH) && byte_at(src, m.ptr + 2)
            == Some(HASH) && sigil_end(src, m.ptr + 3) ==> next_token(src, m).0 == Some(Token::ResourceCommentSign),
{
}

/// Each token the lexer gives moves it on: where `next_token` yields a token, the
/// lexer's progress measure goes down, and it stays well-formed.
pub proof fn lemma_next_token_progress(src: Seq<u8>, m: LexModel)
    requires
        model_wf(src, m),
    ensures
        model_wf(src, next_token(src, m).1),
        next_token(src, m).0 is Some ==> progress(src, next_token(src, m).1) < progress(src, m),
        progress(src, next_token(src, m).1) >= 0,
{
    if m.peeked is None {
        let (r, m1) = get_token(src, m);
        lemma_get_token_progress(src, m);
        if r is Err {
            lemma_junk_end(src, m1.ptr);
            if m.state == LexerState::Resource && m1.ptr == m.ptr {
                lemma_junk_end(src, m.ptr + 1);
            }
        }
    }
}

proof fn lemma_get_token_progress(src: Seq<u8>, m: LexModel)
    requires
        model_wf(src, m),
        m.peeked is None,
    ensures
        model_wf(src, get_token(src, m).1),
        get_token(src, m).1.ptr >= m.ptr,
        get_token(src, m).0 matches Ok(Some(_)) ==> progress(src, get_token(src, m).1) < progress(
            src,
            m,
        ),
        get_token(src, m).0 is Err ==> get_token(src, m).1.peeked is None,
        get_token(src, m).0 is Err && m.state == LexerState::Resource && get_token(src, m).1.ptr
            == m.ptr ==> m.ptr < src.len() && !is_alpha(src[m.ptr]) && src[m.ptr] != HASH,
{
    let p = m.ptr;
    match m.state {
        LexerState::Resource => {
            if 0 <= p < src.len() {
                lemma_span_while(src, p + 1, ByteClass::IdentChar);
            }
        },
        LexerState::Message => {
            lemma_span_while(src, p, ByteClass::Space);
            let q = after_spaces(src, p);
            if 0 <= q < src.len() {
                lemma_span_while(src, q + 1, ByteClass::IdentChar);
            }
        },
        LexerState::Pattern => {
            lemma_span_while(src, p, ByteClass::Space);
            let p1 = after_spaces(src, p);
            if byte_at(src, p1) == Some(LF) {
                lemma_blank_lines(src, p1);
            } else {
                lemma_text_stop(src, p1);
                let i = text_stop(src, p1);
                if byte_at(src, i) == Some(LF) {
                    lemma_lines_info(src, i + 1, i, 0, i);
                    lemma_trim_spaces(src, i);
                    lemma_trim_spaces(src, i + 1);
                } else if byte_at(src, i) == Some(OPEN_BRACE) {
                    lemma_span_while(src, i + 1, ByteClass::Space);
                } else {
                    lemma_trim_spaces(src, i);
                }
            }
        },
        LexerState::PatternContinuation => {
            lemma_text_stop(src, p);
            let i = text_stop(src, p);
            if byte_at(src, i) == Some(LF) {
                lemma_lines_info(src, i + 1, i, 0, i);
                lemma_trim_spaces(src, i);
                lemma_trim_spaces(src, i + 1);
            } else if byte_at(src, i) == Some(OPEN_BRACE) {
                lemma_span_while(src, i + 1, ByteClass::Space);
            } else {
                lemma_trim_spaces(src, i);
            }
        },
        LexerState::Comment => {
            lemma_line_stop(src, p);
        },
        LexerState::Expression => {
            if 0 <= p < src.len() {
                lemma_span_while(src, p + 1, ByteClass::IdentChar);
                lemma_span_while(src, p + 1, ByteClass::Digit);
                lemma_quote_stop(src, p + 1);
            }
            lemma_span_while(src, p, ByteClass::Space);
        },
    }
}

/// The tokens the lexer gives from `m` until it has no more.
pub open spec fn all_tokens(src: Seq<u8>, m: LexModel) -> Seq<Token>
    decreases progress(src, m),
{
    let (t, m1) = next_token(src, m);
    match t {
        None => Seq::empty(),
        Some(tok) => if model_wf(src, m) && 0 <= progress(src, m1) < progress(src, m) {
            seq![tok] + all_tokens(src, m1)
        } else {
            Seq::empty()
        },
    }
}

/// A lexer over the bytes of an FTL source.
#[derive(Debug)]
pub struct Lexer<'l> {
    state: LexerState,
    source: &'l [u8],
    ptr: usize,
    entry_start: usize,
    peeked: Option<Option<Token>>,
}

impl<'l> Lexer<'l> {
    pub closed spec fn src(&self) -> Seq<u8> {
        self.source@
    }

    pub closed spec fn model(&self) -> LexModel {
        LexModel {
            state: self.state,
            ptr: self.ptr as int,
            entry_start: self.entry_start as int,
            peeked: self.peeked,
        }
    }

    /// The cursor is at most one past the end of the source; in a pattern or a comment
    /// some byte before it is not a space.
    pub closed spec fn wf(&self) -> bool {
        &&& self.source@.len() < usize::MAX
        &&& self.ptr <= self.source@.len() + 1
        &&& self.state != LexerState::Resource ==> self.ptr <= self.source@.len()
        &&& (self.state == LexerState::Pattern || self.state == LexerState::PatternContinuation
            || self.state == LexerState::Comment) ==> mark_before(self.source@, self.ptr as int)
    }

    /// A lexer at the start of `source`.
    pub fn new(source: &'l [u8]) -> (r: Self)
        requires
            source@.len() < usize::MAX,
        ensures
            r.wf(),
            r.src() == source@,
            r.model() == (LexModel {
                state: LexerState::Resource,
                ptr: 0,
                entry_start: 0,
                peeked: None,
            }),
    {
        Lexer { state: LexerState::Resource, source, ptr: 0, entry_start: 0, peeked: None }
    }

    fn byte(&self, pos: usize) -> (r: Option<u8>)
        ensures
            r == byte_at(self.source@, pos as int),
    {
        if pos < self.source.len() {
            Some(self.source[pos])
        } else {
            None
        }
    }

    /// Reads an identifier that starts at the cursor.
    fn get_ident(&mut self) -> (r: Token)
        requires
            old(self).wf(),
            (old(self).ptr as int) < old(self).source@.len(),
        ensures
            final(self).wf(),
            final(self).source == old(self).source,
            final(self).state == old(self).state,
            final(self).entry_start == old(self).entry_start,
            final(self).peeked == old(self).peeked,
            final(self).ptr == ident_end(old(self).source@, old(self).ptr as int),
            final(self).ptr <= final(self).source@.len(),
            old(self).ptr < final(self).ptr,
            r == Token::Identifier(range(old(self).ptr as int, final(self).ptr as int)),
    {
        let start = self.ptr;
        let ghost src = self.source@;
        proof {
            lemma_span_while(src, start + 1, ByteClass::IdentChar);
        }
        self.ptr += 1;
        while self.ptr < self.source.len() && ident_char(self.source[self.ptr])
            invariant
                self.source@ == src,
                src.len() < usize::MAX,
                start < self.ptr <= src.len(),
                self.state == old(self).state,
                self.source == old(self).source,
                self.entry_start == old(self).entry_start,
                self.peeked == old(self).peeked,
                span_while(src, self.ptr as int, ByteClass::IdentChar) == span_while(
                    src,
                    start + 1,
                    ByteClass::IdentChar,
                ),
                (self.state == LexerState::Pattern || self.state == LexerState::PatternContinuation
                    || self.state == LexerState::Comment) ==> mark_before(src, start as int),
            decreases src.len() - self.ptr,
        {
            self.ptr += 1;
        }
        Token::Identifier(start..self.ptr)
    }

    /// Moves the cursor past spaces.
    fn skip_inline_ws(&mut self)
        requires
            old(self).wf(),
        ensures
            final(self).wf(),
            final(self).source == old(self).source,
            final(self).state == old(self).state,
            final(self).entry_start == old(self).entry_start,
            final(self).peeked == old(self).peeked,
            final(self).ptr == after_spaces(old(self).source@, old(self).ptr as int),
    {
        let ghost src = self.source@;
        let ghost p0 = self.ptr as int;
        proof {
            lemma_span_while(src, p0, ByteClass::Space);
        }
        while self.ptr < self.source.len() && self.source[self.ptr] == SPACE
            invariant
                self.source@ == src,
                src.len() < usize::MAX,
                p0 <= self.ptr <= src.len() + 1,
                self.state == old(self).state,
                self.source == old(self).source,
                self.entry_start == old(self).entry_start,
                self.peeked == old(self).peeked,
                span_while(src, self.ptr as int, ByteClass::Space) == span_while(src, p0, ByteClass::Space),
                (self.state == LexerState::Pattern || self.state == LexerState::PatternContinuation
                    || self.state == LexerState::Comment) ==> mark_before(src, p0),
            decreases src.len() + 1 - self.ptr,
        {
            self.ptr += 1;
        }
    }

    /// Moves the cursor past spaces; yields the byte there.
    fn first_after_inline(&mut self) -> (r: Option<u8>)
        requires
            old(self).wf(),
        ensures
            final(self).wf(),
            final(self).source == old(self).source,
            final(self).state == old(self).state,
            final(self).entry_start == old(self).entry_start,
            final(self).peeked == old(self).peeked,
            final(self).ptr == after_spaces(old(self).source@, old(self).ptr as int),
            r == byte_at(old(self).source@, final(self).ptr as int),
    {
        self.skip_inline_ws();
        self.byte(self.ptr)
    }

    /// The end of a text at `end` once its trailing spaces are dropped.
    fn trim_end_spaces(&self, end: usize) -> (r: usize)
        requires
            mark_before(self.source@, end as int),
        ensures
            r == trim_spaces(self.source@, end as int),
    {
        let ghost src = self.source@;
        let mut e = end;
        while e > 0 && self.byte(e - 1) == Some(SPACE)
            invariant
                mark_before(src, e as int),
                trim_spaces(src, e as int) == trim_spaces(src, end as int),
                src == self.source@,
            decreases e,
        {
            proof {
                let k = choose|k: int| 0 <= k < e && k < src.len() && src[k] != SPACE;
                assert(k != e - 1);
            }
            e -= 1;
        }
        e
    }

    /// Reads what follows the line feed at the cursor.
    fn next_lines_info(&mut self) -> (r: NextLine)
        requires
            old(self).wf(),
            (old(self).ptr as int) < old(self).source@.len(),
            old(self).source@[old(self).ptr as int] == LF,
        ensures
            final(self).wf(),
            final(self).source == old(self).source,
            final(self).state == old(self).state,
            final(self).entry_start == old(self).entry_start,
            final(self).peeked == old(self).peeked,
            (r, final(self).ptr as int) == next_lines(old(self).source@, old(self).ptr as int),
            old(self).ptr <= final(self).ptr,
            r is Eol ==> old(self).ptr < final(self).ptr,
            r is TextContinuation ==> old(self).ptr < final(self).ptr,
            final(self).ptr <= final(self).source@.len(),
    {
        let ghost src = self.source@;
        let ghost p0 = self.ptr as int;
        let mut last_eol = self.ptr;
        let mut eols: usize = 0;
        self.ptr += 1;
        loop
            invariant
                self.source@ == src,
                src.len() < usize::MAX,
                0 <= p0 < src.len(),
                p0 == old(self).ptr,
                src == old(self).source@,
                src[p0] == LF,
                p0 <= last_eol < self.ptr <= src.len(),
                eols < self.ptr - p0,
                eols > 0 ==> p0 < last_eol,
                self.state == old(self).state,
                self.source == old(self).source,
                self.entry_start == old(self).entry_start,
                self.peeked == old(self).peeked,
                (self.state == LexerState::Pattern || self.state == LexerState::PatternContinuation
                    || self.state == LexerState::Comment) ==> mark_before(src, p0),
                lines_info(src, self.ptr as int, last_eol as int, eols as int) == next_lines(src, p0),
            decreases src.len() - self.ptr,
        {
            let line_start = self.ptr;
            proof {
                lemma_span_while(src, line_start as int, ByteClass::Space);
            }
            let b = self.first_after_inline();
            if b == Some(DOT) {
                return NextLine::Attribute;
            } else if b == Some(LF) {
                last_eol = self.ptr;
                eols += 1;
                self.ptr += 1;
            } else if b == Some(OPEN_BRACE) {
                if eols > 0 {
                    self.ptr = last_eol;
                    return NextLine::Eol(eols);
                } else {
                    return NextLine::TextContinuation(self.ptr - line_start);
                }
            } else {
                let line_indent = self.ptr - line_start;
                if line_indent > 0 {
                    if eols > 0 {
                        self.ptr = last_eol;
                        return NextLine::Eol(eols);
                    } else {
                        return NextLine::TextContinuation(line_indent);
                    }
                } else {
                    return NextLine::NewEntry;
                }
            }
        }
    }

    /// Moves the cursor to the first `\n` or `{` at or after it, or to the end.
    fn skip_text(&mut self)
        requires
            old(self).wf(),
        ensures
            final(self).wf(),
            final(self).source == old(self).source,
            final(self).state == old(self).state,
            final(self).entry_start == old(self).entry_start,
            final(self).peeked == old(self).peeked,
            final(self).ptr == text_stop(old(self).source@, old(self).ptr as int),
            old(self).ptr <= final(self).ptr,
    {
        let ghost src = self.source@;
        let ghost p0 = self.ptr as int;
        while self.ptr < self.source.len() && self.source[self.ptr] != LF && self.source[self.ptr]
            != OPEN_BRACE
            invariant
                self.source@ == src,
                src.len() < usize::MAX,
                p0 <= self.ptr <= src.len() + 1,
                self.state == old(self).state,
                self.source == old(self).source,
                self.entry_start == old(self).entry_start,
                self.peeked == old(self).peeked,
                text_stop(src, self.ptr as int) == text_stop(src, p0),
                self.ptr <= src.len() || self.ptr == p0,
                (self.state == LexerState::Pattern || self.state == LexerState::PatternContinuation
                    || self.state == LexerState::Comment) ==> mark_before(src, p0),
            decreases src.len() + 1 - self.ptr,
        {
            self.ptr += 1;
        }
    }

    /// A text from `start` to `end`, then `next`.
    fn text_then(&mut self, start: usize, end: usize, next: Token) -> (r: Result<Option<Token>, LexerError>)
        requires
            old(self).wf(),
            old(self).state != LexerState::Expression ==> mark_before(old(self).source@, end as int),
        ensures
            final(self).wf(),
            final(self).source == old(self).source,
            (r, final(self).model()) == text_then(old(self).source@, start as int, end as int, next, old(self).model()),
    {
        let mut end = end;
        if self.state != LexerState::Expression {
            end = self.trim_end_spaces(end);
        }
        if start != end {
            self.peeked = Some(Some(next));
            Ok(Some(Token::Text(start..end)))
        } else {
            Ok(Some(next))
        }
    }

    /// Ends a text at the line feed at the cursor; yields the token after the text and
    /// where the text ends.
    fn end_text_line(&mut self) -> (r: (Token, usize))
        requires
            old(self).wf(),
            (old(self).ptr as int) < old(self).source@.len(),
            old(self).source@[old(self).ptr as int] == LF,
        ensures
            final(self).wf(),
            final(self).source == old(self).source,
            final(self).entry_start == old(self).entry_start,
            final(self).peeked == old(self).peeked,
            (r.0, final(self).state, final(self).ptr as int, r.1 as int) == text_line_end(
                old(self).source@,
                old(self).ptr as int,
            ),
            old(self).ptr <= final(self).ptr,
    {
        let ghost src = self.source@;
        let ghost p = self.ptr as int;
        let end = self.ptr;
        match self.next_lines_info() {
            NextLine::NewEntry => {
                self.state = LexerState::Resource;
                (Token::Eot, end)
            },
            NextLine::Eol(eols) => {
                self.state = LexerState::PatternContinuation;
                assert(mark_before(src, self.ptr as int)) by {
                    assert(src[p] != SPACE);
                }
                (Token::Eol(eols), end)
            },
            NextLine::Attribute => {
                self.state = LexerState::Message;
                (Token::Eot, end)
            },
            NextLine::TextContinuation(r) => {
                self.state = LexerState::PatternContinuation;
                assert(mark_before(src, self.ptr as int)) by {
                    assert(src[p] != SPACE);
                }
                (Token::Indent(r), end + 1)
            },
        }
    }

    fn tokenize_pattern(&mut self) -> (r: Result<Option<Token>, LexerError>)
        requires
            old(self).wf(),
            old(self).state == LexerState::Pattern,
        ensures
            final(self).wf(),
            final(self).source == old(self).source,
            (r, final(self).model()) == tokenize_pattern(old(self).source@, old(self).model()),
    {
        let ghost src = self.source@;
        let ghost m0 = self.model();
        proof {
            lemma_span_while(src, self.ptr as int, ByteClass::Space);
        }
        self.skip_inline_ws();
        if self.byte(self.ptr) == Some(LF) {
            let mut eol = self.ptr;
            let ghost p = eol as int;
            loop
                invariant
                    self.source@ == src,
                    src == old(self).source@,
                    m0 == old(self).model(),
                    src.len() < usize::MAX,
                    0 <= eol < src.len(),
                    src[eol as int] == LF,
                    blank_lines(src, eol as int) == blank_lines(src, p),
                    p == after_spaces(src, m0.ptr),
                    0 <= p < src.len(),
                    src[p] == LF,
                    self.state == old(self).state,
                    self.source == old(self).source,
                    self.entry_start == old(self).entry_start,
                    self.peeked == old(self).peeked,
                decreases src.len() - eol,
            {
                self.ptr = eol + 1;
                proof {
                    lemma_span_while(src, eol + 1, ByteClass::Space);
                }
                let b = self.first_after_inline();
                if b == Some(LF) {
                    eol = self.ptr;
                } else if b == Some(DOT) || b.is_none() {
                    self.state = LexerState::Message;
                    assert(blank_lines(src, eol as int) == (Token::Eot, LexerState::Message, self.ptr as int));
                    return Ok(Some(Token::Eot));
                } else {
                    let indent = self.ptr - (eol + 1);
                    self.state = LexerState::PatternContinuation;
                    assert(src[eol as int] != SPACE);
                    return Ok(Some(Token::Indent(indent)));
                }
            }
        }
        let start = self.ptr;
        self.skip_text();
        let ghost i = self.ptr as int;
        if self.byte(self.ptr) == Some(LF) {
            let (next, end) = self.end_text_line();
            self.text_then(start, end, next)
        } else if self.byte(self.ptr) == Some(OPEN_BRACE) {
            self.state = LexerState::Expression;
            let end = self.ptr;
            self.ptr += 1;
            self.skip_inline_ws();
            self.text_then(start, end, Token::OpenCurlyBraces)
        } else {
            let end = self.ptr;
            self.state = LexerState::Resource;
            self.text_then(start, end, Token::Eot)
        }
    }

    fn tokenize_pattern_continuation(&mut self) -> (r: Result<Option<Token>, LexerError>)
        requires
            old(self).wf(),
            old(self).state == LexerState::PatternContinuation,
        ensures
            final(self).wf(),
            final(self).source == old(self).source,
            (r, final(self).model()) == tokenize_pattern_continuation(
                old(self).source@,
                old(self).model(),
            ),
    {
        let start = self.ptr;
        self.skip_text();
        if self.byte(self.ptr) == Some(LF) {
            let (next, end) = self.end_text_line();
            self.text_then(start, end, next)
        } else if self.byte(self.ptr) == Some(OPEN_BRACE) {
            self.state = LexerState::Expression;
            let end = self.ptr;
            self.ptr += 1;
            self.skip_inline_ws();
            self.text_then(start, end, Token::OpenCurlyBraces)
        } else {
            self.state = LexerState::Resource;
            let end = self.ptr;
            self.ptr += 1;
            self.text_then(start, end, Token::Eot)
        }
    }

    fn tokenize_message(&mut self) -> (r: Result<Option<Token>, LexerError>)
        requires
            old(self).wf(),
            old(self).state == LexerState::Message,
        ensures
            final(self).wf(),
            final(self).source == old(self).source,
            (r, final(self).model()) == tokenize_message(old(self).source@, old(self).model()),
    {
        let ghost src = self.source@;
        proof {
            lemma_span_while(src, self.ptr as int, ByteClass::Space);
        }
        let b = self.first_after_inline();
        if b == Some(EQUALS) {
            let ghost q = self.ptr as int;
            self.ptr += 1;
            self.state = LexerState::Pattern;
            assert(src[q] != SPACE);
            Ok(Some(Token::EqSign))
        } else if b == Some(DOT) {
            self.ptr += 1;
            Ok(Some(Token::Dot))
        } else if b.is_some() && alpha(b.unwrap()) {
            let ident = self.get_ident();
            Ok(Some(ident))
        } else {
            Err(LexerError::Unknown)
        }
    }

    fn tokenize_resource(&mut self) -> (r: Result<Option<Token>, LexerError>)
        requires
            old(self).wf(),
            old(self).state == LexerState::Resource,
        ensures
            final(self).wf(),
            final(self).source == old(self).source,
            (r, final(self).model()) == tokenize_resource(old(self).source@, old(self).model()),
    {
        let ghost src = self.source@;
        self.entry_start = self.ptr;
        match self.byte(self.ptr) {
            Some(b) => {
                if b == LF {
                    self.ptr += 1;
                    Ok(Some(Token::Eol(1)))
                } else if alpha(b) {
                    let ident = self.get_ident();
                    self.state = LexerState::Message;
                    Ok(Some(ident))
                } else if b == HASH {
                    let ghost p = self.ptr as int;
                    let sigil;
                    self.ptr += 1;
                    if self.byte(self.ptr) == Some(HASH) {
                        self.ptr += 1;
                        if self.byte(self.ptr) == Some(HASH) {
                            self.ptr += 1;
                            sigil = Token::ResourceCommentSign;
                        } else {
                            sigil = Token::GroupCommentSign;
                        }
                    } else {
                        sigil = Token::CommentSign;
                    }
                    let next = self.byte(self.ptr);
                    if next == Some(SPACE) {
                        self.ptr += 1;
                        self.state = LexerState::Comment;
                        assert(src[p] != SPACE);
                        Ok(Some(sigil))
                    } else if next == Some(LF) {
                        Ok(Some(sigil))
                    } else {
                        Err(LexerError::Unknown)
                    }
                } else if b == MINUS {
                    self.ptr += 1;
                    Ok(Some(Token::MinusSign))
                } else {
                    Err(LexerError::Unknown)
                }
            },
            None => Ok(None),
        }
    }

    fn tokenize_expression(&mut self) -> (r: Result<Token, LexerError>)
        requires
            old(self).wf(),
            old(self).state == LexerState::Expression,
        ensures
            final(self).wf(),
            final(self).source == old(self).source,
            (r, final(self).model()) == tokenize_expression(old(self).source@, old(self).model()),
    {
        let ghost src = self.source@;
        let p = self.ptr;
        match self.byte(p) {
            Some(b) => {
                if digit(b) {
                    let start = self.ptr;
                    proof {
                        lemma_span_while(src, p + 1, ByteClass::Digit);
                    }
                    self.ptr += 1;
                    while self.ptr < self.source.len() && digit(self.source[self.ptr])
                        invariant
                            self.source@ == src,
                            src.len() < usize::MAX,
                            p < self.ptr <= src.len(),
                            self.state == old(self).state,
                            self.source == old(self).source,
                            self.entry_start == old(self).entry_start,
                            self.peeked == old(self).peeked,
                            span_while(src, self.ptr as int, ByteClass::Digit) == span_while(
                                src,
                                p + 1,
                                ByteClass::Digit,
                            ),
                        decreases src.len() - self.ptr,
                    {
                        self.ptr += 1;
                    }
                    Ok(Token::Number(start..self.ptr))
                } else if alpha(b) {
                    let ident = self.get_ident();
                    Ok(ident)
                } else if b == DOT {
                    self.ptr += 1;
                    Ok(Token::Dot)
                } else if b == MINUS {
                    self.ptr += 1;
                    Ok(Token::MinusSign)
                } else if b == QUOTE {
                    self.ptr += 1;
                    let start = self.ptr;
                    while self.ptr < self.source.len()
                        invariant
                            self.source@ == src,
                            src.len() < usize::MAX,
                            p < self.ptr <= src.len(),
                            start == p + 1,
                            p == old(self).ptr,
                            src == old(self).source@,
                            byte_at(src, p as int) == Some(QUOTE),
                            self.state == old(self).state,
                            self.source == old(self).source,
                            self.entry_start == old(self).entry_start,
                            self.peeked == old(self).peeked,
                            quote_stop(src, self.ptr as int) == quote_stop(src, p + 1),
                        decreases src.len() - self.ptr,
                    {
                        let c = self.source[self.ptr];
                        self.ptr += 1;
                        if c == QUOTE {
                            assert(quote_stop(src, self.ptr - 1) == self.ptr - 1);
                            return Ok(Token::Text(start..self.ptr - 1));
                        }
                    }
                    Err(LexerError::Unknown)
                } else if b == SPACE {
                    proof {
                        lemma_span_while(src, p as int, ByteClass::Space);
                    }
                    if self.first_after_inline() == Some(CLOSE_BRACE) {
                        self.ptr += 1;
                        self.state = LexerState::PatternContinuation;
                        let ghost q = self.ptr - 1;
                        assert(src[q] != SPACE);
                        Ok(Token::CloseCurlyBraces)
                    } else {
                        Err(LexerError::Unknown)
                    }
                } else if b == CLOSE_BRACE {
                    self.ptr += 1;
                    self.state = LexerState::PatternContinuation;
                    assert(src[p as int] != SPACE);
                    Ok(Token::CloseCurlyBraces)
                } else {
                    Err(LexerError::Unknown)
                }
            },
            None => Err(LexerError::Unknown),
        }
    }

    fn tokenize_comment(&mut self) -> (r: Result<Token, LexerError>)
        requires
            old(self).wf(),
            old(self).state == LexerState::Comment,
        ensures
            final(self).wf(),
            final(self).source == old(self).source,
            (r, final(self).model()) == tokenize_comment(old(self).source@, old(self).model()),
    {
        let ghost src = self.source@;
        let start = self.ptr;
        let ghost j = line_stop(src, start as int);
        loop
            invariant_except_break
                line_stop(src, self.ptr as int) == j,
                self.ptr <= src.len(),
            invariant
                self.source@ == src,
                src.len() < usize::MAX,
                start <= self.ptr,
                start == old(self).ptr,
                j == line_stop(src, start as int),
                mark_before(src, start as int),
                self.state == old(self).state,
                self.source == old(self).source,
                self.entry_start == old(self).entry_start,
                self.peeked == old(self).peeked,
            ensures
                self.ptr == (if j < src.len() {
                    j + 1
                } else {
                    j
                }),
                self.ptr <= src.len(),
            decreases src.len() - self.ptr,
        {
            if self.ptr >= self.source.len() {
                break;
            }
            let c = self.source[self.ptr];
            self.ptr += 1;
            if c == LF {
                break;
            }
        }
        self.state = LexerState::Resource;
        Ok(Token::Text(start..self.ptr - 1))
    }

    fn get_token(&mut self) -> (r: Result<Option<Token>, LexerError>)
        requires
            old(self).wf(),
        ensures
            final(self).wf(),
            final(self).source == old(self).source,
            (r, final(self).model()) == get_token(old(self).source@, old(self).model()),
    {
        match self.state {
            LexerState::Resource => self.tokenize_resource(),
            LexerState::PatternContinuation => self.tokenize_pattern_continuation(),
            LexerState::Pattern => self.tokenize_pattern(),
            LexerState::Message => self.tokenize_message(),
            LexerState::Comment => match self.tokenize_comment() {
                Ok(t) => Ok(Some(t)),
                Err(e) => Err(e),
            },
            LexerState::Expression => match self.tokenize_expression() {
                Ok(t) => Ok(Some(t)),
                Err(e) => Err(e),
            },
        }
    }

    fn collect_junk_range(&mut self) -> (r: Range<usize>)
        requires
            old(self).wf(),
        ensures
            final(self).wf(),
            final(self).source == old(self).source,
            (r, final(self).model()) == junk(old(self).source@, old(self).model()),
    {
        let ghost src = self.source@;
        let ghost p0 = self.ptr as int;
        loop
            invariant
                self.source@ == src,
                src.len() < usize::MAX,
                p0 <= self.ptr <= src.len() + 1,
                self.ptr <= src.len() || self.ptr == p0,
                self.state == old(self).state,
                self.source == old(self).source,
                self.entry_start == old(self).entry_start,
                self.peeked == old(self).peeked,
                junk_end(src, self.ptr as int) == junk_end(src, p0),
                p0 == old(self).ptr,
                src == old(self).source@,
            ensures
                self.source@ == src,
                self.ptr <= src.len() + 1,
                self.ptr <= src.len() || self.ptr == p0,
                self.state == old(self).state,
                self.source == old(self).source,
                self.entry_start == old(self).entry_start,
                self.peeked == old(self).peeked,
                self.ptr == junk_end(src, p0),
            decreases src.len() + 1 - self.ptr,
        {
            if self.ptr >= self.source.len() {
                break;
            }
            let b = self.source[self.ptr];
            if (alpha(b) || b == HASH) && self.ptr > 1 && self.source[self.ptr - 1] == LF {
                break;
            }
            self.ptr += 1;
        }
        self.state = LexerState::Resource;
        self.entry_start..self.ptr
    }

    /// The next token: the one kept ahead, or the next one read; where reading fails,
    /// the junk of the current entry.
    pub fn next(&mut self) -> (r: Option<Token>)
        requires
            old(self).wf(),
        ensures
            final(self).wf(),
            final(self).src() == old(self).src(),
            (r, final(self).model()) == next_token(old(self).src(), old(self).model()),
    {
        match self.peeked.take() {
            Some(token) => token,
            None => match self.get_token() {
                Ok(token) => token,
                Err(_) => {
                    let junk_range = self.collect_junk_range();
                    Some(Token::Junk(junk_range))
                },
            },
        }
    }

    /// The next token: the one kept ahead, or the next one read.
    pub fn try_next(&mut self) -> (r: Result<Option<Token>, LexerError>)
        requires
            old(self).wf(),
        ensures
            final(self).wf(),
            final(self).src() == old(self).src(),
            (r, final(self).model()) == try_next(old(self).src(), old(self).model()),
    {
        match self.peeked.take() {
            Some(token) => Ok(token),
            None => self.get_token(),
        }
    }

    /// Reads the next token, which must be `token`.
    pub fn expect(&mut self, token: Token) -> (r: Result<(), LexerError>)
        requires
            old(self).wf(),
        ensures
            final(self).wf(),
            final(self).src() == old(self).src(),
            final(self).model() == try_next(old(self).src(), old(self).model()).1,
            r is Ok <==> try_next(old(self).src(), old(self).model()).0 == Ok::<_, LexerError>(Some(token)),
    {
        match self.try_next() {
            Ok(t) => {
                let expected = Some(token);
                if t != expected {
                    Err(LexerError::Unknown)
                } else {
                    Ok(())
                }
            },
            Err(e) => Err(e),
        }
    }

    /// The next token, which is kept ahead.
    pub fn try_peek(&mut self) -> (r: Result<Option<&Token>, LexerError>)
        requires
            old(self).wf(),
        ensures
            final(self).wf(),
            final(self).src() == old(self).src(),
            match try_peek(old(self).src(), old(self).model()) {
                (Ok(t), m) => r matches Ok(o) && same_token(o, t) && final(self).model() == m,
                (Err(e), m) => r matches Err(x) && x == e && final(self).model() == m,
            },
    {
        if self.peeked.is_some() {
            match &self.peeked {
                Some(token) => Ok(token.as_ref()),
                None => Ok(None),
            }
        } else {
            match self.get_token() {
                Ok(token) => {
                    self.peeked = Some(token);
                    match &self.peeked {
                        Some(t) => Ok(t.as_ref()),
                        None => Ok(None),
                    }
                },
                Err(e) => Err(e),
            }
        }
    }

    /// Reads the next token where it is `token`; otherwise keeps it ahead.
    pub fn take_if(&mut self, token: Token) -> (r: Result<bool, LexerError>)
        requires
            old(self).wf(),
        ensures
            final(self).wf(),
            final(self).src() == old(self).src(),
            (r, final(self).model()) == take_if(old(self).src(), old(self).model(), token),
    {
        if self.peeked.is_some() {
            let expected = Some(token);
            let same = match &self.peeked {
                Some(t) => *t == expected,
                None => false,
            };
            if same {
                self.peeked = None;
                Ok(true)
            } else {
                Ok(false)
            }
        } else {
            match self.get_token() {
                Ok(Some(t)) => {
                    if t == token {
                        Ok(true)
                    } else {
                        self.peeked = Some(Some(t));
                        Ok(false)
                    }
                },
                Ok(None) => Ok(false),
                Err(e) => Err(e),
            }
        }
    }

    /// The range of the junk of the current entry; the lexer goes on after it.
    pub fn get_junk(&mut self) -> (r: Range<usize>)
        requires
            old(self).wf(),
        ensures
            final(self).wf(),
            final(self).src() == old(self).src(),
            (r, final(self).model()) == junk(old(self).src(), old(self).model()),
    {
        self.collect_junk_range()
    }

    /// All the tokens, up to the first `None`.
    pub fn collect(self) -> (r: Vec<Token>)
        requires
            self.wf(),
        ensures
            r@ == all_tokens(self.src(), self.model()),
    {
        let ghost src = self.source@;
        let ghost m0 = self.model();
        let mut lexer = self;
        let mut tokens: Vec<Token> = Vec::new();
        loop
            invariant_except_break
                tokens@ + all_tokens(src, lexer.model()) == all_tokens(src, m0),
            invariant
                lexer.wf(),
                lexer.source@ == src,
            ensures
                tokens@ == all_tokens(src, m0),
            decreases progress(src, lexer.model()),
        {
            let ghost m = lexer.model();
            proof {
                lemma_next_token_progress(src, m);
            }
            match lexer.next() {
                Some(t) => {
                    let ghost t0 = tokens@;
                    tokens.push(t);
                    assert(tokens@ + all_tokens(src, lexer.model()) =~= t0 + all_tokens(src, m));
                },
                None => {
                    assert(tokens@ + all_tokens(src, m) =~= tokens@);
                    break;
                },
            }
        }
        tokens
    }
}

} // verus!
