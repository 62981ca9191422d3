//! A lexer for sources of messages with one-line or indented values and comments.
//!
//! It reads a token in one of three states. It panics on a byte that starts no
//! token and on a comment sigil of more than three `#`: the steps are stated with
//! `None` for those.
use crate::ascii::{
    alpha, byte_at, ident_char, is_alpha, lemma_span_while, span_while, ByteClass, DOT, EQUALS,
    HASH, LF, MINUS, SPACE,
};
use core::ops::Range;
use vstd::prelude::*;

verus! {

/// A token, with the byte ranges it covers where it has any; a text carries its
/// indent.
#[derive(Debug)]
pub enum Token {
    Identifier(Range<usize>),
    EqSign,
    CommentSign,
    GroupCommentSign,
    ResourceCommentSign,
    Eol,
    /// The end of a text.
    Eot,
    Dot,
    MinusSign,
    Text(usize, Range<usize>),
}

impl PartialEq for Token {
    fn eq(&self, other: &Token) -> (r: bool) {
        match (self, other) {
            (Token::Identifier(a), Token::Identifier(b)) => a.start == b.start && a.end == b.end,
            (Token::EqSign, Token::EqSign) => true,
            (Token::CommentSign, Token::CommentSign) => true,
            (Token::GroupCommentSign, Token::GroupCommentSign) => true,
            (Token::ResourceCommentSign, Token::ResourceCommentSign) => true,
            (Token::Eol, Token::Eol) => true,
            (Token::Eot, Token::Eot) => true,
            (Token::Dot, Token::Dot) => true,
            (Token::MinusSign, Token::MinusSign) => true,
            (Token::Text(i, a), Token::Text(j, b)) => *i == *j && a.start == b.start && a.end == b.end,
            _ => false,
        }
    }
}

impl vstd::std_specs::cmp::PartialEqSpecImpl for Token {
    open spec fn obeys_eq_spec() -> bool {
        true
    }

    open spec fn eq_spec(&self, other: &Token) -> bool {
        *self == *other
    }
}

/// What the lexer reads next: an entry's tokens, a value, or a comment's line.
#[derive(Debug, Clone, Copy, PartialEq, Eq, Structural)]
pub enum LexerState {
    Resource,
    Text,
    TextLine,
}

/// The range from `a` to `b`.
pub open spec fn range(a: int, b: int) -> Range<usize> {
    Range { start: a as usize, end: b as usize }
}

/// The lexer between two tokens: its state and position.
pub struct LexModel {
    pub state: LexerState,
    pub ptr: int,
}

pub open spec fn after_spaces(src: Seq<u8>, p: int) -> int {
    span_while(src, p, ByteClass::Space)
}

/// The first `\n` at or after `p`, or the end of the source.
pub open spec fn line_stop(src: Seq<u8>, p: int) -> int
    decreases src.len() - p,
{
    if 0 <= p < src.len() && src[p] != LF {
        line_stop(src, p + 1)
    } else {
        p
    }
}

/// A token between entries; `None` where the lexer panics.
pub open spec fn tokenize_resource(src: Seq<u8>, m: LexModel) -> Option<(Option<Token>, LexModel)> {
    let p = after_spaces(src, m.ptr);
    match byte_at(src, p) {
        Some(b) if is_alpha(b) => {
            let e = span_while(src, p + 1, ByteClass::IdentChar);
            Some((Some(Token::Identifier(range(p, e))), LexModel { ptr: e, ..m }))
        },
        Some(b) if b == EQUALS => Some(
            (Some(Token::EqSign), LexModel { state: LexerState::Text, ptr: p + 1 }),
        ),
        Some(b) if b == HASH => {
            let e = span_while(src, p, ByteClass::Hash);
            let level = e - p;
            if level > 3 {
                None
            } else {
                Some(
                    (
                        Some(
                            if level == 1 {
                                Token::CommentSign
                            } else if level == 2 {
                                Token::GroupCommentSign
                            } else {
                                Token::ResourceCommentSign
                            },
                        ),
                        LexModel { state: LexerState::TextLine, ptr: e },
                    ),
                )
            }
        },
        Some(b) if b == LF => Some((Some(Token::Eol), LexModel { ptr: p + 1, ..m })),
        Some(b) if b == DOT => Some((Some(Token::Dot), LexModel { ptr: p + 1, ..m })),
        Some(b) if b == MINUS => Some((Some(Token::MinusSign), LexModel { ptr: p + 1, ..m })),
        None => Some((None, LexModel { ptr: p, ..m })),
        _ => None,
    }
}

/// The text of a comment line, up to and past its line feed.
pub open spec fn tokenize_text_line(src: Seq<u8>, m: LexModel) -> (Option<Token>, LexModel) {
    let start = after_spaces(src, m.ptr);
    let j = line_stop(src, start);
    let q = if j < src.len() {
        j + 1
    } else {
        j
    };
    (
        Some(Token::Text((start - m.ptr) as usize, range(start, q - 1))),
        LexModel { state: LexerState::Resource, ptr: q },
    )
}

/// Whether the line that starts at `p` goes on with the text: it is indented and does
/// not start an attribute. Yields where the lexer stops.
pub open spec fn line_is_text(src: Seq<u8>, p: int) -> (bool, int) {
    let q = after_spaces(src, p);
    if q - p == 0 {
        (false, q)
    } else if byte_at(src, q) == Some(DOT) {
        (false, q - 1)
    } else {
        (true, q)
    }
}

/// A value: a text up to its line end; at a line end that follows no text, a line end
/// where the next line goes on with the text, or the end of the value.
pub open spec fn tokenize_text(src: Seq<u8>, m: LexModel) -> (Option<Token>, LexModel) {
    let start = after_spaces(src, m.ptr);
    let j = line_stop(src, start);
    if j >= src.len() {
        (None, LexModel { ptr: j, ..m })
    } else if j == start {
        let (more, q) = line_is_text(src, j + 1);
        if more {
            (Some(Token::Eol), LexModel { ptr: q, ..m })
        } else {
            (Some(Token::Eot), LexModel { state: LexerState::Resource, ptr: q })
        }
    } else {
        (Some(Token::Text((start - m.ptr) as usize, range(start, j))), LexModel { ptr: j, ..m })
    }
}

/// The next token read in the lexer's state; `None` where the lexer panics.
pub open spec fn next_token(src: Seq<u8>, m: LexModel) -> Option<(Option<Token>, LexModel)> {
    match m.state {
        LexerState::Resource => tokenize_resource(src, m),
        LexerState::Text => Some(tokenize_text(src, m)),
        LexerState::TextLine => Some(tokenize_text_line(src, m)),
    }
}

/// How far the lexer is from the end: the bytes left, then whether it reads an entry.
pub open spec fn progress(src: Seq<u8>, m: LexModel) -> int {
    2 * (src.len() + 1 - m.ptr) + if m.state == LexerState::Resource {
        0int
    } else {
        1
    }
}

/// The tokens the lexer gives from `m` until it has no more, or `None` where it
/// panics on the way.
pub open spec fn all_tokens(src: Seq<u8>, m: LexModel) -> Option<Seq<Token>>
    decreases progress(src, m),
{
    match next_token(src, m) {
        None => None,
        Some((None, _)) => Some(Seq::empty()),
        Some((Some(t), m1)) => if 0 <= progress(src, m1) < progress(src, m) {
            match all_tokens(src, m1) {
                Some(rest) => Some(seq![t] + rest),
                None => None,
            }
        } else {
            None
        },
    }
}


proof fn lemma_line_stop(src: Seq<u8>, p: int)
    requires
        0 <= p <= src.len(),
    ensures
        p <= line_stop(src, p) <= src.len(),
    decreases src.len() - p,
{
    if p < src.len() && src[p] != LF {
        lemma_line_stop(src, p + 1);
    }
}

/// Between entries, past any spaces, a run of `#` reads as the sigil its length tells:
/// one `#` a comment, two a group comment, three a resource comment.
pub proof fn lemma_comment_sigils(src: Seq<u8>, m: LexModel)
    requires
        m.state == LexerState::Resource,
    ensures
        ({
            let p = after_spaces(src, m.ptr);
            &&& byte_at(src, p) == Some(HASH) && byte_at(src, p + 1) != Some(HASH) ==> next_token(src, m) is Some
                && next_token(src, m)->Some_0.0 == Some(Token::CommentSign)
            &&& byte_at(src, p) == Some(HASH) && byte_at(src, p + 1) == Some(HASH) && byte_at(src, p + 2) != Some(
                HASH,
            ) ==> next_token(src, m) is Some && next_token(src, m)->Some_0.0 == Some(Token::GroupCommentSign)
            &&& byte_at(src, p) == Some(HASH) && byte_at(src, p + 1) == Some(HASH) && byte_at(src, p + 2) == Some(
                HASH,
            ) && byte_at(src, p + 3) != Some(HASH) ==> next_token(src, m) is Some && next_token(src, m)->Some_0.0
                == Some(Token::ResourceCommentSign)
        }),
{
    let p = after_spaces(src, m.ptr);
    if byte_at(src, p) == Some(HASH) {
        lemma_span_while(src, p, ByteClass::Hash);
        let e = span_while(src, p, ByteClass::Hash);
        if byte_at(src, p + 1) != Some(HASH) {
            assert(span_while(src, p + 1, ByteClass::Hash) == p + 1);
            assert(e == p + 1);
        } else if byte_at(src, p + 2) != Some(HASH) {
            assert(span_while(src, p + 2, ByteClass::Hash) == p + 2);
            assert(span_while(src, p + 1, ByteClass::Hash) == p + 2);
            assert(e == p + 2);
        } else if byte_at(src, p + 3) != Some(HASH) {
            assert(span_while(src, p + 3, ByteClass::Hash) == p + 3);
            assert(span_while(src, p + 2, ByteClass::Hash) == p + 3);
            assert(span_while(src, p + 1, ByteClass::Hash) == p + 3);
            assert(e == p + 3);
        }
    }
}

/// Each token the lexer gives moves it on: where it yields a token, its progress
/// measure goes down.
pub proof fn lemma_next_token_progress(src: Seq<u8>, m: LexModel)
    requires
        0 <= m.ptr <= src.len(),
        m.state == LexerState::TextLine ==> m.ptr >= 1,
    ensures
        next_token(src, m) matches Some((Some(_), m1)) ==> 0 <= progress(src, m1) < progress(src, m)
            && 0 <= m1.ptr <= src.len() && (m1.state == LexerState::TextLine ==> m1.ptr >= 1),
{
    lemma_span_while(src, m.ptr, ByteClass::Space);
    let p = after_spaces(src, m.ptr);
    if 0 <= p < src.len() {
        lemma_span_while(src, p + 1, ByteClass::IdentChar);
        lemma_span_while(src, p, ByteClass::Hash);
    }
    lemma_line_stop(src, p);
    let j = line_stop(src, p);
    if j < src.len() {
        lemma_span_while(src, j + 1, ByteClass::Space);
    }
}

/// A lexer over the bytes of an FTL source.
#[derive(Debug)]
pub struct Lexer<'l> {
    pub state: LexerState,
    pub source: &'l [u8],
    pub length: usize,
    pub ptr: usize,
}

impl<'l> Lexer<'l> {
    pub open spec fn model(&self) -> LexModel {
        LexModel { state: self.state, ptr: self.ptr as int }
    }

    /// The length matches the source, the cursor is inside it, and a comment line is
    /// read after its sigil.
    pub open spec fn wf(&self) -> bool {
        &&& self.length == self.source@.len()
        &&& self.ptr <= self.length
        &&& self.length < usize::MAX
        &&& self.state == LexerState::TextLine ==> self.ptr >= 1
    }

    pub fn new(source: &'l [u8]) -> (r: Self)
        requires
            source@.len() < usize::MAX,
        ensures
            r.wf(),
            r.source == source,
            r.model() == (LexModel { state: LexerState::Resource, ptr: 0 }),
    {
        let length = source.len();
        Lexer { state: LexerState::Resource, source, length, ptr: 0 }
    }

    fn skip_spaces(&mut self)
        requires
            old(self).wf(),
        ensures
            final(self).wf(),
            final(self).source == old(self).source,
            final(self).length == old(self).length,
            final(self).state == old(self).state,
            final(self).ptr == after_spaces(old(self).source@, old(self).ptr as int),
            old(self).ptr <= final(self).ptr,
    {
        let ghost src = self.source@;
        let ghost p0 = self.ptr as int;
        proof {
            lemma_span_while(src, p0, ByteClass::Space);
        }
        while self.ptr < self.length && self.source[self.ptr] == SPACE
            invariant
                self.wf(),
                self.source@ == src,
                self.source == old(self).source,
                self.length == old(self).length,
                self.state == old(self).state,
                p0 <= self.ptr,
                span_while(src, self.ptr as int, ByteClass::Space) == span_while(src, p0, ByteClass::Space),
            decreases self.length - self.ptr,
        {
            self.ptr += 1;
        }
    }

    fn get_ident(&mut self) -> (r: Token)
        requires
            old(self).wf(),
            (old(self).ptr as int) < old(self).length,
        ensures
            final(self).wf(),
            final(self).source == old(self).source,
            final(self).length == old(self).length,
            final(self).state == old(self).state,
            final(self).ptr == span_while(old(self).source@, old(self).ptr + 1, ByteClass::IdentChar),
            r == Token::Identifier(range(old(self).ptr as int, final(self).ptr as int)),
    {
        let ghost src = self.source@;
        let start = self.ptr;
        proof {
            lemma_span_while(src, start + 1, ByteClass::IdentChar);
        }
        self.ptr += 1;
        while self.ptr < self.length && ident_char(self.source[self.ptr])
            invariant
                self.wf(),
                self.source@ == src,
                self.source == old(self).source,
                self.length == old(self).length,
                self.state == old(self).state,
                start < self.ptr,
                span_while(src, self.ptr as int, ByteClass::IdentChar) == span_while(
                    src,
                    start + 1,
                    ByteClass::IdentChar,
                ),
            decreases self.length - self.ptr,
        {
            self.ptr += 1;
        }
        Token::Identifier(start..self.ptr)
    }

    fn tokenize_resource(&mut self) -> (r: Option<Token>)
        requires
            old(self).wf(),
            old(self).state == LexerState::Resource,
            tokenize_resource(old(self).source@, old(self).model()) is Some,
        ensures
            final(self).wf(),
            final(self).source == old(self).source,
            final(self).length == old(self).length,
            (r, final(self).model()) == tokenize_resource(old(self).source@, old(self).model()).unwrap(),
    {
        let ghost src = self.source@;
        self.skip_spaces();
        if self.ptr >= self.length {
            return None;
        }
        let b = self.source[self.ptr];
        if alpha(b) {
            Some(self.get_ident())
        } else if b == EQUALS {
            self.state = LexerState::Text;
            self.ptr += 1;
            Some(Token::EqSign)
        } else if b == HASH {
            let start = self.ptr;
            proof {
                lemma_span_while(src, start as int, ByteClass::Hash);
            }
            self.ptr += 1;
            while self.ptr < self.length && self.source[self.ptr] == HASH
                invariant
                    self.wf(),
                    self.source@ == src,
                    self.source == old(self).source,
                    self.length == old(self).length,
                    start < self.ptr,
                    span_while(src, self.ptr as int, ByteClass::Hash) == span_while(src, start as int, ByteClass::Hash),
                decreases self.length - self.ptr,
            {
                self.ptr += 1;
            }
            self.state = LexerState::TextLine;
            let level = self.ptr - start;
            if level == 1 {
                Some(Token::CommentSign)
            } else if level == 2 {
                Some(Token::GroupCommentSign)
            } else {
                Some(Token::ResourceCommentSign)
            }
        } else if b == LF {
            self.ptr += 1;
            Some(Token::Eol)
        } else if b == DOT {
            self.ptr += 1;
            Some(Token::Dot)
        } else {
            self.ptr += 1;
            Some(Token::MinusSign)
        }
    }

    fn tokenize_text_line(&mut self) -> (r: Option<Token>)
        requires
            old(self).wf(),
            old(self).state == LexerState::TextLine,
        ensures
            final(self).wf(),
            final(self).source == old(self).source,
            final(self).length == old(self).length,
            (r, final(self).model()) == tokenize_text_line(old(self).source@, old(self).model()),
    {
        let ghost src = self.source@;
        let indent_start = self.ptr;
        self.skip_spaces();
        let start = self.ptr;
        let indent = start - indent_start;
        loop
            invariant_except_break
                line_stop(src, self.ptr as int) == line_stop(src, start as int),
            invariant
                self.wf(),
                self.source@ == src,
                self.source == old(self).source,
                self.length == old(self).length,
                self.state == LexerState::TextLine,
                start <= self.ptr,
                indent_start >= 1,
            ensures
                self.wf(),
                self.source@ == src,
                self.ptr == (if line_stop(src, start as int) < src.len() {
                    line_stop(src, start as int) + 1
                } else {
                    line_stop(src, start as int)
                }),
            decreases self.length - self.ptr,
        {
            if self.ptr >= self.length {
                break;
            }
            let c = self.source[self.ptr];
            self.ptr += 1;
            if c == LF {
                break;
            }
        }
        self.state = LexerState::Resource;
        Some(Token::Text(indent, start..self.ptr - 1))
    }

    fn try_if_line_is_text(&mut self) -> (r: bool)
        requires
            old(self).wf(),
        ensures
            final(self).wf(),
            final(self).source == old(self).source,
            final(self).length == old(self).length,
            final(self).state == old(self).state,
            (r, final(self).ptr as int) == line_is_text(old(self).source@, old(self).ptr as int),
    {
        let indent_start = self.ptr;
        self.skip_spaces();
        let start = self.ptr;
        let indent = start - indent_start;
        if indent == 0 {
            return false;
        }
        if self.ptr < self.length && self.source[self.ptr] == DOT {
            self.ptr -= 1;
            false
        } else {
            true
        }
    }

    fn tokenize_text(&mut self) -> (r: Option<Token>)
        requires
            old(self).wf(),
            old(self).state == LexerState::Text,
        ensures
            final(self).wf(),
            final(self).source == old(self).source,
            final(self).length == old(self).length,
            (r, final(self).model()) == tokenize_text(old(self).source@, old(self).model()),
    {
        let ghost src = self.source@;
        let indent_start = self.ptr;
        self.skip_spaces();
        let start = self.ptr;
        let indent = start - indent_start;
        while self.ptr < self.length
            invariant
                self.wf(),
                self.source@ == src,
                self.source == old(self).source,
                self.length == old(self).length,
                self.state == LexerState::Text,
                start <= self.ptr,
                indent_start == old(self).ptr,
                src == old(self).source@,
                old(self).state == LexerState::Text,
                start == after_spaces(src, indent_start as int),
                indent == start - indent_start,
                line_stop(src, self.ptr as int) == line_stop(src, start as int),
            decreases self.length - self.ptr,
        {
            if self.source[self.ptr] == LF {
                assert(line_stop(src, self.ptr as int) == self.ptr as int);
                if start == self.ptr {
                    self.ptr += 1;
                    if self.try_if_line_is_text() {
                        return Some(Token::Eol);
                    } else {
                        self.state = LexerState::Resource;
                        return Some(Token::Eot);
                    }
                } else {
                    return Some(Token::Text(indent, start..self.ptr));
                }
            }
            self.ptr += 1;
        }
        None
    }

    /// The next token in the lexer's state; `None` at the end of the source.
    pub fn next(&mut self) -> (r: Option<Token>)
        requires
            old(self).wf(),
            next_token(old(self).source@, old(self).model()) is Some,
        ensures
            final(self).wf(),
            final(self).source == old(self).source,
            final(self).length == old(self).length,
            (r, final(self).model()) == next_token(old(self).source@, old(self).model()).unwrap(),
    {
        match self.state {
            LexerState::Resource => self.tokenize_resource(),
            LexerState::Text => self.tokenize_text(),
            LexerState::TextLine => self.tokenize_text_line(),
        }
    }

    /// All the tokens, up to the first `None`.
    pub fn collect(self) -> (r: Vec<Token>)
        requires
            self.wf(),
            all_tokens(self.source@, self.model()) is Some,
        ensures
            r@ == all_tokens(self.source@, self.model()).unwrap(),
    {
        let ghost src = self.source@;
        let ghost m0 = self.model();
        let mut lexer = self;
        let mut tokens: Vec<Token> = Vec::new();
        loop
            invariant_except_break
                all_tokens(src, lexer.model()) is Some,
                tokens@ + all_tokens(src, lexer.model()).unwrap() == all_tokens(src, m0).unwrap(),
            invariant
                lexer.wf(),
                lexer.source@ == src,
                all_tokens(src, m0) is Some,
            ensures
                tokens@ == all_tokens(src, m0).unwrap(),
            decreases progress(src, lexer.model()),
        {
            let ghost m = lexer.model();
            match lexer.next() {
                Some(t) => {
                    let ghost t0 = tokens@;
                    tokens.push(t);
                    assert(tokens@ + all_tokens(src, lexer.model()).unwrap() =~= t0 + all_tokens(src, m).unwrap());
                },
                None => {
                    assert(tokens@ + all_tokens(src, m).unwrap() =~= tokens@);
                    break;
                },
            }
        }
        tokens
    }
}

} // verus!
