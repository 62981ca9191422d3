//! The FTL parser and its helpers.
pub mod tree;
pub mod errors;
pub mod ftlstream;
pub mod grammar;
pub mod lexer;
pub mod parser;
pub mod properties;

use crate::ascii::{
    alpha, byte_at, callee_char, digit, hex_digit, ident_char, is_alpha, is_digit, lemma_span_while,
    lemma_span_while_from, span_while, ByteClass, ASTERISK, BACKSLASH, CLOSE_BRACE, CLOSE_BRACKET,
    CLOSE_PAREN, COLON, COMMA, CR, DOLLAR, DOT, EQUALS, GREATER, HASH, LF, LOWER_U, MINUS,
    OPEN_BRACE, OPEN_BRACKET, OPEN_PAREN, QUOTE, SPACE, UPPER_U,
};
use crate::ast;
use crate::model;
use crate::search::find_any_of_three;
use crate::text::{owned, string_from_bytes, trim_end, trimmed_len};
use errors::{error_at, error_range, ErrorKind, ParserError};
use ftlstream::{blank_block, eol_len, is_entry_boundary, is_entry_start_byte, lemma_blank_block};
use grammar::{
    lemma_line_end, lemma_text_delimiter, line_end, text_type, TextElementPosition, TextElementTermination,
    TextElementType,
    advances, alpha_range, blank_end, digit_range, err_at, eol_range, fail, is_byte, lemma_blank_end,
    next_entry_start, spaces_end, stays, PResult,
};
use vstd::prelude::*;
use vstd::string::StringSliceAdditionalSpecFns;

verus! {

/// A pattern element before dedentation: a placeable, or the range (start, end),
/// indent and position of a text element, kept as offsets into the source so that
/// dedenting does not copy text.
enum PatternElementPlaceholders {
    Placeable(ast::Expression<Vec<u8>>),
    TextElement(usize, usize, usize, TextElementPosition),
}

spec fn placeholder(p: PatternElementPlaceholders) -> grammar::Placeholder {
    match p {
        PatternElementPlaceholders::Placeable(e) => grammar::Placeholder::Placeable(model::expr(e)),
        PatternElementPlaceholders::TextElement(s, e, i, r) => grammar::Placeholder::Text(
            s as int,
            e as int,
            i as int,
            r,
        ),
    }
}

spec fn placeholders(s: Seq<PatternElementPlaceholders>) -> Seq<grammar::Placeholder> {
    s.map_values(|p: PatternElementPlaceholders| placeholder(p))
}

pub open spec fn opt_int(o: Option<usize>) -> Option<int> {
    match o {
        Some(v) => Some(v as int),
        None => None,
    }
}

pub open spec fn opt_pattern(o: Option<ast::Pattern<Vec<u8>>>) -> Option<model::Pattern> {
    match o {
        Some(p) => Some(model::pattern(p)),
        None => None,
    }
}

/// A source text that the parser cuts pieces from.
pub trait Slice: Sized {
    /// The bytes of the text.
    spec fn content(&self) -> Seq<u8>;

    /// The piece of the text in `range`.
    fn slice(&self, range: core::ops::Range<usize>) -> (r: Self)
        requires
            range.start <= range.end <= self.content().len(),
        ensures
            r.content() == self.content().subrange(range.start as int, range.end as int),
    ;

    /// Drops the trailing white space of the text.
    fn trim(&mut self)
        ensures
            final(self).content() == trim_end(old(self).content()),
    ;

    /// The byte at `idx`, if the text is that long.
    fn get(&self, idx: usize) -> (r: Option<&u8>)
        ensures
            idx < self.content().len() ==> (r matches Some(b) && *b == self.content()[idx as int]),
            idx >= self.content().len() ==> r is None,
    ;

    /// The bytes of the text.
    fn as_bytes(&self) -> (r: &[u8])
        ensures
            r@ == self.content(),
    ;
}

impl Slice for Vec<u8> {
    open spec fn content(&self) -> Seq<u8> {
        self@
    }

    fn slice(&self, range: core::ops::Range<usize>) -> (r: Self) {
        vstd::slice::slice_to_vec(vstd::slice::slice_subrange(self.as_slice(), range.start, range.end))
    }

    fn trim(&mut self) {
        let n = trimmed_len(self.as_slice());
        self.truncate(n);
    }

    fn get(&self, idx: usize) -> (r: Option<&u8>) {
        if idx < self.len() {
            Some(&self[idx])
        } else {
            None
        }
    }

    fn as_bytes(&self) -> (r: &[u8]) {
        self.as_slice()
    }
}

/// A recursive-descent parser over the bytes of an FTL source.
pub struct Parser {
    source: Vec<u8>,
    ptr: usize,
    length: usize,
}


/// An executable result agrees with the grammar's: the same value (under `f`) and
/// cursor on success, the same error and cursor on failure.
pub open spec fn agrees<T, M>(r: Result<T, ParserError>, ptr: usize, g: PResult<M>, f: spec_fn(T) -> M) -> bool {
    match g {
        Ok((v, q)) => r matches Ok(x) && f(x) == v && ptr == q,
        Err((e, q)) => r matches Err(x) && model::error_matches(x, e) && ptr == q,
    }
}

/// An executable entry agrees with the grammar's: the same entry on success, the
/// same error on failure.
pub open spec fn entry_agrees(r: Result<ast::Entry<Vec<u8>>, ParserError>, g: PResult<model::Entry>) -> bool {
    match g {
        Ok((v, _)) => r matches Ok(x) && model::entry(x) == v,
        Err((e, _)) => r matches Err(x) && model::error_matches(x, e),
    }
}

/// A parse result agrees with the grammar's entries and errors: `Ok` with the entries
/// where there is no error, otherwise `Err` with the entries and the errors.
pub open spec fn resource_agrees(
    r: Result<ast::Resource<Vec<u8>>, (ast::Resource<Vec<u8>>, Vec<ParserError>)>,
    g: (Seq<model::Entry>, Seq<model::Error>),
) -> bool {
    match r {
        Ok(res) => g.1.len() == 0 && model::entries(res.body@) == g.0,
        Err((res, errs)) => g.1.len() > 0 && model::entries(res.body@) == g.0 && model::errors_match(
            errs@,
            g.1,
        ),
    }
}

impl Parser {
    /// The source being parsed.
    pub closed spec fn src(&self) -> Seq<u8> {
        self.source@
    }

    /// The cursor.
    pub closed spec fn pos(&self) -> int {
        self.ptr as int
    }

    /// The cursor is inside the source, and the source leaves room past its end.
    pub closed spec fn wf(&self) -> bool {
        &&& self.length == self.source@.len()
        &&& self.ptr <= self.length
        &&& self.length < usize::MAX
    }

    /// A parser at the start of `source`.
    pub fn new(source: &str) -> (r: Self)
        requires
            source.spec_bytes().len() < usize::MAX,
        ensures
            r.wf(),
            r.src() == source.spec_bytes(),
            r.pos() == 0,
    {
        let source = vstd::slice::slice_to_vec(source.as_bytes());
        let length = source.len();
        Parser { source, ptr: 0, length }
    }

    fn byte(&self, pos: usize) -> (r: Option<u8>)
        requires
            self.wf(),
        ensures
            r == byte_at(self.src(), pos as int),
    {
        if pos < self.length {
            Some(self.source[pos])
        } else {
            None
        }
    }

    pub fn is_current_byte(&self, b: u8) -> (r: bool)
        requires
            self.wf(),
        ensures
            r == is_byte(self.src(), self.pos(), b),
    {
        self.byte(self.ptr) == Some(b)
    }

    fn is_byte_at(&self, b: u8, pos: usize) -> (r: bool)
        requires
            self.wf(),
        ensures
            r == is_byte(self.src(), pos as int, b),
    {
        self.byte(pos) == Some(b)
    }

    fn take_byte_if(&mut self, b: u8) -> (r: bool)
        requires
            old(self).wf(),
        ensures
            final(self).wf(),
            final(self).src() == old(self).src(),
            r == is_byte(old(self).src(), old(self).pos(), b),
            final(self).pos() == old(self).pos() + if r {
                1int
            } else {
                0int
            },
    {
        if self.is_current_byte(b) {
            self.ptr += 1;
            true
        } else {
            false
        }
    }

    fn expect_byte(&mut self, b: u8) -> (r: Result<(), ParserError>)
        requires
            old(self).wf(),
        ensures
            final(self).wf(),
            final(self).src() == old(self).src(),
            is_byte(old(self).src(), old(self).pos(), b) ==> r is Ok && final(self).pos() == old(
                self,
            ).pos() + 1,
            !is_byte(old(self).src(), old(self).pos(), b) ==> final(self).pos() == old(self).pos()
                && (r matches Err(e) && model::error_matches(
                e,
                err_at(model::ErrorKind::ExpectedToken(b), old(self).pos()).0,
            )),
    {
        if !self.is_current_byte(b) {
            return error_at(ErrorKind::ExpectedToken(b as char), self.ptr);
        }
        self.ptr += 1;
        Ok(())
    }

    fn skip_blank_inline(&mut self) -> (r: usize)
        requires
            old(self).wf(),
        ensures
            final(self).wf(),
            final(self).src() == old(self).src(),
            final(self).pos() == spaces_end(old(self).src(), old(self).pos()),
            r == final(self).pos() - old(self).pos(),
            old(self).pos() <= final(self).pos(),
    {
        proof {
            lemma_span_while(self.source@, self.ptr as int, ByteClass::Space);
        }
        let start = self.ptr;
        while self.ptr < self.length && self.source[self.ptr] == SPACE
            invariant
                self.wf(),
                self.source@ == old(self).source@,
                start == old(self).ptr,
                start <= self.ptr,
                span_while(self.source@, self.ptr as int, ByteClass::Space) == span_while(
                    self.source@,
                    start as int,
                    ByteClass::Space,
                ),
            decreases self.length - self.ptr,
        {
            self.ptr += 1;
        }
        self.ptr - start
    }

    fn skip_blank(&mut self)
        requires
            old(self).wf(),
        ensures
            final(self).wf(),
            final(self).src() == old(self).src(),
            final(self).pos() == blank_end(old(self).src(), old(self).pos()),
            old(self).pos() <= final(self).pos(),
    {
        proof {
            lemma_blank_end(self.source@, self.ptr as int);
        }
        loop
            invariant
                self.wf(),
                self.source@ == old(self).source@,
                blank_end(self.source@, self.ptr as int) == blank_end(
                    old(self).source@,
                    old(self).ptr as int,
                ),
            ensures
                self.wf(),
                self.source@ == old(self).source@,
                self.ptr == blank_end(old(self).source@, old(self).ptr as int),
            decreases self.length - self.ptr,
        {
            match self.byte(self.ptr) {
                Some(b) if b == SPACE || b == LF => self.ptr += 1,
                Some(b) if b == CR && self.byte(self.ptr + 1) == Some(LF) => self.ptr += 2,
                _ => break,
            }
        }
    }

    fn skip_eol(&mut self) -> (r: bool)
        requires
            old(self).wf(),
        ensures
            final(self).wf(),
            final(self).src() == old(self).src(),
            r == (eol_len(old(self).src(), old(self).pos()) > 0),
            final(self).pos() == old(self).pos() + eol_len(old(self).src(), old(self).pos()),
    {
        if self.is_current_byte(LF) {
            self.ptr += 1;
            true
        } else if self.is_current_byte(CR) && self.is_byte_at(LF, self.ptr + 1) {
            self.ptr += 2;
            true
        } else {
            false
        }
    }

    fn is_eol(&self) -> (r: bool)
        requires
            self.wf(),
        ensures
            r == (eol_len(self.src(), self.pos()) > 0),
    {
        match self.byte(self.ptr) {
            Some(b) if b == LF => true,
            Some(b) if b == CR && self.is_byte_at(LF, self.ptr + 1) => true,
            _ => false,
        }
    }

    fn skip_blank_block(&mut self) -> (r: usize)
        requires
            old(self).wf(),
        ensures
            final(self).wf(),
            final(self).src() == old(self).src(),
            (r as int, final(self).pos()) == blank_block(old(self).src(), old(self).pos()),
            old(self).pos() <= final(self).pos(),
    {
        let mut count: usize = 0;
        let ghost src = self.source@;
        let ghost p0 = self.ptr as int;
        loop
            invariant
                self.wf(),
                self.source@ == src,
                0 <= p0 <= self.ptr,
                count <= self.ptr - p0,
                blank_block(src, p0) == ((count + blank_block(src, self.ptr as int).0), blank_block(
                    src,
                    self.ptr as int,
                ).1),
            ensures
                self.wf(),
                self.source@ == src,
                blank_block(src, p0) == (count as int, self.ptr as int),
            decreases self.length - self.ptr,
        {
            let start = self.ptr;
            proof {
                lemma_span_while(src, start as int, ByteClass::Space);
            }
            self.skip_blank_inline();
            if !self.skip_eol() {
                self.ptr = start;
                break;
            }
            count += 1;
        }
        count
    }

    fn is_identifier_start(&self) -> (r: bool)
        requires
            self.wf(),
        ensures
            r == (byte_at(self.src(), self.pos()) matches Some(b) && is_alpha(b)),
    {
        match self.byte(self.ptr) {
            Some(b) => alpha(b),
            None => false,
        }
    }

    fn is_number_start(&self) -> (r: bool)
        requires
            self.wf(),
        ensures
            r == grammar::is_number_start(self.src(), self.pos()),
    {
        match self.byte(self.ptr) {
            Some(b) => b == MINUS || digit(b),
            None => false,
        }
    }

    fn is_byte_pattern_continuation(b: u8) -> (r: bool)
        ensures
            r == grammar::is_pattern_continuation(b),
    {
        !(b == CLOSE_BRACE || b == DOT || b == OPEN_BRACKET || b == ASTERISK)
    }

    fn skip_digits(&mut self) -> (r: Result<(), ParserError>)
        requires
            old(self).wf(),
        ensures
            final(self).wf(),
            final(self).src() == old(self).src(),
            final(self).pos() == span_while(old(self).src(), old(self).pos(), ByteClass::Digit),
            final(self).pos() >= old(self).pos(),
            (final(self).pos() > old(self).pos()) <==> r is Ok,
            r matches Err(e) ==> model::error_matches(
                e,
                err_at(model::ErrorKind::ExpectedCharRange(digit_range()), old(self).pos()).0,
            ),
    {
        let start = self.ptr;
        while self.ptr < self.length && digit(self.source[self.ptr])
            invariant
                self.wf(),
                self.source@ == old(self).source@,
                start == old(self).ptr,
                start <= self.ptr,
                span_while(self.source@, self.ptr as int, ByteClass::Digit) == span_while(
                    self.source@,
                    start as int,
                    ByteClass::Digit,
                ),
            decreases self.length - self.ptr,
        {
            self.ptr += 1;
        }
        if start == self.ptr {
            let range = owned("0-9");
            proof {
                reveal_strlit("0-9");
                assert("0-9"@ =~= digit_range());
            }
            error_at(ErrorKind::ExpectedCharRange { range }, self.ptr)
        } else {
            Ok(())
        }
    }

    fn skip_to_next_entry_start(&mut self)
        requires
            old(self).wf(),
        ensures
            final(self).wf(),
            final(self).src() == old(self).src(),
            final(self).pos() == next_entry_start(old(self).src(), old(self).pos()),
            old(self).pos() <= final(self).pos(),
    {
        loop
            invariant
                self.wf(),
                self.source@ == old(self).source@,
                next_entry_start(self.source@, self.ptr as int) == next_entry_start(
                    self.source@,
                    old(self).ptr as int,
                ),
                old(self).ptr <= self.ptr,
            ensures
                self.wf(),
                self.source@ == old(self).source@,
                self.ptr == next_entry_start(self.source@, old(self).ptr as int),
                old(self).ptr <= self.ptr,
            decreases self.length - self.ptr,
        {
            match self.byte(self.ptr) {
                Some(b) => {
                    let new_line = self.ptr == 0 || self.byte(self.ptr - 1) == Some(LF);
                    if new_line && (alpha(b) || b == MINUS || b == HASH) {
                        break;
                    }
                    self.ptr += 1;
                },
                None => break,
            }
        }
    }

    /// The source bytes from `start` to `end`.
    fn slice(&self, start: usize, end: usize) -> (r: Vec<u8>)
        requires
            self.wf(),
            start <= end <= self.src().len(),
        ensures
            r@ == self.src().subrange(start as int, end as int),
    {
        self.source.slice(start..end)
    }

    fn get_identifier(&mut self) -> (r: Result<ast::Identifier<Vec<u8>>, ParserError>)
        requires
            old(self).wf(),
        ensures
            final(self).wf(),
            final(self).src() == old(self).src(),
            agrees(
                r,
                final(self).ptr,
                grammar::identifier(old(self).src(), old(self).pos()),
                |i: ast::Identifier<Vec<u8>>| i.name@,
            ),
            old(self).pos() <= final(self).pos(),
            r is Ok ==> old(self).pos() < final(self).pos(),
    {
        proof {
            lemma_span_while(self.source@, self.ptr + 1, ByteClass::IdentChar);
        }
        let mut ptr = self.ptr;
        if !self.is_identifier_start() {
            let range = owned("a-zA-Z");
            proof {
                reveal_strlit("a-zA-Z");
                assert("a-zA-Z"@ =~= alpha_range());
            }
            return error_at(ErrorKind::ExpectedCharRange { range }, ptr);
        }
        ptr += 1;
        let ghost src = self.source@;
        let ghost first = ptr as int;
        while ptr < self.length && ident_char(self.source[ptr])
            invariant
                self.wf(),
                self.source@ == src,
                first <= ptr <= self.length,
                span_while(src, ptr as int, ByteClass::IdentChar) == span_while(
                    src,
                    first,
                    ByteClass::IdentChar,
                ),
            decreases self.length - ptr,
        {
            ptr += 1;
        }
        let name = self.slice(self.ptr, ptr);
        self.ptr = ptr;
        Ok(ast::Identifier { name })
    }

    fn get_number_literal(&mut self) -> (r: Result<Vec<u8>, ParserError>)
        requires
            old(self).wf(),
        ensures
            final(self).wf(),
            final(self).src() == old(self).src(),
            agrees(
                r,
                final(self).ptr,
                grammar::number_literal(old(self).src(), old(self).pos()),
                |v: Vec<u8>| v@,
            ),
            old(self).pos() <= final(self).pos(),
            r is Ok ==> old(self).pos() < final(self).pos(),
    {
        let start = self.ptr;
        self.take_byte_if(MINUS);
        if let Err(e) = self.skip_digits() {
            return Err(e);
        }
        if self.take_byte_if(DOT) {
            if let Err(e) = self.skip_digits() {
                return Err(e);
            }
        }
        Ok(self.slice(start, self.ptr))
    }

    fn get_attribute_accessor(&mut self) -> (r: Result<Option<ast::Identifier<Vec<u8>>>, ParserError>)
        requires
            old(self).wf(),
        ensures
            final(self).wf(),
            final(self).src() == old(self).src(),
            agrees(
                r,
                final(self).ptr,
                grammar::attribute_accessor(old(self).src(), old(self).pos()),
                |a: Option<ast::Identifier<Vec<u8>>>| model::opt_id(a),
            ),
            old(self).pos() <= final(self).pos(),
    {
        if !self.take_byte_if(DOT) {
            Ok(None)
        } else {
            match self.get_identifier() {
                Ok(ident) => Ok(Some(ident)),
                Err(e) => Err(e),
            }
        }
    }

    fn get_variant_key(&mut self) -> (r: Result<ast::VariantKey<Vec<u8>>, ParserError>)
        requires
            old(self).wf(),
        ensures
            final(self).wf(),
            final(self).src() == old(self).src(),
            agrees(
                r,
                final(self).ptr,
                grammar::variant_key(old(self).src(), old(self).pos()),
                |k: ast::VariantKey<Vec<u8>>| model::variant_key(k),
            ),
            old(self).pos() <= final(self).pos(),
            r is Ok ==> old(self).pos() < final(self).pos(),
    {
        if !self.take_byte_if(OPEN_BRACKET) {
            return error_at(ErrorKind::ExpectedToken(OPEN_BRACKET as char), self.ptr);
        }
        self.skip_blank();
        let key = if self.is_number_start() {
            match self.get_number_literal() {
                Ok(value) => ast::VariantKey::NumberLiteral { value },
                Err(e) => return Err(e),
            }
        } else {
            match self.get_identifier() {
                Ok(id) => ast::VariantKey::Identifier { name: id.name },
                Err(e) => return Err(e),
            }
        };
        self.skip_blank();
        if let Err(e) = self.expect_byte(CLOSE_BRACKET) {
            return Err(e);
        }
        Ok(key)
    }

    fn skip_unicode_escape_sequence(&mut self, length: usize) -> (r: Result<(), ParserError>)
        requires
            old(self).wf(),
            length <= 6,
        ensures
            final(self).wf(),
            final(self).src() == old(self).src(),
            match grammar::unicode_escape(old(self).src(), old(self).pos(), length as int) {
                Ok(q) => r is Ok && final(self).pos() == q,
                Err((e, q)) => r matches Err(x) && model::error_matches(x, e) && final(self).pos() == q,
            },
    {
        let start = self.ptr;
        let ghost src = self.source@;
        proof {
            lemma_span_while(src, start as int, ByteClass::HexDigit);
        }
        let mut i: usize = 0;
        while i < length
            invariant
                self.wf(),
                self.source@ == src,
                start == old(self).ptr,
                self.ptr == start + i,
                i <= length,
                length <= 6,
                span_while(src, start as int, ByteClass::HexDigit) == span_while(
                    src,
                    self.ptr as int,
                    ByteClass::HexDigit,
                ),
            ensures
                self.wf(),
                self.source@ == src,
                start <= self.ptr <= start + length,
                span_while(src, start as int, ByteClass::HexDigit) == span_while(
                    src,
                    self.ptr as int,
                    ByteClass::HexDigit,
                ),
                self.ptr < start + length ==> !(self.ptr < self.length && crate::ascii::is_hex_digit(
                    src[self.ptr as int],
                )),
            decreases length - i,
        {
            if self.ptr < self.length && hex_digit(self.source[self.ptr]) {
                proof {
                    lemma_span_while_from(src, self.ptr as int, self.ptr + 1, ByteClass::HexDigit);
                }
                self.ptr += 1;
            } else {
                break;
            }
            i += 1;
        }
        proof {
            lemma_span_while(src, self.ptr as int, ByteClass::HexDigit);
        }
        if self.ptr - start != length {
            let end = if self.ptr >= self.length {
                self.ptr
            } else {
                self.ptr + 1
            };
            let seq = string_from_bytes(vstd::slice::slice_subrange(self.source.as_slice(), start, end));
            return error_at(ErrorKind::InvalidUnicodeEscapeSequence(seq), self.ptr);
        }
        Ok(())
    }

    /// Whether `text` holds anything but spaces.
    fn element_type(text: &[u8]) -> (r: TextElementType)
        ensures
            r == text_type(text@),
    {
        let mut i: usize = 0;
        while i < text.len()
            invariant
                i <= text@.len(),
                forall|k: int| 0 <= k < i ==> text@[k] == SPACE,
            decreases text@.len() - i,
        {
            if text[i] != SPACE {
                return TextElementType::NonBlank;
            }
            i += 1;
        }
        TextElementType::Blank
    }

    fn get_text_slice(&mut self) -> (r: Result<
        (usize, usize, TextElementType, TextElementTermination),
        ParserError,
    >)
        requires
            old(self).wf(),
        ensures
            final(self).wf(),
            final(self).src() == old(self).src(),
            match grammar::text_slice(old(self).src(), old(self).pos()) {
                Ok((a, b, ty, term, next)) => r matches Ok((x, y, t, tm)) && x == a && y == b && t
                    == ty && tm == term && final(self).pos() == next,
                Err((e, q)) => r matches Err(x) && model::error_matches(x, e) && final(self).pos()
                    == q,
            },
            old(self).pos() <= final(self).pos(),
            r matches Ok((a, b, _, _)) ==> (a == old(self).pos() && a <= b <= old(self).src().len()
                && (old(self).pos() < final(self).pos() || old(self).pos() == old(self).src().len() || is_byte(
                old(self).src(),
                old(self).pos(),
                OPEN_BRACE,
            ))),
    {
        let start_pos = self.ptr;
        let ghost src = self.source@;
        let rest = vstd::slice::slice_subrange(self.source.as_slice(), self.ptr, self.length);
        match find_any_of_three(LF, OPEN_BRACE, CLOSE_BRACE, rest) {
            None => {
                proof {
                    assert forall|k: int| start_pos <= k < src.len() implies src[k] != LF && src[k]
                        != OPEN_BRACE && src[k] != CLOSE_BRACE by {
                        assert(rest@[k - start_pos] == src[k]);
                    }
                    lemma_text_delimiter(src, start_pos as int, src.len() as int);
                }
                self.ptr = self.length;
                Ok((start_pos, self.ptr, Self::element_type(rest), TextElementTermination::Eof))
            },
            Some(i) => {
                let d = start_pos + i;
                proof {
                    assert forall|k: int| start_pos <= k < d implies src[k] != LF && src[k]
                        != OPEN_BRACE && src[k] != CLOSE_BRACE by {
                        assert(rest@[k - start_pos] == src[k]);
                    }
                    assert(rest@[i as int] == src[d as int]);
                    lemma_text_delimiter(src, start_pos as int, d as int);
                }
                if self.source[d] == CLOSE_BRACE {
                    self.ptr = d;
                    error_at(ErrorKind::UnbalancedClosingBrace, self.ptr)
                } else if self.source[d] == LF && i > 0 && self.source[d - 1] == CR {
                    let text = vstd::slice::slice_subrange(self.source.as_slice(), start_pos, d - 1);
                    self.ptr = d;
                    Ok((start_pos, d - 1, Self::element_type(text), TextElementTermination::Crlf))
                } else if self.source[d] == LF {
                    let text = vstd::slice::slice_subrange(self.source.as_slice(), start_pos, d);
                    self.ptr = d + 1;
                    Ok((start_pos, self.ptr, Self::element_type(text), TextElementTermination::LineFeed))
                } else {
                    let text = vstd::slice::slice_subrange(self.source.as_slice(), start_pos, d);
                    self.ptr = d;
                    Ok(
                        (
                            start_pos,
                            self.ptr,
                            Self::element_type(text),
                            TextElementTermination::PlaceableStart,
                        ),
                    )
                }
            },
        }
    }

    fn get_comment_level(&mut self) -> (r: usize)
        requires
            old(self).wf(),
        ensures
            final(self).wf(),
            final(self).src() == old(self).src(),
            final(self).pos() == span_while(old(self).src(), old(self).pos(), ByteClass::Hash),
            r == final(self).pos() - old(self).pos(),
            old(self).pos() <= final(self).pos(),
    {
        let mut chars: usize = 0;
        while self.take_byte_if(HASH)
            invariant
                self.wf(),
                self.source@ == old(self).source@,
                self.ptr == old(self).ptr + chars,
                span_while(self.source@, self.ptr as int, ByteClass::Hash) == span_while(
                    self.source@,
                    old(self).ptr as int,
                    ByteClass::Hash,
                ),
            decreases self.length - self.ptr,
        {
            chars += 1;
        }
        chars
    }

    fn get_comment_line(&mut self) -> (r: Vec<u8>)
        requires
            old(self).wf(),
        ensures
            final(self).wf(),
            final(self).src() == old(self).src(),
            final(self).pos() == line_end(old(self).src(), old(self).pos()),
            r@ == old(self).src().subrange(old(self).pos(), final(self).pos()),
            old(self).pos() <= final(self).pos(),
    {
        let start_pos = self.ptr;
        while self.ptr < self.length && !self.is_eol()
            invariant
                self.wf(),
                self.source@ == old(self).source@,
                start_pos == old(self).ptr,
                start_pos <= self.ptr,
                line_end(self.source@, self.ptr as int) == line_end(
                    self.source@,
                    start_pos as int,
                ),
            decreases self.length - self.ptr,
        {
            self.ptr += 1;
        }
        self.slice(start_pos, self.ptr)
    }

    fn get_comment(&mut self) -> (r: Result<(ast::Comment<Vec<u8>>, usize), ParserError>)
        requires
            old(self).wf(),
            is_byte(old(self).src(), old(self).pos(), HASH),
        ensures
            final(self).wf(),
            final(self).src() == old(self).src(),
            agrees(
                r,
                final(self).ptr,
                grammar::comment(old(self).src(), old(self).pos()),
                |c: (ast::Comment<Vec<u8>>, usize)| (c.0.content.deep_view(), c.1 as int),
            ),
            r is Ok ==> final(self).pos() > old(self).pos(),
            old(self).pos() <= final(self).pos(),
            old(self).pos() < final(self).pos(),
    {
        let ghost src = self.source@;
        let ghost p0 = self.ptr as int;
        let mut level: Option<usize> = None;
        let mut content: Vec<Vec<u8>> = Vec::new();
        assert(content.deep_view() =~= Seq::<Seq<u8>>::empty());
        while self.ptr < self.length
            invariant_except_break
                level is Some ==> (self.ptr >= p0 + 2 || self.ptr == self.length),
                grammar::comment_from(src, self.ptr as int, match level {
                    Some(l) => Some(l as int),
                    None => None,
                }, content.deep_view()) == grammar::comment_from(src, p0, None, Seq::empty()),
            invariant
                self.wf(),
                self.source@ == src,
                src == old(self).source@,
                p0 == old(self).ptr,
                0 <= p0 < src.len() && src[p0] == HASH,
                level is None ==> self.ptr == p0 && content.deep_view().len() == 0,
                level matches Some(l) ==> l > 0,
                p0 <= self.ptr,
            ensures
                self.wf(),
                self.source@ == src,
                level is Some,
                self.ptr > p0,
                grammar::comment_from(src, p0, None, Seq::empty()) == Ok::<_, (model::Error, int)>(
                    (content.deep_view(), Some(level.unwrap() as int), self.ptr as int),
                ),
            decreases self.length - self.ptr,
        {
            let ghost q = self.ptr as int;
            let ghost lvi = match level {
                Some(l) => Some(l as int),
                None => None,
            };
            let ghost c0 = content.deep_view();
            assert(grammar::comment_from(src, q, lvi, c0) == grammar::comment_from(src, p0, None, Seq::empty()));
            proof {
                lemma_span_while(src, q, ByteClass::Hash);
            }
            let line_level = self.get_comment_level();
            if line_level == 0 {
                self.ptr -= 1;
                break;
            }
            if level.is_some() && Some(line_level) != level {
                self.ptr -= line_level;
                break;
            }
            level = Some(line_level);
            if self.ptr == self.length {
                break;
            } else if self.is_current_byte(LF) {
                proof {
                    lemma_line_end(src, self.ptr as int);
                }
                let line = self.get_comment_line();
                let ghost lv = line@;
                assert(line.deep_view() =~= lv);
                content.push(line);
                assert(content.deep_view() =~= c0.push(lv));
            } else {
                if !self.is_current_byte(SPACE) {
                    if content.len() == 0 {
                        return error_at(ErrorKind::ExpectedToken(SPACE as char), self.ptr);
                    } else {
                        self.ptr -= line_level;
                        break;
                    }
                }
                self.ptr += 1;
                proof {
                    lemma_line_end(src, self.ptr as int);
                }
                let line = self.get_comment_line();
                let ghost lv = line@;
                assert(line.deep_view() =~= lv);
                content.push(line);
                assert(content.deep_view() =~= c0.push(lv));
            }
            self.skip_eol();
        }
        let l = match level {
            Some(l) => l,
            None => 0,
        };
        Ok((ast::Comment { content }, l))
    }

    /// Skips the body of a string literal, up to its closing quote or the end of the source.
    fn skip_string_body(&mut self) -> (r: Result<(), ParserError>)
        requires
            old(self).wf(),
        ensures
            final(self).wf(),
            final(self).src() == old(self).src(),
            old(self).pos() <= final(self).pos(),
            match grammar::string_body(old(self).src(), old(self).pos()) {
                Ok(c) => r is Ok && final(self).pos() == c,
                Err((e, q)) => r matches Err(x) && model::error_matches(x, e) && final(self).pos() == q,
            },
    {
        let ghost src = self.source@;
        loop
            invariant
                self.wf(),
                self.source@ == src,
                src == old(self).source@,
                old(self).ptr <= self.ptr,
                grammar::string_body(src, self.ptr as int) == grammar::string_body(
                    src,
                    old(self).ptr as int,
                ),
            ensures
                self.wf(),
                self.source@ == src,
                old(self).ptr <= self.ptr,
                grammar::string_body(src, old(self).ptr as int) == Ok::<int, (model::Error, int)>(
                    self.ptr as int,
                ),
            decreases self.length - self.ptr,
        {
            if self.ptr >= self.length {
                break;
            }
            let b = self.source[self.ptr];
            if b == BACKSLASH {
                let next = self.byte(self.ptr + 1);
                if next == Some(BACKSLASH) || next == Some(OPEN_BRACE) || next == Some(QUOTE) {
                    self.ptr += 2;
                } else if next == Some(LOWER_U) || next == Some(UPPER_U) {
                    let n: usize = if next == Some(LOWER_U) {
                        4
                    } else {
                        6
                    };
                    self.ptr += 2;
                    let ghost at = self.ptr as int;
                    proof {
                        lemma_span_while(src, at, ByteClass::HexDigit);
                    }
                    if let Err(e) = self.skip_unicode_escape_sequence(n) {
                        return Err(e);
                    }
                } else {
                    return error_at(ErrorKind::Generic, self.ptr);
                }
            } else if b == QUOTE {
                break;
            } else if b == LF {
                return error_at(ErrorKind::Generic, self.ptr);
            } else {
                self.ptr += 1;
            }
        }
        Ok(())
    }

    /// Whether every byte of `name` may appear in the name of a function.
    fn is_callee(name: &Vec<u8>) -> (r: bool)
        ensures
            r == forall|i: int| 0 <= i < name@.len() ==> crate::ascii::is_callee_char(#[trigger] name@[i]),
    {
        let mut i: usize = 0;
        while i < name.len()
            invariant
                i <= name@.len(),
                forall|k: int| 0 <= k < i ==> crate::ascii::is_callee_char(#[trigger] name@[k]),
            decreases name@.len() - i,
        {
            if !callee_char(name[i]) {
                return false;
            }
            i += 1;
        }
        true
    }

    fn get_inline_expression(&mut self) -> (r: Result<ast::InlineExpression<Vec<u8>>, ParserError>)
        requires
            old(self).wf(),
        ensures
            final(self).wf(),
            final(self).src() == old(self).src(),
            agrees(
                r,
                final(self).ptr,
                grammar::inline_expression(old(self).src(), old(self).pos()),
                |e: ast::InlineExpression<Vec<u8>>| model::inline(e),
            ),
            old(self).pos() <= final(self).pos(),
            r is Ok ==> old(self).pos() < final(self).pos(),
        decreases old(self).length - old(self).ptr, 1int,
    {
        let ghost src = self.source@;
        let ghost p = self.ptr as int;
        let cur = self.byte(self.ptr);
        if cur == Some(QUOTE) {
            self.ptr += 1;
            let start = self.ptr;
            if let Err(e) = self.skip_string_body() {
                return Err(e);
            }
            if let Err(e) = self.expect_byte(QUOTE) {
                return Err(e);
            }
            let value = self.slice(start, self.ptr - 1);
            Ok(ast::InlineExpression::StringLiteral { value })
        } else if cur.is_some() && digit(cur.unwrap()) {
            match self.get_number_literal() {
                Ok(value) => Ok(ast::InlineExpression::NumberLiteral { value }),
                Err(e) => Err(e),
            }
        } else if cur == Some(MINUS) {
            self.ptr += 1;
            if self.is_identifier_start() {
                let id = match self.get_identifier() {
                    Ok(id) => id,
                    Err(e) => return Err(e),
                };
                let attribute = match self.get_attribute_accessor() {
                    Ok(a) => a,
                    Err(e) => return Err(e),
                };
                let arguments = match self.get_call_arguments() {
                    Ok(a) => a,
                    Err(e) => return Err(e),
                };
                Ok(ast::InlineExpression::TermReference { id, attribute, arguments })
            } else {
                self.ptr -= 1;
                match self.get_number_literal() {
                    Ok(value) => Ok(ast::InlineExpression::NumberLiteral { value }),
                    Err(e) => Err(e),
                }
            }
        } else if cur == Some(DOLLAR) {
            self.ptr += 1;
            match self.get_identifier() {
                Ok(id) => Ok(ast::InlineExpression::VariableReference { id }),
                Err(e) => Err(e),
            }
        } else if cur.is_some() && alpha(cur.unwrap()) {
            let id = match self.get_identifier() {
                Ok(id) => id,
                Err(e) => return Err(e),
            };
            let arguments = match self.get_call_arguments() {
                Ok(a) => a,
                Err(e) => return Err(e),
            };
            if arguments.is_some() {
                if !Self::is_callee(&id.name) {
                    return error_at(ErrorKind::ForbiddenCallee, self.ptr);
                }
                Ok(ast::InlineExpression::FunctionReference { id, arguments })
            } else {
                match self.get_attribute_accessor() {
                    Ok(attribute) => Ok(ast::InlineExpression::MessageReference { id, attribute }),
                    Err(e) => Err(e),
                }
            }
        } else if cur == Some(OPEN_BRACE) {
            match self.get_placeable() {
                Ok(exp) => Ok(ast::InlineExpression::Placeable { expression: Box::new(exp) }),
                Err(e) => Err(e),
            }
        } else {
            error_at(ErrorKind::ExpectedInlineExpression, self.ptr)
        }
    }

    /// Whether `name` is one of `names`.
    fn contains_name(names: &Vec<Vec<u8>>, name: &Vec<u8>) -> (r: bool)
        ensures
            r == names.deep_view().contains(name@),
    {
        let mut i: usize = 0;
        while i < names.len()
            invariant
                i <= names@.len(),
                forall|k: int| 0 <= k < i ==> names.deep_view()[k] != name@,
            decreases names@.len() - i,
        {
            if bytes_equal(&names[i], name) {
                assert(names.deep_view()[i as int] == name@) by {
                    assert(names@[i as int].deep_view() =~= names@[i as int]@);
                }
                return true;
            }
            assert(names@[i as int].deep_view() =~= names@[i as int]@);
            i += 1;
        }
        false
    }

    fn get_call_arguments(&mut self) -> (r: Result<Option<ast::CallArguments<Vec<u8>>>, ParserError>)
        requires
            old(self).wf(),
        ensures
            final(self).wf(),
            final(self).src() == old(self).src(),
            agrees(
                r,
                final(self).ptr,
                grammar::call_arguments(old(self).src(), old(self).pos()),
                |a: Option<ast::CallArguments<Vec<u8>>>| model::opt_args(a),
            ),
            old(self).pos() <= final(self).pos(),
        decreases old(self).length - old(self).ptr, 0int,
    {
        let ghost src = self.source@;
        let ghost p = self.ptr as int;
        self.skip_blank();
        if !self.take_byte_if(OPEN_PAREN) {
            return Ok(None);
        }
        let mut positional: Vec<ast::InlineExpression<Vec<u8>>> = Vec::new();
        let mut named: Vec<ast::NamedArgument<Vec<u8>>> = Vec::new();
        let mut argument_names: Vec<Vec<u8>> = Vec::new();
        self.skip_blank();
        proof {
            model::lemma_empty_lists();
            assert(argument_names.deep_view() =~= Seq::<Seq<u8>>::empty());
        }
        while self.ptr < self.length
            invariant_except_break
                grammar::arguments_from(
                    src,
                    self.ptr as int,
                    model::inlines(positional@),
                    model::nameds(named@),
                    argument_names.deep_view(),
                ) == grammar::call_arguments(src, p),
            invariant
                self.wf(),
                self.source@ == src,
                src == old(self).source@,
                p == old(self).ptr,
                self.length == old(self).length,
                p < self.ptr,
            ensures
                self.wf(),
                self.source@ == src,
                p < self.ptr,
                grammar::arguments_from(
                    src,
                    self.ptr as int,
                    model::inlines(positional@),
                    model::nameds(named@),
                    argument_names.deep_view(),
                ) == grammar::call_arguments(src, p),
                self.ptr < self.length ==> src[self.ptr as int] == CLOSE_PAREN,
            decreases self.length - self.ptr,
        {
            let ghost q = self.ptr as int;
            if self.is_current_byte(CLOSE_PAREN) {
                break;
            }
            let expr = match self.get_inline_expression() {
                Ok(e) => e,
                Err(e) => return Err(e),
            };
            let is_plain_reference = match &expr {
                ast::InlineExpression::MessageReference { attribute, .. } => attribute.is_none(),
                _ => false,
            };
            if is_plain_reference {
                self.skip_blank();
                if self.is_current_byte(COLON) {
                    let name = match &expr {
                        ast::InlineExpression::MessageReference { id, .. } => copy_bytes(&id.name),
                        _ => Vec::new(),
                    };
                    if Self::contains_name(&argument_names, &name) {
                        return error_at(
                            ErrorKind::DuplicatedNamedArgument(string_from_bytes(name.as_slice())),
                            self.ptr,
                        );
                    }
                    self.ptr += 1;
                    self.skip_blank();
                    let val = match self.get_inline_expression() {
                        Ok(v) => v,
                        Err(e) => return Err(e),
                    };
                    let ghost names0 = argument_names.deep_view();
                    let ghost named0 = named@;
                    argument_names.push(copy_bytes(&name));
                    named.push(ast::NamedArgument { name: ast::Identifier { name }, value: val });
                    proof {
                        assert(argument_names.deep_view() =~= names0.push(argument_names@.last()@)) by {
                            assert(argument_names@.last().deep_view() =~= argument_names@.last()@);
                        }
                        model::lemma_nameds_push(named0, named@.last());
                        assert(named@ =~= named0.push(named@.last()));
                    }
                } else {
                    if argument_names.len() > 0 {
                        return error_at(ErrorKind::PositionalArgumentFollowsNamed, self.ptr);
                    }
                    let ghost pos0 = positional@;
                    positional.push(expr);
                    proof {
                        model::lemma_inlines_push(pos0, positional@.last());
                        assert(positional@ =~= pos0.push(positional@.last()));
                    }
                }
            } else {
                if argument_names.len() > 0 {
                    return error_at(ErrorKind::PositionalArgumentFollowsNamed, self.ptr);
                }
                let ghost pos0 = positional@;
                positional.push(expr);
                proof {
                    model::lemma_inlines_push(pos0, positional@.last());
                    assert(positional@ =~= pos0.push(positional@.last()));
                }
            }
            self.skip_blank();
            self.take_byte_if(COMMA);
            self.skip_blank();
        }
        if let Err(e) = self.expect_byte(CLOSE_PAREN) {
            return Err(e);
        }
        Ok(Some(ast::CallArguments { positional, named }))
    }

    fn get_placeable(&mut self) -> (r: Result<ast::Expression<Vec<u8>>, ParserError>)
        requires
            old(self).wf(),
        ensures
            final(self).wf(),
            final(self).src() == old(self).src(),
            agrees(
                r,
                final(self).ptr,
                grammar::placeable(old(self).src(), old(self).pos()),
                |e: ast::Expression<Vec<u8>>| model::expr(e),
            ),
            old(self).pos() <= final(self).pos(),
            r is Ok ==> old(self).pos() < final(self).pos(),
        decreases old(self).length - old(self).ptr, 0int,
    {
        if let Err(e) = self.expect_byte(OPEN_BRACE) {
            return Err(e);
        }
        self.skip_blank();
        let exp = match self.get_expression() {
            Ok(e) => e,
            Err(e) => return Err(e),
        };
        self.skip_blank_inline();
        if let Err(e) = self.expect_byte(CLOSE_BRACE) {
            return Err(e);
        }
        let invalid_expression_found = match &exp {
            ast::Expression::InlineExpression(
                ast::InlineExpression::TermReference { attribute, .. },
            ) => attribute.is_some(),
            _ => false,
        };
        if invalid_expression_found {
            return error_at(ErrorKind::TermAttributeAsPlaceable, self.ptr);
        }
        Ok(exp)
    }

    fn get_expression(&mut self) -> (r: Result<ast::Expression<Vec<u8>>, ParserError>)
        requires
            old(self).wf(),
        ensures
            final(self).wf(),
            final(self).src() == old(self).src(),
            agrees(
                r,
                final(self).ptr,
                grammar::expression(old(self).src(), old(self).pos()),
                |e: ast::Expression<Vec<u8>>| model::expr(e),
            ),
            old(self).pos() <= final(self).pos(),
        decreases old(self).length - old(self).ptr, 2int,
    {
        let exp = match self.get_inline_expression() {
            Ok(e) => e,
            Err(e) => return Err(e),
        };
        self.skip_blank();
        if !self.is_current_byte(MINUS) || !self.is_byte_at(GREATER, self.ptr + 1) {
            let term_attribute = match &exp {
                ast::InlineExpression::TermReference { attribute, .. } => attribute.is_some(),
                _ => false,
            };
            if term_attribute {
                return error_at(ErrorKind::TermAttributeAsPlaceable, self.ptr);
            }
            return Ok(ast::Expression::InlineExpression(exp));
        }
        let rejected = match &exp {
            ast::InlineExpression::MessageReference { attribute, .. } => if attribute.is_none() {
                Some(ErrorKind::MessageReferenceAsSelector)
            } else {
                Some(ErrorKind::MessageAttributeAsSelector)
            },
            ast::InlineExpression::TermReference { attribute, .. } => if attribute.is_none() {
                Some(ErrorKind::TermReferenceAsSelector)
            } else {
                None
            },
            ast::InlineExpression::Placeable { .. } => Some(
                ErrorKind::ExpectedSimpleExpressionAsSelector,
            ),
            _ => None,
        };
        if let Some(kind) = rejected {
            return error_at(kind, self.ptr);
        }
        self.ptr += 2;
        self.skip_blank_inline();
        if !self.skip_eol() {
            let range = owned("\n | \r\n");
            proof {
                reveal_strlit("\n | \r\n");
                assert("\n | \r\n"@ =~= eol_range());
            }
            return error_at(ErrorKind::ExpectedCharRange { range }, self.ptr);
        }
        self.skip_blank();
        match self.get_variants() {
            Ok(variants) => Ok(ast::Expression::SelectExpression { selector: exp, variants }),
            Err(e) => Err(e),
        }
    }

    fn get_variants(&mut self) -> (r: Result<Vec<ast::Variant<Vec<u8>>>, ParserError>)
        requires
            old(self).wf(),
        ensures
            final(self).wf(),
            final(self).src() == old(self).src(),
            agrees(
                r,
                final(self).ptr,
                grammar::variants_from(old(self).src(), old(self).pos(), Seq::empty(), false),
                |v: Vec<ast::Variant<Vec<u8>>>| model::variants(v@),
            ),
            old(self).pos() <= final(self).pos(),
        decreases old(self).length - old(self).ptr, 0int,
    {
        let ghost src = self.source@;
        let ghost p = self.ptr as int;
        let mut variants: Vec<ast::Variant<Vec<u8>>> = Vec::new();
        let mut has_default = false;
        proof {
            model::lemma_empty_lists();
        }
        while self.is_current_byte(ASTERISK) || self.is_current_byte(OPEN_BRACKET)
            invariant
                self.wf(),
                self.source@ == src,
                src == old(self).source@,
                p == old(self).ptr,
                self.length == old(self).length,
                p <= self.ptr,
                grammar::variants_from(src, self.ptr as int, model::variants(variants@), has_default)
                    == grammar::variants_from(src, p, Seq::empty(), false),
            decreases self.length - self.ptr,
        {
            let ghost q = self.ptr as int;
            let default = self.take_byte_if(ASTERISK);
            if default {
                if has_default {
                    return error_at(ErrorKind::MultipleDefaultVariants, self.ptr);
                } else {
                    has_default = true;
                }
            }
            let key = match self.get_variant_key() {
                Ok(k) => k,
                Err(e) => return Err(e),
            };
            let value = match self.get_pattern() {
                Ok(v) => v,
                Err(e) => return Err(e),
            };
            match value {
                Some(value) => {
                    let ghost vs0 = variants@;
                    variants.push(ast::Variant { key, value, default });
                    proof {
                        model::lemma_variants_push(vs0, variants@.last());
                        assert(variants@ =~= vs0.push(variants@.last()));
                    }
                    self.skip_blank();
                },
                None => return error_at(ErrorKind::MissingValue, self.ptr),
            }
        }
        if !has_default {
            error_at(ErrorKind::MissingDefaultVariant, self.ptr)
        } else {
            Ok(variants)
        }
    }

    fn get_pattern(&mut self) -> (r: Result<Option<ast::Pattern<Vec<u8>>>, ParserError>)
        requires
            old(self).wf(),
        ensures
            final(self).wf(),
            final(self).src() == old(self).src(),
            agrees(
                r,
                final(self).ptr,
                grammar::pattern(old(self).src(), old(self).pos()),
                |o: Option<ast::Pattern<Vec<u8>>>| opt_pattern(o),
            ),
            old(self).pos() <= final(self).pos(),
        decreases old(self).length - old(self).ptr, 3int,
    {
        let ghost src = self.source@;
        let ghost p = self.ptr as int;
        self.skip_blank_inline();
        let role = if self.skip_eol() {
            let ghost at = self.ptr as int;
            proof {
                lemma_blank_block(src, at);
            }
            self.skip_blank_block();
            TextElementPosition::LineStart
        } else {
            TextElementPosition::InitialLineStart
        };
        let builder = PatternBuilder {
            elements: Vec::new(),
            last_non_blank: None,
            common_indent: None,
            role,
        };
        assert(placeholders(builder.elements@) =~= Seq::<grammar::Placeholder>::empty());
        let builder = match self.get_pattern_elements(builder) {
            Ok(b) => b,
            Err(e) => return Err(e),
        };
        match builder.last_non_blank {
            Some(last) => {
                let elements = self.finish_elements(builder, last);
                Ok(Some(ast::Pattern { elements }))
            },
            None => Ok(None),
        }
    }

    /// Reads the elements of a pattern into `b`, up to where the pattern ends.
    fn get_pattern_elements(&mut self, b: PatternBuilder) -> (r: Result<PatternBuilder, ParserError>)
        requires
            old(self).wf(),
            b.fits(old(self).src()),
        ensures
            final(self).wf(),
            final(self).src() == old(self).src(),
            old(self).pos() <= final(self).pos(),
            match r {
                Ok(nb) => nb.fits(old(self).src()) && grammar::pattern_from(
                    old(self).src(),
                    old(self).pos(),
                    b.state(),
                ) == Ok::<_, (model::Error, int)>((nb.state(), final(self).pos())),
                Err(e) => grammar::pattern_from(old(self).src(), old(self).pos(), b.state()) matches Err(
                    (x, q),
                ) && model::error_matches(e, x) && final(self).pos() == q,
            },
        decreases old(self).length - old(self).ptr, 2int,
    {
        let ghost src = self.source@;
        let ghost q1 = self.ptr as int;
        let ghost st0 = b.state();
        let mut builder = b;
        loop
            invariant_except_break
                grammar::pattern_from(src, self.ptr as int, builder.state()) == grammar::pattern_from(
                    src,
                    q1,
                    st0,
                ),
            invariant
                self.wf(),
                self.source@ == src,
                src == old(self).source@,
                q1 == old(self).ptr,
                st0 == b.state(),
                self.length == old(self).length,
                q1 <= self.ptr,
                builder.fits(src),
            ensures
                self.wf(),
                self.source@ == src,
                q1 <= self.ptr,
                builder.fits(src),
                grammar::pattern_from(src, q1, st0) == Ok::<_, (model::Error, int)>(
                    (builder.state(), self.ptr as int),
                ),
            decreases self.length - self.ptr,
        {
            match self.get_pattern_element(&mut builder) {
                Ok(true) => {},
                Ok(false) => break,
                Err(e) => return Err(e),
            }
        }
        Ok(builder)
    }

    fn get_attribute(&mut self) -> (r: Result<ast::Attribute<Vec<u8>>, ParserError>)
        requires
            old(self).wf(),
        ensures
            final(self).wf(),
            final(self).src() == old(self).src(),
            agrees(
                r,
                final(self).ptr,
                grammar::attribute(old(self).src(), old(self).pos()),
                |a: ast::Attribute<Vec<u8>>| model::attribute(a),
            ),
            r is Ok ==> old(self).pos() < final(self).pos(),
            old(self).pos() <= final(self).pos(),
    {
        if let Err(e) = self.expect_byte(DOT) {
            return Err(e);
        }
        let id = match self.get_identifier() {
            Ok(id) => id,
            Err(e) => return Err(e),
        };
        self.skip_blank_inline();
        if let Err(e) = self.expect_byte(EQUALS) {
            return Err(e);
        }
        let pattern = match self.get_pattern() {
            Ok(p) => p,
            Err(e) => return Err(e),
        };
        match pattern {
            Some(pattern) => Ok(ast::Attribute { id, value: pattern }),
            None => error_at(ErrorKind::MissingValue, self.ptr),
        }
    }

    fn get_attributes(&mut self) -> (r: Vec<ast::Attribute<Vec<u8>>>)
        requires
            old(self).wf(),
        ensures
            final(self).wf(),
            final(self).src() == old(self).src(),
            (model::attributes(r@), final(self).pos()) == grammar::attributes_from(
                old(self).src(),
                old(self).pos(),
                Seq::empty(),
            ),
            old(self).pos() <= final(self).pos(),
    {
        let ghost src = self.source@;
        let ghost p = self.ptr as int;
        let mut attributes: Vec<ast::Attribute<Vec<u8>>> = Vec::new();
        proof {
            model::lemma_empty_lists();
        }
        loop
            invariant
                self.wf(),
                self.source@ == src,
                src == old(self).source@,
                p == old(self).ptr,
                p <= self.ptr,
                grammar::attributes_from(src, self.ptr as int, model::attributes(attributes@))
                    == grammar::attributes_from(src, p, Seq::empty()),
            ensures
                self.wf(),
                self.source@ == src,
                p <= self.ptr,
                (model::attributes(attributes@), self.ptr as int) == grammar::attributes_from(
                    src,
                    p,
                    Seq::empty(),
                ),
            decreases self.length - self.ptr,
        {
            let line_start = self.ptr;
            self.skip_blank_inline();
            if !self.is_current_byte(DOT) {
                self.ptr = line_start;
                break;
            }
            match self.get_attribute() {
                Ok(attr) => {
                    let ghost a0 = attributes@;
                    attributes.push(attr);
                    proof {
                        model::lemma_attributes_push(a0, attributes@.last());
                        assert(attributes@ =~= a0.push(attributes@.last()));
                    }
                },
                Err(_) => {
                    self.ptr = line_start;
                    break;
                },
            }
        }
        attributes
    }

    fn get_message(&mut self, entry_start: usize) -> (r: Result<ast::Message<Vec<u8>>, ParserError>)
        requires
            old(self).wf(),
            entry_start == old(self).pos(),
        ensures
            final(self).wf(),
            final(self).src() == old(self).src(),
            agrees(
                r,
                final(self).ptr,
                grammar::message(old(self).src(), old(self).pos()),
                |m: ast::Message<Vec<u8>>| model::message(m),
            ),
            old(self).pos() <= final(self).pos(),
            r is Ok ==> old(self).pos() < final(self).pos(),
            r is Err && final(self).pos() == old(self).pos() ==> !(byte_at(old(self).src(), old(self).pos()) matches Some(b) && is_alpha(b)),
    {
        let id = match self.get_identifier() {
            Ok(id) => id,
            Err(e) => return Err(e),
        };
        self.skip_blank_inline();
        if let Err(e) = self.expect_byte(EQUALS) {
            return Err(e);
        }
        let pattern = match self.get_pattern() {
            Ok(p) => p,
            Err(e) => return Err(e),
        };
        self.skip_blank_block();
        let attributes = self.get_attributes();
        if pattern.is_none() && attributes.len() == 0 {
            let entry_id = string_from_bytes(id.name.as_slice());
            return error_range(ErrorKind::ExpectedMessageField { entry_id }, entry_start, self.ptr);
        }
        Ok(ast::Message { id, value: pattern, attributes, comment: None })
    }

    fn get_term(&mut self, entry_start: usize) -> (r: Result<ast::Term<Vec<u8>>, ParserError>)
        requires
            old(self).wf(),
            entry_start == old(self).pos(),
        ensures
            final(self).wf(),
            final(self).src() == old(self).src(),
            agrees(
                r,
                final(self).ptr,
                grammar::term(old(self).src(), old(self).pos()),
                |t: ast::Term<Vec<u8>>| model::term(t),
            ),
            old(self).pos() <= final(self).pos(),
            r is Ok ==> old(self).pos() < final(self).pos(),
            r is Err && final(self).pos() == old(self).pos() ==> !is_byte(old(self).src(), old(self).pos(), MINUS),
    {
        if let Err(e) = self.expect_byte(MINUS) {
            return Err(e);
        }
        let id = match self.get_identifier() {
            Ok(id) => id,
            Err(e) => return Err(e),
        };
        self.skip_blank_inline();
        if let Err(e) = self.expect_byte(EQUALS) {
            return Err(e);
        }
        self.skip_blank_inline();
        let value = match self.get_pattern() {
            Ok(p) => p,
            Err(e) => return Err(e),
        };
        self.skip_blank_block();
        let attributes = self.get_attributes();
        match value {
            Some(value) => Ok(ast::Term { id, value, attributes, comment: None }),
            None => {
                let entry_id = string_from_bytes(id.name.as_slice());
                error_range(ErrorKind::ExpectedTermField { entry_id }, entry_start, self.ptr)
            },
        }
    }

    /// The entry at the cursor, always there where a byte is left.
    #[verifier::rlimit(100)]
    #[verifier::spinoff_prover]
    fn get_entry(&mut self, entry_start: usize) -> (r: Option<Result<ast::Entry<Vec<u8>>, ParserError>>)
        requires
            old(self).wf(),
            entry_start == old(self).pos(),
            old(self).pos() < old(self).src().len(),
        ensures
            final(self).wf(),
            final(self).src() == old(self).src(),
            old(self).pos() <= final(self).pos(),
            match grammar::entry(old(self).src(), old(self).pos()) {
                None => r is None,
                Some(g) => r matches Some(x) && agrees(
                    x,
                    final(self).ptr,
                    g,
                    |e: ast::Entry<Vec<u8>>| model::entry(e),
                ),
            },
            r matches Some(Ok(_)) ==> old(self).pos() < final(self).pos(),
            r matches Some(Err(_)) && final(self).pos() == old(self).pos() ==> !is_entry_start_byte(
                old(self).src()[old(self).pos()],
            ),
    {
        reveal(grammar::entry);
        let b = self.byte(self.ptr);
        if b == Some(HASH) {
            let (comment, level) = match self.get_comment() {
                Ok(c) => c,
                Err(e) => return Some(Err(e)),
            };
            if level == 1 {
                Some(Ok(ast::Entry::Comment(comment)))
            } else if level == 2 {
                Some(Ok(ast::Entry::GroupComment(comment)))
            } else if level == 3 {
                Some(Ok(ast::Entry::ResourceComment(comment)))
            } else {
                Some(
                    Err(
                        ParserError {
                            pos: (entry_start, entry_start + 1),
                            slice: None,
                            kind: ErrorKind::Generic,
                        },
                    ),
                )
            }
        } else if b == Some(MINUS) {
            match self.get_term(entry_start) {
                Ok(t) => Some(Ok(ast::Entry::Term(t))),
                Err(e) => Some(Err(e)),
            }
        } else {
            match self.get_message(entry_start) {
                Ok(m) => Some(Ok(ast::Entry::Message(m))),
                Err(e) => Some(Err(e)),
            }
        }
    }

    /// Gives `comment` to the message or term in `entry` where fewer than two blank
    /// lines stand between them; otherwise the comment goes to `body` on its own.
    fn attach_comment(
        body: &mut Vec<ast::Entry<Vec<u8>>>,
        comment: Option<ast::Comment<Vec<u8>>>,
        blank_lines: usize,
        entry: Result<ast::Entry<Vec<u8>>, ParserError>,
        Ghost(g): Ghost<PResult<model::Entry>>,
    ) -> (r: Result<ast::Entry<Vec<u8>>, ParserError>)
        requires
            entry_agrees(entry, g),
        ensures
            model::entries(final(body)@) == grammar::attach_comment(
                model::entries(old(body)@),
                model::opt_comment(comment),
                blank_lines as int,
                g,
            ).0,
            entry_agrees(
                r,
                grammar::attach_comment(
                    model::entries(old(body)@),
                    model::opt_comment(comment),
                    blank_lines as int,
                    g,
                ).1,
            ),
    {
        match comment {
            None => entry,
            Some(c) => {
                if blank_lines < 2 {
                    match entry {
                        Ok(ast::Entry::Message(m)) => {
                            return Ok(
                                ast::Entry::Message(
                                    ast::Message {
                                        id: m.id,
                                        value: m.value,
                                        attributes: m.attributes,
                                        comment: Some(c),
                                    },
                                ),
                            );
                        },
                        Ok(ast::Entry::Term(t)) => {
                            return Ok(
                                ast::Entry::Term(
                                    ast::Term {
                                        id: t.id,
                                        value: t.value,
                                        attributes: t.attributes,
                                        comment: Some(c),
                                    },
                                ),
                            );
                        },
                        other => {
                            let ghost b0 = body@;
                            body.push(ast::Entry::Comment(c));
                            proof {
                                model::lemma_entries_push(b0, body@.last());
                                assert(body@ =~= b0.push(body@.last()));
                            }
                            other
                        },
                    }
                } else {
                    let ghost b0 = body@;
                    body.push(ast::Entry::Comment(c));
                    proof {
                        model::lemma_entries_push(b0, body@.last());
                        assert(body@ =~= b0.push(body@.last()));
                    }
                    entry
                }
            },
        }
    }

    /// Parses the source from the cursor to its end. Each entry that fails to parse
    /// becomes a junk entry that runs to the next entry start, and its error is
    /// reported; the resource comes back as `Ok` where there is no error.
    pub fn parse(&mut self) -> (r: Result<
        ast::Resource<Vec<u8>>,
        (ast::Resource<Vec<u8>>, Vec<ParserError>),
    >)
        requires
            old(self).wf(),
        ensures
            final(self).wf(),
            final(self).src() == old(self).src(),
            final(self).pos() == old(self).src().len(),
            grammar::parse_at(old(self).src(), old(self).pos()) is Some,
            resource_agrees(r, grammar::parse_at(old(self).src(), old(self).pos()).unwrap()),
    {
        match self.try_parse() {
            Some(r) => r,
            None => Ok(ast::Resource { body: Vec::new() }),
        }
    }

    /// Parses as [`Parser::parse`] does; the result is always there.
    pub fn try_parse(&mut self) -> (r: Option<
        Result<ast::Resource<Vec<u8>>, (ast::Resource<Vec<u8>>, Vec<ParserError>)>,
    >)
        requires
            old(self).wf(),
        ensures
            final(self).wf(),
            final(self).src() == old(self).src(),
            r is Some,
            grammar::parse_at(old(self).src(), old(self).pos()) is Some,
            match grammar::parse_at(old(self).src(), old(self).pos()) {
                None => r is None,
                Some(g) => r matches Some(x) && resource_agrees(x, g) && final(self).pos()
                    == old(self).src().len(),
            },
    {
        let ghost src = self.source@;
        self.skip_blank_block();
        let mut b = ResourceBuilder {
            body: Vec::new(),
            errors: Vec::new(),
            gerrors: Ghost(Seq::empty()),
            last_comment: None,
            last_blank_count: 0,
        };
        proof {
            model::lemma_empty_lists();
        }
        while self.ptr < self.length
            invariant
                self.wf(),
                self.source@ == src,
                src == old(self).source@,
                b.fits(),
                grammar::parse_from(src, self.ptr as int, b.state()) == grammar::parse_at(
                    src,
                    old(self).ptr as int,
                ),
            decreases self.length - self.ptr,
        {
            if !self.parse_entry(&mut b) {
                return None;
            }
        }
        let ResourceBuilder { mut body, errors, gerrors, last_comment, last_blank_count } = b;
        let ghost b2 = body@;
        match last_comment {
            Some(c) => {
                body.push(ast::Entry::Comment(c));
                proof {
                    model::lemma_entries_push(b2, body@.last());
                    assert(body@ =~= b2.push(body@.last()));
                }
            },
            None => {},
        }
        if errors.len() == 0 {
            Some(Ok(ast::Resource { body }))
        } else {
            Some(Err((ast::Resource { body }, errors)))
        }
    }

    /// Reads the entry at the cursor into `b`, or the junk and error where it fails
    /// to parse, then skips the blank lines that follow.
    fn parse_entry(&mut self, b: &mut ResourceBuilder) -> (r: bool)
        requires
            old(self).wf(),
            old(self).pos() < old(self).src().len(),
            old(b).fits(),
        ensures
            final(self).wf(),
            final(self).src() == old(self).src(),
            final(b).fits(),
            r,
            old(self).pos() < final(self).pos() && grammar::parse_from(
                old(self).src(),
                old(self).pos(),
                old(b).state(),
            ) == grammar::parse_from(old(self).src(), final(self).pos(), final(b).state()),
    {
        let ghost src = self.source@;
        let entry_start = self.ptr;
        let ghost st = b.state();
        proof {
            grammar::lemma_parse_from_step(src, entry_start as int, st);
            grammar::lemma_entry_some(src, entry_start as int);
        }
        let ghost g = grammar::entry(src, entry_start as int).unwrap();
        let ghost step = grammar::parse_step(src, entry_start as int, st, g);
        let entry = match self.get_entry(entry_start) {
            Some(e) => e,
            None => return false,
        };
        let taken = b.last_comment.take();
        let entry = Self::attach_comment(&mut b.body, taken, b.last_blank_count, entry, Ghost(g));
        let ghost b1 = b.body@;
        match entry {
            Ok(ast::Entry::Comment(comment)) => {
                b.last_comment = Some(comment);
            },
            Ok(entry) => {
                b.body.push(entry);
                proof {
                    model::lemma_entries_push(b1, b.body@.last());
                    assert(b.body@ =~= b1.push(b.body@.last()));
                }
            },
            Err(err) => {
                let ghost eq = self.ptr as int;
                self.skip_to_next_entry_start();
                proof {
                    if eq == entry_start {
                        grammar::lemma_next_entry_start(src, eq + 1);
                    }
                }
                assert(entry_start < self.ptr);
                let mut err = err;
                err.slice = Some((entry_start, self.ptr));
                let ghost ge = grammar::attach_comment(
                    st.body,
                    st.last_comment,
                    st.last_blank_count,
                    g,
                ).1->Err_0.0;
                let ghost e0 = b.errors@;
                b.errors.push(err);
                proof {
                    let ne = model::Error { slice: Some((entry_start as int, self.ptr as int)), ..ge };
                    assert(b.errors@ =~= e0.push(b.errors@.last()));
                    b.gerrors@ = b.gerrors@.push(ne);
                    assert forall|i: int| 0 <= i < b.errors@.len() implies model::error_matches(
                        #[trigger] b.errors@[i],
                        b.gerrors@[i],
                    ) by {
                        if i < e0.len() {
                            assert(b.errors@[i] == e0[i]);
                        }
                    }
                }
                let content = self.slice(entry_start, self.ptr);
                b.body.push(ast::Entry::Junk { content });
                proof {
                    model::lemma_entries_push(b1, b.body@.last());
                    assert(b.body@ =~= b1.push(b.body@.last()));
                }
            },
        }
        proof {
            lemma_blank_block(src, self.ptr as int);
        }
        b.last_blank_count = self.skip_blank_block();
        assert(b.state() == step.0);
        true
    }

    /// Reads one element of a pattern into `b`; `Ok(false)` where the pattern ends
    /// before it.
    fn get_pattern_element(&mut self, b: &mut PatternBuilder) -> (r: Result<bool, ParserError>)
        requires
            old(self).wf(),
            old(b).fits(old(self).src()),
        ensures
            final(self).wf(),
            final(self).src() == old(self).src(),
            final(b).fits(old(self).src()),
            old(self).pos() <= final(self).pos(),
            match r {
                Ok(true) => old(self).pos() < final(self).pos() && grammar::pattern_from(
                    old(self).src(),
                    old(self).pos(),
                    old(b).state(),
                ) == grammar::pattern_from(old(self).src(), final(self).pos(), final(b).state()),
                Ok(false) => grammar::pattern_from(old(self).src(), old(self).pos(), old(b).state())
                    == Ok::<_, (model::Error, int)>((final(b).state(), final(self).pos())),
                Err(e) => grammar::pattern_from(old(self).src(), old(self).pos(), old(b).state()) matches Err(
                    (x, q),
                ) && model::error_matches(e, x) && final(self).pos() == q,
            },
        decreases old(self).length - old(self).ptr, 1int,
    {
        let ghost src = self.source@;
        let ghost q = self.ptr as int;
        let ghost els0 = b.elements@;
        if self.ptr >= self.length {
            return Ok(false);
        }
        if self.is_current_byte(OPEN_BRACE) {
            if b.role == TextElementPosition::LineStart {
                b.common_indent = Some(0);
            }
            let exp = match self.get_placeable() {
                Ok(e) => e,
                Err(e) => return Err(e),
            };
            b.last_non_blank = Some(b.elements.len());
            b.elements.push(PatternElementPlaceholders::Placeable(exp));
            b.role = TextElementPosition::Continuation;
            assert(placeholders(b.elements@) =~= placeholders(els0).push(placeholder(b.elements@.last())));
            assert(b.fits(src)) by {
                assert forall|k: int| 0 <= k < b.elements@.len() implies (#[trigger] b.elements@[k] matches PatternElementPlaceholders::TextElement(
                    a0,
                    b0,
                    ind,
                    _,
                ) ==> a0 + ind <= b0 <= src.len()) by {
                    if k < els0.len() {
                        assert(b.elements@[k] == els0[k]);
                    }
                }
            }
            return Ok(true);
        }
        let slice_start = self.ptr;
        let mut indent: usize = 0;
        if b.role == TextElementPosition::LineStart {
            indent = self.skip_blank_inline();
            if self.ptr >= self.length {
                return Ok(false);
            }
            let c = self.source[self.ptr];
            if indent == 0 {
                if c != LF {
                    return Ok(false);
                }
            } else if !Self::is_byte_pattern_continuation(c) {
                self.ptr = slice_start;
                return Ok(false);
            }
        }
        let (start, end, text_element_type, termination_reason) = match self.get_text_slice() {
            Ok(t) => t,
            Err(e) => return Err(e),
        };
        let ghost role0 = b.role;
        if start != end {
            if b.role == TextElementPosition::LineStart && text_element_type
                == TextElementType::NonBlank {
                b.common_indent = match b.common_indent {
                    Some(common) => if indent < common {
                        Some(indent)
                    } else {
                        Some(common)
                    },
                    None => Some(indent),
                };
            }
            if b.role != TextElementPosition::LineStart || text_element_type
                == TextElementType::NonBlank || termination_reason
                == TextElementTermination::LineFeed {
                if text_element_type == TextElementType::NonBlank {
                    b.last_non_blank = Some(b.elements.len());
                }
                b.elements.push(
                    PatternElementPlaceholders::TextElement(slice_start, end, indent, b.role),
                );
                assert(placeholders(b.elements@) =~= placeholders(els0).push(placeholder(b.elements@.last())));
                assert(b.fits(src)) by {
                    assert forall|k: int| 0 <= k < b.elements@.len() implies (#[trigger] b.elements@[k] matches PatternElementPlaceholders::TextElement(
                        a0,
                        b0,
                        ind,
                        _,
                    ) ==> a0 + ind <= b0 <= src.len()) by {
                        if k < els0.len() {
                            assert(b.elements@[k] == els0[k]);
                        }
                    }
                }
            }
        }
        b.role = match termination_reason {
            TextElementTermination::LineFeed => TextElementPosition::LineStart,
            TextElementTermination::Crlf => TextElementPosition::LineStart,
            TextElementTermination::PlaceableStart => TextElementPosition::Continuation,
            TextElementTermination::Eof => TextElementPosition::Continuation,
        };
        Ok(true)
    }

    /// The elements of a finished pattern up to its last non-blank one, dedented by
    /// the pattern's common indent; the last loses its trailing white space.
    fn finish_elements(&self, b: PatternBuilder, last: usize) -> (r: Vec<ast::PatternElement<Vec<u8>>>)
        requires
            self.wf(),
            b.fits(self.src()),
            last < b.elements@.len(),
        ensures
            model::elements(r@) == grammar::finish_pattern(self.src(), b.state(), last as int),
    {
        let ghost src = self.source@;
        let ghost fin = b.state();
        let common_indent = b.common_indent;
        let mut elements = b.elements;
        let total = elements.len();
        let ghost all = elements@;
        elements.truncate(last + 1);
        let mut pending: Vec<PatternElementPlaceholders> = Vec::new();
        while elements.len() > 0
            invariant
                last < all.len(),
                pending@.len() + elements@.len() == last + 1,
                elements@ == all.subrange(0, elements@.len() as int),
                forall|j: int| 0 <= j < pending@.len() ==> #[trigger] pending@[j] == all[last - j],
            decreases elements@.len(),
        {
            let ghost n = elements@.len();
            let e = elements.pop().unwrap();
            assert(e == all[n - 1]);
            pending.push(e);
            assert(elements@ =~= all.subrange(0, elements@.len() as int));
        }
        let mut result: Vec<ast::PatternElement<Vec<u8>>> = Vec::new();
        let mut i: usize = 0;
        proof {
            model::lemma_empty_lists();
        }
        while i <= last
            invariant
                self.wf(),
                self.source@ == src,
                last < all.len(),
                all.len() == total,
                i <= last + 1,
                pending@.len() == last + 1 - i,
                forall|j: int| 0 <= j < pending@.len() ==> #[trigger] pending@[j] == all[last - j],
                fin.elements == placeholders(all),
                fin.common_indent == opt_int(common_indent),
                forall|k: int|
                    0 <= k < all.len() ==> (#[trigger] all[k] matches PatternElementPlaceholders::TextElement(
                        a,
                        b,
                        ind,
                        _,
                    ) ==> a + ind <= b <= src.len()),
                model::elements(result@) == grammar::finish_pattern(src, fin, last as int).subrange(
                    0,
                    i as int,
                ),
            decreases last + 1 - i,
        {
            let ghost n = pending@.len();
            let elem = pending.pop().unwrap();
            assert(elem == all[last - (n - 1)]);
            assert(elem == all[i as int]);
            let converted = match elem {
                PatternElementPlaceholders::Placeable(expression) => ast::PatternElement::Placeable {
                    expression,
                },
                PatternElementPlaceholders::TextElement(start, end, indent, role) => {
                    let start = if role == TextElementPosition::LineStart {
                        match common_indent {
                            Some(common) => start + if indent < common {
                                indent
                            } else {
                                common
                            },
                            None => start + indent,
                        }
                    } else {
                        start
                    };
                    let mut value = self.slice(start, end);
                    if i == last {
                        value.trim();
                    }
                    ast::PatternElement::TextElement { value }
                },
            };
            let ghost r0 = result@;
            result.push(converted);
            proof {
                let f = grammar::finish_pattern(src, fin, last as int);
                model::lemma_elements_push(r0, result@.last());
                assert(result@ =~= r0.push(result@.last()));
                assert(f.subrange(0, i + 1) =~= f.subrange(0, i as int).push(f[i as int]));
            }
            i += 1;
        }
        proof {
            let f = grammar::finish_pattern(src, fin, last as int);
            assert(f.subrange(0, last + 1) =~= f);
        }
        result
    }
}

/// A resource being read: its entries and errors so far, the errors' model, a
/// comment waiting for the entry it may belong to, and how many blank lines came
/// before the next entry.
struct ResourceBuilder {
    body: Vec<ast::Entry<Vec<u8>>>,
    errors: Vec<ParserError>,
    gerrors: Ghost<Seq<model::Error>>,
    last_comment: Option<ast::Comment<Vec<u8>>>,
    last_blank_count: usize,
}

impl ResourceBuilder {
    spec fn state(&self) -> grammar::ParseState {
        grammar::ParseState {
            body: model::entries(self.body@),
            errors: self.gerrors@,
            last_comment: model::opt_comment(self.last_comment),
            last_blank_count: self.last_blank_count as int,
        }
    }

    /// The errors agree with their model.
    spec fn fits(&self) -> bool {
        model::errors_match(self.errors@, self.gerrors@)
    }
}

/// A pattern being read: its elements so far, the index of the last non-blank one,
/// the smallest indent of its indented lines, and where the next element stands.
struct PatternBuilder {
    elements: Vec<PatternElementPlaceholders>,
    last_non_blank: Option<usize>,
    common_indent: Option<usize>,
    role: TextElementPosition,
}

impl PatternBuilder {
    spec fn state(&self) -> grammar::PatternState {
        grammar::PatternState {
            elements: placeholders(self.elements@),
            last_non_blank: opt_int(self.last_non_blank),
            common_indent: opt_int(self.common_indent),
            role: self.role,
        }
    }

    /// The last non-blank index is an element's, and each text element lies in `src`.
    spec fn fits(&self, src: Seq<u8>) -> bool {
        &&& self.last_non_blank matches Some(l) ==> l < self.elements@.len()
        &&& forall|k: int|
            0 <= k < self.elements@.len() ==> (#[trigger] self.elements@[k] matches PatternElementPlaceholders::TextElement(
                a,
                b,
                ind,
                _,
            ) ==> a + ind <= b <= src.len())
    }
}

/// Parses an FTL source into a resource; see [`Parser::parse`].
pub fn parse(source: &str) -> (r: Result<
    ast::Resource<Vec<u8>>,
    (ast::Resource<Vec<u8>>, Vec<ParserError>),
>)
    requires
        source.spec_bytes().len() < usize::MAX,
    ensures
        grammar::parse(source.spec_bytes()) is Some,
        resource_agrees(r, grammar::parse(source.spec_bytes()).unwrap()),
{
    let mut parser = Parser::new(source);
    parser.parse()
}

/// Whether two byte strings are equal.
pub fn bytes_equal(a: &Vec<u8>, b: &Vec<u8>) -> (r: bool)
    ensures
        r == (a@ == b@),
{
    if a.len() != b.len() {
        return false;
    }
    let mut i: usize = 0;
    while i < a.len()
        invariant
            a@.len() == b@.len(),
            i <= a@.len(),
            forall|k: int| 0 <= k < i ==> a@[k] == b@[k],
        decreases a@.len() - i,
    {
        if a[i] != b[i] {
            return false;
        }
        i += 1;
    }
    assert(a@ =~= b@);
    true
}

/// A copy of `v`.
pub fn copy_bytes(v: &Vec<u8>) -> (r: Vec<u8>)
    ensures
        r@ == v@,
{
    vstd::slice::slice_to_vec(v.as_slice())
}
} // verus!
