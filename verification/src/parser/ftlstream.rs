//! A cursor over the bytes of an FTL source with the skipping helpers the grammar needs.
use super::errors::{error_at, ErrorKind, ParserError};
use crate::ascii::{
    alpha, byte_at, digit, hex_digit, is_alpha, is_digit, is_hex_digit, lemma_span_while, lemma_span_while_from, span_while, ByteClass,
    ASTERISK, CLOSE_BRACE, CR, DOT, HASH, LF, MINUS, OPEN_BRACE, OPEN_BRACKET, SPACE,
};
use crate::text::{owned, string_from_bytes};
use vstd::string::StringSliceAdditionalSpecFns;
use vstd::utf8::*;
use vstd::prelude::*;

verus! {

/// A cursor over the bytes of an FTL source: its bytes, their number and the position.
pub struct ParserStream<'p> {
    pub source: &'p [u8],
    pub length: usize,
    pub ptr: usize,
}

/// `p` starts a line: it is the first byte or follows a line feed.
pub open spec fn is_line_start(src: Seq<u8>, p: int) -> bool {
    p == 0 || (0 < p <= src.len() && src[p - 1] == LF)
}

/// A byte that may start an entry: a letter, `-` or `#`.
pub open spec fn is_entry_start_byte(b: u8) -> bool {
    is_alpha(b) || b == MINUS || b == HASH
}

/// `p` is where the next entry may begin: the end of the source, or a line start
/// whose first byte may start an entry.
pub open spec fn is_entry_boundary(src: Seq<u8>, p: int) -> bool {
    p == src.len() || (0 <= p < src.len() && is_line_start(src, p) && is_entry_start_byte(src[p]))
}

/// The line ending at `p`, if any: 1 for `\n`, 2 for `\r\n`, 0 otherwise.
pub open spec fn eol_len(src: Seq<u8>, p: int) -> int {
    if byte_at(src, p) == Some(LF) {
        1
    } else if byte_at(src, p) == Some(CR) && byte_at(src, p + 1) == Some(LF) {
        2
    } else {
        0
    }
}

/// Skips blank lines (spaces followed by a line ending) from `p`; returns how many
/// were skipped and where the first non-blank line starts.
pub open spec fn blank_block(src: Seq<u8>, p: int) -> (int, int)
    decreases src.len() - p,
{
    let q = span_while(src, p, ByteClass::Space);
    if 0 <= p && eol_len(src, q) > 0 {
        proof {
            lemma_span_while(src, p, ByteClass::Space);
        }
        let (n, r) = blank_block(src, q + eol_len(src, q));
        (n + 1, r)
    } else {
        (0, p)
    }
}

/// Skips spaces and line feeds from `p` (the stream's notion of blank).
pub open spec fn stream_blank_end(src: Seq<u8>, p: int) -> int {
    span_while(src, p, ByteClass::SpaceOrLf)
}

pub proof fn lemma_blank_block(src: Seq<u8>, p: int)
    requires
        0 <= p <= src.len(),
    ensures
        p <= blank_block(src, p).1 <= src.len(),
        0 <= blank_block(src, p).0,
        blank_block(src, p).0 == 0 <==> blank_block(src, p).1 == p,
    decreases src.len() - p,
{
    let q = span_while(src, p, ByteClass::Space);
    lemma_span_while(src, p, ByteClass::Space);
    if eol_len(src, q) > 0 {
        lemma_blank_block(src, q + eol_len(src, q));
    }
}

impl<'p> ParserStream<'p> {
    /// The stream's length matches its source; the cursor may stand anywhere.
    pub open spec fn sound(&self) -> bool {
        self.length == self.source@.len() && self.length < usize::MAX
    }

    /// The stream's length matches its source and the cursor is inside it.
    pub open spec fn wf(&self) -> bool {
        self.sound() && self.ptr <= self.length
    }

    pub fn new(stream: &'p str) -> (r: Self)
        requires
            stream.spec_bytes().len() < usize::MAX,
        ensures
            r.source@ == stream.spec_bytes(),
            r.length == stream.spec_bytes().len(),
            r.ptr == 0,
            r.wf(),
    {
        ParserStream { source: stream.as_bytes(), length: stream.len(), ptr: 0 }
    }

    pub fn is_current_byte(&self, b: u8) -> (r: bool)
        requires
            self.sound(),
        ensures
            r == (byte_at(self.source@, self.ptr as int) == Some(b)),
    {
        if self.ptr >= self.length {
            return false;
        }
        self.source[self.ptr] == b
    }

    pub fn is_byte_at(&self, b: u8, pos: usize) -> (r: bool)
        requires
            self.sound(),
        ensures
            r == (byte_at(self.source@, pos as int) == Some(b)),
    {
        if pos >= self.length {
            return false;
        }
        self.source[pos] == b
    }

    pub fn expect_byte(&mut self, b: u8) -> (r: Result<(), ParserError>)
        requires
            old(self).sound(),
            old(self).ptr < usize::MAX,
        ensures
            final(self).sound(),
            old(self).wf() ==> final(self).wf(),
            final(self).source == old(self).source,
            byte_at(old(self).source@, old(self).ptr as int) == Some(b) ==> r is Ok && final(self).ptr
                == old(self).ptr + 1,
            byte_at(old(self).source@, old(self).ptr as int) != Some(b) ==> final(self).ptr == old(
                self,
            ).ptr && (r matches Err(e) && e.kind == ErrorKind::ExpectedToken(b as char) && e.pos == (
                old(self).ptr,
                (old(self).ptr + 1) as usize,
            ) && e.slice is None),
    {
        if !self.is_current_byte(b) {
            return error_at(ErrorKind::ExpectedToken(b as char), self.ptr);
        }
        self.ptr += 1;
        Ok(())
    }

    pub fn take_if(&mut self, b: u8) -> (r: bool)
        requires
            old(self).sound(),
        ensures
            final(self).sound(),
            old(self).wf() ==> final(self).wf(),
            final(self).source == old(self).source,
            r == (byte_at(old(self).source@, old(self).ptr as int) == Some(b)),
            final(self).ptr == if r {
                old(self).ptr + 1
            } else {
                old(self).ptr as int
            },
    {
        if self.is_current_byte(b) {
            self.ptr += 1;
            true
        } else {
            false
        }
    }

    /// Skips whole blank lines; returns how many were skipped.
    pub fn skip_blank_block(&mut self) -> (r: usize)
        requires
            old(self).wf(),
        ensures
            final(self).wf(),
            final(self).source == old(self).source,
            (r as int, final(self).ptr as int) == blank_block(old(self).source@, old(self).ptr as int),
    {
        let mut count: usize = 0;
        let ghost src = self.source@;
        let ghost p0 = self.ptr as int;
        loop
            invariant
                self.wf(),
                self.source@ == src,
                0 <= p0 <= self.ptr,
                count <= self.ptr - p0,
                blank_block(src, p0) == ((count + blank_block(src, self.ptr as int).0), blank_block(
                    src,
                    self.ptr as int,
                ).1),
            ensures
                self.wf(),
                self.source@ == src,
                blank_block(src, p0) == (count as int, self.ptr as int),
            decreases self.length - self.ptr,
        {
            let start = self.ptr;
            proof {
                lemma_span_while(src, start as int, ByteClass::Space);
            }
            self.skip_blank_inline();
            if !self.skip_eol() {
                self.ptr = start;
                break;
            }
            count += 1;
        }
        count
    }

    /// Skips spaces and line feeds.
    pub fn skip_blank(&mut self)
        requires
            old(self).wf(),
        ensures
            final(self).wf(),
            final(self).source == old(self).source,
            final(self).ptr == stream_blank_end(old(self).source@, old(self).ptr as int),
    {
        proof {
            lemma_span_while(self.source@, self.ptr as int, ByteClass::SpaceOrLf);
        }
        while self.ptr < self.length && (self.source[self.ptr] == SPACE || self.source[self.ptr]
            == LF)
            invariant
                self.wf(),
                stream_blank_end(self.source@, self.ptr as int) == stream_blank_end(
                    old(self).source@,
                    old(self).ptr as int,
                ),
                self.source == old(self).source,
            decreases self.length - self.ptr,
        {
            self.ptr += 1;
        }
    }

    /// Skips spaces; returns how many were skipped.
    pub fn skip_blank_inline(&mut self) -> (r: usize)
        requires
            old(self).wf(),
        ensures
            final(self).wf(),
            final(self).source == old(self).source,
            final(self).ptr == span_while(old(self).source@, old(self).ptr as int, ByteClass::Space),
            r == final(self).ptr - old(self).ptr,
    {
        let start = self.ptr;
        while self.ptr < self.length && self.source[self.ptr] == SPACE
            invariant
                self.wf(),
                start <= self.ptr,
                span_while(self.source@, self.ptr as int, ByteClass::Space) == span_while(
                    old(self).source@,
                    old(self).ptr as int,
                    ByteClass::Space,
                ),
                self.source == old(self).source,
                start == old(self).ptr,
            decreases self.length - self.ptr,
        {
            self.ptr += 1;
        }
        self.ptr - start
    }

    /// Moves to the next place where an entry may start.
    pub fn skip_to_next_entry_start(&mut self)
        requires
            old(self).wf(),
        ensures
            final(self).wf(),
            final(self).source == old(self).source,
            old(self).ptr <= final(self).ptr,
            is_entry_boundary(final(self).source@, final(self).ptr as int),
            forall|q: int|
                old(self).ptr <= q < final(self).ptr ==> !is_entry_boundary(
                    old(self).source@,
                    q,
                ),
    {
        let ghost src = self.source@;
        while self.ptr < self.length
            invariant
                self.wf(),
                self.source@ == src,
                self.source == old(self).source,
                old(self).ptr <= self.ptr,
                forall|q: int| old(self).ptr <= q < self.ptr ==> !is_entry_boundary(src, q),
            ensures
                self.wf(),
                self.source@ == src,
                self.source == old(self).source,
                old(self).ptr <= self.ptr,
                forall|q: int| old(self).ptr <= q < self.ptr ==> !is_entry_boundary(src, q),
                is_entry_boundary(src, self.ptr as int),
            decreases self.length - self.ptr,
        {
            if (self.ptr == 0 || self.is_byte_at(LF, self.ptr - 1)) && (self.is_identifier_start()
                || self.is_current_byte(MINUS) || self.is_current_byte(HASH)) {
                break;
            }
            let ghost before = self.ptr;
            self.ptr += 1;
            while self.ptr < self.length && !self.is_byte_at(LF, self.ptr - 1)
                invariant
                    self.wf(),
                    self.source@ == src,
                    self.source == old(self).source,
                    old(self).ptr < self.ptr,
                    before < self.ptr,
                    forall|q: int| old(self).ptr <= q < self.ptr ==> !is_entry_boundary(src, q),
                decreases self.length - self.ptr,
            {
                self.ptr += 1;
            }
        }
    }

    /// Skips one line ending (`\n` or `\r\n`), reporting whether there was one.
    pub fn skip_eol(&mut self) -> (r: bool)
        requires
            old(self).sound(),
        ensures
            final(self).sound(),
            old(self).wf() ==> final(self).wf(),
            final(self).source == old(self).source,
            r == (eol_len(old(self).source@, old(self).ptr as int) > 0),
            final(self).ptr == old(self).ptr + eol_len(old(self).source@, old(self).ptr as int),
    {
        if self.ptr >= self.length {
            return false;
        }
        if self.is_current_byte(LF) {
            self.ptr += 1;
            return true;
        }
        if self.is_current_byte(CR) && self.is_byte_at(LF, self.ptr + 1) {
            self.ptr += 2;
            return true;
        }
        false
    }

    /// Moves to where a value starts. `Some(true)` means the value starts inline (or
    /// with a placeable), `Some(false)` that it starts on an indented following line
    /// (the cursor is left at that line's start), `None` that there is no value.
    pub fn skip_to_value_start(&mut self) -> (r: Option<bool>)
        requires
            old(self).wf(),
        ensures
            final(self).wf(),
            final(self).source == old(self).source,
            ({
                let src = old(self).source@;
                let a = span_while(src, old(self).ptr as int, ByteClass::Space);
                let c = blank_block(src, a).1;
                let d = span_while(src, c, ByteClass::Space);
                if eol_len(src, a) == 0 {
                    r == Some(true) && final(self).ptr == a
                } else if byte_at(src, d) == Some(OPEN_BRACE) {
                    r == Some(true) && final(self).ptr == d
                } else if d == c || !(d < src.len() && src[d] != CLOSE_BRACE && src[d] != DOT
                    && src[d] != OPEN_BRACKET && src[d] != ASTERISK) {
                    r is None && final(self).ptr == d
                } else {
                    r == Some(false) && final(self).ptr == c
                }
            }),
    {
        self.skip_blank_inline();
        if !self.is_eol() {
            return Some(true);
        }
        self.skip_blank_block();
        let inline = self.skip_blank_inline();
        if self.is_current_byte(OPEN_BRACE) {
            return Some(true);
        }
        if inline == 0 {
            return None;
        }
        if !self.is_char_pattern_continuation() {
            return None;
        }
        self.ptr -= inline;
        Some(false)
    }

    /// Skips the hex digits of a `\u` or `\U` escape, which must number `length`.
    pub fn skip_unicode_escape_sequence(&mut self, length: usize) -> (r: Result<(), ParserError>)
        requires
            old(self).wf(),
            span_while(old(self).source@, old(self).ptr as int, ByteClass::HexDigit)
                < old(self).length || old(self).ptr + length <= old(self).length,
        ensures
            final(self).wf(),
            final(self).source == old(self).source,
            ({
                let src = old(self).source@;
                let p = old(self).ptr as int;
                let q = span_while(src, p, ByteClass::HexDigit);
                let end = if q < p + length {
                    q
                } else {
                    p + length
                };
                &&& final(self).ptr == end
                &&& (end == p + length <==> r is Ok)
                &&& r matches Err(e) ==> e.pos == (end as usize, (end + 1) as usize) && e.slice is None
                    && e.kind is InvalidUnicodeEscapeSequence && (valid_utf8(src.subrange(p, end + 1))
                    ==> e.kind->InvalidUnicodeEscapeSequence_0@ == decode_utf8(
                    src.subrange(p, end + 1),
                ))
            }),
    {
        let start = self.ptr;
        let ghost src = self.source@;
        proof {
            lemma_span_while(src, start as int, ByteClass::HexDigit);
        }
        let mut i: usize = 0;
        while i < length
            invariant
                self.wf(),
                self.source@ == src,
                self.source == old(self).source,
                start == old(self).ptr,
                self.ptr == start + i,
                i <= length,
                forall|k: int| start <= k < self.ptr ==> is_hex_digit(#[trigger] src[k]),
                span_while(src, start as int, ByteClass::HexDigit) == span_while(src, self.ptr as int, ByteClass::HexDigit),
                span_while(src, start as int, ByteClass::HexDigit) < self.length || start + length
                    <= self.length,
            ensures
                self.wf(),
                self.source@ == src,
                self.source == old(self).source,
                start <= self.ptr <= start + length,
                span_while(src, start as int, ByteClass::HexDigit) == span_while(src, self.ptr as int, ByteClass::HexDigit),
                self.ptr < start + length ==> self.ptr < self.length && !is_hex_digit(src[self.ptr as int]),
            decreases length - i,
        {
            let b = self.source[self.ptr];
            if hex_digit(b) {
                proof {
                    lemma_span_while_from(src, start as int, self.ptr + 1, ByteClass::HexDigit);
                }
                self.ptr += 1;
            } else {
                break;
            }
            i += 1;
        }
        if self.ptr - start != length {
            let seq = string_from_bytes(self.get_slice(start, self.ptr + 1));
            return error_at(ErrorKind::InvalidUnicodeEscapeSequence(seq), self.ptr);
        }
        Ok(())
    }

    /// The current byte may continue a pattern on a new line: it is none of `}`, `.`, `[`, `*`.
    pub fn is_char_pattern_continuation(&self) -> (r: bool)
        requires
            self.wf(),
        ensures
            r == (self.ptr < self.length && self.source@[self.ptr as int] != CLOSE_BRACE
                && self.source@[self.ptr as int] != DOT && self.source@[self.ptr as int]
                != OPEN_BRACKET && self.source@[self.ptr as int] != ASTERISK),
    {
        if self.ptr >= self.length {
            return false;
        }
        let b = self.source[self.ptr];
        b != CLOSE_BRACE && b != DOT && b != OPEN_BRACKET && b != ASTERISK
    }

    pub fn is_identifier_start(&self) -> (r: bool)
        requires
            self.wf(),
        ensures
            r == (self.ptr < self.length && is_alpha(self.source@[self.ptr as int])),
    {
        if self.ptr >= self.length {
            return false;
        }
        let b = self.source[self.ptr];
        alpha(b)
    }

    pub fn is_number_start(&self) -> (r: bool)
        requires
            self.wf(),
        ensures
            r == (self.ptr < self.length && (self.source@[self.ptr as int] == MINUS || is_digit(
                self.source@[self.ptr as int],
            ))),
    {
        if self.ptr >= self.length {
            return false;
        }
        let b = self.source[self.ptr];
        b == MINUS || digit(b)
    }

    pub fn is_eol(&self) -> (r: bool)
        requires
            self.sound(),
        ensures
            r == (eol_len(self.source@, self.ptr as int) > 0),
    {
        if self.is_current_byte(LF) {
            return true;
        }
        self.is_current_byte(CR) && self.is_byte_at(LF, self.ptr + 1)
    }

    /// The source bytes from `start` to `end`.
    pub fn get_slice(&self, start: usize, end: usize) -> (r: &'p [u8])
        requires
            start <= end <= self.source@.len(),
        ensures
            r@ == self.source@.subrange(start as int, end as int),
    {
        slice_subrange(self.source, start, end)
    }

    /// Skips a non-empty run of decimal digits.
    pub fn skip_digits(&mut self) -> (r: Result<(), ParserError>)
        requires
            old(self).sound(),
            old(self).ptr < usize::MAX,
        ensures
            final(self).sound(),
            old(self).wf() ==> final(self).wf(),
            final(self).source == old(self).source,
            final(self).ptr == span_while(old(self).source@, old(self).ptr as int, ByteClass::Digit),
            (final(self).ptr > old(self).ptr) <==> r is Ok,
            r matches Err(e) ==> e.pos == (old(self).ptr, (old(self).ptr + 1) as usize) && e.slice
                is None && e.kind == (ErrorKind::ExpectedCharRange { range: e.kind->range })
                && e.kind->range@ == "0-9"@,
    {
        let start = self.ptr;
        while self.ptr < self.length && digit(self.source[self.ptr])
            invariant
                self.sound(),
                old(self).wf() ==> self.wf(),
                self.ptr == start || self.ptr <= self.length,
                start <= self.ptr,
                start == old(self).ptr,
                self.source == old(self).source,
                span_while(self.source@, self.ptr as int, ByteClass::Digit) == span_while(
                    old(self).source@,
                    old(self).ptr as int,
                    ByteClass::Digit,
                ),
            decreases self.length - self.ptr,
        {
            self.ptr += 1;
        }
        if start == self.ptr {
            error_at(ErrorKind::ExpectedCharRange { range: owned("0-9") }, self.ptr)
        } else {
            Ok(())
        }
    }
}

/// The bytes of `s` from `start` to `end`.
pub fn slice_subrange<'a>(s: &'a [u8], start: usize, end: usize) -> (r: &'a [u8])
    requires
        start <= end <= s@.len(),
    ensures
        r@ == s@.subrange(start as int, end as int),
{
    vstd::slice::slice_subrange(s, start, end)
}

} // verus!
