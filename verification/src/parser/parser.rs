//! A parser that builds a resource from the tokens of the [`Lexer`].
//!
//! Each step of the parser is stated as a function of the source and the lexer's
//! state; `None` stands for a step on which the parser panics or stops making
//! progress.
use super::lexer::{
    junk, lemma_next_token_progress, model_wf, progress, take_if, try_next, try_peek, LexModel,
    LexerError, Lexer, Token,
};
use super::tree::{
    m_attributes, m_comment, m_elements, m_entries, m_inline, Attribute, Comment, CommentType,
    Entry, Expression, Identifier, InlineExpression, MAttribute, MComment, MElement, MEntry, MInline,
    Message, Pattern, PatternElement, Resource, ResourceEntry, Term,
};
use crate::ascii::LF;
use vstd::string::StringSliceAdditionalSpecFns;
use core::ops::Range;
use vstd::prelude::*;

verus! {

/// `i` lies between two UTF-8 characters of `src`.
pub open spec fn char_boundary(src: Seq<u8>, i: int) -> bool {
    i == 0 || i == src.len() || (0 < i < src.len() && !(0x80 <= src[i] && src[i] < 0xC0))
}

/// The range from `a` to `b` can be cut out of the source text.
pub open spec fn slice_ok(src: Seq<u8>, a: int, b: int) -> bool {
    0 <= a <= b <= src.len() && char_boundary(src, a) && char_boundary(src, b)
}

/// A parser step: its result and the lexer's state after it, or `None`.
pub type Step<T> = Option<(Result<T, ()>, LexModel)>;

/// The next token must be `tok`.
pub open spec fn p_expect(src: Seq<u8>, m: LexModel, tok: Token) -> (Result<(), ()>, LexModel) {
    let (r, m1) = try_next(src, m);
    (
        if r == Ok::<_, LexerError>(Some(tok)) {
            Ok(())
        } else {
            Err(())
        },
        m1,
    )
}

/// An identifier token.
pub open spec fn p_identifier(src: Seq<u8>, m: LexModel) -> Step<Seq<u8>> {
    let (r, m1) = try_next(src, m);
    match r {
        Ok(Some(Token::Identifier(rg))) => if slice_ok(src, rg.start as int, rg.end as int) {
            Some((Ok(src.subrange(rg.start as int, rg.end as int)), m1))
        } else {
            None
        },
        _ => Some((Err(()), m1)),
    }
}

/// The range of a number whose integer part is `decimal`, with the `-` before it
/// where `minus`, and its fractional part where a `.` follows.
pub open spec fn p_number(src: Seq<u8>, m: LexModel, decimal: Range<usize>, minus: bool) -> Step<
    (int, int),
> {
    if minus && decimal.start == 0 {
        None
    } else {
        let start = if minus {
            decimal.start - 1
        } else {
            decimal.start as int
        };
        let (t, m1) = take_if(src, m, Token::Dot);
        match t {
            Err(_) => Some((Err(()), m1)),
            Ok(false) => Some((Ok((start, decimal.end as int)), m1)),
            Ok(true) => {
                let (r, m2) = try_next(src, m1);
                match r {
                    Ok(Some(Token::Number(r2))) => Some((Ok((start, r2.end as int)), m2)),
                    _ => Some((Err(()), m2)),
                }
            },
        }
    }
}

/// A number literal from a number step.
pub open spec fn p_number_literal(src: Seq<u8>, s: Step<(int, int)>) -> Step<MInline> {
    match s {
        None => None,
        Some((Err(_), m)) => Some((Err(()), m)),
        Some((Ok((a, b)), m)) => if slice_ok(src, a, b) {
            Some((Ok(MInline::NumberLiteral(src.subrange(a, b))), m))
        } else {
            None
        },
    }
}

/// An inline expression: a number, a term reference or a string.
#[verifier::opaque]
pub open spec fn p_inline(src: Seq<u8>, m: LexModel) -> Step<MInline> {
    let (r, m1) = try_next(src, m);
    match r {
        Ok(Some(Token::MinusSign)) => {
            let (r2, m2) = try_next(src, m1);
            match r2 {
                Ok(Some(Token::Number(rg))) => p_number_literal(src, p_number(src, m2, rg, true)),
                Ok(Some(Token::Identifier(rg))) => if slice_ok(src, rg.start as int, rg.end as int) {
                    Some(
                        (
                            Ok(MInline::TermReference(src.subrange(rg.start as int, rg.end as int), None)),
                            m2,
                        ),
                    )
                } else {
                    None
                },
                _ => Some((Err(()), m2)),
            }
        },
        Ok(Some(Token::Number(rg))) => p_number_literal(src, p_number(src, m1, rg, false)),
        Ok(Some(Token::Text(rg))) => if slice_ok(src, rg.start as int, rg.end as int) {
            Some((Ok(MInline::StringLiteral(src.subrange(rg.start as int, rg.end as int))), m1))
        } else {
            None
        },
        _ => Some((Err(()), m1)),
    }
}

/// The token `r` is a number.
pub open spec fn number_token(r: Result<Option<Token>, LexerError>) -> bool {
    r is Ok && r->Ok_0 is Some && r->Ok_0->Some_0 is Number
}

/// The text of the number literal `p_inline` reads at `m`, if it reads one.
pub open spec fn inline_number(src: Seq<u8>, m: LexModel) -> Option<Seq<u8>> {
    let r = p_inline(src, m);
    if r is Some && r->Some_0.0 is Ok && r->Some_0.0->Ok_0 is NumberLiteral {
        Some(r->Some_0.0->Ok_0->NumberLiteral_0)
    } else {
        None
    }
}

/// A number read inside a placeable is its source text whole: the literal starts where
/// the expression starts, with its `-` where there is one, and runs to the end of its
/// last digits.
#[verifier::rlimit(100)]
#[verifier::spinoff_prover]
pub proof fn lemma_number_keeps_sign(src: Seq<u8>, m: LexModel)
    requires
        src.len() <= usize::MAX,
        m.peeked is None,
        m.state == super::lexer::LexerState::Expression,
        inline_number(src, m) is Some,
    ensures
        exists|e: int|
            m.ptr < e <= src.len() && inline_number(src, m)->Some_0 == #[trigger] src.subrange(m.ptr, e) && (e
                == src.len() || !crate::ascii::is_digit(src[e])),
        0 <= m.ptr < src.len(),
        src[m.ptr] == crate::ascii::MINUS ==> inline_number(src, m)->Some_0[0] == crate::ascii::MINUS,
{
    reveal(p_inline);
    let p = m.ptr;
    let (r1, m1) = try_next(src, m);
    let v = inline_number(src, m)->Some_0;
    let start = if r1 == Ok::<_, LexerError>(Some(Token::MinusSign)) {
        p + 1
    } else {
        p
    };
    let (rn, mn) = if r1 == Ok::<_, LexerError>(Some(Token::MinusSign)) {
        try_next(src, m1)
    } else {
        (r1, m1)
    };
    assert(number_token(rn));
    let rg = rn->Ok_0->Some_0->Number_0;
    assert(rg.start as int == start);
    crate::ascii::lemma_span_while(src, start + 1, crate::ascii::ByteClass::Digit);
    let e1 = rg.end as int;
    assert(mn.ptr == e1 && mn.peeked is None && mn.state == super::lexer::LexerState::Expression);
    let (t, mt) = take_if(src, mn, Token::Dot);
    let b: int = if t == Ok::<bool, LexerError>(true) {
        let (r3, m3) = try_next(src, mt);
        assert(number_token(r3));
        crate::ascii::lemma_span_while(src, e1 + 2, crate::ascii::ByteClass::Digit);
        r3->Ok_0->Some_0->Number_0.end as int
    } else {
        e1
    };
    assert(slice_ok(src, p, b));
    assert(v == src.subrange(p, b));
    assert(v[0] == src[p]);
}

/// A placeable after its `{`: an inline expression and `}`.
#[verifier::opaque]
pub open spec fn p_placeable(src: Seq<u8>, m: LexModel) -> Step<MInline> {
    match p_inline(src, m) {
        None => None,
        Some((Err(_), m1)) => Some((Err(()), m1)),
        Some((Ok(e), m1)) => {
            let (c, m2) = p_expect(src, m1, Token::CloseCurlyBraces);
            match c {
                Ok(_) => Some((Ok(e), m2)),
                Err(_) => Some((Err(()), m2)),
            }
        },
    }
}

/// An indent recorded for a line of a pattern: the indent, the range of the line's
/// text (none for a placeable), and the index of its element.
pub type IndentMark = (int, Option<(int, int)>, int);

/// `n` line breaks.
pub open spec fn line_breaks(n: nat) -> Seq<MElement> {
    Seq::new(n, |i: int| MElement::Text(seq![LF]))
}

/// The elements of a pattern from the lexer's state `m`, after those already read,
/// up to its end.
pub open spec fn p_pattern_from(
    src: Seq<u8>,
    m: LexModel,
    pe: Seq<MElement>,
    indents: Seq<IndentMark>,
) -> Step<(Seq<MElement>, Seq<IndentMark>)>
    decreases progress(src, m),
{
    let (r, m1) = try_next(src, m);
    match r {
        Ok(Some(Token::Text(rg))) => if !slice_ok(src, rg.start as int, rg.end as int) {
            None
        } else if 0 <= progress(src, m1) < progress(src, m) {
            p_pattern_from(
                src,
                m1,
                pe.push(MElement::Text(src.subrange(rg.start as int, rg.end as int))),
                indents,
            )
        } else {
            None
        },
        Ok(Some(Token::Indent(i))) => {
            let (r2, m2) = try_next(src, m1);
            match r2 {
                Ok(Some(Token::Text(rg))) => if !slice_ok(src, rg.start as int, rg.end as int) {
                    None
                } else if 0 <= progress(src, m2) < progress(src, m) {
                    p_pattern_from(
                        src,
                        m2,
                        pe.push(MElement::Text(src.subrange(rg.start as int, rg.end as int))),
                        indents.push((i as int, Some((rg.start as int, rg.end as int)), pe.len() as int)),
                    )
                } else {
                    None
                },
                Ok(Some(Token::OpenCurlyBraces)) => match p_placeable(src, m2) {
                    None => None,
                    Some((Err(_), m3)) => Some((Err(()), m3)),
                    Some((Ok(e), m3)) => if 0 <= progress(src, m3) < progress(src, m) {
                        p_pattern_from(
                            src,
                            m3,
                            pe.push(MElement::Placeable(e)),
                            indents.push((i as int, None, pe.len() as int)),
                        )
                    } else {
                        None
                    },
                },
                _ => Some((Err(()), m2)),
            }
        },
        Ok(Some(Token::Eol(n))) => if 0 <= progress(src, m1) < progress(src, m) {
            p_pattern_from(src, m1, pe + line_breaks(n as nat), indents)
        } else {
            None
        },
        Ok(Some(Token::OpenCurlyBraces)) => match p_placeable(src, m1) {
            None => None,
            Some((Err(_), m3)) => Some((Err(()), m3)),
            Some((Ok(e), m3)) => if 0 <= progress(src, m3) < progress(src, m) {
                p_pattern_from(src, m3, pe.push(MElement::Placeable(e)), indents)
            } else {
                None
            },
        },
        Ok(Some(Token::Eot)) => Some((Ok((pe, indents)), m1)),
        _ => Some((Err(()), m1)),
    }
}

/// The smallest recorded indent.
pub open spec fn min_indent(indents: Seq<IndentMark>) -> int
    decreases indents.len(),
{
    if indents.len() <= 1 {
        if indents.len() == 1 {
            indents[0].0
        } else {
            0
        }
    } else {
        let rest = min_indent(indents.drop_last());
        if indents.last().0 < rest {
            indents.last().0
        } else {
            rest
        }
    }
}

/// Dedents the line an indent mark records by `min`.
pub open spec fn fix_indent(src: Seq<u8>, pe: Option<Seq<MElement>>, mark: IndentMark, min: int) -> Option<
    Seq<MElement>,
> {
    match pe {
        None => None,
        Some(pe) => {
            let (i, r, p) = mark;
            let indent = i - min;
            if !(0 <= p < pe.len()) {
                None
            } else {
                match (pe[p], r) {
                    (MElement::Text(_), Some((a, b))) => if 0 <= indent && slice_ok(src, a - indent, b) {
                        Some(pe.update(p, MElement::Text(src.subrange(a - indent, b))))
                    } else {
                        None
                    },
                    (MElement::Placeable(_), None) => Some(pe),
                    _ => None,
                }
            }
        },
    }
}

/// Dedents each recorded line, in order.
pub open spec fn fix_indents(src: Seq<u8>, pe: Seq<MElement>, indents: Seq<IndentMark>, min: int) -> Option<
    Seq<MElement>,
>
    decreases indents.len(),
{
    if indents.len() == 0 {
        Some(pe)
    } else {
        fix_indent(src, fix_indents(src, pe, indents.drop_last(), min), indents.last(), min)
    }
}

/// Drops the line breaks that end a pattern.
pub open spec fn drop_trailing_breaks(pe: Seq<MElement>) -> Seq<MElement>
    decreases pe.len(),
{
    if pe.len() > 0 && pe.last() == MElement::Text(seq![LF]) {
        drop_trailing_breaks(pe.drop_last())
    } else {
        pe
    }
}

/// The elements of a pattern once its lines are dedented and, where it has more
/// than one element, its trailing line breaks are dropped.
pub open spec fn finish_pattern(src: Seq<u8>, pe: Seq<MElement>, indents: Seq<IndentMark>) -> Option<
    Seq<MElement>,
> {
    match fix_indents(src, pe, indents, min_indent(indents)) {
        None => None,
        Some(fixed) => Some(
            if fixed.len() > 1 {
                drop_trailing_breaks(fixed)
            } else {
                fixed
            },
        ),
    }
}

/// An optional pattern: `None` where it has no element.
pub open spec fn p_maybe_pattern(src: Seq<u8>, m: LexModel) -> Step<Option<Seq<MElement>>> {
    match p_pattern_from(src, m, Seq::empty(), Seq::empty()) {
        None => None,
        Some((Err(_), m1)) => Some((Err(()), m1)),
        Some((Ok((pe, indents)), m1)) => if pe.len() == 0 {
            Some((Ok(None), m1))
        } else {
            match finish_pattern(src, pe, indents) {
                None => None,
                Some(els) => Some((Ok(Some(els)), m1)),
            }
        },
    }
}

/// An attribute after its `.`: an identifier, `=` and a pattern.
pub open spec fn p_attribute(src: Seq<u8>, m: LexModel) -> Step<MAttribute> {
    match p_identifier(src, m) {
        None => None,
        Some((Err(_), m1)) => Some((Err(()), m1)),
        Some((Ok(id), m1)) => {
            let (c, m2) = p_expect(src, m1, Token::EqSign);
            if c is Err {
                Some((Err(()), m2))
            } else {
                match p_maybe_pattern(src, m2) {
                    None => None,
                    Some((Err(_), m3)) => Some((Err(()), m3)),
                    Some((Ok(None), m3)) => Some((Err(()), m3)),
                    Some((Ok(Some(value)), m3)) => Some((Ok(MAttribute { id, value }), m3)),
                }
            }
        },
    }
}

/// The attributes that follow, each after a `.`, after those already read.
pub open spec fn p_attributes_from(src: Seq<u8>, m: LexModel, acc: Seq<MAttribute>) -> Step<Seq<MAttribute>>
    decreases progress(src, m),
{
    let (t, m1) = take_if(src, m, Token::Dot);
    match t {
        Err(_) => Some((Err(()), m1)),
        Ok(false) => Some((Ok(acc), m1)),
        Ok(true) => match p_attribute(src, m1) {
            None => None,
            Some((Err(_), m2)) => Some((Err(()), m2)),
            Some((Ok(a), m2)) => if 0 <= progress(src, m2) < progress(src, m) {
                p_attributes_from(src, m2, acc.push(a))
            } else {
                None
            },
        },
    }
}

/// The entries read so far and a comment waiting for the entry it may belong to.
pub struct PState {
    pub body: Seq<MEntry>,
    pub last_comment: Option<MComment>,
}

/// The waiting comment, if any, becomes an entry of its own.
pub open spec fn flush(st: PState) -> PState {
    match st.last_comment {
        Some(c) => PState { body: st.body.push(MEntry::Comment(c)), last_comment: None },
        None => st,
    }
}

/// A message after its identifier, which spans `id`: `=`, an optional pattern and
/// attributes, one of which must be there. It takes the waiting comment.
pub open spec fn p_message(src: Seq<u8>, m: LexModel, id: Range<usize>, st: PState) -> Option<
    (Result<(), ()>, LexModel, PState),
> {
    if !slice_ok(src, id.start as int, id.end as int) {
        None
    } else {
        let (c, m1) = p_expect(src, m, Token::EqSign);
        if c is Err {
            Some((Err(()), m1, st))
        } else {
            match p_maybe_pattern(src, m1) {
                None => None,
                Some((Err(_), m2)) => Some((Err(()), m2, st)),
                Some((Ok(value), m2)) => match p_attributes_from(src, m2, Seq::empty()) {
                    None => None,
                    Some((Err(_), m3)) => Some((Err(()), m3, st)),
                    Some((Ok(attributes), m3)) => if value is None && attributes.len() == 0 {
                        Some((Err(()), m3, st))
                    } else {
                        Some(
                            (
                                Ok(()),
                                m3,
                                PState {
                                    body: st.body.push(
                                        MEntry::Message {
                                            id: src.subrange(id.start as int, id.end as int),
                                            value,
                                            attributes,
                                            comment: st.last_comment,
                                        },
                                    ),
                                    last_comment: None,
                                },
                            ),
                        )
                    },
                },
            }
        }
    }
}

/// A term after its `-`: an identifier, `=`, a pattern and attributes. It takes the
/// waiting comment.
pub open spec fn p_term(src: Seq<u8>, m: LexModel, st: PState) -> Option<(Result<(), ()>, LexModel, PState)> {
    match p_identifier(src, m) {
        None => None,
        Some((Err(_), m1)) => Some((Err(()), m1, st)),
        Some((Ok(id), m1)) => {
            let (c, m2) = p_expect(src, m1, Token::EqSign);
            if c is Err {
                Some((Err(()), m2, st))
            } else {
                match p_maybe_pattern(src, m2) {
                    None => None,
                    Some((Err(_), m3)) => Some((Err(()), m3, st)),
                    Some((Ok(None), m3)) => Some((Err(()), m3, st)),
                    Some((Ok(Some(value)), m3)) => match p_attributes_from(src, m3, Seq::empty()) {
                        None => None,
                        Some((Err(_), m4)) => Some((Err(()), m4, st)),
                        Some((Ok(attributes), m4)) => Some(
                            (
                                Ok(()),
                                m4,
                                PState {
                                    body: st.body.push(
                                        MEntry::Term { id, pattern: value, attributes, comment: st.last_comment },
                                    ),
                                    last_comment: None,
                                },
                            ),
                        ),
                    },
                }
            }
        },
    }
}

pub open spec fn is_sigil(t: Token) -> bool {
    t is CommentSign || t is GroupCommentSign || t is ResourceCommentSign
}

pub open spec fn comment_type(t: Token) -> CommentType {
    match t {
        Token::GroupCommentSign => CommentType::Group,
        Token::ResourceCommentSign => CommentType::Resource,
        _ => CommentType::Regular,
    }
}

/// One line of a comment opened by `sigil`: its text (empty for a blank line), and
/// whether the comment goes on, which it does where the same sigil follows.
pub open spec fn p_comment_line(src: Seq<u8>, m: LexModel, sigil: Token) -> Option<
    (Result<bool, ()>, LexModel, Option<Seq<u8>>),
> {
    let (r, m1) = try_next(src, m);
    let line: Option<Option<Seq<u8>>> = match r {
        Ok(Some(Token::Text(rg))) => if slice_ok(src, rg.start as int, rg.end as int) {
            Some(Some(src.subrange(rg.start as int, rg.end as int)))
        } else {
            None
        },
        Ok(Some(Token::Eol(_))) => Some(Some(Seq::empty())),
        _ => Some(None),
    };
    match line {
        None => None,
        Some(None) => Some((Err(()), m1, None)),
        Some(Some(l)) => {
            let (pk, m2) = try_peek(src, m1);
            match pk {
                Err(_) => Some((Err(()), m2, Some(l))),
                Ok(Some(c)) => if is_sigil(c) && c == sigil {
                    let (r3, m3) = try_next(src, m2);
                    if r3 is Err {
                        Some((Err(()), m3, Some(l)))
                    } else {
                        Some((Ok(true), m3, Some(l)))
                    }
                } else {
                    Some((Ok(false), m2, Some(l)))
                },
                Ok(None) => Some((Ok(false), m2, Some(l))),
            }
        },
    }
}

/// A line read, as lines.
pub open spec fn opt_line(l: Option<Seq<u8>>) -> Seq<Seq<u8>> {
    match l {
        Some(x) => seq![x],
        None => Seq::empty(),
    }
}

/// The lines of a comment opened by `sigil`, after those already read.
pub open spec fn p_comment_lines(src: Seq<u8>, m: LexModel, sigil: Token, content: Seq<Seq<u8>>) -> Option<
    (Result<(), ()>, LexModel, Seq<Seq<u8>>),
>
    decreases progress(src, m),
{
    match p_comment_line(src, m, sigil) {
        None => None,
        Some((Ok(true), m1, l)) => if 0 <= progress(src, m1) < progress(src, m) {
            p_comment_lines(src, m1, sigil, content + opt_line(l))
        } else {
            None
        },
        Some((Ok(false), m1, l)) => Some((Ok(()), m1, content + opt_line(l))),
        Some((Err(_), m1, l)) => Some((Err(()), m1, content + opt_line(l))),
    }
}

/// A comment opened by `sigil`; it waits for the entry it may belong to, also where
/// one of its lines fails.
pub open spec fn p_comment(src: Seq<u8>, m: LexModel, sigil: Token, st: PState) -> Option<
    (Result<(), ()>, LexModel, PState),
> {
    match p_comment_lines(src, m, sigil, Seq::empty()) {
        None => None,
        Some((r, m1, content)) => Some(
            (
                r,
                m1,
                PState {
                    last_comment: Some(MComment { comment_type: comment_type(sigil), content }),
                    ..st
                },
            ),
        ),
    }
}

/// A step that adds an entry: `Ok(true)` where it did.
pub open spec fn as_entry(o: Option<(Result<(), ()>, LexModel, PState)>) -> Option<
    (Result<bool, ()>, LexModel, PState),
> {
    match o {
        None => None,
        Some((Ok(_), m2, st2)) => Some((Ok(true), m2, st2)),
        Some((Err(_), m2, st2)) => Some((Err(()), m2, st2)),
    }
}

/// One entry: whether there was one, or its failure.
pub open spec fn p_add_entry(src: Seq<u8>, m: LexModel, st: PState) -> Option<
    (Result<bool, ()>, LexModel, PState),
> {
    let (r, m1) = try_next(src, m);
    match r {
        Err(_) => Some((Err(()), m1, st)),
        Ok(None) => Some((Ok(false), m1, st)),
        Ok(Some(Token::Identifier(rg))) => as_entry(p_message(src, m1, rg, st)),
        Ok(Some(Token::MinusSign)) => as_entry(p_term(src, m1, st)),
        Ok(Some(Token::Eol(_))) => Some((Ok(true), m1, flush(st))),
        Ok(Some(t)) => if is_sigil(t) {
            as_entry(p_comment(src, m1, t, flush(st)))
        } else {
            None
        },
    }
}

/// The entries from the lexer's state `m` to the end of the source; an entry that
/// fails becomes junk.
pub open spec fn p_parse_from(src: Seq<u8>, m: LexModel, st: PState) -> Option<Seq<MEntry>>
    decreases progress(src, m),
{
    match p_add_entry(src, m, st) {
        None => None,
        Some((Ok(false), m1, st1)) => Some(flush(st1).body),
        Some((Ok(true), m1, st1)) => if 0 <= progress(src, m1) < progress(src, m) {
            p_parse_from(src, m1, st1)
        } else {
            None
        },
        Some((Err(_), m1, st1)) => {
            let (j, m2) = junk(src, m1);
            if !slice_ok(src, j.start as int, j.end as int) {
                None
            } else if 0 <= progress(src, m2) < progress(src, m) {
                let st2 = flush(st1);
                p_parse_from(
                    src,
                    m2,
                    PState {
                        body: st2.body.push(MEntry::Junk(src.subrange(j.start as int, j.end as int))),
                        ..st2
                    },
                )
            } else {
                None
            }
        },
    }
}

/// The entries of a whole source, or `None` where the parser panics on it.
pub open spec fn p_parse(src: Seq<u8>) -> Option<Seq<MEntry>> {
    p_parse_from(
        src,
        LexModel { state: super::lexer::LexerState::Resource, ptr: 0, entry_start: 0, peeked: None },
        PState { body: Seq::empty(), last_comment: None },
    )
}


/// The parser failed; the lexer knows where.
#[derive(Debug, PartialEq, Eq, Structural)]
pub enum ParserError {
    Unknown,
}

impl From<LexerError> for ParserError {
    fn from(_input: LexerError) -> (r: Self) {
        ParserError::Unknown
    }
}

impl vstd::std_specs::convert::FromSpecImpl<LexerError> for ParserError {
    open spec fn obeys_from_spec() -> bool {
        true
    }

    open spec fn from_spec(v: LexerError) -> Self {
        ParserError::Unknown
    }
}

/// The model of a recorded indent.
pub open spec fn m_mark(x: (usize, Option<Range<usize>>, usize)) -> IndentMark {
    (
        x.0 as int,
        match x.1 {
            Some(r) => Some((r.start as int, r.end as int)),
            None => None,
        },
        x.2 as int,
    )
}

pub open spec fn m_marks(s: Seq<(usize, Option<Range<usize>>, usize)>) -> Seq<IndentMark> {
    s.map_values(|x: (usize, Option<Range<usize>>, usize)| m_mark(x))
}

proof fn lemma_min_indent(indents: Seq<IndentMark>)
    ensures
        forall|k: int| 0 <= k < indents.len() ==> min_indent(indents) <= #[trigger] indents[k].0,
    decreases indents.len(),
{
    if indents.len() > 1 {
        lemma_min_indent(indents.drop_last());
        assert forall|k: int| 0 <= k < indents.len() implies min_indent(indents) <= #[trigger] indents[k].0 by {
            if k < indents.len() - 1 {
                assert(indents.drop_last()[k] == indents[k]);
            }
        }
    }
}

proof fn lemma_fix_indents_prefix(src: Seq<u8>, pe: Seq<MElement>, indents: Seq<IndentMark>, k: int, min: int)
    requires
        0 <= k <= indents.len(),
        fix_indents(src, pe, indents.subrange(0, k), min) is None,
    ensures
        fix_indents(src, pe, indents, min) is None,
    decreases indents.len() - k,
{
    if k < indents.len() {
        assert(indents.subrange(0, k + 1).drop_last() =~= indents.subrange(0, k));
        lemma_fix_indents_prefix(src, pe, indents, k + 1, min);
    } else {
        assert(indents.subrange(0, k) =~= indents);
    }
}

/// A parser that reads a resource token by token.
pub struct Parser<'p> {
    source: &'p str,
    lexer: Lexer<'p>,
    body: Vec<ResourceEntry>,
    last_comment: Option<Comment>,
}

impl<'p> Parser<'p> {
    pub closed spec fn src(&self) -> Seq<u8> {
        self.source.spec_bytes()
    }

    /// The lexer's state.
    pub closed spec fn lex(&self) -> LexModel {
        self.lexer.model()
    }

    /// The entries read so far and the waiting comment.
    pub closed spec fn state(&self) -> PState {
        PState {
            body: m_entries(self.body@),
            last_comment: match self.last_comment {
                Some(c) => Some(m_comment(c)),
                None => None,
            },
        }
    }

    pub closed spec fn wf(&self) -> bool {
        &&& self.lexer.wf()
        &&& self.lexer.src() == self.source.spec_bytes()
    }

    pub fn new(source: &'p str) -> (r: Self)
        requires
            source.spec_bytes().len() < usize::MAX,
        ensures
            r.wf(),
            r.src() == source.spec_bytes(),
            r.lex() == (LexModel {
                state: super::lexer::LexerState::Resource,
                ptr: 0,
                entry_start: 0,
                peeked: None,
            }),
            r.state() == (PState { body: Seq::empty(), last_comment: None }),
            p_parse_from(r.src(), r.lex(), r.state()) == p_parse(source.spec_bytes()),
    {
        let p = Parser {
            lexer: Lexer::new(source.as_bytes()),
            source,
            body: Vec::new(),
            last_comment: None,
        };
        assert(m_entries(p.body@) =~= Seq::<MEntry>::empty());
        p
    }

    /// The bytes of the source from `start` to `end`.
    fn text(&self, start: usize, end: usize) -> (r: Vec<u8>)
        requires
            start <= end <= self.src().len(),
        ensures
            r@ == self.src().subrange(start as int, end as int),
    {
        vstd::slice::slice_to_vec(vstd::slice::slice_subrange(self.source.as_bytes(), start, end))
    }

    fn get_identifier(&mut self) -> (r: Result<Identifier, ParserError>)
        requires
            old(self).wf(),
            p_identifier(old(self).src(), old(self).lex()) is Some,
        ensures
            final(self).wf(),
            final(self).src() == old(self).src(),
            final(self).state() == old(self).state(),
            ({
                let (g, m) = p_identifier(old(self).src(), old(self).lex()).unwrap();
                final(self).lex() == m && match g {
                    Ok(id) => r matches Ok(x) && x.name@ == id,
                    Err(_) => r is Err,
                }
            }),
    {
        match self.lexer.try_next() {
            Ok(Some(Token::Identifier(r))) => Ok(Identifier { name: self.text(r.start, r.end) }),
            _ => Err(ParserError::Unknown),
        }
    }

    fn get_number(&mut self, decimal: Range<usize>, minus: bool) -> (r: Result<Range<usize>, ParserError>)
        requires
            old(self).wf(),
            p_number(old(self).src(), old(self).lex(), decimal, minus) is Some,
        ensures
            final(self).wf(),
            final(self).src() == old(self).src(),
            final(self).state() == old(self).state(),
            ({
                let (g, m) = p_number(old(self).src(), old(self).lex(), decimal, minus).unwrap();
                final(self).lex() == m && match g {
                    Ok((a, b)) => r matches Ok(x) && x.start == a && x.end == b,
                    Err(_) => r is Err,
                }
            }),
    {
        let mut result = decimal;
        if minus {
            result.start -= 1;
        }
        match self.lexer.take_if(Token::Dot) {
            Err(_) => return Err(ParserError::Unknown),
            Ok(true) => {
                match self.lexer.try_next() {
                    Ok(Some(Token::Number(r))) => {
                        result.end = r.end;
                    },
                    _ => {
                        return Err(ParserError::Unknown);
                    },
                }
            },
            Ok(false) => {},
        }
        Ok(result)
    }

    fn number_literal(&self, num: Result<Range<usize>, ParserError>, Ghost(s): Ghost<Step<(int, int)>>) -> (r: Result<InlineExpression, ParserError>)
        requires
            p_number_literal(self.src(), s) is Some,
            s matches Some((g, _)) && match g {
                Ok((a, b)) => num matches Ok(x) && x.start == a && x.end == b,
                Err(_) => num is Err,
            },
        ensures
            match p_number_literal(self.src(), s).unwrap().0 {
                Ok(e) => r matches Ok(x) && m_inline(x) == e,
                Err(_) => r is Err,
            },
    {
        match num {
            Ok(num) => Ok(InlineExpression::NumberLiteral { value: self.text(num.start, num.end) }),
            Err(e) => Err(e),
        }
    }

    fn get_inline_expression(&mut self) -> (r: Result<InlineExpression, ParserError>)
        requires
            old(self).wf(),
            p_inline(old(self).src(), old(self).lex()) is Some,
        ensures
            final(self).wf(),
            final(self).src() == old(self).src(),
            final(self).state() == old(self).state(),
            ({
                let (g, m) = p_inline(old(self).src(), old(self).lex()).unwrap();
                final(self).lex() == m && match g {
                    Ok(e) => r matches Ok(x) && m_inline(x) == e,
                    Err(_) => r is Err,
                }
            }),
    {
        let ghost src = self.src();
        reveal(p_inline);
        match self.lexer.try_next() {
            Ok(Some(Token::MinusSign)) => {
                match self.lexer.try_next() {
                    Ok(Some(Token::Number(r))) => {
                        let ghost s = p_number(src, self.lex(), r, true);
                        let num = self.get_number(r, true);
                        self.number_literal(num, Ghost(s))
                    },
                    Ok(Some(Token::Identifier(r))) => {
                        let id = Identifier { name: self.text(r.start, r.end) };
                        Ok(InlineExpression::TermReference { id, attribute: None })
                    },
                    _ => Err(ParserError::Unknown),
                }
            },
            Ok(Some(Token::Number(r))) => {
                let ghost s = p_number(src, self.lex(), r, false);
                let num = self.get_number(r, false);
                self.number_literal(num, Ghost(s))
            },
            Ok(Some(Token::Text(r))) => Ok(InlineExpression::StringLiteral { value: self.text(r.start, r.end) }),
            _ => Err(ParserError::Unknown),
        }
    }

    fn get_expression(&mut self) -> (r: Result<Expression, ParserError>)
        requires
            old(self).wf(),
            p_inline(old(self).src(), old(self).lex()) is Some,
        ensures
            final(self).wf(),
            final(self).src() == old(self).src(),
            final(self).state() == old(self).state(),
            ({
                let (g, m) = p_inline(old(self).src(), old(self).lex()).unwrap();
                final(self).lex() == m && match g {
                    Ok(e) => r matches Ok(Expression::InlineExpression(x)) && m_inline(x) == e,
                    Err(_) => r is Err,
                }
            }),
    {
        match self.get_inline_expression() {
            Ok(e) => Ok(Expression::InlineExpression(e)),
            Err(e) => Err(e),
        }
    }

    /// A placeable after its `{`: an expression and `}`.
    fn get_placeable(&mut self) -> (r: Result<Expression, ParserError>)
        requires
            old(self).wf(),
            p_placeable(old(self).src(), old(self).lex()) is Some,
        ensures
            final(self).wf(),
            final(self).src() == old(self).src(),
            final(self).state() == old(self).state(),
            ({
                let (g, m) = p_placeable(old(self).src(), old(self).lex()).unwrap();
                final(self).lex() == m && match g {
                    Ok(e) => r matches Ok(Expression::InlineExpression(x)) && m_inline(x) == e,
                    Err(_) => r is Err,
                }
            }),
    {
        reveal(p_placeable);
        let exp = match self.get_expression() {
            Ok(e) => e,
            Err(e) => return Err(e),
        };
        match self.lexer.expect(Token::CloseCurlyBraces) {
            Ok(()) => Ok(exp),
            Err(_) => Err(ParserError::Unknown),
        }
    }

    /// Reads the next element of a pattern into `pe`, recording its indent in
    /// `indents`; `Ok(false)` at the end of the pattern.
    fn get_pattern_element(
        &mut self,
        pe: &mut Vec<PatternElement>,
        indents: &mut Vec<(usize, Option<Range<usize>>, usize)>,
    ) -> (r: Result<bool, ParserError>)
        requires
            old(self).wf(),
            p_pattern_from(old(self).src(), old(self).lex(), m_elements(old(pe)@), m_marks(old(indents)@)) is Some,
        ensures
            final(self).wf(),
            final(self).src() == old(self).src(),
            final(self).state() == old(self).state(),
            ({
                let before = p_pattern_from(
                    old(self).src(),
                    old(self).lex(),
                    m_elements(old(pe)@),
                    m_marks(old(indents)@),
                );
                match r {
                    Ok(true) => before == p_pattern_from(
                        old(self).src(),
                        final(self).lex(),
                        m_elements(final(pe)@),
                        m_marks(final(indents)@),
                    ) && 0 <= progress(old(self).src(), final(self).lex()) < progress(
                        old(self).src(),
                        old(self).lex(),
                    ),
                    Ok(false) => before == Some::<(Result<_, ()>, LexModel)>(
                        (Ok((m_elements(final(pe)@), m_marks(final(indents)@))), final(self).lex()),
                    ),
                    Err(_) => before matches Some((Err(_), mm)) && mm == final(self).lex(),
                }
            }),
    {
        let ghost src = self.src();
        let ghost e0 = m_elements(pe@);
        let ghost i0 = m_marks(indents@);
        match self.lexer.try_next() {
            Ok(Some(Token::Text(r))) => {
                pe.push(PatternElement::TextElement(self.text(r.start, r.end)));
                assert(m_elements(pe@) =~= e0.push(MElement::Text(src.subrange(r.start as int, r.end as int))));
                Ok(true)
            },
            Ok(Some(Token::Indent(i))) => match self.lexer.try_next() {
                Ok(Some(Token::Text(r))) => {
                    pe.push(PatternElement::TextElement(self.text(r.start, r.end)));
                    indents.push((i, Some(r.start..r.end), pe.len() - 1));
                    assert(m_elements(pe@) =~= e0.push(MElement::Text(src.subrange(r.start as int, r.end as int))));
                    assert(m_marks(indents@) =~= i0.push((i as int, Some((r.start as int, r.end as int)), e0.len() as int)));
                    Ok(true)
                },
                Ok(Some(Token::OpenCurlyBraces)) => {
                    let exp = match self.get_placeable() {
                        Ok(e) => e,
                        Err(e) => return Err(e),
                    };
                    pe.push(PatternElement::Placeable(exp));
                    indents.push((i, None, pe.len() - 1));
                    assert(m_elements(pe@) =~= e0.push(super::tree::m_element(pe@.last())));
                    assert(m_marks(indents@) =~= i0.push((i as int, None, e0.len() as int)));
                    Ok(true)
                },
                _ => Err(ParserError::Unknown),
            },
            Ok(Some(Token::Eol(eols))) => {
                let mut k: usize = 0;
                while k < eols
                    invariant
                        k <= eols,
                        m_elements(pe@) == e0 + line_breaks(k as nat),
                        m_marks(indents@) == i0,
                    decreases eols - k,
                {
                    let ghost before = m_elements(pe@);
                    let mut line_break: Vec<u8> = Vec::new();
                    line_break.push(LF);
                    assert(line_break@ =~= seq![LF]);
                    pe.push(PatternElement::TextElement(line_break));
                    assert(m_elements(pe@) =~= before.push(MElement::Text(seq![LF])));
                    assert(e0 + line_breaks((k + 1) as nat) =~= (e0 + line_breaks(k as nat)).push(MElement::Text(seq![LF])));
                    k += 1;
                }
                Ok(true)
            },
            Ok(Some(Token::OpenCurlyBraces)) => {
                let exp = match self.get_placeable() {
                    Ok(e) => e,
                    Err(e) => return Err(e),
                };
                pe.push(PatternElement::Placeable(exp));
                assert(m_elements(pe@) =~= e0.push(super::tree::m_element(pe@.last())));
                Ok(true)
            },
            Ok(Some(Token::Eot)) => Ok(false),
            _ => Err(ParserError::Unknown),
        }
    }

    /// Reads the elements of a pattern up to its end.
    fn get_pattern_elements(&mut self) -> (r: Result<
        (Vec<PatternElement>, Vec<(usize, Option<Range<usize>>, usize)>),
        ParserError,
    >)
        requires
            old(self).wf(),
            p_pattern_from(old(self).src(), old(self).lex(), Seq::empty(), Seq::empty()) is Some,
        ensures
            final(self).wf(),
            final(self).src() == old(self).src(),
            final(self).state() == old(self).state(),
            ({
                let (g, m) = p_pattern_from(old(self).src(), old(self).lex(), Seq::empty(), Seq::empty()).unwrap();
                final(self).lex() == m && match g {
                    Ok((pe, indents)) => r matches Ok((x, y)) && m_elements(x@) == pe && m_marks(y@) == indents,
                    Err(_) => r is Err,
                }
            }),
    {
        let ghost src = self.src();
        let ghost m0 = self.lex();
        let mut pe: Vec<PatternElement> = Vec::new();
        let mut indents: Vec<(usize, Option<Range<usize>>, usize)> = Vec::new();
        assert(m_elements(pe@) =~= Seq::<MElement>::empty());
        assert(m_marks(indents@) =~= Seq::<IndentMark>::empty());
        loop
            invariant_except_break
                p_pattern_from(src, self.lex(), m_elements(pe@), m_marks(indents@)) == p_pattern_from(
                    src,
                    m0,
                    Seq::empty(),
                    Seq::empty(),
                ),
            invariant
                self.wf(),
                self.src() == src,
                src == old(self).src(),
                m0 == old(self).lex(),
                self.state() == old(self).state(),
                p_pattern_from(src, m0, Seq::empty(), Seq::empty()) is Some,
            ensures
                p_pattern_from(src, m0, Seq::empty(), Seq::empty()) == Some::<(Result<_, ()>, LexModel)>(
                    (Ok((m_elements(pe@), m_marks(indents@))), self.lex()),
                ),
            decreases progress(src, self.lex()),
        {
            match self.get_pattern_element(&mut pe, &mut indents) {
                Ok(true) => {},
                Ok(false) => break,
                Err(e) => return Err(e),
            }
        }
        Ok((pe, indents))
    }

    /// Dedents the recorded lines of a pattern by the smallest indent, and drops the
    /// line breaks that end a pattern of more than one element.
    fn finish_elements(&self, pe: &mut Vec<PatternElement>, indents: &Vec<(usize, Option<Range<usize>>, usize)>)
        requires
            finish_pattern(self.src(), m_elements(old(pe)@), m_marks(indents@)) is Some,
        ensures
            m_elements(final(pe)@) == finish_pattern(self.src(), m_elements(old(pe)@), m_marks(indents@)).unwrap(),
    {
        let ghost src = self.src();
        let ghost e0 = m_elements(pe@);
        let ghost marks = m_marks(indents@);
        proof {
            lemma_min_indent(marks);
        }
        let mut min_indent_value: usize = 0;
        if indents.len() > 0 {
            min_indent_value = indents[0].0;
            let mut k: usize = 1;
            assert(marks.subrange(0, 1).len() == 1);
            while k < indents.len()
                invariant
                    1 <= k <= indents@.len(),
                    marks == m_marks(indents@),
                    min_indent_value as int == min_indent(marks.subrange(0, k as int)),
                decreases indents@.len() - k,
            {
                assert(marks.subrange(0, k + 1).drop_last() =~= marks.subrange(0, k as int));
                if indents[k].0 < min_indent_value {
                    min_indent_value = indents[k].0;
                }
                k += 1;
            }
            assert(marks.subrange(0, k as int) =~= marks);
        }
        let ghost min = min_indent(marks);
        assert(min_indent_value as int == min);
        let mut k: usize = 0;
        assert(marks.subrange(0, 0) =~= Seq::<IndentMark>::empty());
        while k < indents.len()
            invariant
                k <= indents@.len(),
                marks == m_marks(indents@),
                min_indent_value as int == min,
                min == min_indent(marks),
                forall|j: int| 0 <= j < marks.len() ==> min <= #[trigger] marks[j].0,
                fix_indents(src, e0, marks, min) is Some,
                fix_indents(src, e0, marks.subrange(0, k as int), min) == Some(m_elements(pe@)),
                src == self.src(),
            decreases indents@.len() - k,
        {
            let ghost before = m_elements(pe@);
            assert(marks.subrange(0, k + 1).drop_last() =~= marks.subrange(0, k as int));
            assert(marks.subrange(0, k + 1).last() == marks[k as int]);
            proof {
                if fix_indents(src, e0, marks.subrange(0, k + 1), min) is None {
                    lemma_fix_indents_prefix(src, e0, marks, k + 1, min);
                }
            }
            let (i, r, p) = (indents[k].0, &indents[k].1, indents[k].2);
            assert(min <= marks[k as int].0);
            let indent = i - min_indent_value;
            let replacement = match (&pe[p], r) {
                (PatternElement::TextElement(_), Some(r)) => Some(self.text(r.start - indent, r.end)),
                _ => None,
            };
            match replacement {
                Some(t) => {
                    pe.set(p, PatternElement::TextElement(t));
                    assert(m_elements(pe@) =~= before.update(p as int, MElement::Text(src.subrange(r->Some_0.start - indent, r->Some_0.end as int))));
                },
                None => {},
            }
            k += 1;
        }
        assert(marks.subrange(0, k as int) =~= marks);
        if pe.len() > 1 {
            loop
                invariant
                    drop_trailing_breaks(m_elements(pe@)) == finish_pattern(src, e0, marks).unwrap(),
                ensures
                    m_elements(pe@) == finish_pattern(src, e0, marks).unwrap(),
                decreases pe@.len(),
            {
                let n = pe.len();
                if n == 0 {
                    break;
                }
                let ends_with_break = match &pe[n - 1] {
                    PatternElement::TextElement(t) => t.len() == 1 && t[0] == LF,
                    _ => false,
                };
                if !ends_with_break {
                    break;
                }
                let ghost before = m_elements(pe@);
                proof {
                    let t = pe@[n - 1];
                    if let PatternElement::TextElement(v) = t {
                        assert(v@ =~= seq![LF]);
                    }
                }
                pe.pop();
                assert(m_elements(pe@) =~= before.drop_last());
            }
        }
    }

    fn maybe_get_pattern(&mut self) -> (r: Result<Option<Pattern>, ParserError>)
        requires
            old(self).wf(),
            p_maybe_pattern(old(self).src(), old(self).lex()) is Some,
        ensures
            final(self).wf(),
            final(self).src() == old(self).src(),
            final(self).state() == old(self).state(),
            ({
                let (g, m) = p_maybe_pattern(old(self).src(), old(self).lex()).unwrap();
                final(self).lex() == m && match g {
                    Ok(Some(els)) => r matches Ok(Some(x)) && m_elements(x.elements@) == els,
                    Ok(None) => r matches Ok(None),
                    Err(_) => r is Err,
                }
            }),
    {
        let (mut pe, indents) = match self.get_pattern_elements() {
            Ok(x) => x,
            Err(e) => return Err(e),
        };
        if pe.len() == 0 {
            Ok(None)
        } else {
            self.finish_elements(&mut pe, &indents);
            Ok(Some(Pattern { elements: pe }))
        }
    }

    fn get_attribute(&mut self) -> (r: Result<Attribute, ParserError>)
        requires
            old(self).wf(),
            p_attribute(old(self).src(), old(self).lex()) is Some,
        ensures
            final(self).wf(),
            final(self).src() == old(self).src(),
            final(self).state() == old(self).state(),
            ({
                let (g, m) = p_attribute(old(self).src(), old(self).lex()).unwrap();
                final(self).lex() == m && match g {
                    Ok(a) => r matches Ok(x) && super::tree::m_attribute(x) == a,
                    Err(_) => r is Err,
                }
            }),
    {
        let id = match self.get_identifier() {
            Ok(id) => id,
            Err(e) => return Err(e),
        };
        if self.lexer.expect(Token::EqSign).is_err() {
            return Err(ParserError::Unknown);
        }
        match self.maybe_get_pattern() {
            Ok(Some(value)) => Ok(Attribute { id, value }),
            Ok(None) => Err(ParserError::Unknown),
            Err(e) => Err(e),
        }
    }

    /// The attributes that follow, each after a `.`.
    fn get_attributes(&mut self) -> (r: Result<Vec<Attribute>, ParserError>)
        requires
            old(self).wf(),
            p_attributes_from(old(self).src(), old(self).lex(), Seq::empty()) is Some,
        ensures
            final(self).wf(),
            final(self).src() == old(self).src(),
            final(self).state() == old(self).state(),
            ({
                let (g, m) = p_attributes_from(old(self).src(), old(self).lex(), Seq::empty()).unwrap();
                final(self).lex() == m && match g {
                    Ok(attrs) => r matches Ok(x) && m_attributes(x@) == attrs,
                    Err(_) => r is Err,
                }
            }),
    {
        let ghost src = self.src();
        let ghost m0 = self.lex();
        let mut attributes: Vec<Attribute> = Vec::new();
        assert(m_attributes(attributes@) =~= Seq::<MAttribute>::empty());
        loop
            invariant_except_break
                p_attributes_from(src, self.lex(), m_attributes(attributes@)) == p_attributes_from(
                    src,
                    m0,
                    Seq::empty(),
                ),
            invariant
                self.wf(),
                self.src() == src,
                src == old(self).src(),
                m0 == old(self).lex(),
                self.state() == old(self).state(),
                p_attributes_from(src, m0, Seq::empty()) is Some,
            ensures
                p_attributes_from(src, m0, Seq::empty()) == Some::<(Result<_, ()>, LexModel)>(
                    (Ok(m_attributes(attributes@)), self.lex()),
                ),
            decreases progress(src, self.lex()),
        {
            let ghost a0 = m_attributes(attributes@);
            match self.lexer.take_if(Token::Dot) {
                Err(_) => return Err(ParserError::Unknown),
                Ok(false) => break,
                Ok(true) => {},
            }
            let attr = match self.get_attribute() {
                Ok(a) => a,
                Err(e) => return Err(e),
            };
            attributes.push(attr);
            assert(m_attributes(attributes@) =~= a0.push(super::tree::m_attribute(attributes@.last())));
        }
        Ok(attributes)
    }

    fn get_pattern(&mut self) -> (r: Result<Pattern, ParserError>)
        requires
            old(self).wf(),
            p_maybe_pattern(old(self).src(), old(self).lex()) is Some,
        ensures
            final(self).wf(),
            final(self).src() == old(self).src(),
            final(self).state() == old(self).state(),
            ({
                let (g, m) = p_maybe_pattern(old(self).src(), old(self).lex()).unwrap();
                final(self).lex() == m && match g {
                    Ok(Some(els)) => r matches Ok(x) && m_elements(x.elements@) == els,
                    _ => r is Err,
                }
            }),
    {
        match self.maybe_get_pattern() {
            Ok(Some(pattern)) => Ok(pattern),
            Ok(None) => Err(ParserError::Unknown),
            Err(e) => Err(e),
        }
    }

    fn add_message(&mut self, id: Range<usize>) -> (r: Result<(), ParserError>)
        requires
            old(self).wf(),
            p_message(old(self).src(), old(self).lex(), id, old(self).state()) is Some,
        ensures
            final(self).wf(),
            final(self).src() == old(self).src(),
            ({
                let (g, m, st) = p_message(old(self).src(), old(self).lex(), id, old(self).state()).unwrap();
                final(self).lex() == m && final(self).state() == st && (r is Ok <==> g is Ok)
            }),
    {
        let ghost src = self.src();
        let ghost b0 = m_entries(self.body@);
        let id = Identifier { name: self.text(id.start, id.end) };
        if self.lexer.expect(Token::EqSign).is_err() {
            return Err(ParserError::Unknown);
        }
        let pattern = match self.maybe_get_pattern() {
            Ok(p) => p,
            Err(e) => return Err(e),
        };
        let attributes = match self.get_attributes() {
            Ok(a) => a,
            Err(e) => return Err(e),
        };
        if pattern.is_none() && attributes.len() == 0 {
            return Err(ParserError::Unknown);
        }
        let comment = self.last_comment.take();
        self.body.push(
            ResourceEntry::Entry(Entry::Message(Message { id, value: pattern, attributes, comment })),
        );
        assert(m_entries(self.body@) =~= b0.push(super::tree::m_entry(self.body@.last())));
        Ok(())
    }

    fn add_term(&mut self) -> (r: Result<(), ParserError>)
        requires
            old(self).wf(),
            p_term(old(self).src(), old(self).lex(), old(self).state()) is Some,
        ensures
            final(self).wf(),
            final(self).src() == old(self).src(),
            ({
                let (g, m, st) = p_term(old(self).src(), old(self).lex(), old(self).state()).unwrap();
                final(self).lex() == m && final(self).state() == st && (r is Ok <==> g is Ok)
            }),
    {
        let ghost b0 = m_entries(self.body@);
        let id = match self.get_identifier() {
            Ok(id) => id,
            Err(e) => return Err(e),
        };
        if self.lexer.expect(Token::EqSign).is_err() {
            return Err(ParserError::Unknown);
        }
        let pattern = match self.get_pattern() {
            Ok(p) => p,
            Err(e) => return Err(e),
        };
        let attributes = match self.get_attributes() {
            Ok(a) => a,
            Err(e) => return Err(e),
        };
        let comment = self.last_comment.take();
        self.body.push(
            ResourceEntry::Entry(Entry::Term(Term { id, value: pattern, attributes, comment })),
        );
        assert(m_entries(self.body@) =~= b0.push(super::tree::m_entry(self.body@.last())));
        Ok(())
    }

    /// The waiting comment, if any, becomes an entry of its own.
    fn flush_comment(&mut self)
        ensures
            final(self).state() == flush(old(self).state()),
            final(self).lexer == old(self).lexer,
            final(self).source == old(self).source,
    {
        let ghost b0 = m_entries(self.body@);
        if let Some(comment) = self.last_comment.take() {
            self.body.push(ResourceEntry::Entry(Entry::Comment(comment)));
            assert(m_entries(self.body@) =~= b0.push(super::tree::m_entry(self.body@.last())));
        }
    }

    fn add_comment_line(&mut self, token: &Token, pe: &mut Vec<Vec<u8>>) -> (r: Result<bool, ParserError>)
        requires
            old(self).wf(),
            p_comment_line(old(self).src(), old(self).lex(), *token) is Some,
        ensures
            final(self).wf(),
            final(self).src() == old(self).src(),
            final(self).state() == old(self).state(),
            ({
                let (g, m, l) = p_comment_line(old(self).src(), old(self).lex(), *token).unwrap();
                &&& final(self).lex() == m
                &&& final(pe).deep_view() == old(pe).deep_view() + opt_line(l)
                &&& match g {
                    Ok(b) => r == Ok::<bool, ParserError>(b),
                    Err(_) => r is Err,
                }
            }),
    {
        let ghost c0 = pe.deep_view();
        let line = match self.lexer.try_next() {
            Ok(Some(Token::Text(r))) => self.text(r.start, r.end),
            Ok(Some(Token::Eol(_))) => Vec::new(),
            _ => {
                assert(c0 + opt_line(None) =~= c0);
                return Err(ParserError::Unknown);
            },
        };
        let ghost l = line@;
        pe.push(line);
        assert(pe.deep_view() =~= c0 + opt_line(Some(l))) by {
            assert(pe@.last().deep_view() =~= pe@.last()@);
        }
        let same = match self.lexer.try_peek() {
            Err(_) => return Err(ParserError::Unknown),
            Ok(Some(c)) => match c {
                Token::CommentSign | Token::GroupCommentSign | Token::ResourceCommentSign => c == token,
                _ => false,
            },
            Ok(None) => false,
        };
        if !same {
            return Ok(false);
        }
        match self.lexer.try_next() {
            Err(_) => Err(ParserError::Unknown),
            Ok(_) => Ok(true),
        }
    }

    fn add_comment(&mut self, token: &Token) -> (r: Result<(), ParserError>)
        requires
            old(self).wf(),
            is_sigil(*token),
            p_comment(old(self).src(), old(self).lex(), *token, old(self).state()) is Some,
        ensures
            final(self).wf(),
            final(self).src() == old(self).src(),
            ({
                let (g, m, st) = p_comment(old(self).src(), old(self).lex(), *token, old(self).state()).unwrap();
                final(self).lex() == m && final(self).state() == st && (r is Ok <==> g is Ok)
            }),
    {
        let ghost src = self.src();
        let ghost m0 = self.lex();
        let mut pe: Vec<Vec<u8>> = Vec::new();
        let mut result: Result<(), ParserError> = Ok(());
        assert(pe.deep_view() =~= Seq::<Seq<u8>>::empty());
        loop
            invariant_except_break
                p_comment_lines(src, self.lex(), *token, pe.deep_view()) == p_comment_lines(
                    src,
                    m0,
                    *token,
                    Seq::empty(),
                ),
            invariant
                self.wf(),
                self.src() == src,
                src == old(self).src(),
                m0 == old(self).lex(),
                self.state() == old(self).state(),
                p_comment_lines(src, m0, *token, Seq::empty()) is Some,
            ensures
                p_comment_lines(src, m0, *token, Seq::empty()) == Some::<(Result<(), ()>, LexModel, Seq<Seq<u8>>)>(
                    (
                        if result is Ok {
                            Ok(())
                        } else {
                            Err(())
                        },
                        self.lex(),
                        pe.deep_view(),
                    ),
                ),
            decreases progress(src, self.lex()),
        {
            match self.add_comment_line(token, &mut pe) {
                Ok(true) => {},
                Ok(false) => {
                    result = Ok(());
                    break;
                },
                Err(err) => {
                    result = Err(err);
                    break;
                },
            }
        }
        let comment_type = match token {
            Token::GroupCommentSign => CommentType::Group,
            Token::ResourceCommentSign => CommentType::Resource,
            _ => CommentType::Regular,
        };
        self.last_comment = Some(Comment { comment_type, content: pe });
        result
    }

    fn add_entry(&mut self) -> (r: Result<bool, ParserError>)
        requires
            old(self).wf(),
            p_add_entry(old(self).src(), old(self).lex(), old(self).state()) is Some,
        ensures
            final(self).wf(),
            final(self).src() == old(self).src(),
            ({
                let (g, m, st) = p_add_entry(old(self).src(), old(self).lex(), old(self).state()).unwrap();
                &&& final(self).lex() == m
                &&& final(self).state() == st
                &&& match g {
                    Ok(b) => r == Ok::<bool, ParserError>(b),
                    Err(_) => r is Err,
                }
            }),
    {
        match self.lexer.try_next() {
            Err(_) => Err(ParserError::Unknown),
            Ok(Some(Token::Identifier(r))) => match self.add_message(r) {
                Ok(()) => Ok(true),
                Err(e) => Err(e),
            },
            Ok(Some(Token::Eol(_))) => {
                self.flush_comment();
                Ok(true)
            },
            Ok(Some(Token::MinusSign)) => match self.add_term() {
                Ok(()) => Ok(true),
                Err(e) => Err(e),
            },
            Ok(Some(c)) => {
                self.flush_comment();
                match self.add_comment(&c) {
                    Ok(()) => Ok(true),
                    Err(e) => Err(e),
                }
            },
            Ok(None) => Ok(false),
        }
    }

    /// Parses the whole source. An entry that fails to parse becomes junk that runs
    /// to the next entry start.
    pub fn parse(self) -> (r: Resource)
        requires
            self.wf(),
            p_parse_from(self.src(), self.lex(), self.state()) is Some,
        ensures
            m_entries(r.body@) == p_parse_from(self.src(), self.lex(), self.state()).unwrap(),
    {
        let mut parser = self;
        parser.parse_all()
    }

    fn parse_all(&mut self) -> (r: Resource)
        requires
            old(self).wf(),
            p_parse_from(old(self).src(), old(self).lex(), old(self).state()) is Some,
        ensures
            m_entries(r.body@) == p_parse_from(old(self).src(), old(self).lex(), old(self).state()).unwrap(),
    {
        let ghost src = self.src();
        let ghost m0 = self.lex();
        let ghost st0 = self.state();
        loop
            invariant_except_break
                p_parse_from(src, self.lex(), self.state()) == p_parse_from(src, m0, st0),
            invariant
                self.wf(),
                self.src() == src,
                p_parse_from(src, m0, st0) is Some,
            ensures
                p_parse_from(src, m0, st0) == Some(flush(self.state()).body),
            decreases progress(src, self.lex()),
        {
            match self.add_entry() {
                Ok(true) => {},
                Ok(false) => break,
                Err(_err) => {
                    let junk = self.lexer.get_junk();
                    self.flush_comment();
                    let ghost b1 = m_entries(self.body@);
                    let content = self.text(junk.start, junk.end);
                    self.body.push(ResourceEntry::Junk(content));
                    assert(m_entries(self.body@) =~= b1.push(super::tree::m_entry(self.body@.last())));
                },
            }
        }
        self.flush_comment();
        let mut body: Vec<ResourceEntry> = Vec::new();
        std::mem::swap(&mut body, &mut self.body);
        Resource { body }
    }
}

} // verus!
