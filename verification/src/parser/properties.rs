//! What holds of every parse: how the junk entries and the errors of a resource
//! correspond.
use super::grammar::{
    attach_comment, entry, initial_state, parse, parse_from, parse_step,
    ParseState,
};
use super::grammar::{identifier, message, term};
use crate::ascii::{is_alpha, is_ident_char, lemma_span_while, span_while, ByteClass};
use crate::model::{Entry, Error};
use vstd::prelude::*;

verus! {

/// The contents of the junk entries, in order.
pub open spec fn junk(entries: Seq<Entry>) -> Seq<Seq<u8>>
    decreases entries.len(),
{
    if entries.len() == 0 {
        Seq::empty()
    } else {
        let rest = junk(entries.drop_last());
        match entries.last() {
            Entry::Junk(c) => rest.push(c),
            _ => rest,
        }
    }
}

/// The source text that each error's junk covers, in order.
pub open spec fn error_texts(src: Seq<u8>, errors: Seq<Error>) -> Seq<Seq<u8>> {
    errors.map_values(|e: Error| src.subrange(e.slice.unwrap().0, e.slice.unwrap().1))
}

/// Each error carries the range of its junk.
pub open spec fn errors_have_slices(errors: Seq<Error>) -> bool {
    forall|i: int| 0 <= i < errors.len() ==> (#[trigger] errors[i]).slice is Some
}

/// Each error's junk starts inside the source and ends where an entry may start: at or
/// past the end of the source, or at a line that starts with a letter, `-` or `#`.
pub open spec fn errors_end_at_entries(src: Seq<u8>, errors: Seq<Error>) -> bool {
    forall|i: int|
        0 <= i < errors.len() ==> 0 <= (#[trigger] errors[i]).slice.unwrap().0 < src.len() && (
        errors[i].slice.unwrap().1 >= src.len() || super::ftlstream::is_entry_boundary(
            src,
            errors[i].slice.unwrap().1,
        ))
}

/// The junk and the errors of a parse state correspond one to one.
pub open spec fn junk_matches(src: Seq<u8>, st: ParseState) -> bool {
    &&& junk(st.body) == error_texts(src, st.errors)
    &&& errors_have_slices(st.errors)
    &&& errors_end_at_entries(src, st.errors)
}

proof fn lemma_next_entry_start_boundary(src: Seq<u8>, q: int)
    requires
        q <= src.len(),
    ensures
        super::ftlstream::is_entry_boundary(src, super::grammar::next_entry_start(src, q)),
    decreases src.len() - q,
{
    if q < src.len() && !super::ftlstream::is_entry_boundary(src, q) {
        lemma_next_entry_start_boundary(src, q + 1);
    }
}

proof fn lemma_junk_push(s: Seq<Entry>, e: Entry)
    ensures
        junk(s.push(e)) == match e {
            Entry::Junk(c) => junk(s).push(c),
            _ => junk(s),
        },
{
    assert(s.push(e).drop_last() =~= s);
}

proof fn lemma_error_texts_push(src: Seq<u8>, errors: Seq<Error>, e: Error)
    ensures
        error_texts(src, errors.push(e)) == error_texts(src, errors).push(
            src.subrange(e.slice.unwrap().0, e.slice.unwrap().1),
        ),
{
    assert(error_texts(src, errors.push(e)) =~= error_texts(src, errors).push(
        src.subrange(e.slice.unwrap().0, e.slice.unwrap().1),
    ));
}

#[verifier::rlimit(100)]
#[verifier::spinoff_prover]
proof fn lemma_parse_step_keeps(src: Seq<u8>, p: int, st: ParseState)
    requires
        0 <= p < src.len(),
        junk_matches(src, st),
        entry(src, p) is Some,
    ensures
        junk_matches(src, parse_step(src, p, st, entry(src, p).unwrap()).0),
{
    reveal(entry);
    let r = entry(src, p).unwrap();
    let (body1, r1) = attach_comment(st.body, st.last_comment, st.last_blank_count, r);
    match st.last_comment {
        Some(c) => {
            lemma_junk_push(st.body, Entry::Comment(c));
        },
        None => {},
    }
    assert(junk(body1) == junk(st.body));
    match r1 {
        Ok((Entry::Comment(c), q)) => {},
        Ok((e, q)) => {
            lemma_junk_push(body1, e);
            assert(!(e is Junk));
        },
        Err((err, eq)) => {
            let q = super::grammar::next_entry_start(src, eq);
            let ne = Error { slice: Some((p, q)), ..err };
            lemma_junk_push(body1, Entry::Junk(src.subrange(p, q)));
            lemma_error_texts_push(src, st.errors, ne);
            let errors2 = st.errors.push(ne);
            assert forall|i: int| 0 <= i < errors2.len() implies (#[trigger] errors2[i]).slice is Some by {
                if i < st.errors.len() {
                    assert(errors2[i] == st.errors[i]);
                }
            }
            if eq <= src.len() {
                lemma_next_entry_start_boundary(src, eq);
            }
            assert(q >= src.len() || super::ftlstream::is_entry_boundary(src, q));
            assert forall|i: int| 0 <= i < errors2.len() implies 0 <= (#[trigger] errors2[i]).slice.unwrap().0 < src.len()
                && (errors2[i].slice.unwrap().1 >= src.len() || super::ftlstream::is_entry_boundary(
                src,
                errors2[i].slice.unwrap().1,
            )) by {
                if i < st.errors.len() {
                    assert(errors2[i] == st.errors[i]);
                }
            }
        },
    }
}

proof fn lemma_parse_from_keeps(src: Seq<u8>, p: int, st: ParseState)
    requires
        junk_matches(src, st),
        parse_from(src, p, st) is Some,
    ensures
        junk(parse_from(src, p, st).unwrap().0) == error_texts(src, parse_from(src, p, st).unwrap().1),
        errors_have_slices(parse_from(src, p, st).unwrap().1),
        errors_end_at_entries(src, parse_from(src, p, st).unwrap().1),
    decreases src.len() - p,
{
    if p < 0 || p >= src.len() {
        match st.last_comment {
            Some(c) => lemma_junk_push(st.body, Entry::Comment(c)),
            None => {},
        }
    } else {
        lemma_parse_step_keeps(src, p, st);
        let (st2, next) = parse_step(src, p, st, entry(src, p).unwrap());
        lemma_parse_from_keeps(src, next, st2);
    }
}

/// Each block of invalid syntax is kept as a junk entry with one error: the contents
/// of the junk entries, in order, are the source ranges of the errors, in order; each
/// range starts inside the source and ends at or past its end or where a line starts
/// with a letter, `-` or `#`.
pub proof fn lemma_junk_is_errors(src: Seq<u8>)
    requires
        parse(src) is Some,
    ensures
        junk(parse(src).unwrap().0) == error_texts(src, parse(src).unwrap().1),
        errors_have_slices(parse(src).unwrap().1),
        errors_end_at_entries(src, parse(src).unwrap().1),
{
    let st = initial_state();
    assert(junk(st.body) =~= error_texts(src, st.errors));
    lemma_parse_from_keeps(src, super::ftlstream::blank_block(src, 0).1, st);
}

/// A valid identifier: a letter, then letters, digits, `_` and `-`.
pub open spec fn valid_identifier(id: Seq<u8>) -> bool {
    &&& id.len() > 0
    &&& is_alpha(id[0])
    &&& forall|i: int| 1 <= i < id.len() ==> is_ident_char(#[trigger] id[i])
}

/// The message or term of an entry has a valid identifier.
pub open spec fn entry_id_valid(e: Entry) -> bool {
    match e {
        Entry::Message(m) => valid_identifier(m.id),
        Entry::Term(t) => valid_identifier(t.id),
        _ => true,
    }
}

pub open spec fn ids_valid(es: Seq<Entry>) -> bool {
    forall|i: int| 0 <= i < es.len() ==> entry_id_valid(#[trigger] es[i])
}

proof fn lemma_identifier_valid(src: Seq<u8>, p: int)
    requires
        0 <= p,
        identifier(src, p) is Ok,
    ensures
        valid_identifier(identifier(src, p)->Ok_0.0),
{
    lemma_span_while(src, p + 1, ByteClass::IdentChar);
    let e = span_while(src, p + 1, ByteClass::IdentChar);
    let id = src.subrange(p, e);
    assert forall|i: int| 1 <= i < id.len() implies is_ident_char(#[trigger] id[i]) by {
        assert(id[i] == src[p + i]);
    }
}

proof fn lemma_entry_id_valid(src: Seq<u8>, p: int)
    requires
        0 <= p,
        entry(src, p) matches Some(Ok(_)),
    ensures
        entry_id_valid(entry(src, p)->Some_0->Ok_0.0),
{
    reveal(entry);
    if !super::grammar::is_byte(src, p, crate::ascii::HASH) {
        if super::grammar::is_byte(src, p, crate::ascii::MINUS) {
            if term(src, p) is Ok {
                lemma_identifier_valid(src, p + 1);
            }
        } else {
            if message(src, p) is Ok {
                lemma_identifier_valid(src, p);
            }
        }
    }
}

proof fn lemma_ids_push(s: Seq<Entry>, e: Entry)
    requires
        ids_valid(s),
        entry_id_valid(e),
    ensures
        ids_valid(s.push(e)),
{
    assert forall|i: int| 0 <= i < s.push(e).len() implies entry_id_valid(#[trigger] s.push(e)[i]) by {
        if i < s.len() {
            assert(s.push(e)[i] == s[i]);
        }
    }
}

proof fn lemma_parse_from_ids(src: Seq<u8>, p: int, st: ParseState)
    requires
        ids_valid(st.body),
        parse_from(src, p, st) is Some,
    ensures
        ids_valid(parse_from(src, p, st).unwrap().0),
    decreases src.len() - p,
{
    if p < 0 || p >= src.len() {
        match st.last_comment {
            Some(c) => lemma_ids_push(st.body, Entry::Comment(c)),
            None => {},
        }
    } else {
        let r = entry(src, p).unwrap();
        if r is Ok {
            lemma_entry_id_valid(src, p);
        }
        let (body1, r1) = attach_comment(st.body, st.last_comment, st.last_blank_count, r);
        match st.last_comment {
            Some(c) => if !(body1 == st.body) {
                lemma_ids_push(st.body, Entry::Comment(c));
            },
            None => {},
        }
        match r1 {
            Ok((Entry::Comment(c), q)) => {},
            Ok((e, q)) => {
                lemma_ids_push(body1, e);
            },
            Err((err, eq)) => {
                let q = super::grammar::next_entry_start(src, eq);
                lemma_ids_push(body1, Entry::Junk(src.subrange(p, q)));
            },
        }
        let (st2, next) = parse_step(src, p, st, r);
        lemma_parse_from_ids(src, next, st2);
    }
}

/// Every message and term the parser yields has a valid identifier: a letter
/// followed by letters, digits, `_` and `-`.
pub proof fn lemma_parsed_identifiers_valid(src: Seq<u8>)
    requires
        parse(src) is Some,
    ensures
        ids_valid(parse(src).unwrap().0),
{
    lemma_parse_from_ids(src, super::ftlstream::blank_block(src, 0).1, initial_state());
}

/// An identifier is read where a letter stands, and then it is the longest run of
/// letters, digits, `_` and `-` from there; elsewhere it is an error at that place that
/// asks for a letter.
pub proof fn lemma_identifier_longest(src: Seq<u8>, p: int)
    requires
        0 <= p <= src.len(),
    ensures
        identifier(src, p) is Ok <==> (p < src.len() && is_alpha(src[p])),
        identifier(src, p) matches Ok((id, q)) ==> {
            &&& p < q <= src.len()
            &&& id == src.subrange(p, q)
            &&& valid_identifier(id)
            &&& (q == src.len() || !is_ident_char(src[q]))
        },
        identifier(src, p) matches Err((e, at)) ==> at == p && e.kind
            == crate::model::ErrorKind::ExpectedCharRange(super::grammar::alpha_range()),
{
    if p < src.len() && is_alpha(src[p]) {
        lemma_identifier_valid(src, p);
        lemma_span_while(src, p + 1, ByteClass::IdentChar);
    }
}

/// What a select expression may select on: a string or number literal, a variable, a
/// function call, or a term's attribute. An inline expression read as a placeable's
/// expression is never a term's attribute.
pub proof fn lemma_selector_kinds(src: Seq<u8>, p: int)
    ensures
        super::grammar::expression(src, p) matches Ok((crate::model::Expression::Select { selector, .. }, _)) ==> (
        selector is StringLiteral || selector is NumberLiteral || selector is VariableReference
            || selector is FunctionReference || selector matches crate::model::InlineExpression::TermReference {
            attribute: Some(_),
            ..
        }),
        super::grammar::expression(src, p) matches Ok((crate::model::Expression::Inline(i), _))
            ==> !super::grammar::is_term_attribute(i),
{
}

proof fn lemma_text_delimiter_from(src: Seq<u8>, q: int)
    requires
        0 <= q,
    ensures
        q <= super::grammar::text_delimiter(src, q),
        q <= src.len() ==> super::grammar::text_delimiter(src, q) <= src.len(),
    decreases src.len() - q,
{
    if 0 <= q < src.len() && src[q] != crate::ascii::LF && src[q] != crate::ascii::OPEN_BRACE && src[q]
        != crate::ascii::CLOSE_BRACE {
        lemma_text_delimiter_from(src, q + 1);
    }
}

/// What holds of the placeholders of a pattern being read: the last non-blank one is one
/// of them, each text holds at least one byte past its indent, and indents are not
/// negative.
pub open spec fn placeholders_sound(st: super::grammar::PatternState, n: int) -> bool {
    &&& (st.last_non_blank matches Some(x) ==> 0 <= x < st.elements.len())
    &&& (st.common_indent matches Some(c) ==> c >= 0)
    &&& forall|k: int|
        0 <= k < st.elements.len() ==> ((#[trigger] st.elements[k]) matches super::grammar::Placeholder::Text(
            a,
            b,
            ind,
            _,
        ) ==> 0 <= a && 0 <= ind && a + ind < b <= n)
}

proof fn lemma_placeholders_push(st: super::grammar::PatternState, ph: super::grammar::Placeholder, n: int)
    requires
        forall|k: int|
            0 <= k < st.elements.len() ==> ((#[trigger] st.elements[k]) matches super::grammar::Placeholder::Text(
                a,
                b,
                ind,
                _,
            ) ==> 0 <= a && 0 <= ind && a + ind < b <= n),
        ph matches super::grammar::Placeholder::Text(a, b, ind, _) ==> 0 <= a && 0 <= ind && a + ind < b <= n,
    ensures
        forall|k: int|
            0 <= k < st.elements.push(ph).len() ==> ((#[trigger] st.elements.push(ph)[k]) matches super::grammar::Placeholder::Text(
                a,
                b,
                ind,
                _,
            ) ==> 0 <= a && 0 <= ind && a + ind < b <= n),
{
    assert forall|k: int| 0 <= k < st.elements.push(ph).len() implies ((#[trigger] st.elements.push(ph)[k]) matches super::grammar::Placeholder::Text(
        a,
        b,
        ind,
        _,
    ) ==> 0 <= a && 0 <= ind && a + ind < b <= n) by {
        if k < st.elements.len() {
            assert(st.elements.push(ph)[k] == st.elements[k]);
        }
    }
}

#[verifier::rlimit(100)]
#[verifier::spinoff_prover]
proof fn lemma_pattern_from_sound(src: Seq<u8>, q: int, st: super::grammar::PatternState)
    requires
        placeholders_sound(st, src.len() as int),
        super::grammar::pattern_from(src, q, st) is Ok,
    ensures
        placeholders_sound(super::grammar::pattern_from(src, q, st)->Ok_0.0, src.len() as int),
    decreases src.len() - q,
{
    if q < 0 || q >= src.len() {
    } else if src[q] == crate::ascii::OPEN_BRACE {
        let ci = if st.role is LineStart {
            Some(0int)
        } else {
            st.common_indent
        };
        match super::grammar::placeable(src, q) {
            Ok((exp, q1)) => {
                let st2 = super::grammar::PatternState {
                    elements: st.elements.push(super::grammar::Placeholder::Placeable(exp)),
                    last_non_blank: Some(st.elements.len() as int),
                    common_indent: ci,
                    role: super::grammar::TextElementPosition::Continuation,
                };
                lemma_placeholders_push(st, super::grammar::Placeholder::Placeable(exp), src.len() as int);
                lemma_pattern_from_sound(src, q1, st2);
            },
            Err(_) => {},
        }
    } else {
        let at_line_start = st.role is LineStart;
        lemma_span_while(src, q, ByteClass::Space);
        let q1 = if at_line_start {
            super::grammar::spaces_end(src, q)
        } else {
            q
        };
        let indent = q1 - q;
        if at_line_start && q1 >= src.len() {
        } else if at_line_start && indent == 0 && src[q1] != crate::ascii::LF {
        } else if at_line_start && indent != 0 && !super::grammar::is_pattern_continuation(src[q1]) {
        } else {
            lemma_text_delimiter_from(src, q1);
            match super::grammar::text_slice(src, q1) {
                Ok((start, end, ty, term, next)) => {
                    assert(start == q1);
                    assert(end >= q1);
                    let nonblank = ty is NonBlank;
                    let ci = if start != end && at_line_start && nonblank {
                        match st.common_indent {
                            Some(c) => if indent < c {
                                Some(indent)
                            } else {
                                Some(c)
                            },
                            None => Some(indent),
                        }
                    } else {
                        st.common_indent
                    };
                    let keep = start != end && (!at_line_start || nonblank || term is LineFeed);
                    let ph = super::grammar::Placeholder::Text(q, end, indent, st.role);
                    let els = if keep {
                        st.elements.push(ph)
                    } else {
                        st.elements
                    };
                    let lnb = if keep && nonblank {
                        Some(st.elements.len() as int)
                    } else {
                        st.last_non_blank
                    };
                    let role = match term {
                        super::grammar::TextElementTermination::LineFeed => super::grammar::TextElementPosition::LineStart,
                        super::grammar::TextElementTermination::Crlf => super::grammar::TextElementPosition::LineStart,
                        super::grammar::TextElementTermination::PlaceableStart => super::grammar::TextElementPosition::Continuation,
                        super::grammar::TextElementTermination::Eof => super::grammar::TextElementPosition::Continuation,
                    };
                    if keep {
                        lemma_placeholders_push(st, ph, src.len() as int);
                    }
                    if super::grammar::advances(src, q, next) {
                        let st2 = super::grammar::PatternState {
                            elements: els,
                            last_non_blank: lnb,
                            common_indent: ci,
                            role,
                        };
                        lemma_pattern_from_sound(src, next, st2);
                    }
                },
                Err(_) => {},
            }
        }
    }
}

proof fn lemma_trim_end_trimmed(b: Seq<u8>)
    ensures
        crate::text::ws_suffix_len(crate::text::trim_end(b)) == 0,
    decreases b.len(),
{
    if crate::text::ws_suffix_len(b) > 0 {
        lemma_trim_end_trimmed(b.subrange(0, b.len() - crate::text::ws_suffix_len(b)));
    }
}

/// A pattern read as a value holds at least one element; each text element but the
/// last holds at least one byte, and the last, where it is a text, ends without white
/// space.
pub proof fn lemma_pattern_shape(src: Seq<u8>, p: int)
    ensures
        super::grammar::pattern(src, p) matches Ok((Some(v), _)) ==> {
            &&& v.elements.len() > 0
            &&& forall|k: int|
                0 <= k < v.elements.len() - 1 ==> ((#[trigger] v.elements[k]) matches crate::model::PatternElement::Text(
                    t,
                ) ==> t.len() > 0)
            &&& (v.elements.last() matches crate::model::PatternElement::Text(t) ==> crate::text::ws_suffix_len(t)
                == 0)
        },
{
    let q0 = super::grammar::spaces_end(src, p);
    let (q1, role) = if eol_len_of(src, q0) > 0 {
        (super::ftlstream::blank_block(src, q0 + eol_len_of(src, q0)).1, super::grammar::TextElementPosition::LineStart)
    } else {
        (q0, super::grammar::TextElementPosition::InitialLineStart)
    };
    let st0 = super::grammar::PatternState {
        elements: Seq::empty(),
        last_non_blank: None,
        common_indent: None,
        role,
    };
    if super::grammar::stays(src, p, q1) && super::grammar::pattern_from(src, q1, st0) is Ok {
        lemma_pattern_from_sound(src, q1, st0);
        let st = super::grammar::pattern_from(src, q1, st0)->Ok_0.0;
        match st.last_non_blank {
            Some(last) => {
                let es = super::grammar::finish_pattern(src, st, last);
                assert forall|k: int| 0 <= k < es.len() - 1 implies ((#[trigger] es[k]) matches crate::model::PatternElement::Text(
                    t,
                ) ==> t.len() > 0) by {
                    assert(es[k] == super::grammar::finish_element(src, st.elements[k], st.common_indent, false));
                    match st.elements[k] {
                        super::grammar::Placeholder::Text(a, b, ind, r) => {
                            assert(0 <= a && 0 <= ind && a + ind < b <= src.len());
                        },
                        _ => {},
                    }
                }
                let l = super::grammar::finish_element(src, st.elements[last], st.common_indent, true);
                assert(es.last() == l);
                match st.elements[last] {
                    super::grammar::Placeholder::Text(a, b, ind, r) => {
                        let s0 = if r is LineStart {
                            match st.common_indent {
                                Some(c) => a + if ind < c {
                                    ind
                                } else {
                                    c
                                },
                                None => a + ind,
                            }
                        } else {
                            a
                        };
                        lemma_trim_end_trimmed(src.subrange(s0, b));
                    },
                    _ => {},
                }
            },
            None => {},
        }
    }
}

spec fn eol_len_of(src: Seq<u8>, p: int) -> int {
    super::ftlstream::eol_len(src, p)
}

/// Variants read so far: `has_default` says whether one is the default, at most one is,
/// and each value holds at least one element.
pub open spec fn variants_sound(acc: Seq<crate::model::Variant>, has_default: bool) -> bool {
    &&& has_default == exists|i: int| 0 <= i < acc.len() && (#[trigger] acc[i]).default
    &&& forall|i: int, j: int| 0 <= i < j < acc.len() && (#[trigger] acc[i]).default ==> !(#[trigger] acc[j]).default
    &&& forall|i: int| 0 <= i < acc.len() ==> (#[trigger] acc[i]).value.elements.len() > 0
}

#[verifier::rlimit(100)]
#[verifier::spinoff_prover]
proof fn lemma_variants_from_sound(src: Seq<u8>, q: int, acc: Seq<crate::model::Variant>, has_default: bool)
    requires
        variants_sound(acc, has_default),
    ensures
        super::grammar::variants_from(src, q, acc, has_default) matches Ok((vs, _)) ==> variants_sound(vs, true),
    decreases src.len() - q, 1int,
{
    if super::grammar::is_byte(src, q, crate::ascii::ASTERISK) || super::grammar::is_byte(src, q, crate::ascii::OPEN_BRACKET) {
        let default = super::grammar::is_byte(src, q, crate::ascii::ASTERISK);
        let q1 = if default {
            q + 1
        } else {
            q
        };
        if !(default && has_default) {
            match super::grammar::variant_key(src, q1) {
                Ok((key, q2)) => if super::grammar::advances(src, q, q2) {
                    lemma_pattern_shape(src, q2);
                    match super::grammar::pattern(src, q2) {
                        Ok((Some(value), q3)) => {
                            let q4 = super::grammar::blank_end(src, q3);
                            if super::grammar::advances(src, q, q4) {
                                let v = crate::model::Variant { key, value, default };
                                let acc2 = acc.push(v);
                                assert(variants_sound(acc2, has_default || default)) by {
                                    assert(acc2[acc.len() as int] == v);
                                    assert forall|i: int| 0 <= i < acc.len() implies #[trigger] acc2[i] == acc[i] by {}
                                    if has_default || default {
                                        if default {
                                            assert(acc2[acc.len() as int].default);
                                        } else {
                                            let i = choose|i: int| 0 <= i < acc.len() && (#[trigger] acc[i]).default;
                                            assert(acc2[i].default);
                                        }
                                    }
                                    if exists|i: int| 0 <= i < acc2.len() && (#[trigger] acc2[i]).default {
                                        let i = choose|i: int| 0 <= i < acc2.len() && (#[trigger] acc2[i]).default;
                                        if i < acc.len() {
                                            assert(acc[i].default);
                                        }
                                    }
                                    assert forall|i: int, j: int| 0 <= i < j < acc2.len() && (#[trigger] acc2[i]).default implies !(#[trigger] acc2[j]).default by {
                                        if j == acc.len() && default {
                                            assert(acc[i].default);
                                        }
                                    }
                                }
                                lemma_variants_from_sound(src, q4, acc2, has_default || default);
                            }
                        },
                        _ => {},
                    }
                },
                Err(_) => {},
            }
        }
    }
}

/// A select expression has exactly one default variant, and each variant's value holds
/// at least one element.
pub proof fn lemma_variants_shape(src: Seq<u8>, p: int)
    ensures
        super::grammar::expression(src, p) matches Ok((crate::model::Expression::Select { variants, .. }, _)) ==> {
            &&& exists|d: int|
                0 <= d < variants.len() && (#[trigger] variants[d]).default && forall|i: int|
                    0 <= i < variants.len() && i != d ==> !(#[trigger] variants[i]).default
            &&& forall|i: int| 0 <= i < variants.len() ==> (#[trigger] variants[i]).value.elements.len() > 0
        },
{
    match super::grammar::expression(src, p) {
        Ok((crate::model::Expression::Select { selector, variants }, q6)) => {
            match super::grammar::inline_expression(src, p) {
                Ok((exp, q1)) => {
                    let q2 = super::grammar::blank_end(src, q1);
                    let q4 = super::grammar::spaces_end(src, q2 + 2);
                    let q5 = super::grammar::blank_end(src, q4 + super::ftlstream::eol_len(src, q4));
                    lemma_variants_from_sound(src, q5, Seq::empty(), false);
                    assert(variants_sound(variants, true));
                    let d = choose|i: int| 0 <= i < variants.len() && (#[trigger] variants[i]).default;
                    assert forall|i: int| 0 <= i < variants.len() && i != d implies !(#[trigger] variants[i]).default by {
                        if i < d {
                            assert(!(variants[i].default && variants[d].default));
                        } else {
                            assert(!(variants[d].default && variants[i].default));
                        }
                    }
                },
                _ => {},
            }
        },
        _ => {},
    }
}

/// Named arguments whose names are pairwise distinct.
pub open spec fn distinct_names(named: Seq<crate::model::NamedArgument>) -> bool {
    forall|i: int, j: int| 0 <= i < j < named.len() ==> (#[trigger] named[i]).name != (#[trigger] named[j]).name
}

#[verifier::rlimit(100)]
#[verifier::spinoff_prover]
proof fn lemma_arguments_from_distinct(
    src: Seq<u8>,
    q: int,
    positional: Seq<crate::model::InlineExpression>,
    named: Seq<crate::model::NamedArgument>,
    names: Seq<Seq<u8>>,
)
    requires
        names == Seq::new(named.len(), |i: int| named[i].name),
        distinct_names(named),
    ensures
        super::grammar::arguments_from(src, q, positional, named, names) matches Ok((Some(args), _))
            ==> distinct_names(args.named),
    decreases src.len() - q, 2int,
{
    if q < src.len() && src[q] != crate::ascii::CLOSE_PAREN {
        match super::grammar::inline_expression(src, q) {
            Ok((exp, q1)) => if super::grammar::stays(src, q, q1) {
                match exp {
                    crate::model::InlineExpression::MessageReference { id, attribute: None } => {
                        let q2 = super::grammar::blank_end(src, q1);
                        if super::grammar::is_byte(src, q2, crate::ascii::COLON) {
                            if !names.contains(id) {
                                let q3 = super::grammar::blank_end(src, q2 + 1);
                                if super::grammar::advances(src, q, q3) {
                                    match super::grammar::inline_expression(src, q3) {
                                        Ok((value, q4)) => {
                                            let na = crate::model::NamedArgument { name: id, value };
                                            let named2 = named.push(na);
                                            let names2 = names.push(id);
                                            assert(names2 =~= Seq::new(named2.len(), |i: int| named2[i].name));
                                            assert(distinct_names(named2)) by {
                                                assert forall|i: int, j: int| 0 <= i < j < named2.len() implies (#[trigger] named2[i]).name != (#[trigger] named2[j]).name by {
                                                    if j == named.len() {
                                                        assert(names[i] == named[i].name);
                                                        if named2[i].name == id {
                                                            assert(names.contains(id));
                                                        }
                                                    } else {
                                                        assert(named2[i] == named[i]);
                                                        assert(named2[j] == named[j]);
                                                    }
                                                }
                                            }
                                            let n1 = super::grammar::blank_end(src, q4);
                                            let n2 = if super::grammar::is_byte(src, n1, crate::ascii::COMMA) {
                                                n1 + 1
                                            } else {
                                                n1
                                            };
                                            let n3 = super::grammar::blank_end(src, n2);
                                            if super::grammar::advances(src, q, n3) {
                                                lemma_arguments_from_distinct(src, n3, positional, named2, names2);
                                            }
                                        },
                                        Err(_) => {},
                                    }
                                }
                            }
                        } else if names.len() == 0 {
                            let n1 = super::grammar::blank_end(src, q2);
                            let n2 = if super::grammar::is_byte(src, n1, crate::ascii::COMMA) {
                                n1 + 1
                            } else {
                                n1
                            };
                            let n3 = super::grammar::blank_end(src, n2);
                            if super::grammar::advances(src, q, n3) {
                                lemma_arguments_from_distinct(src, n3, positional.push(exp), named, names);
                            }
                        }
                    },
                    _ => if names.len() == 0 {
                        let n1 = super::grammar::blank_end(src, q1);
                        let n2 = if super::grammar::is_byte(src, n1, crate::ascii::COMMA) {
                            n1 + 1
                        } else {
                            n1
                        };
                        let n3 = super::grammar::blank_end(src, n2);
                        if super::grammar::advances(src, q, n3) {
                            lemma_arguments_from_distinct(src, n3, positional.push(exp), named, names);
                        }
                    },
                }
            },
            Err(_) => {},
        }
    }
}

/// The names of a call's named arguments are pairwise distinct: a name used twice is an
/// error.
pub proof fn lemma_named_arguments_distinct(src: Seq<u8>, p: int)
    ensures
        super::grammar::call_arguments(src, p) matches Ok((Some(args), _)) ==> distinct_names(args.named),
{
    let q = super::grammar::blank_end(src, p);
    let r = super::grammar::blank_end(src, q + 1);
    assert(Seq::<Seq<u8>>::empty() =~= Seq::new(Seq::<crate::model::NamedArgument>::empty().len(), |i: int| Seq::<crate::model::NamedArgument>::empty()[i].name));
    lemma_arguments_from_distinct(src, r, Seq::empty(), Seq::empty(), Seq::empty());
}

/// A number literal is read whole: its text is exactly the source it spans, from the
/// optional `-` through the last digit, the `.` and fractional digits included; it
/// holds at least one digit and is not followed by one.
pub proof fn lemma_number_literal_whole(src: Seq<u8>, p: int)
    requires
        0 <= p <= src.len(),
    ensures
        super::grammar::number_literal(src, p) matches Ok((v, q)) ==> {
            &&& p < q <= src.len()
            &&& v == src.subrange(p, q)
            &&& exists|k: int| p <= k < q && crate::ascii::is_digit(#[trigger] src[k])
            &&& (q == src.len() || !crate::ascii::is_digit(src[q]))
        },
        super::grammar::inline_expression(src, p) matches Ok((crate::model::InlineExpression::NumberLiteral(v), q))
            ==> v == src.subrange(p, q),
{
    let s = if super::grammar::is_byte(src, p, crate::ascii::MINUS) {
        p + 1
    } else {
        p
    };
    lemma_span_while(src, s, ByteClass::Digit);
    let d = span_while(src, s, ByteClass::Digit);
    if d > s {
        assert(crate::ascii::is_digit(src[s]));
    }
    if d < src.len() && src[d] == crate::ascii::DOT {
        lemma_span_while(src, d + 1, ByteClass::Digit);
    }
}

} // verus!
