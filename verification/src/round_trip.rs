//! Resources that survive being written out and parsed back unchanged.
use crate::ascii::{
    in_class, is_alpha, is_digit, lemma_span_while, span_while, ByteClass, ASTERISK, BACKSLASH, CLOSE_BRACE,
    CLOSE_BRACKET, CLOSE_PAREN, COLON, COMMA, CR, DOLLAR, DOT, GREATER, OPEN_BRACKET, OPEN_PAREN,
    EQUALS, HASH, LF, MINUS, OPEN_BRACE, QUOTE, SPACE,
};
use crate::model::{
    Attribute, CallArguments, Entry, Error, Expression, InlineExpression, Message, Pattern,
    PatternElement, Term, Variant, VariantKey,
};
use crate::parser::ftlstream::blank_block;
use crate::parser::grammar::{
    attribute, attributes_from, blank_end, entry, finish_element, finish_pattern, initial_state,
    lemma_text_delimiter, message, parse, parse_from, pattern, pattern_from, placeable, spaces_end, term,
    text_type, ParseState, PatternState, Placeholder, TextElementPosition, TextElementType,
};
use crate::parser::properties::valid_identifier;
use crate::serializer::{
    indent, indentation, newline, ser_attribute, ser_attribute_list, ser_attributes,
    ser_entries, ser_pattern, Writer,
};
use crate::text::{trim_end, trim_start};
use vstd::prelude::*;

verus! {

/// A byte that stays on its line: neither a line feed nor a carriage return.
pub open spec fn line_byte(b: u8) -> bool {
    b != LF && b != CR
}

/// A run of text that a pattern can hold on one line: any bytes but line endings and
/// braces.
pub open spec fn text_run(t: Seq<u8>) -> bool {
    &&& t.len() > 0
    &&& forall|i: int|
        0 <= i < t.len() ==> line_byte(#[trigger] t[i]) && t[i] != OPEN_BRACE && t[i] != CLOSE_BRACE
}

/// Hex digits from `a` to `b`.
pub open spec fn hex_run(v: Seq<u8>, a: int, b: int) -> bool {
    forall|k: int| a <= k < b ==> crate::ascii::is_hex_digit(#[trigger] v[k])
}

/// The body of a string literal from `i` on: no quote or line feed but escaped, and each
/// backslash starts an escape: `\\`, `\"`, `\{`, `\u` and four hex digits, or `\U` and
/// six.
pub open spec fn string_ok(v: Seq<u8>, i: int) -> bool
    decreases v.len() - i,
{
    if i < 0 || i >= v.len() {
        i == v.len()
    } else if v[i] == QUOTE || v[i] == LF {
        false
    } else if v[i] == BACKSLASH {
        if i + 1 >= v.len() {
            false
        } else if v[i + 1] == BACKSLASH || v[i + 1] == OPEN_BRACE || v[i + 1] == QUOTE {
            string_ok(v, i + 2)
        } else if v[i + 1] == crate::ascii::LOWER_U {
            i + 6 <= v.len() && hex_run(v, i + 2, i + 6) && string_ok(v, i + 6)
        } else if v[i + 1] == crate::ascii::UPPER_U {
            i + 8 <= v.len() && hex_run(v, i + 2, i + 8) && string_ok(v, i + 8)
        } else {
            false
        }
    } else {
        string_ok(v, i + 1)
    }
}

/// The body of a string literal that reads back as itself: printable ASCII, with quotes
/// and backslashes only in escapes.
pub open spec fn plain_string(v: Seq<u8>) -> bool {
    &&& string_ok(v, 0)
    &&& forall|k: int| 0 <= k < v.len() ==> 0x20 <= #[trigger] v[k] <= 0x7E
}

/// A variable or message reference or a literal, as a plain call takes for its
/// arguments: valid identifiers, a string of printable ASCII without quotes or
/// backslashes, or digits.
pub open spec fn plain_operand(i: InlineExpression) -> bool {
    match i {
        InlineExpression::VariableReference(id) => valid_identifier(id),
        InlineExpression::StringLiteral(v) => plain_string(v),
        InlineExpression::NumberLiteral(v) => v.len() > 0 && forall|k: int| 0 <= k < v.len() ==> is_digit(#[trigger] v[k]),
        InlineExpression::MessageReference { id, attribute } => valid_identifier(id) && match attribute {
            Some(a) => valid_identifier(a),
            None => true,
        },
        _ => false,
    }
}

/// How an operand is written.
pub open spec fn operand_text(i: InlineExpression) -> Seq<u8> {
    match i {
        InlineExpression::VariableReference(id) => seq![DOLLAR] + id,
        InlineExpression::MessageReference { id, attribute } => id + match attribute {
            Some(a) => seq![DOT] + a,
            None => Seq::empty(),
        },
        InlineExpression::StringLiteral(v) => seq![QUOTE] + v + seq![QUOTE],
        InlineExpression::NumberLiteral(v) => v,
        _ => Seq::empty(),
    }
}

/// The arguments of a call in the order they are written: the positional ones without a
/// name, then the named ones with theirs.
pub open spec fn arg_items(a: CallArguments) -> Seq<(Option<Seq<u8>>, InlineExpression)> {
    pos_items(a.positional) + named_items(a.named)
}

pub open spec fn pos_items(ps: Seq<InlineExpression>) -> Seq<(Option<Seq<u8>>, InlineExpression)> {
    Seq::new(ps.len(), |i: int| (None::<Seq<u8>>, ps[i]))
}

pub open spec fn named_items(ns: Seq<crate::model::NamedArgument>) -> Seq<(Option<Seq<u8>>, InlineExpression)> {
    Seq::new(ns.len(), |i: int| (Some(ns[i].name), ns[i].value))
}

/// How an argument is written: `name: value`, or the value alone.
pub open spec fn item_text(x: (Option<Seq<u8>>, InlineExpression)) -> Seq<u8> {
    match x.0 {
        Some(n) => n + seq![COLON, SPACE] + operand_text(x.1),
        None => operand_text(x.1),
    }
}

/// Arguments written one after the other, with `, ` between them.
pub open spec fn items_text(xs: Seq<(Option<Seq<u8>>, InlineExpression)>) -> Seq<u8>
    decreases xs.len(),
{
    if xs.len() == 0 {
        Seq::empty()
    } else {
        items_text(xs.drop_last()) + (if xs.len() > 1 {
            seq![COMMA, SPACE]
        } else {
            Seq::empty()
        }) + item_text(xs.last())
    }
}

/// Call arguments that are operands, the named ones with valid and distinct names.
pub open spec fn plain_args(a: CallArguments) -> bool {
    &&& forall|i: int| 0 <= i < a.positional.len() ==> plain_operand(#[trigger] a.positional[i])
    &&& forall|i: int|
        0 <= i < a.named.len() ==> valid_identifier(#[trigger] a.named[i].name) && plain_operand(a.named[i].value)
    &&& forall|i: int, j: int| 0 <= i < j < a.named.len() ==> a.named[i].name != a.named[j].name
}

/// An expression that a plain value may hold in a placeable: a reference to a variable,
/// a message (possibly to one of its attributes) or a term (possibly with plain
/// arguments) by a valid identifier; a string literal of printable ASCII without quotes or
/// backslashes; a number literal of digits; or a call of a function whose name is upper
/// case, with plain arguments.
pub open spec fn plain_inline(i: InlineExpression) -> bool {
    match i {
        InlineExpression::VariableReference(id) => valid_identifier(id),
        InlineExpression::MessageReference { id, attribute } => valid_identifier(id) && match attribute {
            Some(a) => valid_identifier(a),
            None => true,
        },
        InlineExpression::TermReference { id, attribute, arguments } => valid_identifier(id)
            && attribute is None && match arguments {
            Some(a) => plain_args(a),
            None => true,
        },
        InlineExpression::StringLiteral(v) => plain_string(v),
        InlineExpression::NumberLiteral(v) => v.len() > 0 && forall|k: int| 0 <= k < v.len() ==> is_digit(#[trigger] v[k]),
        InlineExpression::FunctionReference { id, arguments } => valid_identifier(id) && (forall|k: int|
            0 <= k < id.len() ==> crate::ascii::is_callee_char(#[trigger] id[k])) && arguments is Some
            && plain_args(arguments->Some_0),
        _ => false,
    }
}

/// How a plain expression is written.
pub open spec fn inline_text(i: InlineExpression) -> Seq<u8> {
    match i {
        InlineExpression::VariableReference(id) => seq![DOLLAR] + id,
        InlineExpression::MessageReference { id, attribute } => id + match attribute {
            Some(a) => seq![DOT] + a,
            None => Seq::empty(),
        },
        InlineExpression::TermReference { id, arguments, .. } => seq![MINUS] + id + match arguments {
            Some(a) => seq![OPEN_PAREN] + items_text(arg_items(a)) + seq![CLOSE_PAREN],
            None => Seq::empty(),
        },
        InlineExpression::StringLiteral(v) => seq![QUOTE] + v + seq![QUOTE],
        InlineExpression::NumberLiteral(v) => v,
        InlineExpression::FunctionReference { id, arguments } => id + seq![OPEN_PAREN] + items_text(
            arg_items(arguments->Some_0),
        ) + seq![CLOSE_PAREN],
        _ => Seq::empty(),
    }
}

/// A text run, or a placeable of a plain expression, possibly nested once.
pub open spec fn plain_element(e: PatternElement) -> bool {
    match e {
        PatternElement::Text(t) => text_run(t),
        PatternElement::Placeable(x) => (x matches Expression::Inline(i) && plain_inline(i)) || nested_plain(x),
    }
}

/// A placeable that holds, in a placeable of its own, a plain expression.
pub open spec fn nested_plain(x: Expression) -> bool {
    x matches Expression::Inline(InlineExpression::Placeable(b)) && (*b matches Expression::Inline(j)
        && plain_inline(j))
}

/// A pattern on one line: text runs and placeables of plain expressions, no two texts in
/// a row, that neither starts with a space nor ends with white space.
#[verifier::opaque]
pub open spec fn inline_value(p: Pattern) -> bool {
    let es = p.elements;
    &&& es.len() > 0
    &&& forall|i: int| 0 <= i < es.len() ==> plain_element(#[trigger] es[i])
    &&& forall|i: int| 0 <= i < es.len() - 1 ==> !(#[trigger] es[i] is Text && es[i + 1] is Text)
    &&& (es[0] is Text ==> es[0]->Text_0[0] != SPACE)
    &&& (es.last() is Text ==> crate::text::ws_suffix_len(es.last()->Text_0) == 0)
}

/// How an element of a plain value is written: a text as it is, an expression in braces
/// and spaces, a nested one in double braces.
pub open spec fn element_text(e: PatternElement) -> Seq<u8> {
    match e {
        PatternElement::Text(t) => t,
        PatternElement::Placeable(x) => match x {
            Expression::Inline(InlineExpression::Placeable(b)) => match *b {
                Expression::Inline(j) => seq![OPEN_BRACE, OPEN_BRACE, SPACE] + inline_text(j) + seq![
                    SPACE,
                    CLOSE_BRACE,
                    CLOSE_BRACE,
                ],
                _ => Seq::empty(),
            },
            Expression::Inline(i) => seq![OPEN_BRACE, SPACE] + inline_text(i) + seq![SPACE, CLOSE_BRACE],
            _ => Seq::empty(),
        },
    }
}

/// The elements written one after the other.
#[verifier::opaque]
pub open spec fn elements_text(es: Seq<PatternElement>) -> Seq<u8>
    decreases es.len(),
{
    if es.len() == 0 {
        Seq::empty()
    } else {
        element_text(es[0]) + elements_text(es.skip(1))
    }
}

/// A line of a value written on lines of its own: a text run that does not start with a
/// byte that would end the value there.
pub open spec fn block_line(l: Seq<u8>) -> bool {
    &&& text_run(l)
    &&& crate::parser::grammar::is_pattern_continuation(l[0])
}

/// A pattern of two or more lines of text: each a text of its own, that starts without
/// white space and ends with its line feed but for the last, which does not end with
/// white space.
#[verifier::opaque]
pub open spec fn multiline_value(p: Pattern) -> bool {
    let es = p.elements;
    &&& es.len() >= 2
    &&& forall|i: int| 0 <= i < es.len() ==> (#[trigger] es[i]) is Text && crate::text::ws_prefix_len(es[i]->Text_0) == 0
    &&& forall|i: int|
        0 <= i < es.len() - 1 ==> (#[trigger] es[i])->Text_0.len() > 0 && es[i]->Text_0.last() == LF
            && block_line(es[i]->Text_0.drop_last())
    &&& block_line(es.last()->Text_0)
    &&& crate::text::ws_suffix_len(es.last()->Text_0) == 0
}

/// A selector that a select expression of a plain value may have: a variable, a string
/// literal, a number literal or a term's attribute.
pub open spec fn plain_selector(i: InlineExpression) -> bool {
    (plain_inline(i) && (i is VariableReference || i is StringLiteral || i is NumberLiteral))
        || term_attribute(i)
}

/// An attribute of a term, by valid identifiers, without arguments.
pub open spec fn term_attribute(i: InlineExpression) -> bool {
    i matches InlineExpression::TermReference { id, attribute: Some(a), arguments: None } && valid_identifier(
        id,
    ) && valid_identifier(a)
}

/// How a selector is written.
pub open spec fn selector_text(i: InlineExpression) -> Seq<u8> {
    match i {
        InlineExpression::TermReference { id, attribute: Some(a), .. } => seq![MINUS] + id + seq![DOT] + a,
        _ => inline_text(i),
    }
}

/// A variant key that reads back as itself: a valid identifier, or digits.
pub open spec fn plain_key(k: VariantKey) -> bool {
    match k {
        VariantKey::Identifier(n) => valid_identifier(n),
        VariantKey::NumberLiteral(v) => v.len() > 0 && forall|j: int| 0 <= j < v.len() ==> is_digit(#[trigger] v[j]),
    }
}

/// Variants with plain keys and values on one line or of several lines of text, exactly
/// one of them the default.
pub open spec fn plain_variants(vs: Seq<Variant>) -> bool {
    &&& forall|i: int|
        0 <= i < vs.len() ==> plain_key(#[trigger] vs[i].key) && (inline_value(vs[i].value) || multiline_value(
            vs[i].value,
        ))
    &&& exists|d: int|
        0 <= d < vs.len() && vs[d].default && forall|i: int| 0 <= i < vs.len() && i != d ==> !(#[trigger] vs[i]).default
}

/// A value that is a select expression alone, with a plain selector and plain variants.
#[verifier::opaque]
pub open spec fn select_value(p: Pattern) -> bool {
    &&& p.elements.len() == 1
    &&& p.elements[0] is Placeable
    &&& p.elements[0]->Placeable_0 is Select
    &&& plain_selector(p.elements[0]->Placeable_0->Select_selector)
    &&& plain_variants(p.elements[0]->Placeable_0->Select_variants)
}

/// A value that reads back as itself: on the line of its `=`, on lines of its own, or a
/// select expression.
pub open spec fn plain_value(p: Pattern) -> bool {
    inline_value(p) || multiline_value(p) || select_value(p) || mixed_value(p)
}

/// Element `i` of a value written on lines of its own starts a line: it comes first, or
/// right after a text that ends with a line feed.
pub open spec fn starts_line(es: Seq<PatternElement>, i: int) -> bool {
    i == 0 || (es[i - 1] is Text && es[i - 1]->Text_0.len() > 0 && es[i - 1]->Text_0.last() == LF)
}

/// A select expression with a plain selector and plain variants.
pub open spec fn select_placeable(x: Expression) -> bool {
    x is Select && plain_selector(x->Select_selector) && plain_variants(x->Select_variants)
}

/// Element `i` of a value of lines that mix text and placeables, but for what only the
/// last element must meet: a text holds no carriage return nor brace, a line feed only
/// at its end, starts without white space where it starts a line, and ends with a line
/// feed where a text follows it; a placeable is plain or a select expression.
pub open spec fn mixed_element(es: Seq<PatternElement>, i: int) -> bool {
    match es[i] {
        PatternElement::Text(t) => {
            &&& t.len() > 0
            &&& forall|k: int|
                0 <= k < t.len() ==> #[trigger] t[k] != CR && t[k] != OPEN_BRACE && t[k] != CLOSE_BRACE && (t[k]
                    == LF ==> k == t.len() - 1)
            &&& (starts_line(es, i) ==> crate::text::ws_prefix_len(t) == 0
                && crate::parser::grammar::is_pattern_continuation(t[0]))
            &&& (i + 1 < es.len() && es[i + 1] is Text ==> t.last() == LF)
        },
        PatternElement::Placeable(x) => plain_element(es[i]) || select_placeable(x),
    }
}

/// A value of lines that mix text and placeables: one element at least breaks a line;
/// the last is a placeable or a text that ends without white space.
#[verifier::opaque]
pub open spec fn mixed_value(p: Pattern) -> bool {
    let es = p.elements;
    &&& es.len() > 0
    &&& exists|i: int| 0 <= i < es.len() && crate::serializer::is_multiline(#[trigger] es[i])
    &&& forall|i: int| 0 <= i < es.len() ==> mixed_element(es, i)
    &&& (es.last() is Text ==> es.last()->Text_0.last() != LF && crate::text::ws_suffix_len(es.last()->Text_0) == 0)
}

/// A select expression from its `{` to its `}`, the variants a level deeper than `level`.
pub open spec fn select_body(selector: InlineExpression, variants: Seq<Variant>, level: nat) -> Seq<u8> {
    seq![OPEN_BRACE, SPACE] + selector_text(selector) + seq![SPACE, MINUS, GREATER, LF] + variants_text(
        variants,
        level + 1,
    ) + indentation(level) + seq![CLOSE_BRACE]
}

/// How an element of a mixed value is written after its indentation, if any.
pub open spec fn piece_text(e: PatternElement, level: nat) -> Seq<u8> {
    match e {
        PatternElement::Placeable(Expression::Select { selector, variants }) => select_body(selector, variants, level),
        _ => element_text(e),
    }
}

/// The lines of a mixed value, indented to `level`.
pub open spec fn mixed_text(es: Seq<PatternElement>, level: nat) -> Seq<u8>
    decreases es.len(),
{
    if es.len() == 0 {
        Seq::empty()
    } else {
        mixed_text(es.drop_last(), level) + (if starts_line(es, es.len() - 1) {
            indentation(level)
        } else {
            Seq::empty()
        }) + piece_text(es.last(), level)
    }
}

/// How a variant is written on a line of its own, indented to `level`.
pub open spec fn variant_line(v: Variant, level: nat) -> Seq<u8> {
    indentation(level) + (if v.default {
        seq![ASTERISK]
    } else {
        Seq::empty()
    }) + seq![OPEN_BRACKET] + crate::serializer::key_text(v.key) + seq![CLOSE_BRACKET] + variant_value_text(
        v.value,
        level + 1,
    ) + seq![LF]
}

/// What follows a variant's key: a space and its value, or its lines, each on a line of
/// its own indented to `level`.
pub open spec fn variant_value_text(p: Pattern, level: nat) -> Seq<u8> {
    if multiline_value(p) {
        seq![LF] + block_text(p.elements, level)
    } else {
        seq![SPACE] + elements_text(p.elements)
    }
}

pub open spec fn variants_text(vs: Seq<Variant>, level: nat) -> Seq<u8>
    decreases vs.len(),
{
    if vs.len() == 0 {
        Seq::empty()
    } else {
        variants_text(vs.drop_last(), level) + variant_line(vs.last(), level)
    }
}

/// How a select expression is written from the start of a line indented to `level`: the
/// selector and `->`, the variants a level deeper, and the closing brace.
pub open spec fn select_text(selector: InlineExpression, variants: Seq<Variant>, level: nat) -> Seq<u8> {
    indentation(level) + seq![OPEN_BRACE, SPACE] + selector_text(selector) + seq![SPACE, MINUS, GREATER, LF]
        + variants_text(variants, level + 1) + indentation(level) + seq![CLOSE_BRACE]
}

/// The lines of a value of several lines, each indented to `level`.
pub open spec fn block_text(es: Seq<PatternElement>, level: nat) -> Seq<u8>
    decreases es.len(),
{
    if es.len() == 0 {
        Seq::empty()
    } else {
        block_text(es.drop_last(), level) + indentation(level) + es.last()->Text_0
    }
}

/// What follows the `=` of a plain value indented to `level`: a space and the value, or
/// its lines, each on a line of its own, or its select expression from the next line.
pub open spec fn value_text(p: Pattern, level: nat) -> Seq<u8> {
    if multiline_value(p) {
        seq![LF] + block_text(p.elements, level)
    } else if select_value(p) {
        seq![LF] + select_text(
            p.elements[0]->Placeable_0->Select_selector,
            p.elements[0]->Placeable_0->Select_variants,
            level,
        )
    } else if mixed_value(p) {
        seq![LF] + mixed_text(p.elements, level)
    } else {
        seq![SPACE] + elements_text(p.elements)
    }
}

/// An attribute with a valid identifier and a plain value.
pub open spec fn plain_attribute(a: Attribute) -> bool {
    valid_identifier(a.id) && plain_value(a.value)
}

pub open spec fn plain_attributes(attrs: Seq<Attribute>) -> bool {
    forall|i: int| 0 <= i < attrs.len() ==> plain_attribute(#[trigger] attrs[i])
}

/// A comment line that reads back as itself: no line ending in it, and either empty
/// or not only white space.
pub open spec fn plain_comment_line(l: Seq<u8>) -> bool {
    &&& forall|i: int| 0 <= i < l.len() ==> #[trigger] l[i] != LF && l[i] != CR
    &&& (l.len() == 0 || trim_end(l).len() > 0)
}

/// No comment, or a comment of one or more plain lines.
pub open spec fn plain_comment(c: Option<Seq<Seq<u8>>>) -> bool {
    match c {
        None => true,
        Some(lines) => lines.len() > 0 && forall|i: int|
            0 <= i < lines.len() ==> plain_comment_line(#[trigger] lines[i]),
    }
}

/// Plain junk; a message or term with a plain comment, if any, a valid identifier, a
/// plain value (a message may have none where it has attributes) and plain attributes; or a comment of any level with plain lines.
pub open spec fn plain_entry(e: Entry) -> bool {
    match e {
        Entry::Message(m) => valid_identifier(m.id) && plain_comment(m.comment) && match m.value {
            Some(p) => plain_value(p),
            None => m.attributes.len() > 0,
        } && plain_attributes(m.attributes),
        Entry::Term(t) => valid_identifier(t.id) && plain_comment(t.comment) && plain_value(t.value)
            && plain_attributes(t.attributes),
        Entry::Comment(c) => plain_comment(Some(c)),
        Entry::GroupComment(c) => plain_comment(Some(c)),
        Entry::ResourceComment(c) => plain_comment(Some(c)),
        Entry::Junk(j) => plain_junk(j),
    }
}

/// A comment that stands as an entry of its own.
pub open spec fn is_standalone(e: Entry) -> bool {
    e is Comment || e is GroupComment || e is ResourceComment
}

/// The comment of a message or term, or the comment an entry is.
pub open spec fn entry_comment(e: Entry) -> Option<Seq<Seq<u8>>> {
    match e {
        Entry::Message(m) => m.comment,
        Entry::Term(t) => t.comment,
        Entry::Comment(c) => Some(c),
        Entry::GroupComment(c) => Some(c),
        Entry::ResourceComment(c) => Some(c),
        Entry::Junk(_) => None,
    }
}

/// How many `#` start the lines of an entry's comment.
pub open spec fn level_of(e: Entry) -> nat {
    match e {
        Entry::GroupComment(_) => 2,
        Entry::ResourceComment(_) => 3,
        _ => 1,
    }
}

/// The comment entry of `level` with lines `c`.
pub open spec fn comment_entry(level: nat, c: Seq<Seq<u8>>) -> Entry {
    if level == 2 {
        Entry::GroupComment(c)
    } else if level == 3 {
        Entry::ResourceComment(c)
    } else {
        Entry::Comment(c)
    }
}

/// Where the identifier at the start of a junk line ends.
pub open spec fn junk_id_end(j: Seq<u8>) -> int {
    span_while(j, 1, ByteClass::IdentChar)
}

/// Where the spaces after the identifier at the start of a junk line end.
pub open spec fn junk_error_at(j: Seq<u8>) -> int {
    span_while(j, junk_id_end(j), ByteClass::Space)
}

/// Junk that reads back as itself: lines that start with an identifier and spaces, then a
/// byte other than `=`, so that they cannot be read as a message; no line after the first
/// starts with a byte that may start an entry, and the last ends with a line feed.
pub open spec fn plain_junk(j: Seq<u8>) -> bool {
    &&& j.len() >= 2
    &&& is_alpha(j[0])
    &&& junk_error_at(j) < j.len()
    &&& j[junk_error_at(j)] != EQUALS
    &&& j.last() == LF
    &&& forall|i: int|
        0 <= i < j.len() - 1 && #[trigger] j[i] == LF ==> !crate::parser::ftlstream::is_entry_start_byte(j[i + 1])
}

/// Entries that read back as themselves: each plain, and no entry with a comment right
/// after junk (the blank line before the comment would be read as part of the junk).
pub open spec fn all_plain(es: Seq<Entry>) -> bool {
    &&& forall|i: int| 0 <= i < es.len() ==> plain_entry(#[trigger] es[i])
    &&& forall|i: int| 0 < i < es.len() && (#[trigger] es[i - 1]) is Junk ==> entry_comment(es[i]) is None
}

/// What follows the `=` of a message: its value, if it has one.
pub open spec fn message_value_text(v: Option<Pattern>) -> Seq<u8> {
    match v {
        Some(p) => value_text(p, 1),
        None => Seq::empty(),
    }
}

/// `id =`, what follows it, and a line feed.
pub open spec fn value_line(id: Seq<u8>, text: Seq<u8>) -> Seq<u8> {
    id + seq![SPACE, EQUALS] + text + seq![LF]
}

/// `.id = text` on a line of its own, indented by four spaces.
pub open spec fn attribute_line(a: Attribute) -> Seq<u8> {
    seq![SPACE, SPACE, SPACE, SPACE, DOT] + value_line(a.id, value_text(a.value, 2))
}

pub open spec fn attribute_lines(attrs: Seq<Attribute>) -> Seq<u8>
    decreases attrs.len(),
{
    if attrs.len() == 0 {
        Seq::empty()
    } else {
        attribute_lines(attrs.drop_last()) + attribute_line(attrs.last())
    }
}

/// How a comment line of `level` is written: its `#`, then a space and the line unless
/// it is empty.
pub open spec fn comment_line_text(level: nat, l: Seq<u8>) -> Seq<u8> {
    crate::serializer::comment_prefix(level) + if l.len() == 0 {
        seq![LF]
    } else {
        seq![SPACE] + l + seq![LF]
    }
}

pub open spec fn comment_text(level: nat, c: Seq<Seq<u8>>) -> Seq<u8>
    decreases c.len(),
{
    if c.len() == 0 {
        Seq::empty()
    } else {
        comment_text(level, c.drop_last()) + comment_line_text(level, c.last())
    }
}

/// What is written before a plain entry's own lines: its comment, after a blank line
/// unless the entry comes first.
pub open spec fn lead_text(e: Entry, first: bool) -> Seq<u8> {
    match entry_comment(e) {
        Some(c) => (if first {
            Seq::empty()
        } else {
            seq![LF]
        }) + comment_text(level_of(e), c),
        None => Seq::empty(),
    }
}

/// How a plain entry is written, `first` where it comes first: its comment, its value
/// line and its attribute lines.
pub open spec fn entry_text(e: Entry, first: bool) -> Seq<u8> {
    lead_text(e, first) + body_text(e)
}

/// A plain entry's value line and attribute lines; for a comment of its own, the blank
/// line after it.
pub open spec fn body_text(e: Entry) -> Seq<u8> {
    match e {
        Entry::Message(m) => value_line(m.id, message_value_text(m.value)) + attribute_lines(
            m.attributes,
        ),
        Entry::Term(t) => seq![MINUS] + value_line(t.id, value_text(t.value, 1)) + attribute_lines(
            t.attributes,
        ),
        Entry::Junk(j) => j,
        _ => seq![LF],
    }
}

pub open spec fn entries_text(es: Seq<Entry>) -> Seq<u8>
    decreases es.len(),
{
    if es.len() == 0 {
        Seq::empty()
    } else {
        entries_text(es.drop_last()) + entry_text(es.last(), es.len() == 1)
    }
}

/// The attributes as the serializer writes them after a value: each after a line
/// feed.
pub open spec fn attributes_written(attrs: Seq<Attribute>) -> Seq<u8>
    decreases attrs.len(),
{
    if attrs.len() == 0 {
        Seq::empty()
    } else {
        attributes_written(attrs.drop_last()) + seq![LF, SPACE, SPACE, SPACE, SPACE, DOT]
            + attrs.last().id + seq![SPACE, EQUALS] + value_text(attrs.last().value, 2)
    }
}

/// Writing the last element of a sequence last.
proof fn lemma_elements_text_push(es: Seq<PatternElement>)
    requires
        es.len() > 0,
    ensures
        elements_text(es) == elements_text(es.drop_last()) + element_text(es.last()),
    decreases es.len(),
{
    reveal(elements_text);
    if es.len() == 1 {
        assert(es.skip(1) =~= Seq::<PatternElement>::empty());
        assert(es.drop_last() =~= Seq::<PatternElement>::empty());
        assert(elements_text(Seq::<PatternElement>::empty()) == Seq::<u8>::empty());
        assert(es.last() == es[0]);
        assert(elements_text(es) =~= element_text(es.last()));
    } else {
        let rest = es.skip(1);
        lemma_elements_text_push(rest);
        assert(rest.drop_last() =~= es.drop_last().skip(1));
        assert(rest.last() == es.last());
        assert(es.drop_last()[0] == es[0]);
        assert(elements_text(es) =~= elements_text(es.drop_last()) + element_text(es.last()));
    }
}

/// The bytes of a plain element are printable ASCII.
proof fn lemma_element_printable(e: PatternElement)
    requires
        plain_element(e),
    ensures
        element_text(e).len() > 0,
        forall|i: int| 0 <= i < element_text(e).len() ==> line_byte(#[trigger] element_text(e)[i]),
        e is Placeable ==> element_text(e)[0] == OPEN_BRACE && element_text(e).last() == CLOSE_BRACE,
{
    match e {
        PatternElement::Text(t) => {},
        PatternElement::Placeable(x) => {
            if nested_plain(x) {
                let j = (*x->Inline_0->Placeable_0)->Inline_0;
                lemma_inline_printable(j);
                let it = inline_text(j);
                let t = element_text(e);
                assert forall|k: int| 0 <= k < t.len() implies line_byte(#[trigger] t[k]) by {
                    if 3 <= k < 3 + it.len() {
                        assert(t[k] == it[k - 3]);
                        assert(0x20 <= it[k - 3]);
                    }
                }
            } else {
                let i = x->Inline_0;
                lemma_inline_printable(i);
                let it = inline_text(i);
                let t = element_text(e);
                assert forall|k: int| 0 <= k < t.len() implies line_byte(#[trigger] t[k]) by {
                    if 2 <= k < 2 + it.len() {
                        assert(t[k] == it[k - 2]);
                        assert(0x20 <= it[k - 2]);
                    }
                }
            }
        },
    }
}

/// An operand is a plain expression written as itself: printable ASCII that starts with
/// `$`, a quote or a digit.
proof fn lemma_operand(i: InlineExpression)
    requires
        plain_operand(i),
    ensures
        plain_inline(i),
        inline_text(i) == operand_text(i),
        operand_text(i).len() > 0,
        forall|k: int| 0 <= k < operand_text(i).len() ==> 0x20 <= #[trigger] operand_text(i)[k] <= 0x7E,
        operand_text(i)[0] == DOLLAR || operand_text(i)[0] == QUOTE || is_digit(operand_text(i)[0]) || is_alpha(
            operand_text(i)[0],
        ),
{
    let t = operand_text(i);
    match i {
        InlineExpression::MessageReference { id, attribute } => {
            assert forall|k: int| 0 <= k < t.len() implies 0x20 <= #[trigger] t[k] <= 0x7E by {
                if 0 < k < id.len() {
                    assert(t[k] == id[k]);
                    assert(crate::ascii::is_ident_char(id[k]));
                }
                if k > id.len() {
                    let a = attribute->Some_0;
                    assert(t[k] == a[k - id.len() - 1]);
                    if k > id.len() + 1 {
                        assert(crate::ascii::is_ident_char(a[k - id.len() - 1]));
                    }
                }
            }
            assert(t[0] == id[0]);
        },
        InlineExpression::VariableReference(id) => {
            assert forall|k: int| 0 <= k < t.len() implies 0x20 <= #[trigger] t[k] <= 0x7E by {
                if k >= 1 {
                    assert(t[k] == id[k - 1]);
                    if k > 1 {
                        assert(crate::ascii::is_ident_char(id[k - 1]));
                    }
                }
            }
        },
        InlineExpression::StringLiteral(v) => {
            assert forall|k: int| 0 <= k < t.len() implies 0x20 <= #[trigger] t[k] <= 0x7E by {
                if 1 <= k < 1 + v.len() {
                    assert(t[k] == v[k - 1]);
                }
            }
        },
        InlineExpression::NumberLiteral(v) => {
            assert(is_digit(v[0]));
            assert forall|k: int| 0 <= k < t.len() implies 0x20 <= #[trigger] t[k] <= 0x7E by {
                assert(is_digit(v[k]));
            }
        },
        _ => {},
    }
}

/// What a list of arguments holds: names that are valid identifiers, operands as values.
pub open spec fn plain_items(xs: Seq<(Option<Seq<u8>>, InlineExpression)>) -> bool {
    forall|i: int|
        0 <= i < xs.len() ==> ((#[trigger] xs[i]).0 is Some ==> valid_identifier(xs[i].0->Some_0)) && plain_operand(
            xs[i].1,
        )
}

proof fn lemma_arg_items_plain(a: CallArguments)
    requires
        plain_args(a),
    ensures
        plain_items(arg_items(a)),
        arg_items(a).len() == a.positional.len() + a.named.len(),
{
    let xs = arg_items(a);
    let p = a.positional.len() as int;
    assert forall|i: int| 0 <= i < xs.len() implies ((#[trigger] xs[i]).0 is Some ==> valid_identifier(xs[i].0->Some_0))
        && plain_operand(xs[i].1) by {
        if i < p {
            assert(xs[i] == (None::<Seq<u8>>, a.positional[i]));
        } else {
            assert(xs[i] == (Some(a.named[i - p].name), a.named[i - p].value));
        }
    }
}

/// One argument is written in printable ASCII, starting with a letter, `$`, a quote or a
/// digit.
proof fn lemma_item_printable(x: (Option<Seq<u8>>, InlineExpression))
    requires
        x.0 is Some ==> valid_identifier(x.0->Some_0),
        plain_operand(x.1),
    ensures
        item_text(x).len() > 0,
        forall|k: int| 0 <= k < item_text(x).len() ==> 0x20 <= #[trigger] item_text(x)[k] <= 0x7E,
        is_alpha(item_text(x)[0]) || item_text(x)[0] == DOLLAR || item_text(x)[0] == QUOTE || is_digit(item_text(x)[0]),
{
    lemma_operand(x.1);
    let t = item_text(x);
    let o = operand_text(x.1);
    match x.0 {
        Some(n) => {
            assert forall|k: int| 0 <= k < t.len() implies 0x20 <= #[trigger] t[k] <= 0x7E by {
                if k < n.len() {
                    assert(t[k] == n[k]);
                    if k > 0 {
                        assert(crate::ascii::is_ident_char(n[k]));
                    }
                } else if k >= n.len() + 2 {
                    assert(t[k] == o[k - n.len() - 2]);
                }
            }
            assert(t[0] == n[0]);
        },
        None => {},
    }
}

/// A list of arguments is written in printable ASCII, starting like its first argument.
proof fn lemma_items_printable(xs: Seq<(Option<Seq<u8>>, InlineExpression)>)
    requires
        plain_items(xs),
    ensures
        forall|k: int| 0 <= k < items_text(xs).len() ==> 0x20 <= #[trigger] items_text(xs)[k] <= 0x7E,
        xs.len() > 0 ==> items_text(xs).len() > 0 && items_text(xs)[0] == item_text(xs[0])[0],
    decreases xs.len(),
{
    if xs.len() > 0 {
        let prev = xs.drop_last();
        assert forall|i: int| 0 <= i < prev.len() implies ((#[trigger] prev[i]).0 is Some ==> valid_identifier(prev[i].0->Some_0))
            && plain_operand(prev[i].1) by {
            assert(prev[i] == xs[i]);
        }
        lemma_items_printable(prev);
        let x = xs.last();
        assert(xs[xs.len() - 1] == x);
        lemma_item_printable(x);
        let a = items_text(prev);
        let sep = if xs.len() > 1 {
            seq![COMMA, SPACE]
        } else {
            Seq::<u8>::empty()
        };
        let b = item_text(x);
        let t = items_text(xs);
        assert(t == a + sep + b);
        assert forall|k: int| 0 <= k < t.len() implies 0x20 <= #[trigger] t[k] <= 0x7E by {
            if k < a.len() {
                assert(t[k] == a[k]);
            } else if k >= a.len() + sep.len() {
                assert(t[k] == b[k - a.len() - sep.len()]);
            }
        }
        if xs.len() > 1 {
            assert(prev[0] == xs[0]);
            assert(t[0] == a[0]);
        } else {
            assert(t[0] == b[0]);
            assert(x == xs[0]);
        }
    }
}

/// A plain expression is written in printable ASCII, and starts with neither a space
/// nor a brace.
proof fn lemma_inline_printable(i: InlineExpression)
    requires
        plain_inline(i),
    ensures
        inline_text(i).len() > 0,
        forall|k: int| 0 <= k < inline_text(i).len() ==> 0x20 <= #[trigger] inline_text(i)[k] <= 0x7E,
        inline_text(i)[0] != SPACE,
        inline_text(i)[0] != OPEN_BRACE,
{
    let t = inline_text(i);
    match i {
        InlineExpression::VariableReference(id) => {
            assert forall|k: int| 0 <= k < t.len() implies 0x20 <= #[trigger] t[k] <= 0x7E by {
                if k >= 1 {
                    assert(t[k] == id[k - 1]);
                    if k > 1 {
                        assert(crate::ascii::is_ident_char(id[k - 1]));
                    }
                }
            }
        },
        InlineExpression::MessageReference { id, attribute } => {
            assert forall|k: int| 0 <= k < t.len() implies 0x20 <= #[trigger] t[k] <= 0x7E by {
                if 0 < k < id.len() {
                    assert(t[k] == id[k]);
                    assert(crate::ascii::is_ident_char(id[k]));
                }
                if k > id.len() {
                    let a = attribute->Some_0;
                    assert(t[k] == a[k - id.len() - 1]);
                    if k > id.len() + 1 {
                        assert(crate::ascii::is_ident_char(a[k - id.len() - 1]));
                    }
                }
            }
            assert(t[0] == id[0]);
        },
        InlineExpression::TermReference { id, arguments, .. } => {
            if arguments is Some {
                lemma_arg_items_plain(arguments->Some_0);
                lemma_items_printable(arg_items(arguments->Some_0));
            }
            assert forall|k: int| 0 <= k < t.len() implies 0x20 <= #[trigger] t[k] <= 0x7E by {
                if 1 <= k <= id.len() {
                    assert(t[k] == id[k - 1]);
                    if k > 1 {
                        assert(crate::ascii::is_ident_char(id[k - 1]));
                    }
                } else if k > id.len() + 1 && k < t.len() - 1 {
                    let it = items_text(arg_items(arguments->Some_0));
                    assert(t[k] == it[k - id.len() - 2]);
                }
            }
        },
        InlineExpression::StringLiteral(v) => {
            assert forall|k: int| 0 <= k < t.len() implies 0x20 <= #[trigger] t[k] <= 0x7E by {
                if 1 <= k < 1 + v.len() {
                    assert(t[k] == v[k - 1]);
                }
            }
        },
        InlineExpression::NumberLiteral(v) => {
            assert(is_digit(v[0]));
            assert forall|k: int| 0 <= k < t.len() implies 0x20 <= #[trigger] t[k] <= 0x7E by {
                assert(is_digit(v[k]));
            }
        },
        InlineExpression::FunctionReference { id, arguments } => {
            let xs = arg_items(arguments->Some_0);
            lemma_arg_items_plain(arguments->Some_0);
            lemma_items_printable(xs);
            let it = items_text(xs);
            assert forall|k: int| 0 <= k < t.len() implies 0x20 <= #[trigger] t[k] <= 0x7E by {
                if k < id.len() {
                    assert(t[k] == id[k]);
                    if k > 0 {
                        assert(crate::ascii::is_ident_char(id[k]));
                    }
                } else if id.len() < k < id.len() + 1 + it.len() {
                    assert(t[k] == it[k - id.len() - 1]);
                }
            }
            assert(t[0] == id[0]);
        },
        _ => {},
    }
}

/// The text of plain elements is printable ASCII.
proof fn lemma_elements_printable(es: Seq<PatternElement>)
    requires
        forall|i: int| 0 <= i < es.len() ==> plain_element(#[trigger] es[i]),
    ensures
        forall|i: int| 0 <= i < elements_text(es).len() ==> line_byte(#[trigger] elements_text(es)[i]),
    decreases es.len(),
{
    reveal(elements_text);
    if es.len() > 0 {
        let rest = es.skip(1);
        assert forall|i: int| 0 <= i < rest.len() implies plain_element(#[trigger] rest[i]) by {
            assert(rest[i] == es[i + 1]);
        }
        lemma_elements_printable(rest);
        assert(plain_element(es[0]));
        lemma_element_printable(es[0]);
        let h = element_text(es[0]);
        let r = elements_text(rest);
        assert forall|i: int| 0 <= i < elements_text(es).len() implies line_byte(#[trigger] elements_text(es)[i]) by {
            if i < h.len() {
                assert(elements_text(es)[i] == h[i]);
            } else {
                assert(elements_text(es)[i] == r[i - h.len()]);
            }
        }
    }
}

/// The text of a value on one line fits on the line of its `=`.
proof fn lemma_value_text_line(p: Pattern)
    requires
        inline_value(p),
    ensures
        elements_text(p.elements).len() > 0,
        forall|i: int| 0 <= i < elements_text(p.elements).len() ==> line_byte(#[trigger] elements_text(p.elements)[i]),
        elements_text(p.elements)[0] != SPACE,
        !elements_text(p.elements).contains(LF),
        elements_text(p.elements).last() != LF,
{
    reveal(inline_value);
    reveal(elements_text);
    let es = p.elements;
    let t = elements_text(p.elements);
    lemma_elements_printable(es);
    assert(plain_element(es[0]));
    assert(plain_element(es.last()));
    lemma_element_printable(es[0]);
    lemma_element_printable(es.last());
    let h = element_text(es[0]);
    assert(t[0] == h[0]);
    if t.contains(LF) {
        let k = choose|k: int| 0 <= k < t.len() && t[k] == LF;
        assert(line_byte(t[k]));
    }
    assert(line_byte(t[t.len() - 1]));
}

proof fn lemma_identifier_start(id: Seq<u8>)
    requires
        valid_identifier(id),
    ensures
        trim_start(id) == id,
        id.last() != LF,
{
    reveal_with_fuel(trim_start, 1);
    if id.len() > 1 {
        assert(crate::ascii::is_ident_char(id[id.len() - 1]));
    }
}

/// An operand written away from the start of a line: its text, as it is.
proof fn lemma_serialize_operand(w: Writer, i: InlineExpression)
    requires
        plain_operand(i),
        w.text.len() > 0,
        w.text.last() != LF,
    ensures
        crate::serializer::ser_inline(w, i) == (Writer { text: w.text + operand_text(i), ..w }),
{
    let w1 = crate::serializer::write(w, seq![DOLLAR]);
    let w3 = crate::serializer::write(w, seq![QUOTE]);
    assert(w1.text =~= w.text + seq![DOLLAR]);
    assert(w3.text =~= w.text + seq![QUOTE]);
    match i {
        InlineExpression::VariableReference(id) => {
            assert(w1.text + id =~= w.text + operand_text(i));
        },
        InlineExpression::StringLiteral(v) => {
            let w4 = crate::serializer::write(w3, v);
            assert(w4.text =~= w3.text + v);
            if v.len() > 0 {
                assert(w4.text.last() == v.last());
                assert(0x20 <= v[v.len() - 1]);
            }
            let w5 = crate::serializer::write(w4, seq![QUOTE]);
            assert(w5.text =~= w.text + operand_text(i));
        },
        InlineExpression::MessageReference { id, attribute } => {
            let w4 = crate::serializer::write(w, id);
            lemma_identifier_start(id);
            assert(w4.text =~= w.text + id);
            match attribute {
                Some(a) => {
                    let w5 = crate::serializer::write(w4, seq![DOT]);
                    assert(w5.text =~= w4.text + seq![DOT]);
                    let w6 = crate::serializer::write(w5, a);
                    assert(w6.text =~= w.text + operand_text(i));
                },
                None => {
                    assert(w4.text =~= w.text + operand_text(i));
                },
            }
        },
        _ => {},
    }
}

/// Positional arguments written away from the start of a line.
proof fn lemma_serialize_positionals(w: Writer, ps: Seq<InlineExpression>)
    requires
        forall|i: int| 0 <= i < ps.len() ==> plain_operand(#[trigger] ps[i]),
        w.text.len() > 0,
        w.text.last() != LF,
    ensures
        crate::serializer::ser_positionals(w, ps) == (Writer { text: w.text + items_text(pos_items(ps)), ..w }),
        (w.text + items_text(pos_items(ps))).last() != LF,
    decreases ps.len(),
{
    if ps.len() == 0 {
        assert(w.text + items_text(pos_items(ps)) =~= w.text);
    } else {
        let prev = ps.drop_last();
        assert forall|i: int| 0 <= i < prev.len() implies plain_operand(#[trigger] prev[i]) by {
            assert(prev[i] == ps[i]);
        }
        lemma_serialize_positionals(w, prev);
        assert(pos_items(ps).drop_last() =~= pos_items(prev));
        assert(pos_items(ps).last() == (None::<Seq<u8>>, ps.last()));
        let w1 = Writer { text: w.text + items_text(pos_items(prev)), ..w };
        let w2 = if ps.len() > 1 {
            crate::serializer::write(w1, seq![COMMA, SPACE])
        } else {
            w1
        };
        let sep = if ps.len() > 1 {
            seq![COMMA, SPACE]
        } else {
            Seq::<u8>::empty()
        };
        assert(w2.text =~= w1.text + sep);
        assert(w2.text.len() > 0 && w2.text.last() != LF);
        let e = ps.last();
        assert(plain_operand(ps[ps.len() - 1]));
        lemma_operand(e);
        lemma_serialize_operand(w2, e);
        let o = operand_text(e);
        assert(w2.text + o =~= w.text + items_text(pos_items(ps)));
        assert((w2.text + o).last() == o[o.len() - 1]);
    }
}

/// Named arguments written after the arguments `pre`, away from the start of a line.
proof fn lemma_serialize_nameds(
    w0: Writer,
    w: Writer,
    pre: Seq<(Option<Seq<u8>>, InlineExpression)>,
    ns: Seq<crate::model::NamedArgument>,
)
    requires
        forall|i: int| 0 <= i < ns.len() ==> valid_identifier(#[trigger] ns[i].name) && plain_operand(ns[i].value),
        w.text == w0.text + items_text(pre),
        w.text.len() > 0,
        w.text.last() != LF,
    ensures
        crate::serializer::ser_nameds(w, ns, pre.len() > 0) == (Writer {
            text: w0.text + items_text(pre + named_items(ns)),
            ..w
        }),
        (w0.text + items_text(pre + named_items(ns))).last() != LF,
    decreases ns.len(),
{
    if ns.len() == 0 {
        assert(pre + named_items(ns) =~= pre);
    } else {
        let prev = ns.drop_last();
        assert forall|i: int| 0 <= i < prev.len() implies valid_identifier(#[trigger] prev[i].name) && plain_operand(
            prev[i].value,
        ) by {
            assert(prev[i] == ns[i]);
        }
        lemma_serialize_nameds(w0, w, pre, prev);
        let xs = pre + named_items(ns);
        assert(xs.drop_last() =~= pre + named_items(prev));
        assert(xs.last() == (Some(ns.last().name), ns.last().value));
        let w1 = Writer { text: w0.text + items_text(pre + named_items(prev)), ..w };
        let long = pre.len() > 0 || ns.len() > 1;
        let w2 = if long {
            crate::serializer::write(w1, seq![COMMA, SPACE])
        } else {
            w1
        };
        let sep = if long {
            seq![COMMA, SPACE]
        } else {
            Seq::<u8>::empty()
        };
        assert(w2.text =~= w1.text + sep);
        let n = ns.last();
        assert(valid_identifier(ns[ns.len() - 1].name) && plain_operand(ns[ns.len() - 1].value));
        let w3 = crate::serializer::write(w2, n.name);
        assert(w3.text =~= w2.text + n.name);
        assert(n.name[n.name.len() - 1] != LF) by {
            if n.name.len() > 1 {
                assert(crate::ascii::is_ident_char(n.name[n.name.len() - 1]));
            }
        }
        let w4 = crate::serializer::write(w3, seq![COLON, SPACE]);
        assert(w4.text =~= w3.text + seq![COLON, SPACE]);
        lemma_operand(n.value);
        lemma_serialize_operand(w4, n.value);
        let o = operand_text(n.value);
        assert(xs.len() > 1 <==> long);
        assert(w4.text + o =~= w0.text + items_text(xs));
        assert((w4.text + o).last() == o[o.len() - 1]);
    }
}

/// Call arguments written away from the start of a line, in parentheses.
proof fn lemma_serialize_args(w: Writer, a: CallArguments)
    requires
        plain_args(a),
        w.text.len() > 0,
        w.text.last() != LF,
    ensures
        crate::serializer::ser_args(w, a) == (Writer {
            text: w.text + seq![OPEN_PAREN] + items_text(arg_items(a)) + seq![CLOSE_PAREN],
            ..w
        }),
{
    let w1 = crate::serializer::write(w, seq![OPEN_PAREN]);
    assert(w1.text =~= w.text + seq![OPEN_PAREN]);
    lemma_serialize_positionals(w1, a.positional);
    let w2 = Writer { text: w1.text + items_text(pos_items(a.positional)), ..w1 };
    assert(pos_items(a.positional).len() == a.positional.len());
    lemma_serialize_nameds(w1, w2, pos_items(a.positional), a.named);
    let w3 = Writer { text: w1.text + items_text(arg_items(a)), ..w1 };
    let w4 = crate::serializer::write(w3, seq![CLOSE_PAREN]);
    assert(w4.text =~= w.text + seq![OPEN_PAREN] + items_text(arg_items(a)) + seq![CLOSE_PAREN]);
}

/// A plain expression written away from the start of a line: its text, as it is.
#[verifier::rlimit(100)]
#[verifier::spinoff_prover]
proof fn lemma_serialize_inline(w: Writer, i: InlineExpression)
    requires
        plain_inline(i),
        w.text.len() > 0,
        w.text.last() != LF,
    ensures
        crate::serializer::ser_inline(w, i) == (Writer { text: w.text + inline_text(i), ..w }),
{
    let w1 = crate::serializer::write(w, seq![DOLLAR]);
    let w2 = crate::serializer::write(w, seq![MINUS]);
    let w3 = crate::serializer::write(w, seq![QUOTE]);
    assert(w1.text =~= w.text + seq![DOLLAR]);
    assert(w2.text =~= w.text + seq![MINUS]);
    assert(w3.text =~= w.text + seq![QUOTE]);
    match i {
        InlineExpression::VariableReference(id) => {
            assert(w1.text + id =~= w.text + inline_text(i));
        },
        InlineExpression::MessageReference { id, attribute } => {
            let w4 = crate::serializer::write(w, id);
            lemma_identifier_start(id);
            assert(w4.text =~= w.text + id);
            match attribute {
                Some(a) => {
                    let w5 = crate::serializer::write(w4, seq![DOT]);
                    assert(w5.text =~= w4.text + seq![DOT]);
                    let w6 = crate::serializer::write(w5, a);
                    assert(w6.text =~= w.text + inline_text(i));
                },
                None => {
                    assert(w4.text =~= w.text + inline_text(i));
                },
            }
        },
        InlineExpression::TermReference { id, arguments, .. } => {
            let w4 = crate::serializer::write(w2, id);
            assert(w4.text =~= w2.text + id);
            match arguments {
                Some(a) => {
                    assert(id[id.len() - 1] != LF) by {
                        if id.len() > 1 {
                            assert(crate::ascii::is_ident_char(id[id.len() - 1]));
                        }
                    }
                    lemma_serialize_args(w4, a);
                    assert(w4.text + seq![OPEN_PAREN] + items_text(arg_items(a)) + seq![CLOSE_PAREN] =~= w.text
                        + inline_text(i));
                },
                None => {
                    assert(w4.text =~= w.text + inline_text(i));
                },
            }
        },
        InlineExpression::StringLiteral(v) => {
            let w4 = crate::serializer::write(w3, v);
            assert(w4.text =~= w3.text + v);
            if v.len() > 0 {
                assert(w4.text.last() == v.last());
                assert(0x20 <= v[v.len() - 1]);
            }
            let w5 = crate::serializer::write(w4, seq![QUOTE]);
            assert(w5.text =~= w.text + inline_text(i));
        },
        InlineExpression::FunctionReference { id, arguments } => {
            let w4 = crate::serializer::write(w, id);
            lemma_identifier_start(id);
            assert(w4.text =~= w.text + id);
            assert(id[id.len() - 1] != LF) by {
                if id.len() > 1 {
                    assert(crate::ascii::is_ident_char(id[id.len() - 1]));
                }
            }
            lemma_serialize_args(w4, arguments->Some_0);
            assert(w4.text + seq![OPEN_PAREN] + items_text(arg_items(arguments->Some_0)) + seq![CLOSE_PAREN]
                =~= w.text + inline_text(i));
        },
        _ => {},
    }
}

/// Plain elements written away from the start of a line: their text, as it is.
proof fn lemma_serialize_elements(w: Writer, es: Seq<PatternElement>)
    requires
        forall|i: int| 0 <= i < es.len() ==> plain_element(#[trigger] es[i]),
        w.text.len() > 0,
        w.text.last() != LF,
    ensures
        crate::serializer::ser_elements(w, es) == (Writer { text: w.text + elements_text(es), ..w }),
        (w.text + elements_text(es)).last() != LF,
    decreases es.len(),
{
    reveal(elements_text);
    if es.len() == 0 {
        assert(w.text + elements_text(es) =~= w.text);
    } else {
        let prev = es.drop_last();
        assert forall|i: int| 0 <= i < prev.len() implies plain_element(#[trigger] prev[i]) by {
            assert(prev[i] == es[i]);
        }
        lemma_serialize_elements(w, prev);
        lemma_elements_text_push(es);
        let w1 = Writer { text: w.text + elements_text(prev), ..w };
        let e = es.last();
        assert(plain_element(es[es.len() - 1]));
        lemma_element_printable(e);
        let et = element_text(e);
        match e {
            PatternElement::Text(t) => {
                assert(w1.text + t =~= w.text + elements_text(es));
                assert(crate::serializer::ser_element(w1, e) == Writer { text: w1.text + t, ..w1 });
            },
            PatternElement::Placeable(x) => {
                if nested_plain(x) {
                    let b = x->Inline_0->Placeable_0;
                    let j = (*b)->Inline_0;
                    lemma_inline_printable(j);
                    let it = inline_text(j);
                    let w2 = crate::serializer::write(w1, seq![OPEN_BRACE, OPEN_BRACE, SPACE]);
                    assert(w2.text =~= w1.text + seq![OPEN_BRACE, OPEN_BRACE, SPACE]);
                    lemma_serialize_inline(w2, j);
                    let w4 = Writer { text: w2.text + it, ..w2 };
                    let w5 = crate::serializer::write(w4, seq![SPACE, CLOSE_BRACE, CLOSE_BRACE]);
                    assert(w5.text =~= w.text + elements_text(es));
                    assert(crate::serializer::ser_expr(w2, *b) == w4);
                    assert(crate::serializer::ser_element(w1, e) == w5);
                } else {
                    let i = x->Inline_0;
                    lemma_inline_printable(i);
                    let it = inline_text(i);
                    let w2 = crate::serializer::write(w1, seq![OPEN_BRACE, SPACE]);
                    assert(w2.text =~= w1.text + seq![OPEN_BRACE, SPACE]);
                    lemma_serialize_inline(w2, i);
                    let w4 = Writer { text: w2.text + it, ..w2 };
                    let w5 = crate::serializer::write(w4, seq![SPACE, CLOSE_BRACE]);
                    assert(w5.text =~= w.text + elements_text(es));
                    assert(crate::serializer::ser_expr(w2, x) == w4);
                    assert(crate::serializer::ser_element(w1, e) == w5);
                }
            },
        }
        assert((w.text + elements_text(es)).last() == et.last());
        assert(line_byte(et[et.len() - 1]));
    }
}

/// The lines of a value of several lines, written from the start of a line: each
/// indented, as it is.
proof fn lemma_serialize_block(w: Writer, es: Seq<PatternElement>)
    requires
        forall|i: int|
            0 <= i < es.len() ==> (#[trigger] es[i]) is Text && es[i]->Text_0.len() > 0
                && crate::text::ws_prefix_len(es[i]->Text_0) == 0,
        forall|i: int| 0 <= i < es.len() - 1 ==> (#[trigger] es[i])->Text_0.last() == LF,
        w.text.len() > 0,
        w.text.last() == LF,
    ensures
        crate::serializer::ser_elements(w, es) == (Writer { text: w.text + block_text(es, w.level), ..w }),
    decreases es.len(),
{
    if es.len() == 0 {
        assert(w.text + block_text(es, w.level) =~= w.text);
    } else {
        let prev = es.drop_last();
        assert forall|i: int| 0 <= i < prev.len() implies (#[trigger] prev[i]) is Text && prev[i]->Text_0.len() > 0
            && crate::text::ws_prefix_len(prev[i]->Text_0) == 0 by {
            assert(prev[i] == es[i]);
        }
        assert forall|i: int| 0 <= i < prev.len() - 1 implies (#[trigger] prev[i])->Text_0.last() == LF by {
            assert(prev[i] == es[i]);
        }
        lemma_serialize_block(w, prev);
        let w1 = Writer { text: w.text + block_text(prev, w.level), ..w };
        if prev.len() > 0 {
            assert(prev.last() == es[prev.len() - 1]);
            assert(w1.text.last() == prev.last()->Text_0.last());
        } else {
            assert(w1.text =~= w.text);
        }
        assert(es[es.len() - 1] is Text);
        let t = es.last()->Text_0;
        assert(crate::text::ws_prefix_len(t) == 0);
        assert(trim_start(t) == t) by {
            reveal_with_fuel(trim_start, 1);
        }
        assert(crate::serializer::ser_element(w1, es.last()) == crate::serializer::write(w1, t));
        assert(w1.text + indentation(w.level) + t =~= w.text + block_text(es, w.level));
    }
}

/// A value of several lines is not a select expression.
proof fn lemma_multiline_only(p: Pattern)
    requires
        multiline_value(p),
    ensures
        !select_value(p),
{
    reveal(multiline_value);
    reveal(select_value);
    assert(p.elements[0] is Text);
}

/// A value on one line is neither of several lines nor a select expression.
proof fn lemma_inline_only(p: Pattern)
    requires
        inline_value(p),
    ensures
        !multiline_value(p),
        !select_value(p),
        !mixed_value(p),
{
    reveal(inline_value);
    reveal(multiline_value);
    reveal(select_value);
    reveal(mixed_value);
    let es = p.elements;
    assert(plain_element(es[0]));
    if multiline_value(p) {
        let t = es[0]->Text_0;
        assert(t[t.len() - 1] == LF);
        assert(line_byte(t[t.len() - 1]));
    }
    if mixed_value(p) {
        let i = choose|i: int| 0 <= i < es.len() && crate::serializer::is_multiline(#[trigger] es[i]);
        assert(plain_element(es[i]));
        match es[i] {
            PatternElement::Text(t) => {
                let k = choose|k: int| 0 <= k < t.len() && t[k] == LF;
                assert(line_byte(t[k]));
            },
            PatternElement::Placeable(x) => {
                if nested_plain(x) {
                    assert(!crate::serializer::is_select(*x->Inline_0->Placeable_0));
                }
            },
        }
    }
}

/// The bytes of a variant key are printable and not a line feed.
proof fn lemma_key_printable(k: VariantKey)
    requires
        plain_key(k),
    ensures
        crate::serializer::key_text(k).len() > 0,
        forall|j: int|
            0 <= j < crate::serializer::key_text(k).len() ==> 0x21 <= #[trigger] crate::serializer::key_text(k)[j] <= 0x7E,
{
    match k {
        VariantKey::Identifier(n) => {
            assert forall|j: int| 0 <= j < n.len() implies 0x21 <= #[trigger] n[j] <= 0x7E by {
                if j > 0 {
                    assert(crate::ascii::is_ident_char(n[j]));
                }
            }
        },
        VariantKey::NumberLiteral(v) => {
            assert forall|j: int| 0 <= j < v.len() implies 0x21 <= #[trigger] v[j] <= 0x7E by {
                assert(is_digit(v[j]));
            }
        },
    }
}

/// A plain variant written from the start of a line, then a line feed.
#[verifier::rlimit(100)]
#[verifier::spinoff_prover]
proof fn lemma_serialize_variant(w1: Writer, v: Variant)
    requires
        plain_key(v.key),
        inline_value(v.value) || multiline_value(v.value),
        w1.text.len() > 0,
        w1.text.last() == LF,
    ensures
        newline(crate::serializer::ser_variant(w1, v)) == (Writer { text: w1.text + variant_line(v, w1.level), ..w1 }),
{
    let ind = indentation(w1.level);
    let star = if v.default {
        seq![ASTERISK]
    } else {
        Seq::<u8>::empty()
    };
    let wb = crate::serializer::write(
        if v.default {
            crate::serializer::write(w1, seq![ASTERISK])
        } else {
            w1
        },
        seq![OPEN_BRACKET],
    );
    if v.default {
        assert(trim_start(seq![ASTERISK]) == seq![ASTERISK]) by {
            reveal_with_fuel(trim_start, 1);
        }
        let wa = crate::serializer::write(w1, seq![ASTERISK]);
        assert(wa.text =~= w1.text + ind + seq![ASTERISK]);
        assert(wb.text =~= w1.text + ind + star + seq![OPEN_BRACKET]);
    } else {
        assert(trim_start(seq![OPEN_BRACKET]) == seq![OPEN_BRACKET]) by {
            reveal_with_fuel(trim_start, 1);
        }
        assert(wb.text =~= w1.text + ind + star + seq![OPEN_BRACKET]);
    }
    let key = crate::serializer::key_text(v.key);
    lemma_key_printable(v.key);
    let wc = crate::serializer::write(wb, key);
    assert(wc.text =~= wb.text + key);
    assert(wc.text.last() == key.last());
    assert(0x21 <= key[key.len() - 1]);
    let wd = crate::serializer::write(wc, seq![CLOSE_BRACKET]);
    assert(wd.text =~= wc.text + seq![CLOSE_BRACKET]);
    if multiline_value(v.value) {
        lemma_serialize_block_value(wd, v.value);
        lemma_multiline_only(v.value);
    } else {
        lemma_serialize_inline_value(wd, v.value);
        lemma_inline_only(v.value);
        assert(wd.text + seq![SPACE] + elements_text(v.value.elements) =~= wd.text + value_text(v.value, wd.level + 1));
    }
    let we = ser_pattern(wd, v.value);
    assert(crate::serializer::ser_variant(w1, v) == we);
    assert(we.text + seq![LF] =~= w1.text + variant_line(v, w1.level));
    assert(newline(we).text =~= w1.text + variant_line(v, w1.level));
}

/// Plain variants written from the start of a line: each on a line of its own.
#[verifier::rlimit(100)]
#[verifier::spinoff_prover]
proof fn lemma_serialize_variants(w: Writer, vs: Seq<Variant>)
    requires
        forall|i: int|
            0 <= i < vs.len() ==> plain_key(#[trigger] vs[i].key) && (inline_value(vs[i].value) || multiline_value(
                vs[i].value,
            )),
        w.text.len() > 0,
        w.text.last() == LF,
    ensures
        crate::serializer::ser_variants(w, vs) == (Writer { text: w.text + variants_text(vs, w.level), ..w }),
    decreases vs.len(),
{
    if vs.len() == 0 {
        assert(w.text + variants_text(vs, w.level) =~= w.text);
    } else {
        let prev = vs.drop_last();
        assert forall|i: int| 0 <= i < prev.len() implies plain_key(#[trigger] prev[i].key) && (inline_value(prev[i].value)
            || multiline_value(prev[i].value)) by {
            assert(prev[i] == vs[i]);
        }
        lemma_serialize_variants(w, prev);
        let w1 = Writer { text: w.text + variants_text(prev, w.level), ..w };
        if prev.len() > 0 {
            assert(w1.text.last() == variant_line(prev.last(), w.level).last());
        } else {
            assert(w1.text =~= w.text);
        }
        let v = vs.last();
        assert(plain_key(vs[vs.len() - 1].key) && (inline_value(vs[vs.len() - 1].value) || multiline_value(
            vs[vs.len() - 1].value,
        )));
        lemma_serialize_variant(w1, v);
        assert(w1.text + variant_line(v, w.level) =~= w.text + variants_text(vs, w.level));
    }
}

/// A selector is written in printable ASCII, starting with neither a space nor a brace.
proof fn lemma_selector_printable(i: InlineExpression)
    requires
        plain_selector(i),
    ensures
        selector_text(i).len() > 0,
        forall|k: int| 0 <= k < selector_text(i).len() ==> 0x20 <= #[trigger] selector_text(i)[k] <= 0x7E,
        selector_text(i)[0] != SPACE,
        selector_text(i)[0] != OPEN_BRACE,
{
    if term_attribute(i) {
        let id = i->TermReference_id;
        let a = i->TermReference_attribute->Some_0;
        let t = selector_text(i);
        assert(t == seq![MINUS] + id + seq![DOT] + a);
        assert forall|k: int| 0 <= k < t.len() implies 0x20 <= #[trigger] t[k] <= 0x7E by {
            if 1 <= k <= id.len() {
                assert(t[k] == id[k - 1]);
                if k > 1 {
                    assert(crate::ascii::is_ident_char(id[k - 1]));
                }
            } else if k > id.len() + 1 {
                assert(t[k] == a[k - id.len() - 2]);
                if k > id.len() + 2 {
                    assert(crate::ascii::is_ident_char(a[k - id.len() - 2]));
                }
            }
        }
    } else {
        lemma_inline_printable(i);
    }
}

/// A selector written away from the start of a line: its text, as it is.
proof fn lemma_serialize_selector(w: Writer, i: InlineExpression)
    requires
        plain_selector(i),
        w.text.len() > 0,
        w.text.last() != LF,
    ensures
        crate::serializer::ser_inline(w, i) == (Writer { text: w.text + selector_text(i), ..w }),
{
    if term_attribute(i) {
        let id = i->TermReference_id;
        let a = i->TermReference_attribute->Some_0;
        let w1 = crate::serializer::write(w, seq![MINUS]);
        assert(w1.text =~= w.text + seq![MINUS]);
        let w2 = crate::serializer::write(w1, id);
        assert(w2.text =~= w1.text + id);
        assert(id[id.len() - 1] != LF) by {
            if id.len() > 1 {
                assert(crate::ascii::is_ident_char(id[id.len() - 1]));
            }
        }
        let w3 = crate::serializer::write(w2, seq![DOT]);
        assert(w3.text =~= w2.text + seq![DOT]);
        let w4 = crate::serializer::write(w3, a);
        assert(w4.text =~= w.text + selector_text(i));
    } else {
        lemma_serialize_inline(w, i);
    }
}

/// A select expression written after some text: indented where it starts a line.
#[verifier::rlimit(100)]
#[verifier::spinoff_prover]
proof fn lemma_serialize_select(w: Writer, selector: InlineExpression, variants: Seq<Variant>)
    requires
        plain_selector(selector),
        plain_variants(variants),
        w.text.len() > 0,
    ensures
        crate::serializer::ser_element(
            w,
            PatternElement::Placeable(Expression::Select { selector, variants }),
        ) == (Writer {
            text: w.text + (if w.text.last() == LF {
                indentation(w.level)
            } else {
                Seq::empty()
            }) + select_body(selector, variants, w.level),
            ..w
        }),
{
    let x = Expression::Select { selector, variants };
    let ind = indentation(w.level);
    assert(trim_start(seq![OPEN_BRACE, SPACE]) == seq![OPEN_BRACE, SPACE]) by {
        reveal_with_fuel(trim_start, 1);
    }
    assert(trim_start(seq![CLOSE_BRACE]) == seq![CLOSE_BRACE]) by {
        reveal_with_fuel(trim_start, 1);
    }
    let lead = if w.text.last() == LF {
        ind
    } else {
        Seq::<u8>::empty()
    };
    let w1 = crate::serializer::write(w, seq![OPEN_BRACE, SPACE]);
    assert(w1.text =~= w.text + lead + seq![OPEN_BRACE, SPACE]);
    lemma_serialize_selector(w1, selector);
    lemma_selector_printable(selector);
    let it = selector_text(selector);
    let w2 = Writer { text: w1.text + it, ..w1 };
    assert(w2.text.last() == it.last());
    assert(0x20 <= it[it.len() - 1]);
    let w3 = crate::serializer::write(w2, seq![SPACE, MINUS, GREATER]);
    assert(w3.text =~= w2.text + seq![SPACE, MINUS, GREATER]);
    let w4 = indent(newline(w3));
    lemma_serialize_variants(w4, variants);
    let w5 = Writer { text: w4.text + variants_text(variants, w.level + 1), ..w4 };
    let d = choose|d: int|
        0 <= d < variants.len() && variants[d].default && forall|i: int|
            0 <= i < variants.len() && i != d ==> !(#[trigger] variants[i]).default;
    assert(variants.len() > 0);
    assert(w5.text.last() == variant_line(variants.last(), w.level + 1).last());
    let w6 = crate::serializer::dedent(w5);
    let w7 = crate::serializer::write(w6, seq![CLOSE_BRACE]);
    assert(w7.text =~= w.text + lead + select_body(selector, variants, w.level));
    assert(crate::serializer::ser_expr(w1, x) == w6);
}

/// The elements of a mixed value written from the start of a line at `w.level`: each
/// text and placeable as it is, indented where it starts a line.
#[verifier::rlimit(100)]
#[verifier::spinoff_prover]
proof fn lemma_serialize_mixed(w: Writer, es: Seq<PatternElement>)
    requires
        forall|i: int| 0 <= i < es.len() ==> mixed_element(es, i),
        w.text.len() > 0,
        w.text.last() == LF,
        w.level >= 1,
    ensures
        crate::serializer::ser_elements(w, es) == (Writer { text: w.text + mixed_text(es, w.level), ..w }),
        (w.text + mixed_text(es, w.level)).len() > 0,
        ((w.text + mixed_text(es, w.level)).last() == LF) == (es.len() == 0 || (es.last() is Text
            && es.last()->Text_0.len() > 0 && es.last()->Text_0.last() == LF)),
    decreases es.len(),
{
    if es.len() == 0 {
        assert(w.text + mixed_text(es, w.level) =~= w.text);
    } else {
        let prev = es.drop_last();
        assert forall|i: int| 0 <= i < prev.len() implies mixed_element(prev, i) by {
            assert(mixed_element(es, i));
            assert(prev[i] == es[i]);
            if i > 0 {
                assert(prev[i - 1] == es[i - 1]);
            }
            if i + 1 < prev.len() {
                assert(prev[i + 1] == es[i + 1]);
            }
        }
        lemma_serialize_mixed(w, prev);
        let n = es.len() - 1;
        let w1 = Writer { text: w.text + mixed_text(prev, w.level), ..w };
        let at = starts_line(es, n);
        if n > 0 {
            assert(prev.last() == es[n - 1]);
        }
        assert(at == (w1.text.last() == LF));
        let e = es.last();
        assert(mixed_element(es, n));
        let ind = indentation(w.level);
        let lead = if at {
            ind
        } else {
            Seq::<u8>::empty()
        };
        let pt = piece_text(e, w.level);
        assert(w.text + mixed_text(es, w.level) =~= w1.text + lead + pt);
        match e {
            PatternElement::Text(t) => {
                if at {
                    assert(trim_start(t) == t) by {
                        reveal_with_fuel(trim_start, 1);
                    }
                }
                assert(crate::serializer::ser_element(w1, e) == crate::serializer::write(w1, t));
                assert((w1.text + lead + pt).last() == t.last());
            },
            PatternElement::Placeable(x) => {
                if select_placeable(x) {
                    let sel = x->Select_selector;
                    let vs = x->Select_variants;
                    assert(x == Expression::Select { selector: sel, variants: vs });
                    lemma_serialize_select(w1, sel, vs);
                    assert(pt == select_body(sel, vs, w.level));
                    assert(pt.last() == CLOSE_BRACE);
                } else {
                    assert(plain_element(e));
                    let w2 = Writer { text: w1.text + lead, ..w1 };
                    assert(ind.len() > 0 && ind.last() == SPACE);
                    assert(w2.text.len() > 0 && w2.text.last() != LF);
                    assert(trim_start(seq![OPEN_BRACE, SPACE]) == seq![OPEN_BRACE, SPACE]) by {
                        reveal_with_fuel(trim_start, 1);
                    }
                    assert(trim_start(seq![OPEN_BRACE, OPEN_BRACE, SPACE]) == seq![OPEN_BRACE, OPEN_BRACE, SPACE]) by {
                        reveal_with_fuel(trim_start, 1);
                    }
                    assert(crate::serializer::write(w1, seq![OPEN_BRACE, SPACE]) == crate::serializer::write(
                        w2,
                        seq![OPEN_BRACE, SPACE],
                    ));
                    assert(crate::serializer::write(w1, seq![OPEN_BRACE, OPEN_BRACE, SPACE]) == crate::serializer::write(
                        w2,
                        seq![OPEN_BRACE, OPEN_BRACE, SPACE],
                    ));
                    assert(crate::serializer::ser_element(w1, e) == crate::serializer::ser_element(w2, e));
                    lemma_serialize_elements(w2, seq![e]);
                    reveal(elements_text);
                    assert(seq![e].skip(1) =~= Seq::<PatternElement>::empty());
                    assert(elements_text(Seq::<PatternElement>::empty()) == Seq::<u8>::empty());
                    assert(seq![e][0] == e);
                    assert(elements_text(seq![e]) =~= element_text(e));
                    assert(seq![e].drop_last() =~= Seq::<PatternElement>::empty());
                    assert(crate::serializer::ser_elements(w2, Seq::<PatternElement>::empty()) == w2);
                    assert(seq![e].last() == e);
                    assert(crate::serializer::ser_elements(w2, seq![e]) == crate::serializer::ser_element(w2, e));
                    lemma_element_printable(e);
                }
            },
        }
    }
}

/// A mixed value written after ` =`, away from the start of a line.
proof fn lemma_serialize_mixed_value(w: Writer, p: Pattern)
    requires
        mixed_value(p),
        !multiline_value(p),
        !select_value(p),
        w.text.len() > 0,
        w.text.last() != LF,
    ensures
        ser_pattern(w, p) == (Writer { text: w.text + value_text(p, w.level + 1), ..w }),
        ser_pattern(w, p).text.last() != LF,
{
    reveal(mixed_value);
    let es = p.elements;
    let i = choose|i: int| 0 <= i < es.len() && crate::serializer::is_multiline(#[trigger] es[i]);
    assert(crate::serializer::starts_on_newline(p));
    let w1 = indent(newline(w));
    lemma_serialize_mixed(w1, es);
    assert(w1.text + mixed_text(es, w.level + 1) =~= w.text + value_text(p, w.level + 1));
    assert(es.last() == es[es.len() - 1]);
    assert(mixed_element(es, es.len() - 1));
    assert((w1.text + mixed_text(es, w.level + 1)).last() != LF);
    assert(ser_pattern(w, p).text == w1.text + mixed_text(es, w.level + 1));
}

/// A select expression alone, as a value written after ` =`.
#[verifier::rlimit(100)]
#[verifier::spinoff_prover]
proof fn lemma_serialize_select_value(w: Writer, p: Pattern)
    requires
        select_value(p),
        !multiline_value(p),
        w.text.len() > 0,
        w.text.last() != LF,
    ensures
        ser_pattern(w, p) == (Writer { text: w.text + value_text(p, w.level + 1), ..w }),
        ser_pattern(w, p).text.last() != LF,
{
    reveal(select_value);
    let x = p.elements[0]->Placeable_0;
    let sel = x->Select_selector;
    let vs = x->Select_variants;
    assert(crate::serializer::is_multiline(p.elements[0]));
    assert(crate::serializer::starts_on_newline(p));
    let w1 = indent(newline(w));
    assert(w1.text.last() == LF);
    lemma_serialize_select(w1, sel, vs);
    assert(select_text(sel, vs, w.level + 1) =~= indentation(w.level + 1) + select_body(sel, vs, w.level + 1));
    assert(w1.text + indentation(w.level + 1) + select_body(sel, vs, w.level + 1) =~= w1.text + select_text(
        sel,
        vs,
        w.level + 1,
    ));
    assert(x == Expression::Select { selector: sel, variants: vs });
    assert(p.elements.drop_last() =~= Seq::<PatternElement>::empty());
    assert(crate::serializer::ser_elements(w1, p.elements.drop_last()) == w1);
    assert(p.elements.last() == p.elements[0]);
    assert(crate::serializer::ser_elements(w1, p.elements) == crate::serializer::ser_element(w1, p.elements[0]));
    let t = select_text(sel, vs, w.level + 1);
    assert(w1.text + t =~= w.text + value_text(p, w.level + 1));
    assert(t.last() == CLOSE_BRACE);
}

/// A value of several lines written after ` =` or `]`, away from the start of a line.
proof fn lemma_serialize_block_value(w: Writer, p: Pattern)
    requires
        multiline_value(p),
        w.text.len() > 0,
        w.text.last() != LF,
    ensures
        ser_pattern(w, p) == (Writer { text: w.text + value_text(p, w.level + 1), ..w }),
        ser_pattern(w, p).text.last() != LF,
{
    reveal(multiline_value);
    let es = p.elements;
    let l0 = es[0]->Text_0;
    assert(l0.last() == LF);
    assert(crate::serializer::is_multiline(es[0])) by {
        assert(l0[l0.len() - 1] == LF);
    }
    assert(crate::serializer::starts_on_newline(p));
    let w1 = indent(newline(w));
    assert forall|i: int| 0 <= i < es.len() implies (#[trigger] es[i]) is Text && es[i]->Text_0.len() > 0
        && crate::text::ws_prefix_len(es[i]->Text_0) == 0 by {
        if i < es.len() - 1 {
        } else {
            assert(es[i] == es.last());
            assert(block_line(es.last()->Text_0));
        }
    }
    lemma_serialize_block(w1, es);
    let b = block_text(es, w.level + 1);
    assert(w1.text + b =~= w.text + value_text(p, w.level + 1));
    let t = es.last()->Text_0;
    assert(b.last() == t.last());
    assert(block_line(t));
    assert(line_byte(t[t.len() - 1]));
}

/// A plain value written after ` =`, away from the start of a line.
proof fn lemma_serialize_value(w: Writer, p: Pattern)
    requires
        plain_value(p),
        w.text.len() > 0,
        w.text.last() != LF,
    ensures
        ser_pattern(w, p) == (Writer { text: w.text + value_text(p, w.level + 1), ..w }),
        ser_pattern(w, p).text.last() != LF,
{
    if multiline_value(p) {
        lemma_serialize_block_value(w, p);
    } else if select_value(p) {
        lemma_serialize_select_value(w, p);
    } else if mixed_value(p) {
        lemma_serialize_mixed_value(w, p);
    } else {
        lemma_serialize_inline_value(w, p);
        lemma_inline_only(p);
        assert(w.text + seq![SPACE] + elements_text(p.elements) =~= w.text + value_text(p, w.level + 1));
    }
}

/// A value on one line written after ` =` or `]`, away from the start of a line.
proof fn lemma_serialize_inline_value(w: Writer, p: Pattern)
    requires
        inline_value(p),
        w.text.len() > 0,
        w.text.last() != LF,
    ensures
        ser_pattern(w, p) == (Writer { text: w.text + seq![SPACE] + elements_text(p.elements), ..w }),
        (w.text + seq![SPACE] + elements_text(p.elements)).last() != LF,
{
    reveal(inline_value);
    let t = elements_text(p.elements);
    lemma_value_text_line(p);
    assert(!crate::serializer::starts_on_newline(p)) by {
        if crate::serializer::starts_on_newline(p) {
            let i = choose|i: int|
                0 <= i < p.elements.len() && crate::serializer::is_multiline(#[trigger] p.elements[i]);
            assert(plain_element(p.elements[i]));
            match p.elements[i] {
                PatternElement::Text(x) => {
                    let k = choose|k: int| 0 <= k < x.len() && x[k] == LF;
                    assert(0x20 <= x[k]);
                },
                PatternElement::Placeable(x) => {
                    if nested_plain(x) {
                        let b = x->Inline_0->Placeable_0;
                        assert(!crate::serializer::is_select(*b));
                    }
                },
            }
        }
    }
    let w1 = crate::serializer::write(w, seq![SPACE]);
    assert(w1.text =~= w.text + seq![SPACE]);
    lemma_serialize_elements(w1, p.elements);
    assert(w1.text + t =~= w.text + seq![SPACE] + t);
}

/// The attribute lines, written at indent level one after a value.
#[verifier::rlimit(100)]
#[verifier::spinoff_prover]
proof fn lemma_serialize_attribute_list(w: Writer, attrs: Seq<Attribute>)
    requires
        plain_attributes(attrs),
        w.level == 1,
        w.text.len() > 0,
        w.text.last() != LF,
    ensures
        ser_attribute_list(w, attrs) == (Writer { text: w.text + attributes_written(attrs), level: 1 }),
        (w.text + attributes_written(attrs)).last() != LF,
    decreases attrs.len(),
{
    if attrs.len() > 0 {
        let prev = attrs.drop_last();
        assert forall|i: int| 0 <= i < prev.len() implies plain_attribute(#[trigger] prev[i]) by {
            assert(prev[i] == attrs[i]);
        }
        lemma_serialize_attribute_list(w, prev);
        let a = attrs.last();
        assert(plain_attribute(attrs[attrs.len() - 1]));
        let w1 = Writer { text: w.text + attributes_written(prev), level: 1 };
        let w2 = newline(w1);
        assert(indentation(1) =~= seq![SPACE, SPACE, SPACE, SPACE]);
        assert(trim_start(seq![DOT]) == seq![DOT]) by {
            reveal_with_fuel(trim_start, 1);
        }
        let w3 = crate::serializer::write(w2, seq![DOT]);
        assert(w3.text =~= w1.text + seq![LF, SPACE, SPACE, SPACE, SPACE, DOT]);
        let w4 = crate::serializer::write(w3, a.id);
        assert(w4.text =~= w3.text + a.id);
        lemma_identifier_start(a.id);
        let w5 = crate::serializer::write(w4, seq![SPACE, EQUALS]);
        assert(w5.text =~= w4.text + seq![SPACE, EQUALS]);
        lemma_serialize_value(w5, a.value);
        assert(ser_attribute(w2, a) == ser_pattern(w5, a.value));
        assert(w.text + attributes_written(attrs) =~= w5.text + value_text(a.value, 2));
    }
}

proof fn lemma_attributes_written(attrs: Seq<Attribute>)
    ensures
        attributes_written(attrs) + seq![LF] == seq![LF] + attribute_lines(attrs),
    decreases attrs.len(),
{
    if attrs.len() > 0 {
        lemma_attributes_written(attrs.drop_last());
        let a = attrs.last();
        assert(attributes_written(attrs) + seq![LF] =~= (attributes_written(attrs.drop_last()) + seq![LF])
            + (seq![SPACE, SPACE, SPACE, SPACE, DOT] + a.id + seq![SPACE, EQUALS] + value_text(a.value, 2) + seq![LF]));
        assert(seq![LF] + attribute_lines(attrs) =~= (seq![LF] + attribute_lines(attrs.drop_last())) + attribute_line(a));
    } else {
        assert(attributes_written(attrs) + seq![LF] =~= seq![LF] + attribute_lines(attrs));
    }
}

/// A value line with its attributes, as written by the serializer from `w`, away from
/// the start of a line and after the identifier.
proof fn lemma_serialize_body(w: Writer, p: Pattern, attrs: Seq<Attribute>)
    requires
        plain_value(p),
        plain_attributes(attrs),
        w.level == 0,
        w.text.len() > 0,
        w.text.last() != LF,
    ensures
        newline(ser_attributes(ser_pattern(crate::serializer::write(w, seq![SPACE, EQUALS]), p), attrs)) == (Writer {
            text: w.text + seq![SPACE, EQUALS] + value_text(p, 1) + seq![LF] + attribute_lines(attrs),
            level: 0,
        }),
{
    let w1 = crate::serializer::write(w, seq![SPACE, EQUALS]);
    assert(w1.text =~= w.text + seq![SPACE, EQUALS]);
    lemma_serialize_value(w1, p);
    let w2 = ser_pattern(w1, p);
    lemma_attributes_written(attrs);
    if attrs.len() > 0 {
        lemma_serialize_attribute_list(indent(w2), attrs);
    } else {
        assert(attributes_written(attrs) =~= Seq::<u8>::empty());
    }
    let w3 = ser_attributes(w2, attrs);
    assert(w3 == Writer { text: w2.text + attributes_written(attrs), level: 0 });
    let w4 = newline(w3);
    assert(w4.text =~= w2.text + attributes_written(attrs) + seq![LF]);
    assert(w2.text + attributes_written(attrs) + seq![LF] =~= w.text + seq![SPACE, EQUALS] + value_text(p, 1) + (attributes_written(attrs) + seq![LF]));
    assert(w.text + seq![SPACE, EQUALS] + value_text(p, 1) + (seq![LF] + attribute_lines(attrs)) =~= w.text + seq![SPACE, EQUALS] + value_text(p, 1) + seq![LF] + attribute_lines(attrs));
}

#[verifier::rlimit(100)]
#[verifier::spinoff_prover]
proof fn lemma_serialize_comment_lines(w: Writer, level: nat, c: Seq<Seq<u8>>)
    requires
        1 <= level <= 3,
        forall|i: int| 0 <= i < c.len() ==> plain_comment_line(#[trigger] c[i]),
        w.level == 0,
        w.text.len() == 0 || w.text.last() == LF,
    ensures
        crate::serializer::comment_lines(w, crate::serializer::comment_prefix(level), c) == (Writer {
            text: w.text + comment_text(level, c),
            level: 0,
        }),
        (w.text + comment_text(level, c)).len() == 0 || (w.text + comment_text(level, c)).last() == LF,
    decreases c.len(),
{
    if c.len() > 0 {
        let prev = c.drop_last();
        assert forall|i: int| 0 <= i < prev.len() implies plain_comment_line(#[trigger] prev[i]) by {
            assert(prev[i] == c[i]);
        }
        lemma_serialize_comment_lines(w, level, prev);
        let l = c.last();
        assert(plain_comment_line(c[c.len() - 1]));
        let w1 = Writer { text: w.text + comment_text(level, prev), level: 0 };
        let prefix = crate::serializer::comment_prefix(level);
        assert(indentation(0) =~= Seq::<u8>::empty());
        assert(trim_start(prefix) == prefix) by {
            assert(prefix[0] == HASH);
            reveal_with_fuel(trim_start, 1);
        }
        let w2 = crate::serializer::write(w1, prefix);
        assert(w2.text =~= w1.text + prefix);
        assert(prefix.last() == HASH);
        if l.len() == 0 {
            assert(trim_end(l) == l) by {
                reveal_with_fuel(trim_end, 1);
            }
            assert(w.text + comment_text(level, c) =~= w2.text.push(LF));
        } else {
            let w3 = crate::serializer::write(w2, seq![SPACE]);
            assert(w3.text =~= w2.text + seq![SPACE]);
            let w4 = crate::serializer::write(w3, l);
            assert(w4.text =~= w3.text + l);
            assert(w.text + comment_text(level, c) =~= w4.text.push(LF));
        }
    }
}

/// The comment of a plain entry, written after whole lines; `h` where entries came
/// before it.
proof fn lemma_serialize_lead(w: Writer, h: bool, e: Entry)
    requires
        plain_entry(e),
        w.level == 0,
        w.text.len() == 0 || w.text.last() == LF,
    ensures
        entry_comment(e) matches Some(c) ==> crate::serializer::ser_comment(
            w,
            h,
            crate::serializer::comment_prefix(level_of(e)),
            c,
        ) == (Writer { text: w.text + lead_text(e, !h), level: 0 }),
        (e is Message || e is Term) ==> crate::serializer::ser_entry_comment(w, h, entry_comment(e))
            == (Writer { text: w.text + lead_text(e, !h), level: 0 }),
        (w.text + lead_text(e, !h)).len() == 0 || (w.text + lead_text(e, !h)).last() == LF,
{
    match entry_comment(e) {
        Some(c) => {
            let wn = if h {
                newline(w)
            } else {
                w
            };
            assert(plain_comment(entry_comment(e)));
            lemma_serialize_comment_lines(wn, level_of(e), c);
            assert(wn.text + comment_text(level_of(e), c) =~= w.text + lead_text(e, !h));
        },
        None => {
            assert(w.text + lead_text(e, !h) =~= w.text);
        },
    }
}

/// A message's own lines, written after its comment.
#[verifier::rlimit(100)]
#[verifier::spinoff_prover]
proof fn lemma_serialize_message(w0: Writer, m: Message)
    requires
        plain_entry(Entry::Message(m)),
        w0.level == 0,
        w0.text.len() == 0 || w0.text.last() == LF,
    ensures
        ({
            let w1 = crate::serializer::write(crate::serializer::write(w0, m.id), seq![SPACE, EQUALS]);
            let w2 = match m.value {
                Some(p) => ser_pattern(w1, p),
                None => w1,
            };
            newline(ser_attributes(w2, m.attributes))
        }) == (Writer { text: w0.text + body_text(Entry::Message(m)), level: 0 }),
{
    assert(indentation(0) =~= Seq::<u8>::empty());
    lemma_identifier_start(m.id);
    let w2 = crate::serializer::write(w0, m.id);
    assert(w2.text =~= w0.text + m.id);
    match m.value {
        Some(p) => {
            lemma_serialize_body(w2, p, m.attributes);
            assert(w0.text + body_text(Entry::Message(m)) =~= w0.text + m.id + seq![SPACE, EQUALS] + value_text(p, 1) + seq![LF] + attribute_lines(m.attributes));
        },
        None => {
            let w1 = crate::serializer::write(w2, seq![SPACE, EQUALS]);
            assert(w1.text =~= w2.text + seq![SPACE, EQUALS]);
            lemma_serialize_attribute_list(indent(w1), m.attributes);
            lemma_attributes_written(m.attributes);
            let w3 = ser_attributes(w1, m.attributes);
            assert(w3 == Writer { text: w1.text + attributes_written(m.attributes), level: 0 });
            assert(newline(w3).text =~= w1.text + (attributes_written(m.attributes) + seq![LF]));
            assert(w0.text + body_text(Entry::Message(m)) =~= w1.text + (seq![LF] + attribute_lines(m.attributes)));
        },
    }
}

/// A term's own lines, written after its comment.
#[verifier::rlimit(100)]
#[verifier::spinoff_prover]
proof fn lemma_serialize_term(w0: Writer, t: Term)
    requires
        plain_entry(Entry::Term(t)),
        w0.level == 0,
        w0.text.len() == 0 || w0.text.last() == LF,
    ensures
        newline(
            ser_attributes(
                ser_pattern(
                    crate::serializer::write(
                        crate::serializer::write(crate::serializer::write(w0, seq![MINUS]), t.id),
                        seq![SPACE, EQUALS],
                    ),
                    t.value,
                ),
                t.attributes,
            ),
        ) == (Writer { text: w0.text + body_text(Entry::Term(t)), level: 0 }),
{
    assert(indentation(0) =~= Seq::<u8>::empty());
    assert(trim_start(seq![MINUS]) == seq![MINUS]) by {
        reveal_with_fuel(trim_start, 1);
    }
    let w2 = crate::serializer::write(w0, seq![MINUS]);
    assert(w2.text =~= w0.text + seq![MINUS]);
    lemma_identifier_start(t.id);
    let w3 = crate::serializer::write(w2, t.id);
    assert(w3.text =~= w0.text + seq![MINUS] + t.id);
    lemma_serialize_body(w3, t.value, t.attributes);
    assert(w0.text + body_text(Entry::Term(t)) =~= w0.text + seq![MINUS] + t.id + seq![SPACE, EQUALS] + value_text(t.value, 1) + seq![LF] + attribute_lines(t.attributes));
}

/// A plain entry, written after whole lines; `h` where entries came before it.
proof fn lemma_serialize_entry(w: Writer, h: bool, e: Entry)
    requires
        plain_entry(e),
        w.level == 0,
        w.text.len() == 0 || w.text.last() == LF,
    ensures
        crate::serializer::ser_entry(w, h, e) == (Writer { text: w.text + entry_text(e, !h), level: 0 }),
{
    lemma_serialize_lead(w, h, e);
    match e {
        Entry::Message(m) => {
            let w0 = crate::serializer::ser_entry_comment(w, h, entry_comment(e));
            assert(w.text + entry_text(e, !h) =~= w0.text + body_text(e));
            lemma_serialize_message(w0, m);
        },
        Entry::Term(t) => {
            let w0 = crate::serializer::ser_entry_comment(w, h, entry_comment(e));
            assert(w.text + entry_text(e, !h) =~= w0.text + body_text(e));
            lemma_serialize_term(w0, t);
        },
        Entry::Junk(j) => {
            assert(is_alpha(j[0]));
            assert(trim_start(j) == j) by {
                reveal_with_fuel(trim_start, 1);
            }
            assert(indentation(0) =~= Seq::<u8>::empty());
            assert(w.text + entry_text(e, !h) =~= w.text + j);
        },
        _ => {
            assert(w.text + entry_text(e, !h) =~= (w.text + lead_text(e, !h)).push(LF));
        },
    }
}

proof fn lemma_entry_text_ends(e: Entry, first: bool)
    requires
        plain_entry(e),
    ensures
        body_text(e).len() > 0,
        body_text(e).last() == LF,
        entry_text(e, first).len() > 0,
        entry_text(e, first).last() == LF,
{
    if e is Message || e is Term {
        let attrs = match e {
            Entry::Message(m) => m.attributes,
            _ => e->Term_0.attributes,
        };
        if attrs.len() > 0 {
            assert(attribute_lines(attrs).last() == LF);
        }
    }
    assert(entry_text(e, first).last() == body_text(e).last());
}

/// Plain entries are written as their entry texts, one after the other.
proof fn lemma_serialize_plain(es: Seq<Entry>)
    requires
        forall|i: int| 0 <= i < es.len() ==> plain_entry(#[trigger] es[i]),
    ensures
        ser_entries(Writer { text: Seq::empty(), level: 0 }, false, es, true) == (
            Writer { text: entries_text(es), level: 0 },
            es.len() > 0,
        ),
        entries_text(es).len() == 0 || entries_text(es).last() == LF,
    decreases es.len(),
{
    if es.len() > 0 {
        let prev = es.drop_last();
        assert forall|i: int| 0 <= i < prev.len() implies plain_entry(#[trigger] prev[i]) by {
            assert(prev[i] == es[i]);
        }
        lemma_serialize_plain(prev);
        let e = es.last();
        assert(plain_entry(es[es.len() - 1]));
        lemma_serialize_entry(Writer { text: entries_text(prev), level: 0 }, prev.len() > 0, e);
        lemma_entry_text_ends(e, prev.len() == 0);
    }
}


/// The start of the next entry: the end of the source, or a letter or `-`.
pub open spec fn entry_start_at(src: Seq<u8>, q: int) -> bool {
    q == src.len() || (0 <= q < src.len() && (is_alpha(src[q]) || src[q] == MINUS))
}

/// An attribute line starts at `q`: four spaces and a `.`.
pub open spec fn attribute_line_at(src: Seq<u8>, q: int) -> bool {
    &&& 0 <= q
    &&& q + 4 < src.len()
    &&& src[q] == SPACE && src[q + 1] == SPACE && src[q + 2] == SPACE && src[q + 3] == SPACE
    &&& src[q + 4] == DOT
}

/// A blank line, then a comment, starts at `q`.
pub open spec fn blank_then_comment(src: Seq<u8>, q: int) -> bool {
    0 <= q && q + 1 < src.len() && src[q] == LF && src[q + 1] == HASH
}

/// What may follow an entry's lines: the next entry, or a blank line and the comment of
/// the next entry.
pub open spec fn entry_follows(src: Seq<u8>, q: int) -> bool {
    entry_start_at(src, q) || blank_then_comment(src, q)
}

/// Where a plain pattern stops: before what follows its entry or before an attribute
/// line.
pub open spec fn pattern_stop(src: Seq<u8>, q: int) -> bool {
    entry_follows(src, q) || attribute_line_at(src, q)
}

/// Where reading stops at `q`: past a blank line that comes before a comment.
pub open spec fn stop_end(src: Seq<u8>, q: int) -> int {
    if blank_then_comment(src, q) {
        q + 1
    } else {
        q
    }
}

proof fn lemma_span_exact(src: Seq<u8>, a: int, b: int, c: ByteClass)
    requires
        0 <= a <= b <= src.len(),
        forall|k: int| a <= k < b ==> in_class(c, #[trigger] src[k]),
        b == src.len() || !in_class(c, src[b]),
    ensures
        span_while(src, a, c) == b,
    decreases b - a,
{
    if a < b {
        lemma_span_exact(src, a + 1, b, c);
    }
}

/// A part of the source that holds `x + y` holds `x`, then `y`.
proof fn lemma_split(src: Seq<u8>, p: int, x: Seq<u8>, y: Seq<u8>)
    requires
        0 <= p,
        p + x.len() + y.len() <= src.len(),
        src.subrange(p, p + x.len() + y.len()) == x + y,
    ensures
        src.subrange(p, p + x.len()) == x,
        src.subrange(p + x.len(), p + x.len() + y.len()) == y,
{
    assert(src.subrange(p, p + x.len()) =~= (x + y).subrange(0, x.len() as int));
    assert(src.subrange(p + x.len(), p + x.len() + y.len()) =~= (x + y).subrange(x.len() as int, (x.len() + y.len()) as int));
}

/// The bytes of a part of the source.
proof fn lemma_at(src: Seq<u8>, p: int, x: Seq<u8>)
    requires
        0 <= p,
        p + x.len() <= src.len(),
        src.subrange(p, p + x.len()) == x,
    ensures
        forall|k: int| 0 <= k < x.len() ==> #[trigger] src[p + k] == x[k],
{
    assert forall|k: int| 0 <= k < x.len() implies #[trigger] src[p + k] == x[k] by {
        assert(src.subrange(p, p + x.len())[k] == src[p + k]);
    }
}

/// A text that does not end with white space, followed by a line feed, loses the line
/// feed, and only it, to trimming.
proof fn lemma_trim_plain(t: Seq<u8>)
    requires
        t.len() > 0,
        crate::text::ws_suffix_len(t) == 0,
    ensures
        trim_end(t.push(LF)) == t,
{
    let tl = t.push(LF);
    assert(crate::text::ws_suffix_len(tl) == 1);
    assert(tl.subrange(0, tl.len() - 1) =~= t);
    assert(crate::text::ws_suffix_len(t) == 0);
    reveal_with_fuel(trim_end, 2);
}

/// A line that starts a variant of a select expression or closes it: spaces, then `[`,
/// `*` or `}`.
pub open spec fn variant_stop(src: Seq<u8>, q: int) -> bool {
    exists|k: int|
        q < k < src.len() && (forall|j: int| q <= j < k ==> #[trigger] src[j] == SPACE) && (src[k] == OPEN_BRACKET
            || src[k] == ASTERISK || src[k] == CLOSE_BRACE)
}

/// Where a value on one line stops: where an entry's pattern stops, or before a variant
/// line.
pub open spec fn value_stop(src: Seq<u8>, q: int) -> bool {
    pattern_stop(src, q) || variant_stop(src, q)
}

/// At the start of the line after a value, before what follows its entry, an attribute
/// line or a variant line: the pattern ends, at most with a blank line that does not
/// count.
proof fn lemma_pattern_end(src: Seq<u8>, q: int, st: PatternState)
    requires
        0 < q <= src.len(),
        st.role is LineStart,
        value_stop(src, q),
    ensures
        pattern_from(src, q, st) is Ok,
        pattern_from(src, q, st)->Ok_0.1 == stop_end(src, q),
        pattern_from(src, q, st)->Ok_0.0.last_non_blank == st.last_non_blank,
        pattern_from(src, q, st)->Ok_0.0.common_indent == st.common_indent,
        pattern_from(src, q, st)->Ok_0.0.elements.len() >= st.elements.len(),
        forall|j: int|
            0 <= j < st.elements.len() ==> pattern_from(src, q, st)->Ok_0.0.elements[j] == st.elements[j],
{
    if !pattern_stop(src, q) {
        let k = choose|k: int|
            q < k < src.len() && (forall|j: int| q <= j < k ==> #[trigger] src[j] == SPACE) && (src[k] == OPEN_BRACKET
                || src[k] == ASTERISK || src[k] == CLOSE_BRACE);
        lemma_span_exact(src, q, k, ByteClass::Space);
        assert(src[q] == SPACE);
        assert(pattern_from(src, q, st) == Ok::<_, (Error, int)>((st, q)));
    } else if attribute_line_at(src, q) {
        lemma_span_exact(src, q, q + 4, ByteClass::Space);
    } else {
        lemma_span_exact(src, q, q, ByteClass::Space);
    }
    if !pattern_stop(src, q) {
    } else if blank_then_comment(src, q) {
        let st2 = PatternState {
            elements: st.elements.push(Placeholder::Text(q, q + 1, 0, TextElementPosition::LineStart)),
            ..st
        };
        lemma_text_delimiter(src, q, q);
        assert(src.subrange(q, q) =~= Seq::<u8>::empty());
        assert(text_type(src.subrange(q, q)) == TextElementType::Blank);
        lemma_span_exact(src, q + 1, q + 1, ByteClass::Space);
        assert(pattern_from(src, q + 1, st2) == Ok::<_, (Error, int)>((st2, q + 1)));
        assert(pattern_from(src, q, st) == Ok::<_, (Error, int)>((st2, q + 1)));
    } else {
        assert(pattern_from(src, q, st) == Ok::<_, (Error, int)>((st, q)));
    }
}

/// The body of a plain string literal at `p`, then its closing quote: read up to the
/// quote.
proof fn lemma_string_body(src: Seq<u8>, p: int, v: Seq<u8>, i: int)
    requires
        0 <= p,
        0 <= i <= v.len(),
        p + v.len() < src.len(),
        src.subrange(p, p + v.len()) == v,
        src[p + v.len()] == QUOTE,
        string_ok(v, i),
    ensures
        crate::parser::grammar::string_body(src, p + i) == Ok::<int, (Error, int)>(p + v.len()),
    decreases v.len() - i,
{
    lemma_at(src, p, v);
    if i < v.len() {
        assert(src[p + i] == v[i]);
        if v[i] == BACKSLASH {
            assert(src[p + (i + 1)] == v[i + 1]);
            if v[i + 1] == BACKSLASH || v[i + 1] == OPEN_BRACE || v[i + 1] == QUOTE {
                lemma_string_body(src, p, v, i + 2);
            } else {
                let n: int = if v[i + 1] == crate::ascii::LOWER_U {
                    4
                } else {
                    6
                };
                let a = p + i + 2;
                assert forall|k: int| a <= k < a + n implies in_class(ByteClass::HexDigit, #[trigger] src[k]) by {
                    assert(src[p + (k - p)] == v[k - p]);
                }
                crate::ascii::lemma_span_while_from(src, a, a + n, ByteClass::HexDigit);
                lemma_span_while(src, a + n, ByteClass::HexDigit);
                assert(crate::parser::grammar::unicode_escape(src, a, n) == Ok::<int, (Error, int)>(a + n));
                lemma_string_body(src, p, v, i + 2 + n);
            }
        } else {
            lemma_string_body(src, p, v, i + 1);
        }
    }
}


/// An operand at `q`, then `,` or `)`: reads as the operand.
#[verifier::rlimit(100)]
#[verifier::spinoff_prover]
proof fn lemma_operand_at(src: Seq<u8>, q: int, i: InlineExpression)
    requires
        plain_operand(i),
        0 <= q,
        q + operand_text(i).len() < src.len(),
        src.subrange(q, q + operand_text(i).len()) == operand_text(i),
        src[q + operand_text(i).len()] == COMMA || src[q + operand_text(i).len()] == CLOSE_PAREN,
    ensures
        crate::parser::grammar::inline_expression(src, q) == Ok::<_, (Error, int)>((i, q + operand_text(i).len())),
{
    let t = operand_text(i);
    let m = t.len() as int;
    lemma_operand(i);
    lemma_at(src, q, t);
    assert(src[q] == t[0]) by {
        assert(src[q + 0] == t[0]);
    }
    match i {
        InlineExpression::VariableReference(id) => {
            let n = id.len() as int;
            assert forall|k: int| q + 2 <= k < q + 1 + n implies in_class(ByteClass::IdentChar, #[trigger] src[k]) by {
                assert(src[q + (k - q)] == t[k - q]);
                assert(t[k - q] == id[k - q - 1]);
            }
            lemma_span_exact(src, q + 2, q + 1 + n, ByteClass::IdentChar);
            assert forall|k: int| 0 <= k < n implies #[trigger] src.subrange(q + 1, q + 1 + n)[k] == id[k] by {
                assert(src[q + (k + 1)] == t[k + 1]);
            }
            assert(src.subrange(q + 1, q + 1 + n) =~= id);
            assert(src[q + 1] == id[0]) by {
                assert(src[q + 1] == t[1]);
            }
        },
        InlineExpression::StringLiteral(v) => {
            let n = v.len() as int;
            assert(src[q + 1 + n] == QUOTE) by {
                assert(src[q + (1 + n)] == t[1 + n]);
            }
            assert forall|k: int| 0 <= k < n implies #[trigger] src.subrange(q + 1, q + 1 + n)[k] == v[k] by {
                assert(src[q + (k + 1)] == t[k + 1]);
            }
            assert(src.subrange(q + 1, q + 1 + n) =~= v);
            lemma_string_body(src, q + 1, v, 0);
        },
        InlineExpression::NumberLiteral(v) => {
            assert forall|k: int| q <= k < q + m implies in_class(ByteClass::Digit, #[trigger] src[k]) by {
                assert(src[q + (k - q)] == t[k - q]);
            }
            lemma_span_exact(src, q, q + m, ByteClass::Digit);
            assert forall|k: int| 0 <= k < m implies #[trigger] src.subrange(q, q + m)[k] == v[k] by {
                assert(src[q + k] == t[k]);
            }
            assert(src.subrange(q, q + m) =~= v);
            assert(is_digit(v[0]));
        },
        InlineExpression::MessageReference { id, attribute } => {
            let n = id.len() as int;
            if attribute is Some {
                assert(src[q + n] == t[n]);
            }
            assert forall|k: int| q + 1 <= k < q + n implies in_class(ByteClass::IdentChar, #[trigger] src[k]) by {
                assert(src[q + (k - q)] == t[k - q]);
            }
            lemma_span_exact(src, q + 1, q + n, ByteClass::IdentChar);
            assert forall|k: int| 0 <= k < n implies #[trigger] src.subrange(q, q + n)[k] == id[k] by {
                assert(src[q + k] == t[k]);
            }
            assert(src.subrange(q, q + n) =~= id);
            assert(crate::parser::grammar::identifier(src, q) == Ok::<_, (Error, int)>((id, q + n)));
            assert(blank_end(src, q + n) == q + n);
            assert(crate::parser::grammar::call_arguments(src, q + n) == Ok::<_, (Error, int)>((None::<CallArguments>, q + n)));
            match attribute {
                Some(a) => {
                    let an = a.len() as int;
                    assert(src[q + n + 1] == a[0]) by {
                        assert(src[q + (n + 1)] == t[n + 1]);
                    }
                    assert forall|k: int| q + n + 2 <= k < q + m implies in_class(ByteClass::IdentChar, #[trigger] src[k]) by {
                        assert(src[q + (k - q)] == t[k - q]);
                        assert(t[k - q] == a[k - q - n - 1]);
                    }
                    lemma_span_exact(src, q + n + 2, q + m, ByteClass::IdentChar);
                    assert forall|k: int| 0 <= k < an implies #[trigger] src.subrange(q + n + 1, q + m)[k] == a[k] by {
                        assert(src[q + (n + 1 + k)] == t[n + 1 + k]);
                    }
                    assert(src.subrange(q + n + 1, q + m) =~= a);
                },
                None => {},
            }
        },
        _ => {},
    }
}

/// The name of a named argument, then `:`, reads as a message reference.
proof fn lemma_name_at(src: Seq<u8>, q: int, n: Seq<u8>)
    requires
        valid_identifier(n),
        0 <= q,
        q + n.len() < src.len(),
        src.subrange(q, q + n.len()) == n,
        src[q + n.len()] == COLON,
    ensures
        crate::parser::grammar::inline_expression(src, q) == Ok::<_, (Error, int)>(
            (InlineExpression::MessageReference { id: n, attribute: None }, q + n.len()),
        ),
{
    let l = n.len() as int;
    lemma_at(src, q, n);
    assert(src[q] == n[0]) by {
        assert(src[q + 0] == n[0]);
    }
    assert forall|k: int| q + 1 <= k < q + l implies in_class(ByteClass::IdentChar, #[trigger] src[k]) by {
        assert(src[q + (k - q)] == n[k - q]);
    }
    lemma_span_exact(src, q + 1, q + l, ByteClass::IdentChar);
    assert(src.subrange(q, q + l) =~= n);
    assert(crate::parser::grammar::identifier(src, q) == Ok::<_, (Error, int)>((n, q + l)));
    assert(blank_end(src, q + l) == q + l);
    assert(crate::parser::grammar::call_arguments(src, q + l) == Ok::<_, (Error, int)>((None::<CallArguments>, q + l)));
}

/// The arguments before the `k`-th are a prefix of all of them.
proof fn lemma_items_prefix(xs: Seq<(Option<Seq<u8>>, InlineExpression)>, k: int)
    requires
        0 <= k <= xs.len(),
    ensures
        items_text(xs.take(k)).len() <= items_text(xs).len(),
        items_text(xs).subrange(0, items_text(xs.take(k)).len() as int) == items_text(xs.take(k)),
    decreases xs.len(),
{
    if k == xs.len() {
        assert(xs.take(k) =~= xs);
        assert(items_text(xs).subrange(0, items_text(xs).len() as int) =~= items_text(xs));
    } else {
        let prev = xs.drop_last();
        lemma_items_prefix(prev, k);
        assert(prev.take(k) =~= xs.take(k));
        let b = items_text(xs.take(k));
        assert(items_text(xs).subrange(0, b.len() as int) =~= items_text(prev).subrange(0, b.len() as int));
    }
}

/// Where argument `k` lies, after `, ` unless it comes first.
proof fn lemma_item_at(src: Seq<u8>, s: int, xs: Seq<(Option<Seq<u8>>, InlineExpression)>, k: int)
    requires
        0 <= k < xs.len(),
        0 <= s,
        s + items_text(xs).len() <= src.len(),
        src.subrange(s, s + items_text(xs).len()) == items_text(xs),
    ensures
        items_text(xs.take(k + 1)) == items_text(xs.take(k)) + (if k > 0 {
            seq![COMMA, SPACE]
        } else {
            Seq::empty()
        }) + item_text(xs[k]),
        items_text(xs.take(k + 1)).len() <= items_text(xs).len(),
        src.subrange(s + items_text(xs.take(k)).len(), s + items_text(xs.take(k + 1)).len()) == (if k > 0 {
            seq![COMMA, SPACE]
        } else {
            Seq::empty()
        }) + item_text(xs[k]),
{
    assert(xs.take(k + 1).drop_last() =~= xs.take(k));
    assert(xs.take(k + 1).last() == xs[k]);
    lemma_items_prefix(xs, k + 1);
    let b0 = items_text(xs.take(k));
    let b1 = items_text(xs.take(k + 1));
    let all = items_text(xs);
    assert(b1 == b0 + ((if k > 0 {
        seq![COMMA, SPACE]
    } else {
        Seq::empty()
    }) + item_text(xs[k])));
    assert(src.subrange(s + b0.len(), s + b1.len()) =~= all.subrange(0, b1.len() as int).subrange(
        b0.len() as int,
        b1.len() as int,
    ));
}

/// The arguments of a call from the `k`-th on, then `)`: read as the arguments.
#[verifier::rlimit(100)]
#[verifier::spinoff_prover]
proof fn lemma_read_args(src: Seq<u8>, s: int, a: CallArguments, k: int)
    requires
        plain_args(a),
        0 <= k <= arg_items(a).len(),
        0 <= s,
        s + items_text(arg_items(a)).len() < src.len(),
        src.subrange(s, s + items_text(arg_items(a)).len()) == items_text(arg_items(a)),
        src[s + items_text(arg_items(a)).len()] == CLOSE_PAREN,
    ensures
        crate::parser::grammar::arguments_from(
            src,
            if k < arg_items(a).len() {
                s + items_text(arg_items(a).take(k)).len() + if k > 0 {
                    2int
                } else {
                    0
                }
            } else {
                s + items_text(arg_items(a)).len()
            },
            a.positional.take(if k <= a.positional.len() { k } else { a.positional.len() as int }),
            a.named.take(if k <= a.positional.len() { 0 } else { k - a.positional.len() }),
            Seq::new(
                (if k <= a.positional.len() { 0 } else { k - a.positional.len() }) as nat,
                |i: int| a.named[i].name,
            ),
        ) == Ok::<_, (Error, int)>((Some(a), s + items_text(arg_items(a)).len() + 1)),
    decreases arg_items(a).len() - k,
{
    let xs = arg_items(a);
    let ps = a.positional;
    let ns = a.named;
    let p = ps.len() as int;
    let tl = items_text(xs).len() as int;
    lemma_arg_items_plain(a);
    if k == xs.len() {
        assert(ps.take(p) =~= ps);
        assert(ns.take(k - p) =~= ns);
        assert(a == CallArguments { positional: ps, named: ns });
    } else {
        let npos: int = if k <= p { k } else { p };
        let nnam: int = if k <= p { 0 } else { k - p };
        let names = Seq::new(nnam as nat, |i: int| ns[i].name);
        let x = xs[k];
        assert((x.0 is Some ==> valid_identifier(x.0->Some_0)) && plain_operand(x.1));
        lemma_item_at(src, s, xs, k);
        let b0 = items_text(xs.take(k)).len() as int;
        let sep: int = if k > 0 { 2 } else { 0 };
        let q = s + b0 + sep;
        let it = item_text(x);
        let seg = (if k > 0 {
            seq![COMMA, SPACE]
        } else {
            Seq::empty()
        }) + it;
        lemma_at(src, s + b0, seg);
        assert(src.subrange(q, q + it.len()) =~= it) by {
            assert forall|j: int| 0 <= j < it.len() implies #[trigger] src.subrange(q, q + it.len())[j] == it[j] by {
                assert(src[s + b0 + (sep + j)] == seg[sep + j]);
            }
        }
        let next = q + it.len();
        lemma_item_printable(x);
        assert(src[q] == it[0]) by {
            assert(src[s + b0 + sep] == seg[sep]);
        }
        let nq = if k + 1 < xs.len() {
            next + 2
        } else {
            next
        };
        if k + 1 < xs.len() {
            lemma_item_at(src, s, xs, k + 1);
            let seg2 = seq![COMMA, SPACE] + item_text(xs[k + 1]);
            assert((xs[k + 1].0 is Some ==> valid_identifier(xs[k + 1].0->Some_0)) && plain_operand(xs[k + 1].1));
            lemma_item_printable(xs[k + 1]);
            lemma_at(src, next, seg2);
            assert(src[next + 0] == COMMA);
            assert(src[next + 1] == SPACE);
            assert(src[next + 2] == item_text(xs[k + 1])[0]);
            assert(blank_end(src, next + 2) == next + 2);
            assert(blank_end(src, next + 1) == next + 2);
        } else {
            assert(xs.take(k + 1) =~= xs);
            assert(next == s + tl);
        }
        assert(blank_end(src, next) == next);
        if k < p {
            assert(x == (None::<Seq<u8>>, ps[k]));
            assert(plain_operand(ps[k]));
            lemma_operand_at(src, q, ps[k]);
            lemma_operand(ps[k]);
            assert(ps.take(k).push(ps[k]) =~= ps.take(k + 1));
        } else {
            let j = k - p;
            let nm = ns[j].name;
            let v = ns[j].value;
            assert(x == (Some(nm), v));
            let nl = nm.len() as int;
            let o = operand_text(v);
            assert(it == nm + seq![COLON, SPACE] + o);
            assert(src.subrange(q, q + nl) =~= nm) by {
                assert forall|i: int| 0 <= i < nl implies #[trigger] src.subrange(q, q + nl)[i] == nm[i] by {
                    assert(src[q + i] == it[i]);
                }
            }
            assert(src[q + nl] == COLON) by {
                assert(src[q + nl] == it[nl]);
            }
            assert(src[q + nl + 1] == SPACE) by {
                assert(src[q + (nl + 1)] == it[nl + 1]);
            }
            lemma_operand(v);
            assert(src.subrange(q + nl + 2, next) =~= o) by {
                assert forall|i: int| 0 <= i < o.len() implies #[trigger] src.subrange(q + nl + 2, next)[i] == o[i] by {
                    assert(src[q + (nl + 2 + i)] == it[nl + 2 + i]);
                }
            }
            assert(src[q + nl + 2] == o[0]) by {
                assert(src[q + (nl + 2)] == it[nl + 2]);
            }
            lemma_name_at(src, q, nm);
            assert(blank_end(src, q + nl) == q + nl);
            assert(blank_end(src, q + nl + 2) == q + nl + 2);
            assert(blank_end(src, q + nl + 1) == q + nl + 2);
            lemma_operand_at(src, q + nl + 2, v);
            assert(!names.contains(nm)) by {
                if names.contains(nm) {
                    let i = choose|i: int| 0 <= i < names.len() && names[i] == nm;
                    assert(ns[i].name == ns[j].name);
                }
            }
            assert(ns.take(j).push(crate::model::NamedArgument { name: nm, value: v }) =~= ns.take(j + 1));
            assert(names.push(nm) =~= Seq::new((j + 1) as nat, |i: int| ns[i].name));
        }
        lemma_read_args(src, s, a, k + 1);
    }
}

/// `(`, plain arguments and `)` read as the arguments of a call.
#[verifier::rlimit(100)]
#[verifier::spinoff_prover]
proof fn lemma_call_arguments_at(src: Seq<u8>, p: int, args: CallArguments)
    requires
        plain_args(args),
        0 <= p,
        p + 1 + items_text(arg_items(args)).len() < src.len(),
        src[p] == OPEN_PAREN,
        src.subrange(p + 1, p + 1 + items_text(arg_items(args)).len()) == items_text(arg_items(args)),
        src[p + 1 + items_text(arg_items(args)).len()] == CLOSE_PAREN,
    ensures
        crate::parser::grammar::call_arguments(src, p) == Ok::<_, (Error, int)>(
            (Some(args), p + 2 + items_text(arg_items(args)).len()),
        ),
{
    let xs = arg_items(args);
    let at = items_text(xs);
    let s0 = p + 1;
    lemma_arg_items_plain(args);
    lemma_items_printable(xs);
    assert(blank_end(src, p) == p);
    if xs.len() > 0 {
        assert((xs[0].0 is Some ==> valid_identifier(xs[0].0->Some_0)) && plain_operand(xs[0].1));
        lemma_item_printable(xs[0]);
        assert(src[s0] == at[0]) by {
            assert(src[s0 + 0] == at[0]);
        }
    }
    assert(blank_end(src, s0) == s0);
    lemma_read_args(src, s0, args, 0);
    assert(args.positional.take(0) =~= Seq::<InlineExpression>::empty());
    assert(args.named.take(0) =~= Seq::<crate::model::NamedArgument>::empty());
    assert(Seq::new(0nat, |i: int| args.named[i].name) =~= Seq::<Seq<u8>>::empty());
    assert(xs.take(0) =~= Seq::<(Option<Seq<u8>>, InlineExpression)>::empty());
}

/// A selector at `q`, then ` -`: reads as the selector, up to the space or up to the `-`.
#[verifier::rlimit(100)]
#[verifier::spinoff_prover]
proof fn lemma_selector_at(src: Seq<u8>, q: int, i: InlineExpression)
    requires
        plain_selector(i),
        0 <= q,
        q + selector_text(i).len() + 2 <= src.len(),
        src.subrange(q, q + selector_text(i).len()) == selector_text(i),
        src[q + selector_text(i).len()] == SPACE,
        src[q + selector_text(i).len() + 1] == MINUS,
    ensures
        crate::parser::grammar::inline_expression(src, q) is Ok,
        crate::parser::grammar::inline_expression(src, q)->Ok_0.0 == i,
        crate::parser::grammar::inline_expression(src, q)->Ok_0.1 == q + selector_text(i).len()
            || crate::parser::grammar::inline_expression(src, q)->Ok_0.1 == q + selector_text(i).len() + 1,
{
    if term_attribute(i) {
        let id = i->TermReference_id;
        let a = i->TermReference_attribute->Some_0;
        let t = selector_text(i);
        let n = id.len() as int;
        let an = a.len() as int;
        let m = t.len() as int;
        assert(m == n + an + 2);
        lemma_at(src, q, t);
        assert(src[q + 0] == MINUS);
        assert(src[q + 1] == id[0]) by {
            assert(src[q + 1] == t[1]);
        }
        assert(src[q + (1 + n)] == t[1 + n]);
        assert(src[q + 1 + n] == DOT);
        assert forall|k: int| q + 2 <= k < q + 1 + n implies in_class(ByteClass::IdentChar, #[trigger] src[k]) by {
            assert(src[q + (k - q)] == t[k - q]);
            assert(t[k - q] == id[k - q - 1]);
        }
        lemma_span_exact(src, q + 2, q + 1 + n, ByteClass::IdentChar);
        assert forall|k: int| 0 <= k < n implies #[trigger] src.subrange(q + 1, q + 1 + n)[k] == id[k] by {
            assert(src[q + (k + 1)] == t[k + 1]);
        }
        assert(src.subrange(q + 1, q + 1 + n) =~= id);
        assert(crate::parser::grammar::identifier(src, q + 1) == Ok::<_, (Error, int)>((id, q + 1 + n)));
        assert(src[q + n + 2] == a[0]) by {
            assert(src[q + (n + 2)] == t[n + 2]);
        }
        assert forall|k: int| q + n + 3 <= k < q + m implies in_class(ByteClass::IdentChar, #[trigger] src[k]) by {
            assert(src[q + (k - q)] == t[k - q]);
            assert(t[k - q] == a[k - q - n - 2]);
        }
        lemma_span_exact(src, q + n + 3, q + m, ByteClass::IdentChar);
        assert forall|k: int| 0 <= k < an implies #[trigger] src.subrange(q + n + 2, q + m)[k] == a[k] by {
            assert(src[q + (n + 2 + k)] == t[n + 2 + k]);
        }
        assert(src.subrange(q + n + 2, q + m) =~= a);
        assert(crate::parser::grammar::identifier(src, q + n + 2) == Ok::<_, (Error, int)>((a, q + m)));
        assert(crate::parser::grammar::attribute_accessor(src, q + 1 + n) == Ok::<_, (Error, int)>((Some(a), q + m)));
        assert(blank_end(src, q + m + 1) == q + m + 1);
        assert(blank_end(src, q + m) == q + m + 1);
        assert(crate::parser::grammar::call_arguments(src, q + m) == Ok::<_, (Error, int)>((None::<CallArguments>, q + m + 1)));
    } else {
        lemma_inline_at(src, q, i);
    }
}

/// A plain expression at `q`, then ` }` or ` -`: reads as the expression, up to the space
/// or up to what follows it.
#[verifier::rlimit(100)]
#[verifier::spinoff_prover]
proof fn lemma_inline_at(src: Seq<u8>, q: int, i: InlineExpression)
    requires
        plain_inline(i),
        0 <= q,
        q + inline_text(i).len() + 2 <= src.len(),
        src.subrange(q, q + inline_text(i).len()) == inline_text(i),
        src[q + inline_text(i).len()] == SPACE,
        src[q + inline_text(i).len() + 1] == CLOSE_BRACE || src[q + inline_text(i).len() + 1] == MINUS,
    ensures
        crate::parser::grammar::inline_expression(src, q) is Ok,
        crate::parser::grammar::inline_expression(src, q)->Ok_0.0 == i,
        crate::parser::grammar::inline_expression(src, q)->Ok_0.1 == q + inline_text(i).len()
            || crate::parser::grammar::inline_expression(src, q)->Ok_0.1 == q + inline_text(i).len() + 1,
{
    let t = inline_text(i);
    let m = t.len() as int;
    let c = q + m + 1;
    lemma_at(src, q, t);
    assert(src[q] == t[0]) by {
        assert(src[q + 0] == t[0]);
    }
    assert(blank_end(src, c) == c);
    assert(blank_end(src, c - 1) == c);
    match i {
        InlineExpression::VariableReference(id) => {
            let n = id.len() as int;
            assert forall|k: int| q + 2 <= k < q + 1 + n implies in_class(ByteClass::IdentChar, #[trigger] src[k]) by {
                assert(src[q + (k - q)] == t[k - q]);
                assert(t[k - q] == id[k - q - 1]);
            }
            lemma_span_exact(src, q + 2, q + 1 + n, ByteClass::IdentChar);
            assert forall|k: int| 0 <= k < n implies #[trigger] src.subrange(q + 1, q + 1 + n)[k] == id[k] by {
                assert(src[q + (k + 1)] == t[k + 1]);
            }
            assert(src.subrange(q + 1, q + 1 + n) =~= id);
            assert(src[q + 1] == id[0]) by {
                assert(src[q + 1] == t[1]);
            }
        },
        InlineExpression::MessageReference { id, attribute } => {
            let n = id.len() as int;
            assert forall|k: int| q + 1 <= k < q + n implies in_class(ByteClass::IdentChar, #[trigger] src[k]) by {
                assert(src[q + (k - q)] == t[k - q]);
            }
            lemma_span_exact(src, q + 1, q + n, ByteClass::IdentChar);
            assert forall|k: int| 0 <= k < n implies #[trigger] src.subrange(q, q + n)[k] == id[k] by {
                assert(src[q + k] == t[k]);
            }
            assert(src.subrange(q, q + n) =~= id);
            assert(crate::parser::grammar::identifier(src, q) == Ok::<_, (Error, int)>((id, q + n)));
            match attribute {
                Some(a) => {
                    let an = a.len() as int;
                    assert(src[q + n] == t[n]);
                    assert(src[q + n] == DOT);
                    assert(blank_end(src, q + n) == q + n);
                    assert(crate::parser::grammar::call_arguments(src, q + n) == Ok::<_, (Error, int)>((None::<crate::model::CallArguments>, q + n)));
                    assert(src[q + n + 1] == a[0]) by {
                        assert(src[q + (n + 1)] == t[n + 1]);
                    }
                    assert forall|k: int| q + n + 2 <= k < q + m implies in_class(ByteClass::IdentChar, #[trigger] src[k]) by {
                        assert(src[q + (k - q)] == t[k - q]);
                        assert(t[k - q] == a[k - q - n - 1]);
                    }
                    lemma_span_exact(src, q + n + 2, q + m, ByteClass::IdentChar);
                    assert forall|k: int| 0 <= k < an implies #[trigger] src.subrange(q + n + 1, q + m)[k] == a[k] by {
                        assert(src[q + (n + 1 + k)] == t[n + 1 + k]);
                    }
                    assert(src.subrange(q + n + 1, q + m) =~= a);
                    assert(crate::parser::grammar::attribute_accessor(src, q + n) == Ok::<_, (Error, int)>((Some(a), q + m)));
                },
                None => {
                    assert(crate::parser::grammar::call_arguments(src, q + n) == Ok::<_, (Error, int)>((None::<crate::model::CallArguments>, c)));
                },
            }
        },
        InlineExpression::TermReference { id, attribute, arguments } => {
            let n = id.len() as int;
            assert forall|k: int| q + 2 <= k < q + 1 + n implies in_class(ByteClass::IdentChar, #[trigger] src[k]) by {
                assert(src[q + (k - q)] == t[k - q]);
                assert(t[k - q] == id[k - q - 1]);
            }
            if arguments is Some {
                assert(src[q + (1 + n)] == t[1 + n]);
            }
            lemma_span_exact(src, q + 2, q + 1 + n, ByteClass::IdentChar);
            assert forall|k: int| 0 <= k < n implies #[trigger] src.subrange(q + 1, q + 1 + n)[k] == id[k] by {
                assert(src[q + (k + 1)] == t[k + 1]);
            }
            assert(src.subrange(q + 1, q + 1 + n) =~= id);
            assert(src[q + 1] == id[0]) by {
                assert(src[q + 1] == t[1]);
            }
            assert(crate::parser::grammar::identifier(src, q + 1) == Ok::<_, (Error, int)>((id, q + 1 + n)));
            match arguments {
                Some(args) => {
                    let xs = arg_items(args);
                    let at = items_text(xs);
                    lemma_arg_items_plain(args);
                    lemma_items_printable(xs);
                    assert(src[q + 1 + n] == OPEN_PAREN) by {
                        assert(src[q + (1 + n)] == t[1 + n]);
                    }
                    assert(src.subrange(q + n + 2, q + n + 2 + at.len()) =~= at) by {
                        assert forall|k: int| 0 <= k < at.len() implies #[trigger] src.subrange(q + n + 2, q + n + 2 + at.len())[k] == at[k] by {
                            assert(src[q + (n + 2 + k)] == t[n + 2 + k]);
                        }
                    }
                    assert(src[q + n + 2 + at.len()] == CLOSE_PAREN) by {
                        assert(src[q + (m - 1)] == t[m - 1]);
                    }
                    lemma_call_arguments_at(src, q + 1 + n, args);
                },
                None => {
                    assert(crate::parser::grammar::call_arguments(src, q + 1 + n) == Ok::<_, (Error, int)>((None::<crate::model::CallArguments>, c)));
                },
            }
        },
        InlineExpression::StringLiteral(v) => {
            let n = v.len() as int;
            assert(src[q + 1 + n] == QUOTE) by {
                assert(src[q + (1 + n)] == t[1 + n]);
            }
            assert forall|k: int| 0 <= k < n implies #[trigger] src.subrange(q + 1, q + 1 + n)[k] == v[k] by {
                assert(src[q + (k + 1)] == t[k + 1]);
            }
            assert(src.subrange(q + 1, q + 1 + n) =~= v);
            lemma_string_body(src, q + 1, v, 0);
        },
        InlineExpression::NumberLiteral(v) => {
            assert forall|k: int| q <= k < q + m implies in_class(ByteClass::Digit, #[trigger] src[k]) by {
                assert(src[q + (k - q)] == t[k - q]);
            }
            lemma_span_exact(src, q, q + m, ByteClass::Digit);
            assert forall|k: int| 0 <= k < m implies #[trigger] src.subrange(q, q + m)[k] == v[k] by {
                assert(src[q + k] == t[k]);
            }
            assert(src.subrange(q, q + m) =~= v);
            assert(is_digit(v[0]));
        },
        InlineExpression::FunctionReference { id, arguments } => {
            let args = arguments->Some_0;
            let n = id.len() as int;
            let xs = arg_items(args);
            let at = items_text(xs);
            lemma_arg_items_plain(args);
            lemma_items_printable(xs);
            assert(t == id + seq![OPEN_PAREN] + at + seq![CLOSE_PAREN]);
            assert forall|k: int| q + 1 <= k < q + n implies in_class(ByteClass::IdentChar, #[trigger] src[k]) by {
                assert(src[q + (k - q)] == t[k - q]);
            }
            assert(src[q + n] == OPEN_PAREN) by {
                assert(src[q + n] == t[n]);
            }
            lemma_span_exact(src, q + 1, q + n, ByteClass::IdentChar);
            assert forall|k: int| 0 <= k < n implies #[trigger] src.subrange(q, q + n)[k] == id[k] by {
                assert(src[q + k] == t[k]);
            }
            assert(src.subrange(q, q + n) =~= id);
            assert(crate::parser::grammar::identifier(src, q) == Ok::<_, (Error, int)>((id, q + n)));
            assert(src.subrange(q + n + 1, q + n + 1 + at.len()) =~= at) by {
                assert forall|k: int| 0 <= k < at.len() implies #[trigger] src.subrange(q + n + 1, q + n + 1 + at.len())[k] == at[k] by {
                    assert(src[q + (n + 1 + k)] == t[n + 1 + k]);
                }
            }
            assert(src[q + n + 1 + at.len()] == CLOSE_PAREN) by {
                assert(src[q + (m - 1)] == t[m - 1]);
            }
            lemma_call_arguments_at(src, q + n, args);
        },
        _ => {},
    }
}

/// A plain placeable, possibly nested once, reads as its expression.
#[verifier::rlimit(100)]
#[verifier::spinoff_prover]
proof fn lemma_plain_placeable(src: Seq<u8>, q: int, x: Expression)
    requires
        plain_element(PatternElement::Placeable(x)),
        0 <= q,
        q + element_text(PatternElement::Placeable(x)).len() <= src.len(),
        src.subrange(q, q + element_text(PatternElement::Placeable(x)).len()) == element_text(
            PatternElement::Placeable(x),
        ),
    ensures
        placeable(src, q) == Ok::<_, (Error, int)>((x, q + element_text(PatternElement::Placeable(x)).len())),
{
    if nested_plain(x) {
        let b = x->Inline_0->Placeable_0;
        let j = (*b)->Inline_0;
        let inner = Expression::Inline(j);
        assert(*b == inner);
        let it = inline_text(j);
        let m = it.len() as int;
        let t = element_text(PatternElement::Placeable(x));
        let ti = element_text(PatternElement::Placeable(inner));
        assert(t.len() == m + 6);
        assert(ti.len() == m + 4);
        lemma_at(src, q, t);
        assert(src[q + 0] == OPEN_BRACE);
        assert(src[q + 1] == OPEN_BRACE);
        assert(src.subrange(q + 1, q + 1 + ti.len()) =~= ti) by {
            assert forall|k: int| 0 <= k < ti.len() implies #[trigger] src.subrange(q + 1, q + 1 + ti.len())[k] == ti[k] by {
                assert(src[q + (1 + k)] == t[1 + k]);
                if 2 <= k < 2 + m {
                    assert(ti[k] == it[k - 2]);
                    assert(t[1 + k] == it[k - 2]);
                }
            }
        }
        lemma_simple_placeable(src, q + 1, inner);
        let e = q + m + 5;
        assert(src[q + (m + 5)] == t[m + 5]);
        assert(src[e] == CLOSE_BRACE);
        assert(blank_end(src, q + 1) == q + 1);
        assert(blank_end(src, e) == e);
        assert(crate::parser::grammar::inline_expression(src, q + 1) == Ok::<_, (Error, int)>(
            (InlineExpression::Placeable(b), e),
        ));
        assert(crate::parser::grammar::expression(src, q + 1) == Ok::<_, (Error, int)>((x, e)));
        lemma_span_exact(src, e, e, ByteClass::Space);
    } else {
        lemma_simple_placeable(src, q, x);
    }
}

/// A plain placeable reads as its expression.
#[verifier::rlimit(100)]
#[verifier::spinoff_prover]
proof fn lemma_simple_placeable(src: Seq<u8>, q: int, x: Expression)
    requires
        x matches Expression::Inline(i) && plain_inline(i),
        0 <= q,
        q + element_text(PatternElement::Placeable(x)).len() <= src.len(),
        src.subrange(q, q + element_text(PatternElement::Placeable(x)).len()) == element_text(
            PatternElement::Placeable(x),
        ),
    ensures
        placeable(src, q) == Ok::<_, (Error, int)>((x, q + element_text(PatternElement::Placeable(x)).len())),
{
    let i = x->Inline_0;
    let it = inline_text(i);
    let m = it.len() as int;
    let t = element_text(PatternElement::Placeable(x));
    assert(t.len() == m + 4);
    lemma_inline_printable(i);
    lemma_at(src, q, t);
    assert(src[q + 0] == OPEN_BRACE);
    assert(src[q + 1] == SPACE);
    assert(src[q + 2] == it[0]) by {
        assert(src[q + 2] == t[2]);
    }
    assert(0x20 <= it[0]);
    assert(src[q + (m + 2)] == t[m + 2]);
    assert(src[q + (m + 3)] == t[m + 3]);
    assert(src.subrange(q + 2, q + 2 + m) =~= it) by {
        assert forall|k: int| 0 <= k < m implies #[trigger] src.subrange(q + 2, q + 2 + m)[k] == it[k] by {
            assert(src[q + (k + 2)] == t[k + 2]);
        }
    }
    assert(blank_end(src, q + 2) == q + 2);
    assert(blank_end(src, q + 1) == q + 2);
    lemma_inline_at(src, q + 2, i);
    let c = q + m + 3;
    assert(blank_end(src, c) == c);
    assert(blank_end(src, c - 1) == c);
    assert(crate::parser::grammar::expression(src, q + 2) == Ok::<_, (Error, int)>((x, c)));
    lemma_span_exact(src, c, c, ByteClass::Space);
}

/// The index of the last of the first `k` elements that is not a text of spaces.
pub open spec fn last_nonblank(es: Seq<PatternElement>, k: int) -> Option<int>
    decreases k,
{
    if k <= 0 {
        None
    } else if es[k - 1] is Text && text_type(es[k - 1]->Text_0) is Blank {
        last_nonblank(es, k - 1)
    } else {
        Some(k - 1)
    }
}

/// The state of reading a plain value once its first `k` elements are read.
pub open spec fn elements_read(src: Seq<u8>, st: PatternState, es: Seq<PatternElement>, k: int) -> bool {
    &&& st.elements.len() == k
    &&& st.common_indent is None
    &&& st.last_non_blank == last_nonblank(es, k)
    &&& st.role == if k == 0 {
        TextElementPosition::InitialLineStart
    } else {
        TextElementPosition::Continuation
    }
    &&& forall|j: int|
        0 <= j < k ==> finish_element(src, #[trigger] st.elements[j], None, j == es.len() - 1) == es[j]
}

/// The state of reading a plain value once all of it is read.
pub open spec fn all_elements_read(src: Seq<u8>, st: PatternState, es: Seq<PatternElement>) -> bool {
    &&& st.elements.len() >= es.len()
    &&& st.common_indent is None
    &&& st.last_non_blank == Some(es.len() - 1)
    &&& forall|j: int|
        0 <= j < es.len() ==> finish_element(src, #[trigger] st.elements[j], None, j == es.len() - 1) == es[j]
}

/// The elements of a plain value from the `k`-th on, then a line feed and a stop.
#[verifier::rlimit(100)]
#[verifier::spinoff_prover]
proof fn lemma_read_elements(src: Seq<u8>, q: int, st: PatternState, es: Seq<PatternElement>, k: int)
    requires
        inline_value(Pattern { elements: es }),
        0 <= k < es.len(),
        elements_read(src, st, es, k),
        0 <= q,
        q + elements_text(es.skip(k)).len() < src.len(),
        src.subrange(q, q + elements_text(es.skip(k)).len()) == elements_text(es.skip(k)),
        src[q + elements_text(es.skip(k)).len()] == LF,
        value_stop(src, q + elements_text(es.skip(k)).len() + 1),
    ensures
        pattern_from(src, q, st) is Ok,
        pattern_from(src, q, st)->Ok_0.1 == stop_end(src, q + elements_text(es.skip(k)).len() + 1),
        all_elements_read(src, pattern_from(src, q, st)->Ok_0.0, es),
    decreases es.len() - k,
{
    reveal(elements_text);
    reveal(inline_value);
    let rest = es.skip(k);
    let e = es[k];
    assert(rest[0] == e);
    assert(rest.skip(1) =~= es.skip(k + 1));
    let et = element_text(e);
    let r2 = elements_text(es.skip(k + 1));
    assert(elements_text(rest) == et + r2);
    lemma_split(src, q, et, r2);
    let end = q + et.len() + r2.len();
    assert(plain_element(e));
    lemma_element_printable(e);
    let last = k == es.len() - 1;
    if !last {
        assert(plain_element(es[k + 1]));
        lemma_element_printable(es[k + 1]);
        assert(es.skip(k + 1)[0] == es[k + 1]);
        assert(es.skip(k + 1).skip(1) =~= es.skip(k + 2));
        assert(r2 == element_text(es[k + 1]) + elements_text(es.skip(k + 2)));
        assert(r2[0] == element_text(es[k + 1])[0]);
        lemma_at(src, q + et.len(), r2);
        assert(src[q + et.len() + 0] == r2[0]);
    } else {
        assert(es.skip(k + 1) =~= Seq::<PatternElement>::empty());
        assert(r2.len() == 0);
    }
    lemma_at(src, q, et);
    match e {
        PatternElement::Text(t) => {
            let i = q + t.len();
            assert(src[q + 0] == t[0]);
            assert forall|j: int| q <= j < i implies src[j] != LF && src[j] != OPEN_BRACE && src[j] != CLOSE_BRACE by {
                assert(src[q + (j - q)] == t[j - q]);
                assert(line_byte(t[j - q]));
            }
            if !last {
                assert(es[k + 1] is Placeable);
                assert(src[i] == OPEN_BRACE);
                lemma_text_delimiter(src, q, i);
                assert(src.subrange(q, i) =~= t);
                let st2 = PatternState {
                    elements: st.elements.push(Placeholder::Text(q, i, 0, st.role)),
                    last_non_blank: last_nonblank(es, k + 1),
                    common_indent: None,
                    role: TextElementPosition::Continuation,
                };
                assert(elements_read(src, st2, es, k + 1)) by {
                    assert forall|j: int| 0 <= j < k + 1 implies finish_element(src, #[trigger] st2.elements[j], None, j == es.len() - 1) == es[j] by {
                        if j < k {
                            assert(st2.elements[j] == st.elements[j]);
                        }
                    }
                }
                assert(pattern_from(src, q, st) == pattern_from(src, i, st2));
                lemma_read_elements(src, i, st2, es, k + 1);
            } else {
                assert(i == end);
                assert(src[i - 1] == t[t.len() - 1]) by {
                    assert(src[q + (t.len() - 1)] == t[t.len() - 1]);
                }
                assert(t.last() != SPACE);
                lemma_text_delimiter(src, q, i);
                assert(src.subrange(q, i) =~= t);
                assert(crate::text::ws_suffix_len(t) == 0);
                assert(t[t.len() - 1] != SPACE);
                assert(text_type(t) == TextElementType::NonBlank);
                let st2 = PatternState {
                    elements: st.elements.push(Placeholder::Text(q, i + 1, 0, st.role)),
                    last_non_blank: Some(k),
                    common_indent: None,
                    role: TextElementPosition::LineStart,
                };
                assert(pattern_from(src, q, st) == pattern_from(src, i + 1, st2));
                lemma_pattern_end(src, i + 1, st2);
                assert(src.subrange(q, i + 1) =~= t.push(LF));
                lemma_trim_plain(t);
                let r = pattern_from(src, i + 1, st2)->Ok_0.0;
                assert forall|j: int| 0 <= j < es.len() implies finish_element(src, #[trigger] r.elements[j], None, j == es.len() - 1) == es[j] by {
                    assert(r.elements[j] == st2.elements[j]);
                    if j < k {
                        assert(st2.elements[j] == st.elements[j]);
                    }
                }
            }
        },
        PatternElement::Placeable(x) => {
            lemma_plain_placeable(src, q, x);
            let q1 = q + et.len();
            let st2 = PatternState {
                elements: st.elements.push(Placeholder::Placeable(x)),
                last_non_blank: Some(k),
                common_indent: None,
                role: TextElementPosition::Continuation,
            };
            assert(pattern_from(src, q, st) == pattern_from(src, q1, st2));
            assert(elements_read(src, st2, es, k + 1)) by {
                assert forall|j: int| 0 <= j < k + 1 implies finish_element(src, #[trigger] st2.elements[j], None, j == es.len() - 1) == es[j] by {
                    if j < k {
                        assert(st2.elements[j] == st.elements[j]);
                    }
                }
            }
            if !last {
                lemma_read_elements(src, q1, st2, es, k + 1);
            } else {
                assert(q1 == end);
                lemma_text_delimiter(src, q1, q1);
                assert(src.subrange(q1, q1) =~= Seq::<u8>::empty());
                assert(text_type(src.subrange(q1, q1)) == TextElementType::Blank);
                let st3 = PatternState {
                    elements: st2.elements.push(Placeholder::Text(q1, q1 + 1, 0, TextElementPosition::Continuation)),
                    last_non_blank: Some(k),
                    common_indent: None,
                    role: TextElementPosition::LineStart,
                };
                assert(pattern_from(src, q1, st2) == pattern_from(src, q1 + 1, st3));
                lemma_pattern_end(src, q1 + 1, st3);
                let r = pattern_from(src, q1 + 1, st3)->Ok_0.0;
                assert forall|j: int| 0 <= j < es.len() implies finish_element(src, #[trigger] r.elements[j], None, j == es.len() - 1) == es[j] by {
                    assert(r.elements[j] == st3.elements[j]);
                    assert(st3.elements[j] == st2.elements[j]);
                }
            }
        },
    }
}

/// Spaces from `a`, a value on one line at `s` and a line feed, then a stop, read as
/// the value.
#[verifier::rlimit(100)]
#[verifier::spinoff_prover]
proof fn lemma_inline_pattern(src: Seq<u8>, a: int, s: int, p: Pattern)
    requires
        inline_value(p),
        0 <= a <= s,
        forall|k: int| a <= k < s ==> #[trigger] src[k] == SPACE,
        s + elements_text(p.elements).len() + 1 <= src.len(),
        src.subrange(s, s + elements_text(p.elements).len()) == elements_text(p.elements),
        src[s + elements_text(p.elements).len()] == LF,
        value_stop(src, s + elements_text(p.elements).len() + 1),
    ensures
        pattern(src, a) == Ok::<_, (Error, int)>((Some(p), stop_end(src, s + elements_text(p.elements).len() + 1))),
{
    reveal(inline_value);
    let es = p.elements;
    let t = elements_text(p.elements);
    lemma_value_text_line(p);
    lemma_at(src, s, t);
    assert(src[s] == t[0]) by {
        assert(src[s + 0] == t[0]);
    }
    assert(line_byte(t[0]));
    lemma_span_exact(src, a, s, ByteClass::Space);
    assert(crate::parser::ftlstream::eol_len(src, s) == 0);
    let st0 = PatternState {
        elements: Seq::empty(),
        last_non_blank: None,
        common_indent: None,
        role: TextElementPosition::InitialLineStart,
    };
    assert(es.skip(0) =~= es);
    assert(Pattern { elements: es } == p);
    lemma_read_elements(src, s, st0, es, 0);
    let st = pattern_from(src, s, st0)->Ok_0.0;
    assert(finish_pattern(src, st, es.len() - 1) =~= es);
}

/// The lines of a value before its `k`-th are a prefix of all of them.
proof fn lemma_block_prefix(es: Seq<PatternElement>, k: int, level: nat)
    requires
        0 <= k <= es.len(),
    ensures
        block_text(es.take(k), level).len() <= block_text(es, level).len(),
        block_text(es, level).subrange(0, block_text(es.take(k), level).len() as int) == block_text(es.take(k), level),
    decreases es.len(),
{
    if k == es.len() {
        assert(es.take(k) =~= es);
        assert(block_text(es, level).subrange(0, block_text(es, level).len() as int) =~= block_text(es, level));
    } else {
        let prev = es.drop_last();
        lemma_block_prefix(prev, k, level);
        assert(prev.take(k) =~= es.take(k));
        let b = block_text(es.take(k), level);
        assert(block_text(es, level).subrange(0, b.len() as int) =~= block_text(prev, level).subrange(0, b.len() as int));
    }
}

/// The state of reading a value of several lines once its first `k` lines are read.
pub open spec fn lines_read(src: Seq<u8>, st: PatternState, es: Seq<PatternElement>, k: int, indent: int) -> bool {
    &&& st.elements.len() == k
    &&& st.role is LineStart
    &&& st.common_indent == if k == 0 {
        None
    } else {
        Some(indent)
    }
    &&& st.last_non_blank == if k == 0 {
        None
    } else {
        Some(k - 1)
    }
    &&& forall|j: int|
        0 <= j < k ==> finish_element(src, #[trigger] st.elements[j], Some(indent), j == es.len() - 1) == es[j]
}

/// The lines of a value of several lines from the `k`-th on, then a line feed and a
/// stop.
#[verifier::rlimit(100)]
#[verifier::spinoff_prover]
proof fn lemma_read_lines(
    src: Seq<u8>,
    base: int,
    q: int,
    st: PatternState,
    es: Seq<PatternElement>,
    k: int,
    level: nat,
)
    requires
        multiline_value(Pattern { elements: es }),
        level >= 1,
        0 <= k < es.len(),
        0 <= base,
        base + block_text(es, level).len() < src.len(),
        src.subrange(base, base + block_text(es, level).len()) == block_text(es, level),
        src[base + block_text(es, level).len()] == LF,
        value_stop(src, base + block_text(es, level).len() + 1),
        q == base + block_text(es.take(k), level).len(),
        lines_read(src, st, es, k, 4 * level as int),
    ensures
        pattern_from(src, q, st) is Ok,
        pattern_from(src, q, st)->Ok_0.1 == stop_end(src, base + block_text(es, level).len() + 1),
        pattern_from(src, q, st)->Ok_0.0.elements.len() >= es.len(),
        pattern_from(src, q, st)->Ok_0.0.common_indent == Some(4 * level as int),
        pattern_from(src, q, st)->Ok_0.0.last_non_blank == Some(es.len() - 1),
        forall|j: int|
            0 <= j < es.len() ==> finish_element(
                src,
                #[trigger] pattern_from(src, q, st)->Ok_0.0.elements[j],
                Some(4 * level as int),
                j == es.len() - 1,
            ) == es[j],
    decreases es.len() - k,
{
    reveal(multiline_value);
    let ind = 4 * level as int;
    let block = block_text(es, level);
    let last = k == es.len() - 1;
    let t = es[k]->Text_0;
    assert(es[k] is Text);
    let l = if last {
        t
    } else {
        t.drop_last()
    };
    assert(block_line(l));
    let piece = indentation(level) + t;
    assert(es.take(k + 1).drop_last() =~= es.take(k));
    assert(es.take(k + 1).last() == es[k]);
    assert(block_text(es.take(k + 1), level) == block_text(es.take(k), level) + piece);
    lemma_block_prefix(es, k + 1, level);
    let b1 = block_text(es.take(k + 1), level);
    assert(src.subrange(base, base + b1.len()) == b1) by {
        assert(src.subrange(base, base + b1.len()) =~= src.subrange(base, base + block.len()).subrange(0, b1.len() as int));
    }
    lemma_split(src, base, block_text(es.take(k), level), piece);
    lemma_at(src, q, piece);
    let i = q + ind + l.len();
    assert forall|j: int| q <= j < q + ind implies #[trigger] src[j] == SPACE by {
        assert(src[q + (j - q)] == piece[j - q]);
    }
    assert(src[q + ind] == l[0]) by {
        assert(src[q + ind] == piece[ind]);
    }
    assert forall|j: int| q + ind <= j < i implies src[j] != LF && src[j] != OPEN_BRACE && src[j] != CLOSE_BRACE by {
        assert(src[q + (j - q)] == piece[j - q]);
        assert(piece[j - q] == l[j - q - ind]);
        assert(line_byte(l[j - q - ind]));
    }
    if last {
        assert(es.take(k + 1) =~= es);
        assert(i == base + block.len());
    } else {
        assert(t[t.len() - 1] == LF);
        assert(src[i] == LF) by {
            assert(src[q + (ind + l.len())] == piece[ind + l.len()]);
        }
    }
    assert(src[i - 1] == l[l.len() - 1]) by {
        assert(src[q + (ind + l.len() - 1)] == piece[ind + l.len() - 1]);
    }
    assert(line_byte(l[l.len() - 1]));
    lemma_span_exact(src, q, q + ind, ByteClass::Space);
    lemma_text_delimiter(src, q + ind, i);
    assert(src.subrange(q + ind, i) =~= l) by {
        assert forall|j: int| 0 <= j < l.len() implies #[trigger] src.subrange(q + ind, i)[j] == l[j] by {
            assert(src[q + (ind + j)] == piece[ind + j]);
        }
    }
    assert(l[0] != SPACE);
    assert(text_type(l) == TextElementType::NonBlank);
    let st2 = PatternState {
        elements: st.elements.push(Placeholder::Text(q, i + 1, ind, TextElementPosition::LineStart)),
        last_non_blank: Some(k),
        common_indent: Some(ind),
        role: TextElementPosition::LineStart,
    };
    assert(pattern_from(src, q, st) == pattern_from(src, i + 1, st2));
    assert(src.subrange(q + ind, i + 1) =~= l.push(LF));
    if last {
        lemma_trim_plain(l);
    } else {
        assert(l.push(LF) =~= t);
    }
    assert(finish_element(src, st2.elements[k], Some(ind), last) == es[k]);
    assert(lines_read(src, st2, es, k + 1, ind)) by {
        assert forall|j: int| 0 <= j < k + 1 implies finish_element(src, #[trigger] st2.elements[j], Some(ind), j == es.len() - 1) == es[j] by {
            if j < k {
                assert(st2.elements[j] == st.elements[j]);
            }
        }
    }
    if last {
        lemma_pattern_end(src, i + 1, st2);
        let r = pattern_from(src, i + 1, st2)->Ok_0.0;
        assert forall|j: int| 0 <= j < es.len() implies finish_element(src, #[trigger] r.elements[j], Some(ind), j == es.len() - 1) == es[j] by {
            assert(r.elements[j] == st2.elements[j]);
        }
    } else {
        lemma_read_lines(src, base, i + 1, st2, es, k + 1, level);
    }
}

/// Spaces from `a` up to `b`, where a byte other than white space stands: skipped.
proof fn lemma_blank_end_spaces(src: Seq<u8>, a: int, b: int)
    requires
        0 <= a <= b < src.len(),
        forall|j: int| a <= j < b ==> #[trigger] src[j] == SPACE,
        src[b] != SPACE && src[b] != LF && src[b] != CR,
    ensures
        blank_end(src, a) == b,
    decreases b - a,
{
    if a < b {
        lemma_blank_end_spaces(src, a + 1, b);
    }
}

/// `[key]` reads as the key.
#[verifier::rlimit(100)]
#[verifier::spinoff_prover]
proof fn lemma_variant_key(src: Seq<u8>, q: int, k: VariantKey)
    requires
        plain_key(k),
        0 <= q,
        q + crate::serializer::key_text(k).len() + 2 <= src.len(),
        src[q] == OPEN_BRACKET,
        src.subrange(q + 1, q + 1 + crate::serializer::key_text(k).len()) == crate::serializer::key_text(k),
        src[q + 1 + crate::serializer::key_text(k).len()] == CLOSE_BRACKET,
    ensures
        crate::parser::grammar::variant_key(src, q) == Ok::<_, (Error, int)>(
            (k, q + crate::serializer::key_text(k).len() + 2),
        ),
{
    let t = crate::serializer::key_text(k);
    let m = t.len() as int;
    lemma_key_printable(k);
    lemma_at(src, q + 1, t);
    assert(src[q + 1] == t[0]) by {
        assert(src[q + 1 + 0] == t[0]);
    }
    assert(0x21 <= t[0]);
    assert(blank_end(src, q + 1) == q + 1);
    let e = q + 1 + m;
    assert(blank_end(src, e) == e);
    match k {
        VariantKey::Identifier(n) => {
            assert forall|j: int| q + 2 <= j < e implies in_class(ByteClass::IdentChar, #[trigger] src[j]) by {
                assert(src[q + 1 + (j - q - 1)] == t[j - q - 1]);
            }
            lemma_span_exact(src, q + 2, e, ByteClass::IdentChar);
            assert forall|j: int| 0 <= j < m implies #[trigger] src.subrange(q + 1, e)[j] == t[j] by {
                assert(src[q + 1 + j] == t[j]);
            }
            assert(src.subrange(q + 1, e) =~= n);
            assert(!crate::parser::grammar::is_number_start(src, q + 1));
        },
        VariantKey::NumberLiteral(v) => {
            assert forall|j: int| q + 1 <= j < e implies in_class(ByteClass::Digit, #[trigger] src[j]) by {
                assert(src[q + 1 + (j - q - 1)] == t[j - q - 1]);
            }
            lemma_span_exact(src, q + 1, e, ByteClass::Digit);
            assert forall|j: int| 0 <= j < m implies #[trigger] src.subrange(q + 1, e)[j] == t[j] by {
                assert(src[q + 1 + j] == t[j]);
            }
            assert(src.subrange(q + 1, e) =~= v);
            assert(is_digit(v[0]));
            assert(crate::parser::grammar::is_number_start(src, q + 1));
        },
    }
}

/// The lines of the variants before the `k`-th are a prefix of all of them.
proof fn lemma_variants_prefix(vs: Seq<Variant>, k: int, level: nat)
    requires
        0 <= k <= vs.len(),
    ensures
        variants_text(vs.take(k), level).len() <= variants_text(vs, level).len(),
        variants_text(vs, level).subrange(0, variants_text(vs.take(k), level).len() as int) == variants_text(
            vs.take(k),
            level,
        ),
    decreases vs.len(),
{
    if k == vs.len() {
        assert(vs.take(k) =~= vs);
        assert(variants_text(vs, level).subrange(0, variants_text(vs, level).len() as int) =~= variants_text(vs, level));
    } else {
        let prev = vs.drop_last();
        lemma_variants_prefix(prev, k, level);
        assert(prev.take(k) =~= vs.take(k));
        let b = variants_text(vs.take(k), level);
        assert(variants_text(vs, level).subrange(0, b.len() as int) =~= variants_text(prev, level).subrange(0, b.len() as int));
    }
}

/// Where the line of variant `i` lies, once the variants' lines are at `base`.
proof fn lemma_variant_at(src: Seq<u8>, base: int, vs: Seq<Variant>, i: int, level: nat)
    requires
        0 <= i < vs.len(),
        0 <= base,
        base + variants_text(vs, level).len() <= src.len(),
        src.subrange(base, base + variants_text(vs, level).len()) == variants_text(vs, level),
    ensures
        variants_text(vs.take(i + 1), level) == variants_text(vs.take(i), level) + variant_line(vs[i], level),
        variants_text(vs.take(i + 1), level).len() <= variants_text(vs, level).len(),
        src.subrange(
            base + variants_text(vs.take(i), level).len(),
            base + variants_text(vs.take(i + 1), level).len(),
        ) == variant_line(vs[i], level),
{
    assert(vs.take(i + 1).drop_last() =~= vs.take(i));
    assert(vs.take(i + 1).last() == vs[i]);
    lemma_variants_prefix(vs, i + 1, level);
    let b0 = variants_text(vs.take(i), level);
    let b1 = variants_text(vs.take(i + 1), level);
    let all = variants_text(vs, level);
    assert(src.subrange(base + b0.len(), base + b1.len()) =~= all.subrange(0, b1.len() as int).subrange(
        b0.len() as int,
        b1.len() as int,
    ));
}

/// The variants from the `i`-th on, each on a line of its own, then the line that closes
/// the select expression: read as the variants, up to the closing brace.
#[verifier::rlimit(100)]
#[verifier::spinoff_prover]
proof fn lemma_read_variants(src: Seq<u8>, base: int, vs: Seq<Variant>, i: int, level: nat)
    requires
        plain_variants(vs),
        level >= 2,
        0 <= i <= vs.len(),
        0 <= base,
        base + variants_text(vs, level).len() + 4 * (level - 1) < src.len(),
        src.subrange(base, base + variants_text(vs, level).len()) == variants_text(vs, level),
        forall|j: int|
            base + variants_text(vs, level).len() <= j < base + variants_text(vs, level).len() + 4 * (level - 1)
                ==> #[trigger] src[j] == SPACE,
        src[base + variants_text(vs, level).len() + 4 * (level - 1)] == CLOSE_BRACE,
    ensures
        crate::parser::grammar::variants_from(
            src,
            if i < vs.len() {
                base + variants_text(vs.take(i), level).len() + 4 * level
            } else {
                base + variants_text(vs, level).len() + 4 * (level - 1)
            },
            vs.take(i),
            exists|j: int| 0 <= j < i && (#[trigger] vs[j]).default,
        ) == Ok::<_, (Error, int)>((vs, base + variants_text(vs, level).len() + 4 * (level - 1))),
    decreases vs.len() - i,
{
    let c = base + variants_text(vs, level).len() + 4 * (level - 1);
    let d = choose|d: int|
        0 <= d < vs.len() && vs[d].default && forall|j: int| 0 <= j < vs.len() && j != d ==> !(#[trigger] vs[j]).default;
    if i == vs.len() {
        assert(vs.take(i) =~= vs);
        assert(vs[d].default);
    } else {
        let v = vs[i];
        assert(plain_key(vs[i].key) && (inline_value(vs[i].value) || multiline_value(vs[i].value)));
        let had = exists|j: int| 0 <= j < i && (#[trigger] vs[j]).default;
        assert(v.default ==> !had) by {
            if v.default && had {
                let j = choose|j: int| 0 <= j < i && (#[trigger] vs[j]).default;
                assert(j != d || i != d);
            }
        }
        lemma_variant_at(src, base, vs, i, level);
        let pi = base + variants_text(vs.take(i), level).len();
        let line = variant_line(v, level);
        lemma_at(src, pi, line);
        let ind = 4 * level as int;
        let star: int = if v.default {
            1
        } else {
            0
        };
        let q = pi + ind;
        let q1 = q + star;
        let key = crate::serializer::key_text(v.key);
        let kl = key.len() as int;
        let et = variant_value_text(v.value, level + 1);
        let r = q1 + kl + 2;
        let e = r + et.len();
        assert(line.len() == ind + star + kl + 2 + et.len() + 1);
        assert(e + 1 == pi + line.len());
        if v.default {
            assert(src[pi + ind] == line[ind]);
            assert(src[q] == ASTERISK);
        }
        assert(src[pi + (ind + star)] == line[ind + star]);
        assert(src[q1] == OPEN_BRACKET);
        assert(src.subrange(q1 + 1, q1 + 1 + kl) =~= key) by {
            assert forall|j: int| 0 <= j < kl implies #[trigger] src.subrange(q1 + 1, q1 + 1 + kl)[j] == key[j] by {
                assert(src[pi + (ind + star + 1 + j)] == line[ind + star + 1 + j]);
            }
        }
        assert(src[pi + (ind + star + 1 + kl)] == line[ind + star + 1 + kl]);
        assert(src[pi + (ind + star + 2 + kl)] == line[ind + star + 2 + kl]);
        assert(src.subrange(r, r + et.len()) =~= et) by {
            assert forall|j: int| 0 <= j < et.len() implies #[trigger] src.subrange(r, r + et.len())[j] == et[j] by {
                assert(src[pi + (ind + star + 2 + kl + j)] == line[ind + star + 2 + kl + j]);
            }
        }
        assert(src[pi + (line.len() - 1)] == line[line.len() - 1]);
        lemma_variant_key(src, q1, v.key);
        let nq = if i + 1 < vs.len() {
            base + variants_text(vs.take(i + 1), level).len() + 4 * level
        } else {
            c
        };
        if i + 1 < vs.len() {
            lemma_variant_at(src, base, vs, i + 1, level);
            let line2 = variant_line(vs[i + 1], level);
            lemma_at(src, e + 1, line2);
            assert forall|j: int| e + 1 <= j < nq implies #[trigger] src[j] == SPACE by {
                assert(src[e + 1 + (j - e - 1)] == line2[j - e - 1]);
            }
            assert(src[e + 1 + ind] == line2[ind]);
        } else {
            assert(vs.take(i + 1) =~= vs);
        }
        assert(src[nq] == OPEN_BRACKET || src[nq] == ASTERISK || src[nq] == CLOSE_BRACE);
        assert(variant_stop(src, e + 1));
        lemma_variant_value_pattern(src, r, v.value, level + 1);
        lemma_blank_end_spaces(src, e + 1, nq);
        assert(vs.take(i).push(Variant { key: v.key, value: v.value, default: v.default }) =~= vs.take(i + 1));
        assert((had || v.default) == exists|j: int| 0 <= j < i + 1 && (#[trigger] vs[j]).default) by {
            if v.default {
                assert(vs[i].default);
            }
            if exists|j: int| 0 <= j < i + 1 && (#[trigger] vs[j]).default {
                let j = choose|j: int| 0 <= j < i + 1 && (#[trigger] vs[j]).default;
                if j < i {
                    assert(had);
                }
            }
        }
        lemma_read_variants(src, base, vs, i + 1, level);
    }
}

/// A select expression from its `{`: the selector, ` ->` and a line feed, the variants'
/// lines, then the closing brace indented to `level`.
#[verifier::rlimit(100)]
#[verifier::spinoff_prover]
proof fn lemma_select_placeable(src: Seq<u8>, c0: int, sel: InlineExpression, vs: Seq<Variant>, level: nat)
    requires
        plain_selector(sel),
        plain_variants(vs),
        level >= 1,
        0 <= c0,
        c0 + selector_text(sel).len() + 6 + variants_text(vs, level + 1).len() + 4 * level < src.len(),
        src.subrange(c0, c0 + selector_text(sel).len() + 6) == seq![OPEN_BRACE, SPACE] + selector_text(sel) + seq![
            SPACE,
            MINUS,
            GREATER,
            LF,
        ],
        src.subrange(
            c0 + selector_text(sel).len() + 6,
            c0 + selector_text(sel).len() + 6 + variants_text(vs, level + 1).len(),
        ) == variants_text(vs, level + 1),
        forall|j: int|
            c0 + selector_text(sel).len() + 6 + variants_text(vs, level + 1).len() <= j < c0 + selector_text(sel).len() + 6
                + variants_text(vs, level + 1).len() + 4 * level ==> #[trigger] src[j] == SPACE,
        src[c0 + selector_text(sel).len() + 6 + variants_text(vs, level + 1).len() + 4 * level] == CLOSE_BRACE,
    ensures
        placeable(src, c0) == Ok::<_, (Error, int)>(
            (
                Expression::Select { selector: sel, variants: vs },
                c0 + selector_text(sel).len() + 6 + variants_text(vs, level + 1).len() + 4 * level + 1,
            ),
        ),
{
    let it = selector_text(sel);
    let m = it.len() as int;
    let head = seq![OPEN_BRACE, SPACE] + it + seq![SPACE, MINUS, GREATER, LF];
    let base = c0 + m + 6;
    let c = base + variants_text(vs, level + 1).len() + 4 * level;
    lemma_selector_printable(sel);
    lemma_at(src, c0, head);
    assert(src[c0 + 0] == OPEN_BRACE);
    assert(src[c0 + 1] == SPACE);
    assert(src[c0 + 2] == it[0]) by {
        assert(src[c0 + 2] == head[2]);
    }
    assert(0x20 <= it[0]);
    assert(src[c0 + (m + 2)] == head[m + 2]);
    assert(src[c0 + (m + 3)] == head[m + 3]);
    assert(src[c0 + (m + 4)] == head[m + 4]);
    assert(src[c0 + (m + 5)] == head[m + 5]);
    assert(src.subrange(c0 + 2, c0 + 2 + m) =~= it) by {
        assert forall|k: int| 0 <= k < m implies #[trigger] src.subrange(c0 + 2, c0 + 2 + m)[k] == it[k] by {
            assert(src[c0 + (k + 2)] == head[k + 2]);
        }
    }
    assert(blank_end(src, c0 + 2) == c0 + 2);
    assert(blank_end(src, c0 + 1) == c0 + 2);
    lemma_selector_at(src, c0 + 2, sel);
    assert(blank_end(src, c0 + m + 3) == c0 + m + 3);
    assert(blank_end(src, c0 + m + 2) == c0 + m + 3);
    lemma_span_exact(src, c0 + m + 5, c0 + m + 5, ByteClass::Space);
    assert(crate::parser::ftlstream::eol_len(src, c0 + m + 5) == 1);
    let first = if vs.len() > 0 {
        base + 4 * (level + 1)
    } else {
        c
    };
    let d = choose|d: int|
        0 <= d < vs.len() && vs[d].default && forall|j: int| 0 <= j < vs.len() && j != d ==> !(#[trigger] vs[j]).default;
    assert(vs.len() > 0);
    lemma_variant_at(src, base, vs, 0, level + 1);
    assert(vs.take(0) =~= Seq::<Variant>::empty());
    assert(variants_text(vs.take(0), level + 1).len() == 0);
    let line0 = variant_line(vs[0], level + 1);
    lemma_at(src, base, line0);
    assert forall|j: int| base <= j < first implies #[trigger] src[j] == SPACE by {
        assert(src[base + (j - base)] == line0[j - base]);
    }
    assert(src[base + 4 * (level + 1)] == line0[4 * (level + 1) as int]);
    lemma_blank_end_spaces(src, base, first);
    lemma_read_variants(src, base, vs, 0, level + 1);
    assert(!(exists|j: int| 0 <= j < 0 && (#[trigger] vs[j]).default));
    assert(crate::parser::grammar::expression(src, c0 + 2) == Ok::<_, (Error, int)>(
        (Expression::Select { selector: sel, variants: vs }, c),
    ));
    lemma_span_exact(src, c, c, ByteClass::Space);
}

/// A select expression alone as a value after `=`, from its line feed, then a line feed
/// and a stop: read as the value.
#[verifier::rlimit(100)]
#[verifier::spinoff_prover]
proof fn lemma_select_pattern(src: Seq<u8>, a: int, p: Pattern, level: nat)
    requires
        select_value(p),
        level >= 1,
        0 <= a,
        a + 1 + select_text(
            p.elements[0]->Placeable_0->Select_selector,
            p.elements[0]->Placeable_0->Select_variants,
            level,
        ).len() < src.len(),
        src[a] == LF,
        src.subrange(
            a + 1,
            a + 1 + select_text(
                p.elements[0]->Placeable_0->Select_selector,
                p.elements[0]->Placeable_0->Select_variants,
                level,
            ).len(),
        ) == select_text(p.elements[0]->Placeable_0->Select_selector, p.elements[0]->Placeable_0->Select_variants, level),
        src[a + 1 + select_text(
            p.elements[0]->Placeable_0->Select_selector,
            p.elements[0]->Placeable_0->Select_variants,
            level,
        ).len()] == LF,
        value_stop(
            src,
            a + 1 + select_text(
                p.elements[0]->Placeable_0->Select_selector,
                p.elements[0]->Placeable_0->Select_variants,
                level,
            ).len() + 1,
        ),
    ensures
        pattern(src, a) == Ok::<_, (Error, int)>(
            (
                Some(p),
                stop_end(
                    src,
                    a + 1 + select_text(
                        p.elements[0]->Placeable_0->Select_selector,
                        p.elements[0]->Placeable_0->Select_variants,
                        level,
                    ).len() + 1,
                ),
            ),
        ),
{
    reveal(select_value);
    let x = p.elements[0]->Placeable_0;
    let sel = x->Select_selector;
    let vs = x->Select_variants;
    assert(x == Expression::Select { selector: sel, variants: vs });
    let t = select_text(sel, vs, level);
    let ind = 4 * level as int;
    let it = selector_text(sel);
    let m = it.len() as int;
    let vt = variants_text(vs, level + 1);
    let end = a + 1 + t.len();
    let c0 = a + 1 + ind;
    assert(t.len() == ind + m + 6 + vt.len() + ind + 1);
    lemma_at(src, a + 1, t);
    assert forall|j: int| a + 1 <= j < c0 implies #[trigger] src[j] == SPACE by {
        assert(src[a + 1 + (j - a - 1)] == t[j - a - 1]);
    }
    assert(src[c0] == OPEN_BRACE) by {
        assert(src[a + 1 + ind] == t[ind]);
    }
    let head = seq![OPEN_BRACE, SPACE] + it + seq![SPACE, MINUS, GREATER, LF];
    assert(src.subrange(c0, c0 + m + 6) =~= head) by {
        assert forall|k: int| 0 <= k < m + 6 implies #[trigger] src.subrange(c0, c0 + m + 6)[k] == head[k] by {
            assert(src[a + 1 + (ind + k)] == t[ind + k]);
        }
    }
    let base = c0 + m + 6;
    assert(src.subrange(base, base + vt.len()) =~= vt) by {
        assert forall|k: int| 0 <= k < vt.len() implies #[trigger] src.subrange(base, base + vt.len())[k] == vt[k] by {
            assert(src[a + 1 + (ind + m + 6 + k)] == t[ind + m + 6 + k]);
        }
    }
    assert forall|j: int| base + vt.len() <= j < base + vt.len() + ind implies #[trigger] src[j] == SPACE by {
        assert(src[a + 1 + (j - a - 1)] == t[j - a - 1]);
    }
    assert(src[base + vt.len() + ind] == CLOSE_BRACE) by {
        assert(src[a + 1 + (t.len() - 1)] == t[t.len() - 1]);
    }
    lemma_select_placeable(src, c0, sel, vs, level);
    assert(end == base + vt.len() + ind + 1);
    lemma_span_exact(src, a, a, ByteClass::Space);
    lemma_span_exact(src, a + 1, c0, ByteClass::Space);
    assert(crate::parser::ftlstream::eol_len(src, a) == 1);
    assert(crate::parser::ftlstream::eol_len(src, c0) == 0);
    assert(blank_block(src, a + 1) == (0int, a + 1));
    let st0 = PatternState {
        elements: Seq::empty(),
        last_non_blank: None,
        common_indent: None,
        role: TextElementPosition::LineStart,
    };
    lemma_text_delimiter(src, c0, c0);
    assert(src.subrange(c0, c0) =~= Seq::<u8>::empty());
    let st1 = PatternState { role: TextElementPosition::Continuation, ..st0 };
    assert(pattern_from(src, a + 1, st0) == pattern_from(src, c0, st1));
    let st2 = PatternState {
        elements: seq![Placeholder::Placeable(x)],
        last_non_blank: Some(0int),
        common_indent: None,
        role: TextElementPosition::Continuation,
    };
    assert(st1.elements.push(Placeholder::Placeable(x)) =~= st2.elements);
    assert(pattern_from(src, c0, st1) == pattern_from(src, end, st2));
    lemma_text_delimiter(src, end, end);
    assert(src.subrange(end, end) =~= Seq::<u8>::empty());
    let st3 = PatternState {
        elements: st2.elements.push(Placeholder::Text(end, end + 1, 0, TextElementPosition::Continuation)),
        last_non_blank: Some(0int),
        common_indent: None,
        role: TextElementPosition::LineStart,
    };
    assert(pattern_from(src, end, st2) == pattern_from(src, end + 1, st3));
    lemma_pattern_end(src, end + 1, st3);
    let r = pattern_from(src, end + 1, st3)->Ok_0.0;
    assert(r.elements[0] == st3.elements[0]);
    assert(finish_pattern(src, r, 0) =~= p.elements);
}

/// A value of several lines after `=`, from its line feed, then a line feed and a stop:
/// read as the value.
#[verifier::rlimit(100)]
#[verifier::spinoff_prover]
proof fn lemma_block_pattern(src: Seq<u8>, a: int, p: Pattern, level: nat)
    requires
        multiline_value(p),
        level >= 1,
        0 <= a,
        a + 1 + block_text(p.elements, level).len() < src.len(),
        src[a] == LF,
        src.subrange(a + 1, a + 1 + block_text(p.elements, level).len()) == block_text(p.elements, level),
        src[a + 1 + block_text(p.elements, level).len()] == LF,
        value_stop(src, a + 1 + block_text(p.elements, level).len() + 1),
    ensures
        pattern(src, a) == Ok::<_, (Error, int)>(
            (Some(p), stop_end(src, a + 1 + block_text(p.elements, level).len() + 1)),
        ),
{
    reveal(multiline_value);
    let es = p.elements;
    let ind = 4 * level as int;
    let block = block_text(es, level);
    assert(es.take(0) =~= Seq::<PatternElement>::empty());
    assert(block_text(es.take(0), level).len() == 0);
    lemma_block_prefix(es, 1, level);
    assert(es.take(1).drop_last() =~= es.take(0));
    let t0 = es[0]->Text_0;
    assert(es.take(1).last() == es[0]);
    let piece = indentation(level) + t0;
    assert(block_text(es.take(1), level) =~= piece);
    assert(src.subrange(a + 1, a + 1 + piece.len()) == piece) by {
        assert(src.subrange(a + 1, a + 1 + piece.len()) =~= src.subrange(a + 1, a + 1 + block.len()).subrange(0, piece.len() as int));
    }
    lemma_at(src, a + 1, piece);
    let l0 = t0.drop_last();
    assert(block_line(l0));
    assert(t0[0] == l0[0]);
    assert(crate::text::ws_prefix_len(t0) == 0);
    assert forall|j: int| a + 1 <= j < a + 1 + ind implies #[trigger] src[j] == SPACE by {
        assert(src[a + 1 + (j - a - 1)] == piece[j - a - 1]);
    }
    assert(src[a + 1 + ind] == t0[0]) by {
        assert(src[a + 1 + ind] == piece[ind]);
    }
    assert(line_byte(l0[0]) && l0[0] != SPACE);
    lemma_span_exact(src, a + 1, a + 1 + ind, ByteClass::Space);
    lemma_span_exact(src, a, a, ByteClass::Space);
    assert(crate::parser::ftlstream::eol_len(src, a) == 1);
    assert(crate::parser::ftlstream::eol_len(src, a + 1 + ind) == 0);
    assert(blank_block(src, a + 1) == (0int, a + 1));
    let st0 = PatternState {
        elements: Seq::empty(),
        last_non_blank: None,
        common_indent: None,
        role: TextElementPosition::LineStart,
    };
    assert(Pattern { elements: es } == p);
    lemma_read_lines(src, a + 1, a + 1, st0, es, 0, level);
    let st = pattern_from(src, a + 1, st0)->Ok_0.0;
    assert(finish_pattern(src, st, es.len() - 1) =~= es);
}

/// A variant's value after its key at `a`, then a line feed and a stop: read as the
/// value.
proof fn lemma_variant_value_pattern(src: Seq<u8>, a: int, p: Pattern, level: nat)
    requires
        inline_value(p) || multiline_value(p),
        level >= 1,
        0 <= a,
        a + variant_value_text(p, level).len() + 1 <= src.len(),
        src.subrange(a, a + variant_value_text(p, level).len()) == variant_value_text(p, level),
        src[a + variant_value_text(p, level).len()] == LF,
        value_stop(src, a + variant_value_text(p, level).len() + 1),
    ensures
        pattern(src, a) == Ok::<_, (Error, int)>(
            (Some(p), stop_end(src, a + variant_value_text(p, level).len() + 1)),
        ),
{
    let vt = variant_value_text(p, level);
    lemma_at(src, a, vt);
    assert(src[a] == vt[0]) by {
        assert(src[a + 0] == vt[0]);
    }
    if multiline_value(p) {
        let b = block_text(p.elements, level);
        lemma_split(src, a, seq![LF], b);
        lemma_block_pattern(src, a, p, level);
    } else {
        let t = elements_text(p.elements);
        lemma_split(src, a, seq![SPACE], t);
        lemma_value_text_line(p);
        lemma_at(src, a + 1, t);
        assert(src[a + 1] == t[0]) by {
            assert(src[a + 1 + 0] == t[0]);
        }
        assert(line_byte(t[0]));
        lemma_inline_pattern(src, a, a + 1, p);
    }
}

/// The lines of a mixed value before its `k`-th element are a prefix of all of them.
proof fn lemma_mixed_prefix(es: Seq<PatternElement>, k: int, level: nat)
    requires
        0 <= k <= es.len(),
    ensures
        mixed_text(es.take(k), level).len() <= mixed_text(es, level).len(),
        mixed_text(es, level).subrange(0, mixed_text(es.take(k), level).len() as int) == mixed_text(es.take(k), level),
    decreases es.len(),
{
    if k == es.len() {
        assert(es.take(k) =~= es);
        assert(mixed_text(es, level).subrange(0, mixed_text(es, level).len() as int) =~= mixed_text(es, level));
    } else {
        let prev = es.drop_last();
        lemma_mixed_prefix(prev, k, level);
        assert(prev.take(k) =~= es.take(k));
        let b = mixed_text(es.take(k), level);
        assert(mixed_text(es, level).subrange(0, b.len() as int) =~= mixed_text(prev, level).subrange(0, b.len() as int));
    }
}

/// Where element `k` of a mixed value lies, once the value's lines are at `base`.
proof fn lemma_mixed_at(src: Seq<u8>, base: int, es: Seq<PatternElement>, k: int, level: nat)
    requires
        0 <= k < es.len(),
        0 <= base,
        base + mixed_text(es, level).len() <= src.len(),
        src.subrange(base, base + mixed_text(es, level).len()) == mixed_text(es, level),
    ensures
        mixed_text(es.take(k + 1), level) == mixed_text(es.take(k), level) + (if starts_line(es, k) {
            indentation(level)
        } else {
            Seq::empty()
        }) + piece_text(es[k], level),
        mixed_text(es.take(k + 1), level).len() <= mixed_text(es, level).len(),
        src.subrange(
            base + mixed_text(es.take(k), level).len(),
            base + mixed_text(es.take(k + 1), level).len(),
        ) == (if starts_line(es, k) {
            indentation(level)
        } else {
            Seq::empty()
        }) + piece_text(es[k], level),
{
    let t1 = es.take(k + 1);
    assert(t1.drop_last() =~= es.take(k));
    assert(t1.last() == es[k]);
    if k > 0 {
        assert(t1[k - 1] == es[k - 1]);
    }
    assert(starts_line(t1, k) == starts_line(es, k));
    lemma_mixed_prefix(es, k + 1, level);
    let b0 = mixed_text(es.take(k), level);
    let b1 = mixed_text(t1, level);
    let all = mixed_text(es, level);
    assert(src.subrange(base + b0.len(), base + b1.len()) =~= all.subrange(0, b1.len() as int).subrange(
        b0.len() as int,
        b1.len() as int,
    ));
}

/// A text of a mixed value holds only spaces before its line feed.
pub open spec fn mixed_blank(t: Seq<u8>) -> bool {
    text_type(
        if t.len() > 0 && t.last() == LF {
            t.drop_last()
        } else {
            t
        },
    ) is Blank
}

/// The index of the last of the first `k` elements of a mixed value that is not a text
/// of spaces.
pub open spec fn mixed_last_nonblank(es: Seq<PatternElement>, k: int) -> Option<int>
    decreases k,
{
    if k <= 0 {
        None
    } else if es[k - 1] is Text && mixed_blank(es[k - 1]->Text_0) {
        mixed_last_nonblank(es, k - 1)
    } else {
        Some(k - 1)
    }
}

/// The state of reading a mixed value once its first `k` elements are read.
pub open spec fn mixed_read(src: Seq<u8>, st: PatternState, es: Seq<PatternElement>, k: int, ind: int) -> bool {
    &&& st.elements.len() == k
    &&& st.role == if starts_line(es, k) {
        TextElementPosition::LineStart
    } else {
        TextElementPosition::Continuation
    }
    &&& (st.common_indent is None || st.common_indent == Some(ind))
    &&& st.last_non_blank == mixed_last_nonblank(es, k)
    &&& forall|j: int|
        0 <= j < k && (#[trigger] st.elements[j] matches Placeholder::Text(_, _, _, r) && r is LineStart)
            ==> st.common_indent == Some(ind)
    &&& forall|j: int|
        0 <= j < k ==> finish_element(src, #[trigger] st.elements[j], Some(ind), j == es.len() - 1) == es[j]
}

/// Reading one more element keeps what was read before.
proof fn lemma_mixed_read_push(
    src: Seq<u8>,
    st: PatternState,
    st2: PatternState,
    es: Seq<PatternElement>,
    k: int,
    ind: int,
    ph: Placeholder,
)
    requires
        mixed_read(src, st, es, k, ind),
        0 <= k < es.len(),
        st2.elements == st.elements.push(ph),
        st2.role == if starts_line(es, k + 1) {
            TextElementPosition::LineStart
        } else {
            TextElementPosition::Continuation
        },
        st2.common_indent is None || st2.common_indent == Some(ind),
        st.common_indent == Some(ind) ==> st2.common_indent == Some(ind),
        (ph matches Placeholder::Text(_, _, _, r) && r is LineStart) ==> st2.common_indent == Some(ind),
        st2.last_non_blank == mixed_last_nonblank(es, k + 1),
        finish_element(src, ph, Some(ind), k == es.len() - 1) == es[k],
    ensures
        mixed_read(src, st2, es, k + 1, ind),
{
    assert forall|j: int|
        0 <= j < k + 1 && (#[trigger] st2.elements[j] matches Placeholder::Text(_, _, _, r) && r is LineStart)
            implies st2.common_indent == Some(ind) by {
        if j < k {
            assert(st2.elements[j] == st.elements[j]);
        }
    }
    assert forall|j: int| 0 <= j < k + 1 implies finish_element(src, #[trigger] st2.elements[j], Some(ind), j == es.len() - 1)
        == es[j] by {
        if j < k {
            assert(st2.elements[j] == st.elements[j]);
        }
    }
}

/// What reading a whole mixed value yields: where it stops, and elements that finish as
/// the value's.
pub open spec fn mixed_done(
    src: Seq<u8>,
    r: Result<(PatternState, int), (Error, int)>,
    es: Seq<PatternElement>,
    stop: int,
    ind: int,
) -> bool {
    &&& r is Ok
    &&& r->Ok_0.1 == stop
    &&& r->Ok_0.0.elements.len() >= es.len()
    &&& r->Ok_0.0.last_non_blank == mixed_last_nonblank(es, es.len() as int)
    &&& (r->Ok_0.0.common_indent is None || r->Ok_0.0.common_indent == Some(ind))
    &&& forall|j: int|
        0 <= j < es.len() && (#[trigger] r->Ok_0.0.elements[j] matches Placeholder::Text(_, _, _, rr)
            && rr is LineStart) ==> r->Ok_0.0.common_indent == Some(ind)
    &&& forall|j: int|
        0 <= j < es.len() ==> finish_element(src, #[trigger] r->Ok_0.0.elements[j], Some(ind), j == es.len() - 1) == es[j]
}

/// Reading a text of a mixed value.
#[verifier::rlimit(100)]
#[verifier::spinoff_prover]
proof fn lemma_mixed_text_step(
    src: Seq<u8>,
    base: int,
    q: int,
    st: PatternState,
    es: Seq<PatternElement>,
    k: int,
    level: nat,
) -> (r: (int, PatternState))
    requires
        mixed_value(Pattern { elements: es }),
        level >= 1,
        0 <= k < es.len(),
        0 <= base,
        base + mixed_text(es, level).len() < src.len(),
        src.subrange(base, base + mixed_text(es, level).len()) == mixed_text(es, level),
        src[base + mixed_text(es, level).len()] == LF,
        value_stop(src, base + mixed_text(es, level).len() + 1),
        q == base + mixed_text(es.take(k), level).len(),
        mixed_read(src, st, es, k, 4 * level as int),
        es[k] is Text,
    ensures
        k < es.len() - 1 ==> pattern_from(src, q, st) == pattern_from(src, r.0, r.1) && r.0 == base + mixed_text(
            es.take(k + 1),
            level,
        ).len() && mixed_read(src, r.1, es, k + 1, 4 * level as int),
        k == es.len() - 1 ==> mixed_done(
            src,
            pattern_from(src, q, st),
            es,
            stop_end(src, base + mixed_text(es, level).len() + 1),
            4 * level as int,
        ),
{
    reveal(mixed_value);
    let ind = 4 * level as int;
    let e = es[k];
    let last = k == es.len() - 1;
    let at = starts_line(es, k);
    assert(mixed_element(es, k));
    lemma_mixed_at(src, base, es, k, level);
    let lead = if at {
        indentation(level)
    } else {
        Seq::<u8>::empty()
    };
    let pt = piece_text(e, level);
    let seg = lead + pt;
    let pp = q + lead.len();
    let qn = pp + pt.len();
    assert(qn == base + mixed_text(es.take(k + 1), level).len());
    lemma_at(src, q, seg);
    assert(src.subrange(pp, qn) =~= pt) by {
        assert forall|j: int| 0 <= j < pt.len() implies #[trigger] src.subrange(pp, qn)[j] == pt[j] by {
            assert(src[q + (lead.len() + j)] == seg[lead.len() + j]);
        }
    }
    lemma_at(src, pp, pt);
    if at {
        assert forall|j: int| q <= j < pp implies #[trigger] src[j] == SPACE by {
            assert(src[q + (j - q)] == seg[j - q]);
        }
    }
    if last {
        assert(es.take(k + 1) =~= es);
        assert(qn == base + mixed_text(es, level).len());
    } else {
        lemma_mixed_at(src, base, es, k + 1, level);
    }
    let t = e->Text_0;
    let ends_lf = t.last() == LF;
    let u = if ends_lf {
        t.drop_last()
    } else {
        t
    };
    let q1 = pp;
    let i = if ends_lf {
        q1 + t.len() - 1
    } else {
        q1 + t.len()
    };
    assert forall|j: int| q1 <= j < i implies src[j] != LF && src[j] != OPEN_BRACE && src[j] != CLOSE_BRACE by {
        assert(src[pp + (j - pp)] == pt[j - pp]);
    }
    if ends_lf {
        assert(src[pp + (t.len() - 1)] == pt[t.len() - 1]);
        assert(src[i] == LF);
    } else if !last {
        assert(es[k + 1] is Placeable) by {
            if es[k + 1] is Text {
                assert(mixed_element(es, k));
            }
        }
        assert(!starts_line(es, k + 1));
        let pt2 = piece_text(es[k + 1], level);
        assert(Seq::<u8>::empty() + pt2 =~= pt2);
        match es[k + 1] {
            PatternElement::Placeable(x2) => {
                match x2 {
                    Expression::Select { selector, variants } => {
                        assert(pt2 == select_body(selector, variants, level));
                    },
                    Expression::Inline(i2) => {
                        match i2 {
                            InlineExpression::Placeable(b2) => {
                                assert(mixed_element(es, k + 1));
                            },
                            _ => {},
                        }
                    },
                }
            },
            _ => {},
        }
        assert(pt2.len() > 0 && pt2[0] == OPEN_BRACE);
        lemma_at(src, qn, pt2);
        assert(src[qn + 0] == pt2[0]);
        assert(src[i] == OPEN_BRACE);
    } else {
        assert(src[i] == LF);
    }
    lemma_text_delimiter(src, q1, i);
    if i > q1 {
        assert(src[i - 1] == t[i - 1 - q1]) by {
            assert(src[pp + (i - 1 - pp)] == pt[i - 1 - pp]);
        }
        assert(src[i - 1] != CR);
    }
    assert(src.subrange(q1, i) =~= u) by {
        assert forall|j: int| 0 <= j < u.len() implies #[trigger] src.subrange(q1, i)[j] == u[j] by {
            assert(src[pp + j] == pt[j]);
        }
    }
    if at {
        assert(crate::text::ws_prefix_len(t) == 0);
        assert(t[0] != SPACE);
        assert(src[pp] == t[0]) by {
            assert(src[pp + 0] == pt[0]);
        }
        lemma_span_exact(src, q, pp, ByteClass::Space);
        assert(u.len() > 0 && u[0] == t[0]);
        assert(text_type(u) == TextElementType::NonBlank);
    }
    if last {
        assert(crate::text::ws_suffix_len(t) == 0);
        assert(t[t.len() - 1] != SPACE);
        assert(text_type(t) == TextElementType::NonBlank);
    }
    let end = if ends_lf || last {
        i + 1
    } else {
        i
    };
    let next = end;
    let ty = text_type(u);
    let nonblank = ty is NonBlank;
    let ci = if at && nonblank {
        Some(ind)
    } else {
        st.common_indent
    };
    let ph = Placeholder::Text(q, end, if at {
        ind
    } else {
        0
    }, st.role);
    let lnb = if nonblank {
        Some(k)
    } else {
        st.last_non_blank
    };
    let role = if ends_lf || last {
        TextElementPosition::LineStart
    } else {
        TextElementPosition::Continuation
    };
    let st2 = PatternState { elements: st.elements.push(ph), last_non_blank: lnb, common_indent: ci, role };
    assert(mixed_blank(t) == !nonblank);
    assert(pattern_from(src, q, st) == pattern_from(src, next, st2));
    if ends_lf {
        assert(src.subrange(q1, i + 1) =~= t);
    } else if last {
        assert(src.subrange(q1, i + 1) =~= t.push(LF));
        lemma_trim_plain(t);
    } else {
        assert(src.subrange(q1, i) =~= t);
    }
    assert(finish_element(src, ph, Some(ind), last) == es[k]);
    if last {
        lemma_pattern_end(src, next, st2);
        let r = pattern_from(src, next, st2)->Ok_0.0;
        assert forall|j: int| 0 <= j < es.len() implies finish_element(src, #[trigger] r.elements[j], Some(ind), j == es.len() - 1) == es[j] by {
            assert(r.elements[j] == st2.elements[j]);
            if j < k {
                assert(st2.elements[j] == st.elements[j]);
            }
        }
        assert forall|j: int|
            0 <= j < es.len() && (#[trigger] r.elements[j] matches Placeholder::Text(_, _, _, rr) && rr is LineStart)
                implies r.common_indent == Some(ind) by {
            assert(r.elements[j] == st2.elements[j]);
            if j < k {
                assert(st2.elements[j] == st.elements[j]);
            }
        }
    } else {
        lemma_mixed_read_push(src, st, st2, es, k, ind, ph);
    }
    (next, st2)
}

/// Reading a placeable of a mixed value.
#[verifier::rlimit(100)]
#[verifier::spinoff_prover]
proof fn lemma_mixed_placeable_step(
    src: Seq<u8>,
    base: int,
    q: int,
    st: PatternState,
    es: Seq<PatternElement>,
    k: int,
    level: nat,
) -> (r: (int, PatternState))
    requires
        mixed_value(Pattern { elements: es }),
        level >= 1,
        0 <= k < es.len(),
        0 <= base,
        base + mixed_text(es, level).len() < src.len(),
        src.subrange(base, base + mixed_text(es, level).len()) == mixed_text(es, level),
        src[base + mixed_text(es, level).len()] == LF,
        value_stop(src, base + mixed_text(es, level).len() + 1),
        q == base + mixed_text(es.take(k), level).len(),
        mixed_read(src, st, es, k, 4 * level as int),
        es[k] is Placeable,
    ensures
        k < es.len() - 1 ==> pattern_from(src, q, st) == pattern_from(src, r.0, r.1) && r.0 == base + mixed_text(
            es.take(k + 1),
            level,
        ).len() && mixed_read(src, r.1, es, k + 1, 4 * level as int),
        k == es.len() - 1 ==> mixed_done(
            src,
            pattern_from(src, q, st),
            es,
            stop_end(src, base + mixed_text(es, level).len() + 1),
            4 * level as int,
        ),
{
    reveal(mixed_value);
    let ind = 4 * level as int;
    let e = es[k];
    let last = k == es.len() - 1;
    let at = starts_line(es, k);
    assert(mixed_element(es, k));
    lemma_mixed_at(src, base, es, k, level);
    let lead = if at {
        indentation(level)
    } else {
        Seq::<u8>::empty()
    };
    let pt = piece_text(e, level);
    let seg = lead + pt;
    let pp = q + lead.len();
    let qn = pp + pt.len();
    assert(qn == base + mixed_text(es.take(k + 1), level).len());
    lemma_at(src, q, seg);
    assert(src.subrange(pp, qn) =~= pt) by {
        assert forall|j: int| 0 <= j < pt.len() implies #[trigger] src.subrange(pp, qn)[j] == pt[j] by {
            assert(src[q + (lead.len() + j)] == seg[lead.len() + j]);
        }
    }
    lemma_at(src, pp, pt);
    if at {
        assert forall|j: int| q <= j < pp implies #[trigger] src[j] == SPACE by {
            assert(src[q + (j - q)] == seg[j - q]);
        }
    }
    if last {
        assert(es.take(k + 1) =~= es);
        assert(qn == base + mixed_text(es, level).len());
    } else {
        lemma_mixed_at(src, base, es, k + 1, level);
    }
    let x = e->Placeable_0;
    assert(src[pp] == pt[0]) by {
        assert(src[pp + 0] == pt[0]);
    }
    let st1 = PatternState { role: TextElementPosition::Continuation, ..st };
    if at {
        lemma_span_exact(src, q, pp, ByteClass::Space);
        lemma_text_delimiter(src, pp, pp);
        assert(src.subrange(pp, pp) =~= Seq::<u8>::empty());
        assert(pattern_from(src, q, st) == pattern_from(src, pp, st1));
    } else {
        assert(st1 == st);
    }
    if select_placeable(x) {
        let sel = x->Select_selector;
        let vs = x->Select_variants;
        assert(x == Expression::Select { selector: sel, variants: vs });
        let it = selector_text(sel);
        let vt = variants_text(vs, level + 1);
        assert(pt == select_body(sel, vs, level));
        assert(pt.len() == it.len() + 6 + vt.len() + ind + 1);
        let head = seq![OPEN_BRACE, SPACE] + it + seq![SPACE, MINUS, GREATER, LF];
        assert(src.subrange(pp, pp + it.len() + 6) =~= head) by {
            assert forall|j: int| 0 <= j < it.len() + 6 implies #[trigger] src.subrange(pp, pp + it.len() + 6)[j] == head[j] by {
                assert(src[pp + j] == pt[j]);
            }
        }
        let b0 = pp + it.len() + 6;
        assert(src.subrange(b0, b0 + vt.len()) =~= vt) by {
            assert forall|j: int| 0 <= j < vt.len() implies #[trigger] src.subrange(b0, b0 + vt.len())[j] == vt[j] by {
                assert(src[pp + (it.len() + 6 + j)] == pt[it.len() + 6 + j]);
            }
        }
        assert forall|j: int| b0 + vt.len() <= j < b0 + vt.len() + ind implies #[trigger] src[j] == SPACE by {
            assert(src[pp + (j - pp)] == pt[j - pp]);
        }
        assert(src[b0 + vt.len() + ind] == CLOSE_BRACE) by {
            assert(src[pp + (pt.len() - 1)] == pt[pt.len() - 1]);
        }
        lemma_select_placeable(src, pp, sel, vs, level);
    } else {
        assert(plain_element(e));
        assert(pt == element_text(e));
        lemma_plain_placeable(src, pp, x);
    }
    let st2 = PatternState {
        elements: st.elements.push(Placeholder::Placeable(x)),
        last_non_blank: Some(k),
        common_indent: st.common_indent,
        role: TextElementPosition::Continuation,
    };
    assert(pattern_from(src, pp, st1) == pattern_from(src, qn, st2));
    assert(finish_element(src, Placeholder::Placeable(x), Some(ind), last) == es[k]);
    if last {
        lemma_text_delimiter(src, qn, qn);
        assert(src.subrange(qn, qn) =~= Seq::<u8>::empty());
        let st3 = PatternState {
            elements: st2.elements.push(Placeholder::Text(qn, qn + 1, 0, TextElementPosition::Continuation)),
            last_non_blank: Some(k),
            common_indent: st.common_indent,
            role: TextElementPosition::LineStart,
        };
        assert(pattern_from(src, qn, st2) == pattern_from(src, qn + 1, st3));
        lemma_pattern_end(src, qn + 1, st3);
        let r = pattern_from(src, qn + 1, st3)->Ok_0.0;
        assert forall|j: int| 0 <= j < es.len() implies finish_element(src, #[trigger] r.elements[j], Some(ind), j == es.len() - 1) == es[j] by {
            assert(r.elements[j] == st3.elements[j]);
            assert(st3.elements[j] == st2.elements[j]);
            if j < k {
                assert(st2.elements[j] == st.elements[j]);
            }
        }
        assert forall|j: int|
            0 <= j < es.len() && (#[trigger] r.elements[j] matches Placeholder::Text(_, _, _, rr) && rr is LineStart)
                implies r.common_indent == Some(ind) by {
            assert(r.elements[j] == st3.elements[j]);
            assert(st3.elements[j] == st2.elements[j]);
            if j < k {
                assert(st2.elements[j] == st.elements[j]);
            }
        }
    } else {
        assert(!starts_line(es, k + 1));
        lemma_mixed_read_push(src, st, st2, es, k, ind, Placeholder::Placeable(x));
    }
    (qn, st2)
}

/// The elements of a mixed value from the `k`-th on, then a line feed and a stop.
proof fn lemma_read_mixed(
    src: Seq<u8>,
    base: int,
    q: int,
    st: PatternState,
    es: Seq<PatternElement>,
    k: int,
    level: nat,
)
    requires
        mixed_value(Pattern { elements: es }),
        level >= 1,
        0 <= k < es.len(),
        0 <= base,
        base + mixed_text(es, level).len() < src.len(),
        src.subrange(base, base + mixed_text(es, level).len()) == mixed_text(es, level),
        src[base + mixed_text(es, level).len()] == LF,
        value_stop(src, base + mixed_text(es, level).len() + 1),
        q == base + mixed_text(es.take(k), level).len(),
        mixed_read(src, st, es, k, 4 * level as int),
    ensures
        mixed_done(
            src,
            pattern_from(src, q, st),
            es,
            stop_end(src, base + mixed_text(es, level).len() + 1),
            4 * level as int,
        ),
    decreases es.len() - k,
{
    let r = if es[k] is Text {
        lemma_mixed_text_step(src, base, q, st, es, k, level)
    } else {
        lemma_mixed_placeable_step(src, base, q, st, es, k, level)
    };
    if k < es.len() - 1 {
        lemma_read_mixed(src, base, r.0, r.1, es, k + 1, level);
    }
}

/// A mixed value after `=`, from its line feed, then a line feed and a stop: read as the
/// value.
#[verifier::rlimit(100)]
#[verifier::spinoff_prover]
proof fn lemma_mixed_pattern(src: Seq<u8>, a: int, p: Pattern, level: nat)
    requires
        mixed_value(p),
        level >= 1,
        0 <= a,
        a + 1 + mixed_text(p.elements, level).len() < src.len(),
        src[a] == LF,
        src.subrange(a + 1, a + 1 + mixed_text(p.elements, level).len()) == mixed_text(p.elements, level),
        src[a + 1 + mixed_text(p.elements, level).len()] == LF,
        value_stop(src, a + 1 + mixed_text(p.elements, level).len() + 1),
    ensures
        pattern(src, a) == Ok::<_, (Error, int)>(
            (Some(p), stop_end(src, a + 1 + mixed_text(p.elements, level).len() + 1)),
        ),
{
    reveal(mixed_value);
    let es = p.elements;
    let ind = 4 * level as int;
    lemma_mixed_at(src, a + 1, es, 0, level);
    assert(es.take(0) =~= Seq::<PatternElement>::empty());
    assert(mixed_text(es.take(0), level).len() == 0);
    let pt = piece_text(es[0], level);
    let seg = indentation(level) + pt;
    assert(mixed_element(es, 0));
    assert(starts_line(es, 0));
    match es[0] {
        PatternElement::Text(t) => {
            assert(crate::text::ws_prefix_len(t) == 0);
        },
        PatternElement::Placeable(x) => {
            match x {
                Expression::Select { selector, variants } => {
                    assert(pt == select_body(selector, variants, level));
                },
                Expression::Inline(i2) => {
                    match i2 {
                        InlineExpression::Placeable(b2) => {},
                        _ => {},
                    }
                },
            }
            assert(pt[0] == OPEN_BRACE);
        },
    }
    assert(pt.len() > 0);
    assert(mixed_text(es.take(0), level) =~= Seq::<u8>::empty());
    assert(mixed_text(es.take(1), level) =~= seg);
    lemma_at(src, a + 1, seg);
    assert forall|j: int| a + 1 <= j < a + 1 + ind implies #[trigger] src[j] == SPACE by {
        assert(src[a + 1 + (j - a - 1)] == seg[j - a - 1]);
    }
    assert(src[a + 1 + ind] == pt[0]) by {
        assert(src[a + 1 + ind] == seg[ind]);
    }
    lemma_span_exact(src, a + 1, a + 1 + ind, ByteClass::Space);
    lemma_span_exact(src, a, a, ByteClass::Space);
    assert(crate::parser::ftlstream::eol_len(src, a) == 1);
    assert(crate::parser::ftlstream::eol_len(src, a + 1 + ind) == 0);
    assert(blank_block(src, a + 1) == (0int, a + 1));
    let st0 = PatternState {
        elements: Seq::empty(),
        last_non_blank: None,
        common_indent: None,
        role: TextElementPosition::LineStart,
    };
    assert(Pattern { elements: es } == p);
    assert(mixed_read(src, st0, es, 0, ind));
    lemma_read_mixed(src, a + 1, a + 1, st0, es, 0, level);
    let st = pattern_from(src, a + 1, st0)->Ok_0.0;
    let n = es.len() as int;
    assert(mixed_element(es, n - 1));
    assert(es.last() == es[n - 1]);
    if es[n - 1] is Text {
        let t = es[n - 1]->Text_0;
        assert(t[t.len() - 1] != SPACE);
        assert(!mixed_blank(t));
    }
    assert(mixed_last_nonblank(es, n) == Some(n - 1));
    assert forall|j: int| 0 <= j < n implies finish_element(src, #[trigger] st.elements[j], st.common_indent, j == n - 1)
        == es[j] by {
        assert(finish_element(src, st.elements[j], Some(ind), j == n - 1) == es[j]);
        match st.elements[j] {
            Placeholder::Text(_, _, _, r) => {
                if r is LineStart {
                    assert(st.common_indent == Some(ind));
                }
            },
            _ => {},
        }
    }
    assert(finish_pattern(src, st, n - 1) =~= es);
}

/// A plain value after `=` at `a`, then a line feed and a stop: read as the value, from
/// `a` or past the spaces there.
#[verifier::rlimit(100)]
#[verifier::spinoff_prover]
proof fn lemma_plain_pattern(src: Seq<u8>, a: int, p: Pattern, level: nat)
    requires
        plain_value(p),
        level >= 1,
        0 <= a,
        a + value_text(p, level).len() + 1 <= src.len(),
        src.subrange(a, a + value_text(p, level).len()) == value_text(p, level),
        src[a + value_text(p, level).len()] == LF,
        value_stop(src, a + value_text(p, level).len() + 1),
    ensures
        pattern(src, a) == Ok::<_, (Error, int)>((Some(p), stop_end(src, a + value_text(p, level).len() + 1))),
        pattern(src, spaces_end(src, a)) == Ok::<_, (Error, int)>(
            (Some(p), stop_end(src, a + value_text(p, level).len() + 1)),
        ),
{
    let vt = value_text(p, level);
    lemma_at(src, a, vt);
    assert(src[a] == vt[0]) by {
        assert(src[a + 0] == vt[0]);
    }
    if multiline_value(p) {
        let b = block_text(p.elements, level);
        lemma_split(src, a, seq![LF], b);
        lemma_span_exact(src, a, a, ByteClass::Space);
        lemma_block_pattern(src, a, p, level);
    } else if select_value(p) {
        let b = select_text(p.elements[0]->Placeable_0->Select_selector, p.elements[0]->Placeable_0->Select_variants, level);
        lemma_split(src, a, seq![LF], b);
        lemma_span_exact(src, a, a, ByteClass::Space);
        lemma_select_pattern(src, a, p, level);
    } else if mixed_value(p) {
        let b = mixed_text(p.elements, level);
        lemma_split(src, a, seq![LF], b);
        lemma_span_exact(src, a, a, ByteClass::Space);
        lemma_mixed_pattern(src, a, p, level);
    } else {
        let t = elements_text(p.elements);
        lemma_split(src, a, seq![SPACE], t);
        lemma_value_text_line(p);
        lemma_at(src, a + 1, t);
        assert(src[a + 1] == t[0]) by {
            assert(src[a + 1 + 0] == t[0]);
        }
        assert(line_byte(t[0]));
        lemma_span_exact(src, a, a + 1, ByteClass::Space);
        lemma_inline_pattern(src, a, a + 1, p);
        lemma_inline_pattern(src, a + 1, a + 1, p);
    }
}

/// Where the parts of a value line lie in the source, and how its identifier reads.
proof fn lemma_value_line(src: Seq<u8>, p: int, id: Seq<u8>, t: Seq<u8>)
    requires
        valid_identifier(id),
        0 <= p,
        p + value_line(id, t).len() <= src.len(),
        src.subrange(p, p + value_line(id, t).len()) == value_line(id, t),
    ensures
        ({
            let n = id.len() as int;
            let tl = t.len() as int;
            &&& value_line(id, t).len() == n + 3 + tl
            &&& crate::parser::grammar::identifier(src, p) == Ok::<_, (Error, int)>((id, p + n))
            &&& span_while(src, p + n, ByteClass::Space) == p + n + 1
            &&& src[p] == id[0]
            &&& src[p + n + 1] == EQUALS
            &&& src.subrange(p + n + 2, p + n + 2 + tl) == t
            &&& src[p + n + 2 + tl] == LF
        }),
{
    let line = value_line(id, t);
    let n = id.len() as int;
    let tl = t.len() as int;
    assert(line.len() == n + 3 + tl);
    lemma_at(src, p, line);
    assert forall|k: int| 0 <= k < n implies #[trigger] src[p + k] == id[k] by {
        assert(src[p + k] == line[k]);
    }
    assert(src[p] == id[0]) by {
        assert(src[p + 0] == id[0]);
    }
    assert(src[p + n] == SPACE) by {
        assert(src[p + n] == line[n]);
    }
    assert(src[p + n + 1] == EQUALS) by {
        assert(src[p + (n + 1)] == line[n + 1]);
    }
    assert(src[p + n + 2 + tl] == LF) by {
        assert(src[p + (n + 2 + tl)] == line[n + 2 + tl]);
    }
    assert(src.subrange(p + n + 2, p + n + 2 + tl) =~= t) by {
        assert forall|k: int| 0 <= k < tl implies #[trigger] src.subrange(p + n + 2, p + n + 2 + tl)[k] == t[k] by {
            assert(src[p + (n + 2 + k)] == line[n + 2 + k]);
        }
    }
    assert forall|k: int| p + 1 <= k < p + n implies in_class(ByteClass::IdentChar, #[trigger] src[k]) by {
        assert(src[p + (k - p)] == id[k - p]);
    }
    lemma_span_exact(src, p + 1, p + n, ByteClass::IdentChar);
    assert(src.subrange(p, p + n) =~= id);
    lemma_span_exact(src, p + n, p + n + 1, ByteClass::Space);
}

/// A plain attribute's line from its `.`, then a stop, reads as the attribute.
proof fn lemma_plain_attribute(src: Seq<u8>, d: int, a: Attribute)
    requires
        plain_attribute(a),
        0 <= d,
        d + 1 + value_line(a.id, value_text(a.value, 2)).len() <= src.len(),
        src[d] == DOT,
        src.subrange(d + 1, d + 1 + value_line(a.id, value_text(a.value, 2)).len()) == value_line(
            a.id,
            value_text(a.value, 2),
        ),
        pattern_stop(src, d + 1 + value_line(a.id, value_text(a.value, 2)).len()),
    ensures
        attribute(src, d) == Ok::<_, (Error, int)>(
            (a, stop_end(src, d + 1 + value_line(a.id, value_text(a.value, 2)).len())),
        ),
{
    let t = value_text(a.value, 2);
    let n = a.id.len() as int;
    lemma_value_line(src, d + 1, a.id, t);
    lemma_plain_pattern(src, d + 1 + n + 2, a.value, 2);
}

proof fn lemma_attribute_lines_front(attrs: Seq<Attribute>)
    requires
        attrs.len() > 0,
    ensures
        attribute_lines(attrs) == attribute_line(attrs[0]) + attribute_lines(attrs.skip(1)),
    decreases attrs.len(),
{
    if attrs.len() == 1 {
        assert(attrs.skip(1) =~= Seq::<Attribute>::empty());
        assert(attrs.drop_last() =~= Seq::<Attribute>::empty());
        assert(attribute_lines(attrs) =~= attribute_line(attrs[0]) + attribute_lines(attrs.skip(1)));
    } else {
        let prev = attrs.drop_last();
        lemma_attribute_lines_front(prev);
        assert(prev.skip(1) =~= attrs.skip(1).drop_last());
        assert(attrs.skip(1).last() == attrs.last());
        assert(attribute_lines(attrs) =~= attribute_line(attrs[0]) + attribute_lines(attrs.skip(1)));
    }
}

/// What the next attribute lines begin with: an attribute line, or nothing.
proof fn lemma_lines_stop(src: Seq<u8>, q: int, attrs: Seq<Attribute>)
    requires
        0 <= q,
        q + attribute_lines(attrs).len() <= src.len(),
        src.subrange(q, q + attribute_lines(attrs).len()) == attribute_lines(attrs),
        entry_follows(src, q + attribute_lines(attrs).len()),
    ensures
        pattern_stop(src, q),
        attrs.len() > 0 ==> attribute_line_at(src, q),
{
    if attrs.len() > 0 {
        lemma_attribute_lines_front(attrs);
        let line0 = attribute_line(attrs[0]);
        lemma_at(src, q, attribute_lines(attrs));
        assert(attribute_lines(attrs)[0] == SPACE);
        assert(attribute_lines(attrs)[4] == DOT);
        assert(src[q + 0] == SPACE);
        assert(src[q + 1] == SPACE);
        assert(src[q + 2] == SPACE);
        assert(src[q + 3] == SPACE);
        assert(src[q + 4] == DOT);
    } else {
        assert(attribute_lines(attrs).len() == 0);
    }
}

proof fn lemma_attributes_step(src: Seq<u8>, q: int, d: int, q2: int, a: Attribute, acc: Seq<Attribute>)
    requires
        0 <= q < q2 <= src.len(),
        span_while(src, q, ByteClass::Space) == d,
        0 <= d < src.len(),
        src[d] == DOT,
        attribute(src, d) == Ok::<_, (Error, int)>((a, q2)),
    ensures
        attributes_from(src, q, acc) == attributes_from(src, q2, acc.push(a)),
{
}

/// Where reading stops after an entry's lines, no attribute follows.
proof fn lemma_no_more_attributes(src: Seq<u8>, q: int, acc: Seq<Attribute>)
    requires
        0 <= q <= src.len(),
        entry_follows(src, q),
    ensures
        attributes_from(src, stop_end(src, q), acc) == (acc, stop_end(src, q)),
        blank_block(src, stop_end(src, q)) == (0int, stop_end(src, q)),
{
    let e = stop_end(src, q);
    lemma_span_exact(src, e, e, ByteClass::Space);
}

/// Plain attribute lines from `q`, then what follows an entry, read as the attributes.
#[verifier::rlimit(100)]
#[verifier::spinoff_prover]
proof fn lemma_plain_attributes(src: Seq<u8>, q: int, attrs: Seq<Attribute>, acc: Seq<Attribute>)
    requires
        plain_attributes(attrs),
        attrs.len() > 0,
        0 <= q,
        q + attribute_lines(attrs).len() <= src.len(),
        src.subrange(q, q + attribute_lines(attrs).len()) == attribute_lines(attrs),
        entry_follows(src, q + attribute_lines(attrs).len()),
    ensures
        attributes_from(src, q, acc) == (acc + attrs, stop_end(src, q + attribute_lines(attrs).len())),
    decreases attrs.len(),
{
    let a0 = attrs[0];
    let rest = attrs.skip(1);
    assert(plain_attribute(attrs[0]));
    assert forall|i: int| 0 <= i < rest.len() implies plain_attribute(#[trigger] rest[i]) by {
        assert(rest[i] == attrs[i + 1]);
    }
    lemma_attribute_lines_front(attrs);
    let line0 = attribute_line(a0);
    let vl = value_line(a0.id, value_text(a0.value, 2));
    lemma_split(src, q, line0, attribute_lines(rest));
    let q2 = q + line0.len();
    assert(line0 == seq![SPACE, SPACE, SPACE, SPACE, DOT] + vl);
    lemma_split(src, q, seq![SPACE, SPACE, SPACE, SPACE, DOT], vl);
    lemma_at(src, q, seq![SPACE, SPACE, SPACE, SPACE, DOT]);
    assert(src[q + 0] == SPACE);
    assert(src[q + 4] == DOT);
    lemma_span_exact(src, q, q + 4, ByteClass::Space);
    lemma_lines_stop(src, q2, rest);
    lemma_plain_attribute(src, q + 4, a0);
    lemma_attributes_step(src, q, q + 4, stop_end(src, q2), a0, acc);
    if rest.len() > 0 {
        assert(stop_end(src, q2) == q2);
        lemma_plain_attributes(src, q2, rest, acc.push(a0));
        assert(acc.push(a0) + rest =~= acc + attrs);
    } else {
        assert(attribute_lines(rest).len() == 0);
        lemma_no_more_attributes(src, q2, acc.push(a0));
        assert(acc.push(a0) =~= acc + attrs);
    }
}

/// After a value line, at the attribute lines or at what follows the entry: no blank
/// line.
proof fn lemma_after_value(src: Seq<u8>, v: int)
    requires
        0 <= v <= src.len(),
        pattern_stop(src, v),
    ensures
        blank_block(src, stop_end(src, v)) == (0int, stop_end(src, v)),
{
    if attribute_line_at(src, v) {
        lemma_span_exact(src, v, v + 4, ByteClass::Space);
    } else {
        lemma_no_more_attributes(src, v, Seq::empty());
    }
}

/// A plain entry without its comment.
pub open spec fn uncommented(e: Entry) -> Entry {
    match e {
        Entry::Message(m) => Entry::Message(Message { comment: None, ..m }),
        Entry::Term(t) => Entry::Term(Term { comment: None, ..t }),
        _ => e,
    }
}

#[verifier::rlimit(100)]
#[verifier::spinoff_prover]
proof fn lemma_plain_message(src: Seq<u8>, p: int, m: Message)
    requires
        plain_entry(Entry::Message(m)),
        0 <= p,
        p + body_text(Entry::Message(m)).len() <= src.len(),
        src.subrange(p, p + body_text(Entry::Message(m)).len()) == body_text(Entry::Message(m)),
        entry_follows(src, p + body_text(Entry::Message(m)).len()),
    ensures
        message(src, p) == Ok::<_, (Error, int)>(
            (Message { comment: None, ..m }, stop_end(src, p + body_text(Entry::Message(m)).len())),
        ),
{
    let t = message_value_text(m.value);
    let vl = value_line(m.id, t);
    let n = m.id.len() as int;
    let al = attribute_lines(m.attributes);
    lemma_split(src, p, vl, al);
    lemma_value_line(src, p, m.id, t);
    let v = p + vl.len();
    lemma_lines_stop(src, v, m.attributes);
    match m.value {
        Some(pv) => {
            lemma_plain_pattern(src, p + n + 2, pv, 1);
        },
        None => {
            lemma_no_value(src, p + n + 2);
        },
    }
    lemma_after_value(src, v);
    if m.attributes.len() > 0 {
        lemma_plain_attributes(src, v, m.attributes, Seq::empty());
    } else {
        assert(al.len() == 0);
        lemma_no_more_attributes(src, v, Seq::empty());
    }
    assert(Seq::<Attribute>::empty() + m.attributes =~= m.attributes);
}

/// A line feed right after `=`, then an attribute line: no value.
proof fn lemma_no_value(src: Seq<u8>, a: int)
    requires
        0 <= a < src.len(),
        src[a] == LF,
        attribute_line_at(src, a + 1),
    ensures
        pattern(src, a) == Ok::<_, (Error, int)>((None::<Pattern>, a + 1)),
{
    lemma_span_exact(src, a, a, ByteClass::Space);
    lemma_span_exact(src, a + 1, a + 5, ByteClass::Space);
    assert(crate::parser::ftlstream::eol_len(src, a) == 1);
    assert(crate::parser::ftlstream::eol_len(src, a + 5) == 0);
    assert(blank_block(src, a + 1) == (0int, a + 1));
    let st0 = PatternState {
        elements: Seq::empty(),
        last_non_blank: None,
        common_indent: None,
        role: TextElementPosition::LineStart,
    };
    assert(pattern_from(src, a + 1, st0) == Ok::<_, (Error, int)>((st0, a + 1)));
}

#[verifier::rlimit(100)]
#[verifier::spinoff_prover]
proof fn lemma_plain_term(src: Seq<u8>, p: int, tm: Term)
    requires
        plain_entry(Entry::Term(tm)),
        0 <= p,
        p + body_text(Entry::Term(tm)).len() <= src.len(),
        src.subrange(p, p + body_text(Entry::Term(tm)).len()) == body_text(Entry::Term(tm)),
        entry_follows(src, p + body_text(Entry::Term(tm)).len()),
    ensures
        src[p] == MINUS,
        term(src, p) == Ok::<_, (Error, int)>(
            (Term { comment: None, ..tm }, stop_end(src, p + body_text(Entry::Term(tm)).len())),
        ),
{
    let t = value_text(tm.value, 1);
    let vl = value_line(tm.id, t);
    let n = tm.id.len() as int;
    let tl = t.len() as int;
    let al = attribute_lines(tm.attributes);
    assert(body_text(Entry::Term(tm)) == seq![MINUS] + vl + al);
    lemma_split(src, p, seq![MINUS] + vl, al);
    lemma_split(src, p, seq![MINUS], vl);
    lemma_at(src, p, seq![MINUS]);
    assert(src[p + 0] == MINUS);
    lemma_value_line(src, p + 1, tm.id, t);
    let v = p + 1 + vl.len();
    lemma_lines_stop(src, v, tm.attributes);
    lemma_plain_pattern(src, p + 1 + n + 2, tm.value, 1);
    lemma_after_value(src, v);
    if tm.attributes.len() > 0 {
        lemma_plain_attributes(src, v, tm.attributes, Seq::empty());
    } else {
        assert(al.len() == 0);
        lemma_no_more_attributes(src, v, Seq::empty());
    }
    assert(Seq::<Attribute>::empty() + tm.attributes =~= tm.attributes);
}

/// A plain entry's own lines at `p`, then the next entry, read as the entry without its
/// comment.
#[verifier::rlimit(100)]
#[verifier::spinoff_prover]
proof fn lemma_plain_entry(src: Seq<u8>, p: int, e: Entry)
    requires
        plain_entry(e),
        e is Message || e is Term,
        0 <= p,
        p + body_text(e).len() <= src.len(),
        src.subrange(p, p + body_text(e).len()) == body_text(e),
        entry_follows(src, p + body_text(e).len()),
    ensures
        entry(src, p) == Some(Ok::<(Entry, int), (Error, int)>((uncommented(e), stop_end(src, p + body_text(e).len())))),
        is_alpha(src[p]) || src[p] == MINUS,
{
    reveal(entry);
    match e {
        Entry::Message(m) => {
            let t = message_value_text(m.value);
            lemma_split(src, p, value_line(m.id, t), attribute_lines(m.attributes));
            lemma_value_line(src, p, m.id, t);
            lemma_plain_message(src, p, m);
        },
        Entry::Term(tm) => {
            lemma_plain_term(src, p, tm);
        },
        _ => {},
    }
}

proof fn lemma_line_end_exact(src: Seq<u8>, s: int, e: int)
    requires
        0 <= s <= e < src.len(),
        forall|k: int| s <= k < e ==> #[trigger] src[k] != LF && src[k] != CR,
        src[e] == LF,
    ensures
        crate::parser::grammar::line_end(src, s) == e,
    decreases e - s,
{
    if s < e {
        lemma_line_end_exact(src, s + 1, e);
    }
}

proof fn lemma_comment_text_front(level: nat, c: Seq<Seq<u8>>)
    requires
        c.len() > 0,
    ensures
        comment_text(level, c) == comment_line_text(level, c[0]) + comment_text(level, c.skip(1)),
    decreases c.len(),
{
    if c.len() == 1 {
        assert(c.skip(1) =~= Seq::<Seq<u8>>::empty());
        assert(c.drop_last() =~= Seq::<Seq<u8>>::empty());
        assert(comment_text(level, c) =~= comment_line_text(level, c[0]) + comment_text(level, c.skip(1)));
    } else {
        let prev = c.drop_last();
        lemma_comment_text_front(level, prev);
        assert(prev.skip(1) =~= c.skip(1).drop_last());
        assert(c.skip(1).last() == c.last());
        assert(comment_text(level, c) =~= comment_line_text(level, c[0]) + comment_text(level, c.skip(1)));
    }
}

/// The text of a comment starts with `#` and ends with a line feed.
proof fn lemma_comment_text_ends(level: nat, c: Seq<Seq<u8>>)
    requires
        c.len() > 0,
        level >= 1,
    ensures
        comment_text(level, c).len() > 0,
        comment_text(level, c)[0] == HASH,
        comment_text(level, c).last() == LF,
{
    lemma_comment_text_front(level, c);
    assert(comment_line_text(level, c[0])[0] == HASH);
    assert(comment_text(level, c).last() == comment_line_text(level, c.last()).last());
}

/// The lines of a comment of `level` from `q`, then a line that does not start with
/// `#`: read as the comment's lines, up to the line feed of its last line.
#[verifier::rlimit(100)]
#[verifier::spinoff_prover]
proof fn lemma_comment_block(
    src: Seq<u8>,
    q: int,
    level: nat,
    c: Seq<Seq<u8>>,
    seen: Option<int>,
    content: Seq<Seq<u8>>,
)
    requires
        1 <= level <= 3,
        c.len() > 0,
        forall|i: int| 0 <= i < c.len() ==> plain_comment_line(#[trigger] c[i]),
        seen is None || seen == Some(level as int),
        0 <= q,
        q + comment_text(level, c).len() < src.len(),
        src.subrange(q, q + comment_text(level, c).len()) == comment_text(level, c),
        src[q + comment_text(level, c).len()] != HASH,
    ensures
        crate::parser::grammar::comment_from(src, q, seen, content) == Ok::<_, (Error, int)>(
            (content + c, Some(level as int), q + comment_text(level, c).len() - 1),
        ),
    decreases c.len(),
{
    let l = c[0];
    let rest = c.skip(1);
    let prefix = crate::serializer::comment_prefix(level);
    assert(plain_comment_line(c[0]));
    assert forall|i: int| 0 <= i < rest.len() implies plain_comment_line(#[trigger] rest[i]) by {
        assert(rest[i] == c[i + 1]);
    }
    lemma_comment_text_front(level, c);
    let line = comment_line_text(level, l);
    lemma_split(src, q, line, comment_text(level, rest));
    lemma_at(src, q, line);
    let q3 = q + line.len();
    let q1 = q + level;
    assert forall|k: int| q <= k < q1 implies in_class(ByteClass::Hash, #[trigger] src[k]) by {
        assert(src[q + (k - q)] == line[k - q]);
    }
    if l.len() == 0 {
        assert(src[q + level] == line[level as int]);
        assert(src[q1] == LF);
        lemma_span_exact(src, q, q1, ByteClass::Hash);
        lemma_line_end_exact(src, q1, q1);
        assert(src.subrange(q1, q1) =~= l);
    } else {
        assert(src[q + level] == line[level as int]);
        assert(src[q1] == SPACE);
        lemma_span_exact(src, q, q1, ByteClass::Hash);
        let s = q1 + 1;
        let e = s + l.len();
        assert forall|k: int| s <= k < e implies #[trigger] src[k] != LF && src[k] != CR by {
            assert(src[q + (k - q)] == line[k - q]);
            assert(line[k - q] == l[k - s]);
        }
        assert(src[e] == LF) by {
            assert(src[q + (line.len() - 1)] == line[line.len() - 1]);
        }
        lemma_line_end_exact(src, s, e);
        assert(src.subrange(s, e) =~= l) by {
            assert forall|k: int| 0 <= k < l.len() implies #[trigger] src.subrange(s, e)[k] == l[k] by {
                assert(src[q + (level + 1 + k)] == line[level + 1 + k]);
            }
        }
    }
    assert(crate::parser::grammar::comment_from(src, q, seen, content) == crate::parser::grammar::comment_from(
        src,
        q3,
        Some(level as int),
        content.push(l),
    ));
    if rest.len() > 0 {
        lemma_comment_block(src, q3, level, rest, Some(level as int), content.push(l));
        assert(content.push(l) + rest =~= content + c);
    } else {
        assert(comment_text(level, rest).len() == 0);
        lemma_span_exact(src, q3, q3, ByteClass::Hash);
        assert(content.push(l) =~= content + c);
    }
}

/// A plain comment of `level` at `p`, then a line that does not start with `#`, reads as
/// a comment entry of that level.
#[verifier::rlimit(100)]
#[verifier::spinoff_prover]
proof fn lemma_comment_entry(src: Seq<u8>, p: int, level: nat, c: Seq<Seq<u8>>)
    requires
        1 <= level <= 3,
        plain_comment(Some(c)),
        0 <= p,
        p + comment_text(level, c).len() < src.len(),
        src.subrange(p, p + comment_text(level, c).len()) == comment_text(level, c),
        src[p + comment_text(level, c).len()] != HASH,
    ensures
        src[p] == HASH,
        entry(src, p) == Some(Ok::<(Entry, int), (Error, int)>(
            (comment_entry(level, c), p + comment_text(level, c).len() - 1),
        )),
{
    reveal(entry);
    lemma_comment_block(src, p, level, c, None, Seq::empty());
    assert(Seq::<Seq<u8>>::empty() + c =~= c);
    lemma_comment_text_ends(level, c);
    lemma_at(src, p, comment_text(level, c));
    assert(src[p + 0] == HASH);
}

proof fn lemma_entries_text_prefix(es: Seq<Entry>, j: int)
    requires
        0 <= j <= es.len(),
    ensures
        entries_text(es.take(j)).len() <= entries_text(es).len(),
        entries_text(es).subrange(0, entries_text(es.take(j)).len() as int) == entries_text(es.take(j)),
    decreases es.len(),
{
    if j == es.len() {
        assert(es.take(j) =~= es);
        assert(entries_text(es).subrange(0, entries_text(es).len() as int) =~= entries_text(es));
    } else {
        let prev = es.drop_last();
        lemma_entries_text_prefix(prev, j);
        assert(prev.take(j) =~= es.take(j));
        let a = entries_text(es.take(j));
        assert(entries_text(es).subrange(0, a.len() as int) =~= entries_text(prev).subrange(0, a.len() as int));
    }
}

proof fn lemma_take_push(es: Seq<Entry>, k: int)
    requires
        0 <= k < es.len(),
    ensures
        entries_text(es.take(k + 1)) == entries_text(es.take(k)) + entry_text(es[k], k == 0),
        es.take(k + 1) == es.take(k).push(es[k]),
{
    assert(es.take(k + 1).drop_last() =~= es.take(k));
    assert(es.take(k + 1) =~= es.take(k).push(es[k]));
}

/// Where parsing stands at the start of entry `k`: after the entries before it, and past
/// the blank line before its comment, if it has one and does not come first.
pub open spec fn start_of(es: Seq<Entry>, k: int) -> int {
    entries_text(es.take(k)).len() + if 0 < k < es.len() && entry_comment(es[k]) is Some {
        1int
    } else {
        0
    }
}

/// The text of entry `k` lies where the entries before it end.
proof fn lemma_entry_at(es: Seq<Entry>, k: int)
    requires
        0 <= k < es.len(),
    ensures
        entries_text(es.take(k)).len() + entry_text(es[k], k == 0).len() <= entries_text(es).len(),
        entries_text(es).subrange(
            entries_text(es.take(k)).len() as int,
            (entries_text(es.take(k)).len() + entry_text(es[k], k == 0).len()) as int,
        ) == entry_text(es[k], k == 0),
{
    let src = entries_text(es);
    lemma_take_push(es, k);
    lemma_entries_text_prefix(es, k + 1);
    let p = entries_text(es.take(k)).len() as int;
    let q = entries_text(es.take(k + 1)).len() as int;
    assert(src.subrange(p, q) =~= src.subrange(0, q).subrange(p, q));
    assert(src.subrange(0, q).subrange(p, q) =~= entry_text(es[k], k == 0));
}

/// What the text of a plain entry starts with, once its leading blank line is passed:
/// `#` where it has a comment, otherwise a letter or `-`.
proof fn lemma_entry_first_byte(e: Entry, first: bool)
    requires
        plain_entry(e),
    ensures
        entry_comment(e) is Some ==> (lead_text(e, first)[if first { 0int } else { 1int }] == HASH
            && (!first ==> lead_text(e, first)[0] == LF) && lead_text(e, first).len() > (if first { 0int } else { 1int })),
        entry_comment(e) is None ==> (e is Message || e is Term || e is Junk) && (is_alpha(body_text(e)[0])
            || body_text(e)[0] == MINUS) && lead_text(e, first).len() == 0 && body_text(e).len() > 0,
{
    match entry_comment(e) {
        Some(c) => {
            assert(plain_comment(entry_comment(e)));
            lemma_comment_text_ends(level_of(e), c);
        },
        None => {
            match e {
                Entry::Message(m) => {
                    let vl = value_line(m.id, message_value_text(m.value));
                    assert(vl[0] == m.id[0]);
                    assert(body_text(e)[0] == vl[0]);
                },
                Entry::Junk(j) => {},
                _ => {
                    assert(body_text(e)[0] == MINUS);
                },
            }
        },
    }
}

/// What follows entry `k`: the end of the source, the next entry's own lines, or the
/// blank line and the comment before them.
#[verifier::rlimit(100)]
#[verifier::spinoff_prover]
proof fn lemma_after_entry(es: Seq<Entry>, k: int)
    requires
        all_plain(es),
        0 <= k < es.len(),
    ensures
        ({
            let src = entries_text(es);
            let q = entries_text(es.take(k + 1)).len() as int;
            &&& entry_follows(src, q)
            &&& stop_end(src, q) == start_of(es, k + 1)
            &&& blank_block(src, start_of(es, k + 1)) == (0int, start_of(es, k + 1))
            &&& blank_block(src, q) == (start_of(es, k + 1) - q, start_of(es, k + 1))
            &&& (start_of(es, k + 1) < src.len() ==> src[start_of(es, k + 1)] != LF)
        }),
{
    let src = entries_text(es);
    let q = entries_text(es.take(k + 1)).len() as int;
    lemma_entries_text_prefix(es, k + 1);
    if k + 1 == es.len() {
        assert(es.take(k + 1) =~= es);
        lemma_span_exact(src, q, q, ByteClass::Space);
    } else {
        let e = es[k + 1];
        assert(plain_entry(e));
        lemma_entry_at(es, k + 1);
        let t = entry_text(e, false);
        lemma_split(src, q, lead_text(e, false), body_text(e));
        lemma_at(src, q, t);
        lemma_entry_first_byte(e, false);
        match entry_comment(e) {
            Some(c) => {
                assert(t[0] == LF);
                assert(t[1] == HASH);
                assert(src[q + 0] == LF);
                assert(src[q + 1] == HASH);
                lemma_span_exact(src, q, q, ByteClass::Space);
                lemma_span_exact(src, q + 1, q + 1, ByteClass::Space);
                assert(blank_block(src, q + 1) == (0int, q + 1));
            },
            None => {
                assert(src[q + 0] == t[0]);
                lemma_span_exact(src, q, q, ByteClass::Space);
            },
        }
    }
}

/// The state of parsing before entry `k`: the entries before it, but for a comment of its
/// own that comes right before, which waits for the entry it may belong to.
pub open spec fn state_before(es: Seq<Entry>, k: int, nb: int) -> ParseState {
    if k > 0 && es[k - 1] is Comment {
        ParseState {
            body: es.take(k - 1),
            errors: errors_before(es, k),
            last_comment: Some(es[k - 1]->Comment_0),
            last_blank_count: nb,
        }
    } else {
        ParseState { body: es.take(k), errors: errors_before(es, k), last_comment: None, last_blank_count: nb }
    }
}

/// The error reported for the junk entry `i`: a missing `=` after its identifier and
/// spaces, with the junk's range.
pub open spec fn junk_error(es: Seq<Entry>, i: int) -> Error {
    let p = entries_text(es.take(i)).len() as int;
    let j = es[i]->Junk_0;
    let m = junk_error_at(j);
    Error {
        pos: (p + m, p + m + 1),
        slice: Some((p, p + j.len())),
        kind: crate::model::ErrorKind::ExpectedToken(EQUALS),
    }
}

/// The errors reported for the junk among the first `k` entries, in order.
pub open spec fn errors_before(es: Seq<Entry>, k: int) -> Seq<Error>
    decreases k,
{
    if k <= 0 {
        Seq::empty()
    } else if es[k - 1] is Junk {
        errors_before(es, k - 1).push(junk_error(es, k - 1))
    } else {
        errors_before(es, k - 1)
    }
}

/// Inside junk whose lines after the first do not start with a byte that may start an
/// entry, the next place where an entry may start is the junk's end.
proof fn lemma_next_entry_start_in_line(src: Seq<u8>, x: int, q: int)
    requires
        0 < x <= q <= src.len(),
        forall|y: int|
            x - 1 <= y < q - 1 && #[trigger] src[y] == LF ==> !crate::parser::ftlstream::is_entry_start_byte(src[y + 1]),
        crate::parser::ftlstream::is_entry_boundary(src, q),
    ensures
        crate::parser::grammar::next_entry_start(src, x) == q,
    decreases q - x,
{
    if x < q {
        assert(!crate::parser::ftlstream::is_entry_boundary(src, x));
        lemma_next_entry_start_in_line(src, x + 1, q);
    }
}

/// Plain junk at `p`, followed by where an entry may start, is read as junk with its
/// error, and parsing goes on after it.
#[verifier::rlimit(100)]
#[verifier::spinoff_prover]
proof fn lemma_junk_step(src: Seq<u8>, p: int, st: ParseState, j: Seq<u8>)
    requires
        plain_junk(j),
        0 <= p,
        p + j.len() <= src.len(),
        src.subrange(p, p + j.len()) == j,
        crate::parser::ftlstream::is_entry_boundary(src, p + j.len()),
        blank_block(src, p + j.len()) == (0int, p + j.len()),
    ensures
        parse_from(src, p, st) == parse_from(
            src,
            p + j.len(),
            ParseState {
                body: match st.last_comment {
                    Some(c) => st.body.push(Entry::Comment(c)),
                    None => st.body,
                }.push(Entry::Junk(j)),
                errors: st.errors.push(
                    Error {
                        pos: (p + junk_error_at(j), p + junk_error_at(j) + 1),
                        slice: Some((p, p + j.len())),
                        kind: crate::model::ErrorKind::ExpectedToken(EQUALS),
                    },
                ),
                last_comment: None,
                last_blank_count: 0,
            },
        ),
{
    reveal(entry);
    let n = junk_id_end(j);
    let m = junk_error_at(j);
    let q = p + j.len();
    let q2 = p + m;
    lemma_at(src, p, j);
    lemma_span_while(j, 1, ByteClass::IdentChar);
    lemma_span_while(j, n, ByteClass::Space);
    assert(src[p] == j[0]) by {
        assert(src[p + 0] == j[0]);
    }
    assert forall|k: int| p + 1 <= k < p + n implies in_class(ByteClass::IdentChar, #[trigger] src[k]) by {
        assert(src[p + (k - p)] == j[k - p]);
    }
    assert forall|k: int| p + n <= k < p + m implies in_class(ByteClass::Space, #[trigger] src[k]) by {
        assert(src[p + (k - p)] == j[k - p]);
    }
    if n < j.len() {
        assert(src[p + n] == j[n]);
    }
    assert(src[p + m] == j[m]);
    lemma_span_exact(src, p + 1, p + n, ByteClass::IdentChar);
    lemma_span_exact(src, p + n, p + m, ByteClass::Space);
    assert(crate::parser::grammar::identifier(src, p) == Ok::<_, (Error, int)>((src.subrange(p, p + n), p + n)));
    let err = Error { pos: (q2, q2 + 1), slice: None, kind: crate::model::ErrorKind::ExpectedToken(EQUALS) };
    assert(message(src, p) == Err::<(crate::model::Message, int), (Error, int)>((err, q2)));
    assert(entry(src, p) == Some(Err::<(Entry, int), (Error, int)>((err, q2))));
    assert forall|y: int| q2 - 1 <= y < q - 1 && #[trigger] src[y] == LF implies !crate::parser::ftlstream::is_entry_start_byte(
        src[y + 1],
    ) by {
        assert(src[p + (y - p)] == j[y - p]);
        assert(src[p + (y + 1 - p)] == j[y + 1 - p]);
    }
    lemma_next_entry_start_in_line(src, q2, q);
    assert(src.subrange(p, q) == j);
}



/// One step of the parse loop reads `x`, which is not a comment waiting for its entry.
proof fn lemma_step(src: Seq<u8>, p: int, st: ParseState, x: Entry, qe: int, n2: int, q2: int)
    requires
        0 <= p < q2 <= src.len(),
        entry(src, p) == Some(Ok::<(Entry, int), (Error, int)>((x, qe))),
        blank_block(src, qe) == (n2, q2),
    ensures
        parse_from(src, p, st) == parse_from(
            src,
            q2,
            crate::parser::grammar::parse_step(src, p, st, Ok((x, qe))).0,
        ),
        crate::parser::grammar::parse_step(src, p, st, Ok((x, qe))).1 == q2,
{
}

/// The state after a step that reads `x`, where `x` does not take the waiting comment.
pub open spec fn after_plain_step(st: ParseState, x: Entry, n2: int) -> ParseState {
    let body1 = match st.last_comment {
        Some(c) => st.body.push(Entry::Comment(c)),
        None => st.body,
    };
    match x {
        Entry::Comment(c) => ParseState { body: body1, errors: st.errors, last_comment: Some(c), last_blank_count: n2 },
        _ => ParseState { body: body1.push(x), errors: st.errors, last_comment: None, last_blank_count: n2 },
    }
}

proof fn lemma_plain_step_state(src: Seq<u8>, p: int, st: ParseState, x: Entry, qe: int, n2: int, q2: int)
    requires
        blank_block(src, qe) == (n2, q2),
        st.last_comment is Some ==> (st.last_blank_count >= 2 || !(x is Message || x is Term)),
    ensures
        crate::parser::grammar::parse_step(src, p, st, Ok((x, qe))).0 == after_plain_step(st, x, n2),
{
}

/// A message or term read right after its comment takes the comment.
proof fn lemma_step_attached(src: Seq<u8>, p: int, st: ParseState, c: Seq<Seq<u8>>, e: Entry, qe: int, q2: int)
    requires
        0 <= p < q2 <= src.len(),
        entry(src, p) == Some(Ok::<(Entry, int), (Error, int)>((uncommented(e), qe))),
        e is Message || e is Term,
        entry_comment(e) == Some(c),
        st.last_comment == Some(c),
        st.last_blank_count == 1,
        blank_block(src, qe) == (0int, q2),
    ensures
        parse_from(src, p, st) == parse_from(
            src,
            q2,
            ParseState { body: st.body.push(e), errors: st.errors, last_comment: None, last_blank_count: 0 },
        ),
{
    match e {
        Entry::Message(m) => {
            assert(Message { comment: Some(c), ..Message { comment: None, ..m } } == m);
        },
        Entry::Term(t) => {
            assert(Term { comment: Some(c), ..Term { comment: None, ..t } } == t);
        },
        _ => {},
    }
}

/// The blank lines the parse loop counts after entry `k`: two or three after a comment
/// of its own, none after a message or term.
pub open spec fn blank_after(es: Seq<Entry>, k: int) -> int {
    if is_standalone(es[k]) {
        2 + start_of(es, k + 1) - entries_text(es.take(k + 1)).len()
    } else {
        0
    }
}

/// Reading junk entry `k` moves parsing to the start of entry `k + 1`, with its error.
#[verifier::rlimit(100)]
#[verifier::spinoff_prover]
proof fn lemma_junk_entry_step(es: Seq<Entry>, k: int, nb: int)
    requires
        all_plain(es),
        0 <= k < es.len(),
        es[k] is Junk,
    ensures
        parse_from(entries_text(es), start_of(es, k), state_before(es, k, nb)) == parse_from(
            entries_text(es),
            start_of(es, k + 1),
            state_before(es, k + 1, blank_after(es, k)),
        ),
{
    let src = entries_text(es);
    let off = entries_text(es.take(k)).len() as int;
    let j = es[k]->Junk_0;
    assert(plain_entry(es[k]));
    lemma_entries_text_prefix(es, k);
    lemma_entry_at(es, k);
    lemma_take_push(es, k);
    lemma_after_entry(es, k);
    assert(entry_text(es[k], k == 0) == j);
    let q = off + j.len();
    assert(entries_text(es.take(k + 1)).len() == q);
    if k + 1 < es.len() {
        assert(entry_comment(es[k + 1]) is None) by {
            assert(es[(k + 1) - 1] is Junk);
        }
    }
    assert(start_of(es, k + 1) == q);
    assert(start_of(es, k) == off);
    assert(src[q - 1] == LF) by {
        lemma_at(src, off, j);
        assert(src[off + (j.len() - 1)] == j[j.len() - 1]);
    }
    assert(crate::parser::ftlstream::is_entry_boundary(src, q));
    let st_k = state_before(es, k, nb);
    lemma_junk_step(src, off, st_k, j);
    if k > 0 && es[k - 1] is Comment {
        assert(es.take(k - 1).push(es[k - 1]) =~= es.take(k));
    }
    assert(errors_before(es, k + 1) == errors_before(es, k).push(junk_error(es, k)));
    assert(state_before(es, k + 1, 0).body == es.take(k + 1));
}

/// Reading entry `k` moves parsing to the start of entry `k + 1`.
#[verifier::rlimit(100)]
#[verifier::spinoff_prover]
proof fn lemma_parse_step_plain(es: Seq<Entry>, k: int, nb: int)
    requires
        all_plain(es),
        0 <= k < es.len(),
        k > 0 && es[k - 1] is Comment ==> nb >= 2,
    ensures
        parse_from(entries_text(es), start_of(es, k), state_before(es, k, nb)) == parse_from(
            entries_text(es),
            start_of(es, k + 1),
            state_before(es, k + 1, blank_after(es, k)),
        ),
{
    let src = entries_text(es);
    let off = entries_text(es.take(k)).len() as int;
    lemma_entries_text_prefix(es, k);
    let e = es[k];
    assert(plain_entry(e));
    lemma_entry_at(es, k);
    lemma_take_push(es, k);
    lemma_after_entry(es, k);
    lemma_entry_text_ends(e, k == 0);
    lemma_entry_first_byte(e, k == 0);
    let lead = lead_text(e, k == 0);
    let body = body_text(e);
    lemma_split(src, off, lead, body);
    let pb = off + lead.len();
    let q = pb + body.len();
    let next = start_of(es, k + 1);
    let st_k = state_before(es, k, nb);
    assert(k > 0 && es[k - 1] is Comment ==> es.take(k - 1).push(Entry::Comment(es[k - 1]->Comment_0)) == es.take(k)) by {
        if k > 0 && es[k - 1] is Comment {
            assert(es.take(k - 1).push(es[k - 1]) =~= es.take(k));
        }
    }
    match entry_comment(e) {
        None => {
            if e is Junk {
                lemma_junk_entry_step(es, k, nb);
            } else {
                lemma_plain_entry(src, pb, e);
                assert(uncommented(e) == e);
                lemma_step(src, pb, st_k, e, stop_end(src, q), 0, next);
                lemma_plain_step_state(src, pb, st_k, e, stop_end(src, q), 0, next);
            }
        },
        Some(c) => {
            let pre = if k == 0 {
                Seq::<u8>::empty()
            } else {
                seq![LF]
            };
            let level = level_of(e);
            let ct = comment_text(level, c);
            lemma_split(src, off, pre, ct);
            let pc = off + pre.len();
            assert(start_of(es, k) == pc);
            assert(plain_comment(entry_comment(e)));
            lemma_comment_text_ends(level, c);
            if e is Message || e is Term {
                lemma_attached_step(src, pc, st_k, c, e, q, next);
                let st1 = after_plain_step(st_k, Entry::Comment(c), 1);
                assert(st1.body == es.take(k));
            } else {
                assert(body == seq![LF]);
                assert(src[pb] == LF) by {
                    assert(src.subrange(pb, pb + 1)[0] == src[pb]);
                }
                lemma_standalone_step(src, pc, st_k, e, next);
                assert(es.take(k + 1) == es.take(k).push(e));
            }
        },
    }
}

/// A message or term with its comment at `pc`: the comment is read and waits, then the
/// entry takes it.
#[verifier::rlimit(100)]
#[verifier::spinoff_prover]
proof fn lemma_attached_step(src: Seq<u8>, pc: int, st: ParseState, c: Seq<Seq<u8>>, e: Entry, q: int, next: int)
    requires
        plain_entry(e),
        e is Message || e is Term,
        entry_comment(e) == Some(c),
        0 <= pc,
        pc + comment_text(1, c).len() + body_text(e).len() == q,
        q <= next <= src.len(),
        src.subrange(pc, pc + comment_text(1, c).len()) == comment_text(1, c),
        src.subrange(pc + comment_text(1, c).len(), q) == body_text(e),
        entry_follows(src, q),
        stop_end(src, q) == next,
        blank_block(src, next) == (0int, next),
    ensures
        parse_from(src, pc, st) == parse_from(
            src,
            next,
            ParseState {
                body: after_plain_step(st, Entry::Comment(c), 1).body.push(e),
                errors: st.errors,
                last_comment: None,
                last_blank_count: 0,
            },
        ),
{
    let ct = comment_text(1, c);
    let pb = pc + ct.len();
    assert(plain_comment(entry_comment(e)));
    lemma_comment_text_ends(1, c);
    lemma_entry_first_byte(e, true);
    lemma_at(src, pc, ct);
    lemma_at(src, pb, body_text(e));
    assert(src[pb - 1] == LF) by {
        assert(src[pc + (ct.len() - 1)] == ct[ct.len() - 1]);
    }
    assert(src[pb + 0] == body_text(e)[0]);
    lemma_plain_entry(src, pb, e);
    lemma_comment_entry(src, pc, 1, c);
    assert(comment_entry(1, c) == Entry::Comment(c));
    lemma_span_exact(src, pb - 1, pb - 1, ByteClass::Space);
    lemma_span_exact(src, pb, pb, ByteClass::Space);
    assert(crate::parser::ftlstream::eol_len(src, pb) == 0);
    assert(blank_block(src, pb) == (0int, pb));
    assert(crate::parser::ftlstream::eol_len(src, pb - 1) == 1);
    assert(blank_block(src, pb - 1) == (1int, pb));
    lemma_step(src, pc, st, Entry::Comment(c), pb - 1, 1, pb);
    lemma_plain_step_state(src, pc, st, Entry::Comment(c), pb - 1, 1, pb);
    let st1 = after_plain_step(st, Entry::Comment(c), 1);
    lemma_step_attached(src, pb, st1, c, e, next, next);
}

/// A comment of its own at `pc`, then its blank line: read and left waiting, with the
/// blank lines after it counted.
#[verifier::rlimit(100)]
#[verifier::spinoff_prover]
proof fn lemma_standalone_step(src: Seq<u8>, pc: int, st: ParseState, e: Entry, next: int)
    requires
        plain_entry(e),
        is_standalone(e),
        0 <= pc,
        pc + comment_text(level_of(e), entry_comment(e)->Some_0).len() + 1 <= next <= src.len(),
        src.subrange(pc, pc + comment_text(level_of(e), entry_comment(e)->Some_0).len())
            == comment_text(level_of(e), entry_comment(e)->Some_0),
        src[pc + comment_text(level_of(e), entry_comment(e)->Some_0).len()] == LF,
        blank_block(src, pc + comment_text(level_of(e), entry_comment(e)->Some_0).len() + 1) == (
            next - (pc + comment_text(level_of(e), entry_comment(e)->Some_0).len() + 1),
            next,
        ),
    ensures
        parse_from(src, pc, st) == parse_from(
            src,
            next,
            after_plain_step(
                st,
                e,
                2 + next - (pc + comment_text(level_of(e), entry_comment(e)->Some_0).len() + 1),
            ),
        ),
{
    let level = level_of(e);
    let c = entry_comment(e)->Some_0;
    let ct = comment_text(level, c);
    let pb = pc + ct.len();
    let q = pb + 1;
    assert(plain_comment(entry_comment(e)));
    lemma_comment_text_ends(level, c);
    lemma_at(src, pc, ct);
    assert(src[pb - 1] == LF) by {
        assert(src[pc + (ct.len() - 1)] == ct[ct.len() - 1]);
    }
    lemma_comment_entry(src, pc, level, c);
    assert(comment_entry(level, c) == e);
    lemma_span_exact(src, pb - 1, pb - 1, ByteClass::Space);
    lemma_span_exact(src, pb, pb, ByteClass::Space);
    assert(crate::parser::ftlstream::eol_len(src, pb) == 1);
    assert(blank_block(src, pb) == (1 + next - q, next));
    assert(crate::parser::ftlstream::eol_len(src, pb - 1) == 1);
    assert(blank_block(src, pb - 1) == (2 + next - q, next));
    lemma_step(src, pc, st, e, pb - 1, 2 + next - q, next);
    lemma_plain_step_state(src, pc, st, e, pb - 1, 2 + next - q, next);
}

proof fn lemma_parse_plain_from(es: Seq<Entry>, k: int, nb: int)
    requires
        all_plain(es),
        0 <= k <= es.len(),
        k > 0 && es[k - 1] is Comment ==> nb >= 2,
    ensures
        parse_from(entries_text(es), start_of(es, k), state_before(es, k, nb)) == Some(
            (es, errors_before(es, es.len() as int)),
        ),
    decreases es.len() - k,
{
    if k == es.len() {
        lemma_entries_text_prefix(es, k);
        assert(es.take(k) =~= es);
        if k > 0 && es[k - 1] is Comment {
            assert(es.take(k - 1).push(Entry::Comment(es[k - 1]->Comment_0)) =~= es);
        }
    } else {
        lemma_parse_step_plain(es, k, nb);
        if is_standalone(es[k]) {
            lemma_after_entry(es, k);
        }
        lemma_parse_plain_from(es, k + 1, blank_after(es, k));
    }
}

/// The first entry's text starts at the start of the source.
proof fn lemma_first_entry(es: Seq<Entry>)
    requires
        all_plain(es),
    ensures
        blank_block(entries_text(es), 0) == (0int, 0int),
{
    let src = entries_text(es);
    if es.len() > 0 {
        let e = es[0];
        assert(plain_entry(e));
        lemma_entry_at(es, 0);
        assert(es.take(0) =~= Seq::<Entry>::empty());
        lemma_at(src, 0, entry_text(e, true));
        lemma_entry_first_byte(e, true);
        lemma_entry_text_ends(e, true);
        assert(src[0int + 0] == entry_text(e, true)[0]);
    }
    lemma_span_exact(src, 0, 0, ByteClass::Space);
}

/// Messages and terms with plain comments, values either on one line, of text (any
/// bytes but line endings and braces, not starting with a space nor ending with white
/// space) and placeables (of variable, message, message attribute and term references,
/// string literals with escapes, number literals, and calls of functions and terms with
/// such arguments, each possibly nested once in a placeable of its own), or of several
/// lines that mix such text, such placeables and select expressions (on a variable, a
/// literal or a term's attribute, whose variants have such values of one or several
/// lines of text); attributes of the same kind (messages with attributes may have no
/// value); comments of any level with plain lines; and junk that cannot be read as a
/// message: written out with their junk and parsed back, they come back unchanged, with
/// one error for each junk entry.
pub proof fn lemma_plain_entries_round_trip(es: Seq<Entry>)
    requires
        all_plain(es),
    ensures
        parse(ser_entries(Writer { text: Seq::empty(), level: 0 }, false, es, true).0.text) == Some(
            (es, errors_before(es, es.len() as int)),
        ),
{
    lemma_serialize_plain(es);
    lemma_parse_plain_from(es, 0, 0);
    assert(es.take(0) =~= Seq::<Entry>::empty());
    assert(entries_text(es.take(0)).len() == 0);
    assert(start_of(es, 0) == 0);
    lemma_first_entry(es);
    assert(initial_state() == state_before(es, 0, 0));
}

/// A text that the serializer writes for plain entries is normalized: parsing it and
/// writing the result back, junk included, gives the same text.
pub proof fn lemma_written_text_is_normalized(es: Seq<Entry>)
    requires
        all_plain(es),
    ensures
        ({
            let t = ser_entries(Writer { text: Seq::empty(), level: 0 }, false, es, true).0.text;
            &&& parse(t) is Some
            &&& ser_entries(Writer { text: Seq::empty(), level: 0 }, false, parse(t).unwrap().0, true).0.text == t
        }),
{
    lemma_plain_entries_round_trip(es);
}

/// Entries without junk are written alike with and without junk, and reading them back
/// reports no error.
proof fn lemma_no_junk(es: Seq<Entry>, k: int)
    requires
        0 <= k <= es.len(),
        forall|i: int| 0 <= i < es.len() ==> !((#[trigger] es[i]) is Junk),
    ensures
        errors_before(es, k) == Seq::<Error>::empty(),
        ser_entries(Writer { text: Seq::empty(), level: 0 }, false, es.take(k), true) == ser_entries(
            Writer { text: Seq::empty(), level: 0 },
            false,
            es.take(k),
            false,
        ),
    decreases k,
{
    if k > 0 {
        lemma_no_junk(es, k - 1);
        assert(es.take(k).drop_last() =~= es.take(k - 1));
        assert(es.take(k).last() == es[k - 1]);
    }
}

proof fn lemma_without_junk_has_none(es: Seq<Entry>)
    ensures
        forall|i: int|
            0 <= i < crate::serializer::without_junk(es).len() ==> !((#[trigger] crate::serializer::without_junk(es)[i]) is Junk),
    decreases es.len(),
{
    if es.len() > 0 {
        lemma_without_junk_has_none(es.drop_last());
        let w = crate::serializer::without_junk(es.drop_last());
        if !(es.last() is Junk) {
            assert forall|i: int| 0 <= i < w.push(es.last()).len() implies !((#[trigger] w.push(es.last())[i]) is Junk) by {
                if i < w.len() {
                    assert(w.push(es.last())[i] == w[i]);
                }
            }
        }
    }
}

/// Written without junk, entries whose other entries are plain read back as those other
/// entries, without errors: the junk is left out and nothing else changes.
pub proof fn lemma_junk_dropped_round_trip(es: Seq<Entry>)
    requires
        all_plain(crate::serializer::without_junk(es)),
    ensures
        parse(ser_entries(Writer { text: Seq::empty(), level: 0 }, false, es, false).0.text) == Some(
            (crate::serializer::without_junk(es), Seq::<Error>::empty()),
        ),
{
    let nj = crate::serializer::without_junk(es);
    crate::serializer::lemma_junk_left_out(Writer { text: Seq::empty(), level: 0 }, false, es);
    lemma_plain_entries_round_trip(nj);
    lemma_without_junk_has_none(es);
    lemma_no_junk(nj, nj.len() as int);
    assert(nj.take(nj.len() as int) =~= nj);
}

} // verus!
