//! The mathematical model of a parsed resource: the syntax tree with byte strings
//! as sequences and lists as `Seq`s, and the maps from the executable tree to it.
use crate::ast;
use vstd::prelude::*;

verus! {

/// The model of a message.
pub struct Message {
    pub id: Seq<u8>,
    pub value: Option<Pattern>,
    pub attributes: Seq<Attribute>,
    pub comment: Option<Seq<Seq<u8>>>,
}

/// The model of a term.
pub struct Term {
    pub id: Seq<u8>,
    pub value: Pattern,
    pub attributes: Seq<Attribute>,
    pub comment: Option<Seq<Seq<u8>>>,
}

/// The model of an entry.
pub enum Entry {
    Message(Message),
    Term(Term),
    Comment(Seq<Seq<u8>>),
    GroupComment(Seq<Seq<u8>>),
    ResourceComment(Seq<Seq<u8>>),
    Junk(Seq<u8>),
}

pub struct Attribute {
    pub id: Seq<u8>,
    pub value: Pattern,
}

pub struct Pattern {
    pub elements: Seq<PatternElement>,
}

pub enum PatternElement {
    Text(Seq<u8>),
    Placeable(Expression),
}

pub struct Variant {
    pub key: VariantKey,
    pub value: Pattern,
    pub default: bool,
}

pub enum VariantKey {
    Identifier(Seq<u8>),
    NumberLiteral(Seq<u8>),
}

pub struct CallArguments {
    pub positional: Seq<InlineExpression>,
    pub named: Seq<NamedArgument>,
}

pub struct NamedArgument {
    pub name: Seq<u8>,
    pub value: InlineExpression,
}

pub enum InlineExpression {
    StringLiteral(Seq<u8>),
    NumberLiteral(Seq<u8>),
    FunctionReference { id: Seq<u8>, arguments: Option<CallArguments> },
    MessageReference { id: Seq<u8>, attribute: Option<Seq<u8>> },
    TermReference { id: Seq<u8>, attribute: Option<Seq<u8>>, arguments: Option<CallArguments> },
    VariableReference(Seq<u8>),
    Placeable(Box<Expression>),
}

pub enum Expression {
    Select { selector: InlineExpression, variants: Seq<Variant> },
    Inline(InlineExpression),
}

pub open spec fn opt_id(a: Option<ast::Identifier<Vec<u8>>>) -> Option<Seq<u8>> {
    match a {
        Some(i) => Some(i.name@),
        None => None,
    }
}

pub open spec fn opt_comment(c: Option<ast::Comment<Vec<u8>>>) -> Option<Seq<Seq<u8>>> {
    match c {
        Some(c) => Some(c.content.deep_view()),
        None => None,
    }
}

pub open spec fn pattern(p: ast::Pattern<Vec<u8>>) -> Pattern
    decreases p,
{
    Pattern { elements: elements(p.elements@) }
}

pub open spec fn elements(s: Seq<ast::PatternElement<Vec<u8>>>) -> Seq<PatternElement>
    decreases s,
{
    if s.len() == 0 {
        Seq::empty()
    } else {
        elements(s.drop_last()).push(element(s.last()))
    }
}

pub open spec fn element(e: ast::PatternElement<Vec<u8>>) -> PatternElement
    decreases e,
{
    match e {
        ast::PatternElement::TextElement { value } => PatternElement::Text(value@),
        ast::PatternElement::Placeable { expression } => PatternElement::Placeable(
            expr(expression),
        ),
    }
}

pub open spec fn expr(e: ast::Expression<Vec<u8>>) -> Expression
    decreases e,
{
    match e {
        ast::Expression::SelectExpression { selector, variants: vs } => Expression::Select {
            selector: inline(selector),
            variants: variants(vs@),
        },
        ast::Expression::InlineExpression(i) => Expression::Inline(inline(i)),
    }
}

pub open spec fn variants(s: Seq<ast::Variant<Vec<u8>>>) -> Seq<Variant>
    decreases s,
{
    if s.len() == 0 {
        Seq::empty()
    } else {
        variants(s.drop_last()).push(variant(s.last()))
    }
}

pub open spec fn variant(v: ast::Variant<Vec<u8>>) -> Variant
    decreases v,
{
    Variant { key: variant_key(v.key), value: pattern(v.value), default: v.default }
}

pub open spec fn variant_key(k: ast::VariantKey<Vec<u8>>) -> VariantKey {
    match k {
        ast::VariantKey::Identifier { name } => VariantKey::Identifier(name@),
        ast::VariantKey::NumberLiteral { value } => VariantKey::NumberLiteral(value@),
    }
}

pub open spec fn inline(e: ast::InlineExpression<Vec<u8>>) -> InlineExpression
    decreases e,
{
    match e {
        ast::InlineExpression::StringLiteral { value } => InlineExpression::StringLiteral(value@),
        ast::InlineExpression::NumberLiteral { value } => InlineExpression::NumberLiteral(value@),
        ast::InlineExpression::FunctionReference { id, arguments } => {
            InlineExpression::FunctionReference { id: id.name@, arguments: opt_args(arguments) }
        },
        ast::InlineExpression::MessageReference { id, attribute } => {
            InlineExpression::MessageReference { id: id.name@, attribute: opt_id(attribute) }
        },
        ast::InlineExpression::TermReference { id, attribute, arguments } => {
            InlineExpression::TermReference {
                id: id.name@,
                attribute: opt_id(attribute),
                arguments: opt_args(arguments),
            }
        },
        ast::InlineExpression::VariableReference { id } => InlineExpression::VariableReference(
            id.name@,
        ),
        ast::InlineExpression::Placeable { expression } => InlineExpression::Placeable(
            Box::new(expr(*expression)),
        ),
    }
}

pub open spec fn opt_args(a: Option<ast::CallArguments<Vec<u8>>>) -> Option<CallArguments>
    decreases a,
{
    match a {
        Some(args) => Some(call_args(args)),
        None => None,
    }
}

pub open spec fn call_args(a: ast::CallArguments<Vec<u8>>) -> CallArguments
    decreases a,
{
    CallArguments { positional: inlines(a.positional@), named: nameds(a.named@) }
}

pub open spec fn inlines(s: Seq<ast::InlineExpression<Vec<u8>>>) -> Seq<InlineExpression>
    decreases s,
{
    if s.len() == 0 {
        Seq::empty()
    } else {
        inlines(s.drop_last()).push(inline(s.last()))
    }
}

pub open spec fn nameds(s: Seq<ast::NamedArgument<Vec<u8>>>) -> Seq<NamedArgument>
    decreases s,
{
    if s.len() == 0 {
        Seq::empty()
    } else {
        nameds(s.drop_last()).push(named(s.last()))
    }
}

pub open spec fn named(n: ast::NamedArgument<Vec<u8>>) -> NamedArgument
    decreases n,
{
    NamedArgument { name: n.name.name@, value: inline(n.value) }
}

pub open spec fn attribute(a: ast::Attribute<Vec<u8>>) -> Attribute {
    Attribute { id: a.id.name@, value: pattern(a.value) }
}

pub open spec fn attributes(s: Seq<ast::Attribute<Vec<u8>>>) -> Seq<Attribute>
    decreases s.len(),
{
    if s.len() == 0 {
        Seq::empty()
    } else {
        attributes(s.drop_last()).push(attribute(s.last()))
    }
}

pub open spec fn message(m: ast::Message<Vec<u8>>) -> Message {
    Message {
        id: m.id.name@,
        value: match m.value {
            Some(p) => Some(pattern(p)),
            None => None,
        },
        attributes: attributes(m.attributes@),
        comment: opt_comment(m.comment),
    }
}

pub open spec fn term(t: ast::Term<Vec<u8>>) -> Term {
    Term {
        id: t.id.name@,
        value: pattern(t.value),
        attributes: attributes(t.attributes@),
        comment: opt_comment(t.comment),
    }
}

pub open spec fn entry(e: ast::Entry<Vec<u8>>) -> Entry {
    match e {
        ast::Entry::Message(m) => Entry::Message(message(m)),
        ast::Entry::Term(t) => Entry::Term(term(t)),
        ast::Entry::Comment(c) => Entry::Comment(c.content.deep_view()),
        ast::Entry::GroupComment(c) => Entry::GroupComment(c.content.deep_view()),
        ast::Entry::ResourceComment(c) => Entry::ResourceComment(c.content.deep_view()),
        ast::Entry::Junk { content } => Entry::Junk(content@),
    }
}

pub open spec fn entries(s: Seq<ast::Entry<Vec<u8>>>) -> Seq<Entry>
    decreases s.len(),
{
    if s.len() == 0 {
        Seq::empty()
    } else {
        entries(s.drop_last()).push(entry(s.last()))
    }
}

pub proof fn lemma_elements_push(s: Seq<ast::PatternElement<Vec<u8>>>, e: ast::PatternElement<Vec<u8>>)
    ensures
        elements(s.push(e)) == elements(s).push(element(e)),
{
    assert(s.push(e).drop_last() =~= s);
}

pub proof fn lemma_variants_push(s: Seq<ast::Variant<Vec<u8>>>, e: ast::Variant<Vec<u8>>)
    ensures
        variants(s.push(e)) == variants(s).push(variant(e)),
{
    assert(s.push(e).drop_last() =~= s);
}

pub proof fn lemma_inlines_push(s: Seq<ast::InlineExpression<Vec<u8>>>, e: ast::InlineExpression<Vec<u8>>)
    ensures
        inlines(s.push(e)) == inlines(s).push(inline(e)),
{
    assert(s.push(e).drop_last() =~= s);
}

pub proof fn lemma_nameds_push(s: Seq<ast::NamedArgument<Vec<u8>>>, e: ast::NamedArgument<Vec<u8>>)
    ensures
        nameds(s.push(e)) == nameds(s).push(named(e)),
{
    assert(s.push(e).drop_last() =~= s);
}

pub proof fn lemma_attributes_push(s: Seq<ast::Attribute<Vec<u8>>>, e: ast::Attribute<Vec<u8>>)
    ensures
        attributes(s.push(e)) == attributes(s).push(attribute(e)),
{
    assert(s.push(e).drop_last() =~= s);
}

pub proof fn lemma_entries_push(s: Seq<ast::Entry<Vec<u8>>>, e: ast::Entry<Vec<u8>>)
    ensures
        entries(s.push(e)) == entries(s).push(entry(e)),
{
    assert(s.push(e).drop_last() =~= s);
}

pub proof fn lemma_elements_index(s: Seq<ast::PatternElement<Vec<u8>>>)
    ensures
        elements(s).len() == s.len(),
        forall|i: int| 0 <= i < s.len() ==> #[trigger] elements(s)[i] == element(s[i]),
    decreases s.len(),
{
    if s.len() > 0 {
        lemma_elements_index(s.drop_last());
    }
}

pub proof fn lemma_variants_index(s: Seq<ast::Variant<Vec<u8>>>)
    ensures
        variants(s).len() == s.len(),
        forall|i: int| 0 <= i < s.len() ==> #[trigger] variants(s)[i] == variant(s[i]),
    decreases s.len(),
{
    if s.len() > 0 {
        lemma_variants_index(s.drop_last());
    }
}

pub proof fn lemma_inlines_index(s: Seq<ast::InlineExpression<Vec<u8>>>)
    ensures
        inlines(s).len() == s.len(),
        forall|i: int| 0 <= i < s.len() ==> #[trigger] inlines(s)[i] == inline(s[i]),
    decreases s.len(),
{
    if s.len() > 0 {
        lemma_inlines_index(s.drop_last());
    }
}

pub proof fn lemma_nameds_index(s: Seq<ast::NamedArgument<Vec<u8>>>)
    ensures
        nameds(s).len() == s.len(),
        forall|i: int| 0 <= i < s.len() ==> #[trigger] nameds(s)[i] == named(s[i]),
    decreases s.len(),
{
    if s.len() > 0 {
        lemma_nameds_index(s.drop_last());
    }
}

pub proof fn lemma_attributes_index(s: Seq<ast::Attribute<Vec<u8>>>)
    ensures
        attributes(s).len() == s.len(),
        forall|i: int| 0 <= i < s.len() ==> #[trigger] attributes(s)[i] == attribute(s[i]),
    decreases s.len(),
{
    if s.len() > 0 {
        lemma_attributes_index(s.drop_last());
    }
}

pub proof fn lemma_entries_index(s: Seq<ast::Entry<Vec<u8>>>)
    ensures
        entries(s).len() == s.len(),
        forall|i: int| 0 <= i < s.len() ==> #[trigger] entries(s)[i] == entry(s[i]),
    decreases s.len(),
{
    if s.len() > 0 {
        lemma_entries_index(s.drop_last());
    }
}

pub proof fn lemma_empty_lists()
    ensures
        elements(Seq::empty()) == Seq::<PatternElement>::empty(),
        variants(Seq::empty()) == Seq::<Variant>::empty(),
        inlines(Seq::empty()) == Seq::<InlineExpression>::empty(),
        nameds(Seq::empty()) == Seq::<NamedArgument>::empty(),
        attributes(Seq::empty()) == Seq::<Attribute>::empty(),
        entries(Seq::empty()) == Seq::<Entry>::empty(),
{
}

} // verus!

verus! {

/// The model of a parser error: its byte range, the range of the junk it belongs
/// to, and its kind.
pub struct Error {
    pub pos: (int, int),
    pub slice: Option<(int, int)>,
    pub kind: ErrorKind,
}

/// The kinds of errors the parser reports. Texts that the parser copies from the
/// source are kept as the bytes they come from.
pub enum ErrorKind {
    Generic,
    ExpectedToken(u8),
    ExpectedCharRange(Seq<char>),
    ExpectedMessageField(Seq<u8>),
    ExpectedTermField(Seq<u8>),
    ForbiddenCallee,
    MissingDefaultVariant,
    MissingValue,
    MultipleDefaultVariants,
    MessageReferenceAsSelector,
    TermReferenceAsSelector,
    MessageAttributeAsSelector,
    TermAttributeAsPlaceable,
    PositionalArgumentFollowsNamed,
    DuplicatedNamedArgument(Seq<u8>),
    InvalidUnicodeEscapeSequence(Seq<u8>),
    UnbalancedClosingBrace,
    ExpectedInlineExpression,
    ExpectedSimpleExpressionAsSelector,
}

/// A text made from source bytes reads as those bytes wherever they are valid UTF-8.
pub open spec fn text_from(s: String, bytes: Seq<u8>) -> bool {
    vstd::utf8::valid_utf8(bytes) ==> s@ == vstd::utf8::decode_utf8(bytes)
}

pub open spec fn kind_matches(k: crate::parser::errors::ErrorKind, m: ErrorKind) -> bool {
    match m {
        ErrorKind::Generic => k is Generic,
        ErrorKind::ExpectedToken(b) => k == crate::parser::errors::ErrorKind::ExpectedToken(b as char),
        ErrorKind::ExpectedCharRange(r) => k is ExpectedCharRange && k->range@ == r,
        ErrorKind::ExpectedMessageField(id) => k is ExpectedMessageField && text_from(
            k->ExpectedMessageField_entry_id,
            id,
        ),
        ErrorKind::ExpectedTermField(id) => k is ExpectedTermField && text_from(
            k->ExpectedTermField_entry_id,
            id,
        ),
        ErrorKind::ForbiddenCallee => k is ForbiddenCallee,
        ErrorKind::MissingDefaultVariant => k is MissingDefaultVariant,
        ErrorKind::MissingValue => k is MissingValue,
        ErrorKind::MultipleDefaultVariants => k is MultipleDefaultVariants,
        ErrorKind::MessageReferenceAsSelector => k is MessageReferenceAsSelector,
        ErrorKind::TermReferenceAsSelector => k is TermReferenceAsSelector,
        ErrorKind::MessageAttributeAsSelector => k is MessageAttributeAsSelector,
        ErrorKind::TermAttributeAsPlaceable => k is TermAttributeAsPlaceable,
        ErrorKind::PositionalArgumentFollowsNamed => k is PositionalArgumentFollowsNamed,
        ErrorKind::DuplicatedNamedArgument(n) => k is DuplicatedNamedArgument && text_from(
            k->DuplicatedNamedArgument_0,
            n,
        ),
        ErrorKind::InvalidUnicodeEscapeSequence(s) => k is InvalidUnicodeEscapeSequence
            && text_from(k->InvalidUnicodeEscapeSequence_0, s),
        ErrorKind::UnbalancedClosingBrace => k is UnbalancedClosingBrace,
        ErrorKind::ExpectedInlineExpression => k is ExpectedInlineExpression,
        ErrorKind::ExpectedSimpleExpressionAsSelector => k is ExpectedSimpleExpressionAsSelector,
    }
}

pub open spec fn error_matches(e: crate::parser::errors::ParserError, m: Error) -> bool {
    &&& e.pos.0 == m.pos.0
    &&& e.pos.1 == m.pos.1
    &&& match m.slice {
        Some((a, b)) => e.slice matches Some((x, y)) && x == a && y == b,
        None => e.slice is None,
    }
    &&& kind_matches(e.kind, m.kind)
}

pub open spec fn errors_match(es: Seq<crate::parser::errors::ParserError>, ms: Seq<Error>) -> bool {
    &&& es.len() == ms.len()
    &&& forall|i: int| 0 <= i < es.len() ==> error_matches(#[trigger] es[i], ms[i])
}

} // verus!
