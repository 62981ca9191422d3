//! The syntax tree that the token parser builds, and its model.
use vstd::prelude::*;

verus! {

/// A resource read by the token parser: its entries and junk, in order.
#[derive(Debug, PartialEq)]
pub struct Resource {
    pub body: Vec<ResourceEntry>,
}

/// An entry, or a block of invalid syntax kept as it was written.
#[derive(Debug, PartialEq)]
pub enum ResourceEntry {
    Entry(Entry),
    Junk(Vec<u8>),
}

#[derive(Debug, PartialEq)]
pub enum Entry {
    Message(Message),
    Term(Term),
    Comment(Comment),
}

#[derive(Debug, PartialEq)]
pub struct Message {
    pub id: Identifier,
    pub value: Option<Pattern>,
    pub attributes: Vec<Attribute>,
    pub comment: Option<Comment>,
}

#[derive(Debug, PartialEq)]
pub struct Term {
    pub id: Identifier,
    pub value: Pattern,
    pub attributes: Vec<Attribute>,
    pub comment: Option<Comment>,
}

#[derive(Debug, PartialEq)]
pub struct Pattern {
    pub elements: Vec<PatternElement>,
}

#[derive(Debug, PartialEq)]
pub enum PatternElement {
    TextElement(Vec<u8>),
    Placeable(Expression),
}

#[derive(Debug, PartialEq)]
pub struct Attribute {
    pub id: Identifier,
    pub value: Pattern,
}

#[derive(Debug, PartialEq)]
pub struct Identifier {
    pub name: Vec<u8>,
}

/// How many `#` a comment has.
#[derive(Debug, Clone, Copy, PartialEq, Eq, Structural)]
pub enum CommentType {
    Regular,
    Group,
    Resource,
}

#[derive(Debug, PartialEq)]
pub struct Comment {
    pub comment_type: CommentType,
    pub content: Vec<Vec<u8>>,
}

#[derive(Debug, PartialEq)]
pub enum Expression {
    InlineExpression(InlineExpression),
}

#[derive(Debug, PartialEq)]
pub enum InlineExpression {
    StringLiteral { value: Vec<u8> },
    NumberLiteral { value: Vec<u8> },
    TermReference { id: Identifier, attribute: Option<Identifier> },
}

/// The model of an inline expression.
pub enum MInline {
    StringLiteral(Seq<u8>),
    NumberLiteral(Seq<u8>),
    TermReference(Seq<u8>, Option<Seq<u8>>),
}

/// The model of a pattern element.
pub enum MElement {
    Text(Seq<u8>),
    Placeable(MInline),
}

/// The model of a comment: its type and lines.
pub struct MComment {
    pub comment_type: CommentType,
    pub content: Seq<Seq<u8>>,
}

/// The model of an attribute.
pub struct MAttribute {
    pub id: Seq<u8>,
    pub value: Seq<MElement>,
}

/// The model of an entry of a resource.
pub enum MEntry {
    Message { id: Seq<u8>, value: Option<Seq<MElement>>, attributes: Seq<MAttribute>, comment: Option<MComment> },
    Term { id: Seq<u8>, pattern: Seq<MElement>, attributes: Seq<MAttribute>, comment: Option<MComment> },
    Comment(MComment),
    Junk(Seq<u8>),
}

pub open spec fn m_inline(e: InlineExpression) -> MInline {
    match e {
        InlineExpression::StringLiteral { value } => MInline::StringLiteral(value@),
        InlineExpression::NumberLiteral { value } => MInline::NumberLiteral(value@),
        InlineExpression::TermReference { id, attribute } => MInline::TermReference(
            id.name@,
            match attribute {
                Some(a) => Some(a.name@),
                None => None,
            },
        ),
    }
}

pub open spec fn m_element(e: PatternElement) -> MElement {
    match e {
        PatternElement::TextElement(t) => MElement::Text(t@),
        PatternElement::Placeable(Expression::InlineExpression(i)) => MElement::Placeable(m_inline(i)),
    }
}

pub open spec fn m_elements(s: Seq<PatternElement>) -> Seq<MElement> {
    s.map_values(|e: PatternElement| m_element(e))
}

pub open spec fn m_comment(c: Comment) -> MComment {
    MComment { comment_type: c.comment_type, content: c.content.deep_view() }
}

pub open spec fn m_opt_comment(c: Option<Comment>) -> Option<MComment> {
    match c {
        Some(c) => Some(m_comment(c)),
        None => None,
    }
}

pub open spec fn m_attribute(a: Attribute) -> MAttribute {
    MAttribute { id: a.id.name@, value: m_elements(a.value.elements@) }
}

pub open spec fn m_attributes(s: Seq<Attribute>) -> Seq<MAttribute> {
    s.map_values(|a: Attribute| m_attribute(a))
}

pub open spec fn m_entry(e: ResourceEntry) -> MEntry {
    match e {
        ResourceEntry::Entry(Entry::Message(m)) => MEntry::Message {
            id: m.id.name@,
            value: match m.value {
                Some(p) => Some(m_elements(p.elements@)),
                None => None,
            },
            attributes: m_attributes(m.attributes@),
            comment: m_opt_comment(m.comment),
        },
        ResourceEntry::Entry(Entry::Term(t)) => MEntry::Term {
            id: t.id.name@,
            pattern: m_elements(t.value.elements@),
            attributes: m_attributes(t.attributes@),
            comment: m_opt_comment(t.comment),
        },
        ResourceEntry::Entry(Entry::Comment(c)) => MEntry::Comment(m_comment(c)),
        ResourceEntry::Junk(j) => MEntry::Junk(j@),
    }
}

pub open spec fn m_entries(s: Seq<ResourceEntry>) -> Seq<MEntry> {
    s.map_values(|e: ResourceEntry| m_entry(e))
}

} // verus!
