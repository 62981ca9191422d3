//! Abstract Syntax Tree of a Fluent Translation List resource.
//!
//! The tree keeps all the semantic information of a resource. White space is not
//! kept, so only a resource written in canonical form survives a round trip
//! through the parser and the serializer unchanged. Blocks of invalid syntax are
//! kept as [`Entry::Junk`].
use vstd::prelude::*;

verus! {

/// A parsed resource: its entries, in order.
#[derive(Debug, PartialEq)]
pub struct Resource<S> {
    pub body: Vec<Entry<S>>,
}

/// An entry of a resource; junk keeps a block of invalid syntax as it was written.
#[derive(Debug, PartialEq)]
pub enum Entry<S> {
    Message(Message<S>),
    Term(Term<S>),
    Comment(Comment<S>),
    GroupComment(Comment<S>),
    ResourceComment(Comment<S>),
    Junk { content: S },
}

/// A message: an identifier with a value, attributes or both, and maybe a comment.
#[derive(Debug, PartialEq)]
pub struct Message<S> {
    pub id: Identifier<S>,
    pub value: Option<Pattern<S>>,
    pub attributes: Vec<Attribute<S>>,
    pub comment: Option<Comment<S>>,
}

/// A term: a `-` identifier with a value, attributes and maybe a comment.
#[derive(Debug, PartialEq)]
pub struct Term<S> {
    pub id: Identifier<S>,
    pub value: Pattern<S>,
    pub attributes: Vec<Attribute<S>>,
    pub comment: Option<Comment<S>>,
}

/// The value of a message, term, attribute or variant: texts and placeables.
#[derive(Debug, PartialEq)]
pub struct Pattern<S> {
    pub elements: Vec<PatternElement<S>>,
}

#[derive(Debug, PartialEq)]
pub enum PatternElement<S> {
    TextElement { value: S },
    Placeable { expression: Expression<S> },
}

#[derive(Debug, PartialEq)]
pub struct Attribute<S> {
    pub id: Identifier<S>,
    pub value: Pattern<S>,
}

#[derive(Debug, PartialEq)]
pub struct Identifier<S> {
    pub name: S,
}

#[derive(Debug, PartialEq)]
pub struct Variant<S> {
    pub key: VariantKey<S>,
    pub value: Pattern<S>,
    pub default: bool,
}

#[derive(Debug, PartialEq)]
pub enum VariantKey<S> {
    Identifier { name: S },
    NumberLiteral { value: S },
}

#[derive(Debug, PartialEq)]
pub struct Comment<S> {
    pub content: Vec<S>,
}

#[derive(Debug, PartialEq)]
pub struct CallArguments<S> {
    pub positional: Vec<InlineExpression<S>>,
    pub named: Vec<NamedArgument<S>>,
}

#[derive(Debug, PartialEq)]
pub struct NamedArgument<S> {
    pub name: Identifier<S>,
    pub value: InlineExpression<S>,
}

#[derive(Debug, PartialEq)]
pub enum InlineExpression<S> {
    StringLiteral { value: S },
    NumberLiteral { value: S },
    FunctionReference { id: Identifier<S>, arguments: Option<CallArguments<S>> },
    MessageReference { id: Identifier<S>, attribute: Option<Identifier<S>> },
    TermReference {
        id: Identifier<S>,
        attribute: Option<Identifier<S>>,
        arguments: Option<CallArguments<S>>,
    },
    VariableReference { id: Identifier<S> },
    Placeable { expression: Box<Expression<S>> },
}

#[derive(Debug, PartialEq)]
pub enum Expression<S> {
    SelectExpression { selector: InlineExpression<S>, variants: Vec<Variant<S>> },
    InlineExpression(InlineExpression<S>),
}

/// The shape in which a comment is written in the JSON fixtures: one string or a
/// list of lines.
#[allow(inconsistent_fields)]
#[derive(Debug, Eq, PartialEq)]
pub enum CommentDef<S> {
    Single { content: S },
    Multi { content: Vec<S> },
}

impl<S> CommentDef<S> {
    /// The comment these lines make up.
    pub fn into_comment(self) -> (r: Comment<S>)
        ensures
            match self {
                CommentDef::Single { content } => r.content@ == seq![content],
                CommentDef::Multi { content } => r.content@ == content@,
            },
    {
        match self {
            CommentDef::Single { content } => {
                let mut lines = Vec::new();
                lines.push(content);
                Comment { content: lines }
            },
            CommentDef::Multi { content } => Comment { content },
        }
    }
}

} // verus!
