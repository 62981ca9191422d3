use fluent::parser::parser::Parser;
use fluent::parser::tree::{
    Comment, CommentType, Entry, Expression, Identifier, InlineExpression, Message, Pattern,
    PatternElement, ResourceEntry,
};

fn text(s: &str) -> Vec<u8> {
    s.as_bytes().to_vec()
}

fn message(id: &str, elements: Vec<PatternElement>) -> ResourceEntry {
    ResourceEntry::Entry(Entry::Message(Message {
        id: Identifier { name: text(id) },
        value: Some(Pattern { elements }),
        attributes: vec![],
        comment: None,
    }))
}

#[test]
fn token_parser_reads_simple_messages() {
    let resource = Parser::new("key0 = Value 0\nkey1 = Value 1\n").parse();
    assert_eq!(
        resource.body,
        vec![
            message("key0", vec![PatternElement::TextElement(text("Value 0"))]),
            message("key1", vec![PatternElement::TextElement(text("Value 1"))]),
        ]
    );
}

#[test]
fn token_parser_reads_multiline_patterns() {
    let resource = Parser::new("key =\n    Foo\n    Bar\n").parse();
    assert_eq!(
        resource.body,
        vec![message(
            "key",
            vec![PatternElement::TextElement(text("Foo\n")), PatternElement::TextElement(text("Bar"))]
        )]
    );
}

#[test]
fn token_parser_reads_placeables_and_comments() {
    let resource = Parser::new("# Note\nkey = Hi { -term } and { 5 }\n").parse();
    assert_eq!(
        resource.body,
        vec![ResourceEntry::Entry(Entry::Message(Message {
            id: Identifier { name: text("key") },
            value: Some(Pattern {
                elements: vec![
                    PatternElement::TextElement(text("Hi ")),
                    PatternElement::Placeable(Expression::InlineExpression(
                        InlineExpression::TermReference { id: Identifier { name: text("term") }, attribute: None }
                    )),
                    PatternElement::TextElement(text(" and ")),
                    PatternElement::Placeable(Expression::InlineExpression(
                        InlineExpression::NumberLiteral { value: text("5") }
                    )),
                ],
            }),
            attributes: vec![],
            comment: Some(Comment { comment_type: CommentType::Regular, content: vec![text("Note")] }),
        }))]
    );
}

#[test]
fn token_parser_keeps_junk() {
    let resource = Parser::new("= oops\nkey = Value\n").parse();
    assert_eq!(resource.body[0], ResourceEntry::Junk(text("= oops\n")));
    assert_eq!(resource.body[1], message("key", vec![PatternElement::TextElement(text("Value"))]));
}
