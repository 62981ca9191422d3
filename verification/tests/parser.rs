use fluent::ast;
use fluent::parser::errors::{ErrorKind, ParserError};
use fluent::parser::{parse, Parser};

fn text(s: &str) -> Vec<u8> {
    s.as_bytes().to_vec()
}

fn ident(s: &str) -> ast::Identifier<Vec<u8>> {
    ast::Identifier { name: text(s) }
}

fn text_element(s: &str) -> ast::PatternElement<Vec<u8>> {
    ast::PatternElement::TextElement { value: text(s) }
}

#[test]
fn parses_message_with_comment_and_attribute() {
    let ftl = "\n\n# This is a message comment\nhello-world = Hello World!\n    .tooltip = Tooltip for you, { $userName }.\n\n";
    let resource = parse(ftl).expect("Failed to parse an FTL resource.");
    assert_eq!(resource.body.len(), 1);
    assert_eq!(
        resource.body[0],
        ast::Entry::Message(ast::Message {
            id: ident("hello-world"),
            value: Some(ast::Pattern { elements: vec![text_element("Hello World!")] }),
            attributes: vec![ast::Attribute {
                id: ident("tooltip"),
                value: ast::Pattern {
                    elements: vec![
                        text_element("Tooltip for you, "),
                        ast::PatternElement::Placeable {
                            expression: ast::Expression::InlineExpression(
                                ast::InlineExpression::VariableReference { id: ident("userName") },
                            ),
                        },
                        text_element("."),
                    ],
                },
            }],
            comment: Some(ast::Comment { content: vec![text("This is a message comment")] }),
        })
    );
}

#[test]
fn junk_keeps_invalid_entry_and_reports_error() {
    let ftl = "foo = Foo\nbar Bar\nbaz = Baz\n";
    let result = parse(ftl);
    let (resource, errors) = match result {
        Ok(_) => panic!("expected errors"),
        Err(e) => e,
    };
    assert_eq!(resource.body.len(), 3);
    assert_eq!(resource.body[1], ast::Entry::Junk { content: text("bar Bar\n") });
    assert_eq!(errors.len(), 1);
    assert_eq!(
        errors[0],
        ParserError { pos: (14, 15), slice: Some((10, 18)), kind: ErrorKind::ExpectedToken('=') }
    );
}

#[test]
fn four_hashes_make_junk() {
    let ftl = "#### Too deep\nfoo = Foo\n";
    let (resource, errors) = match parse(ftl) {
        Ok(_) => panic!("expected errors"),
        Err(e) => e,
    };
    assert_eq!(resource.body[0], ast::Entry::Junk { content: text("#### Too deep\n") });
    assert_eq!(resource.body.len(), 2);
    assert_eq!(errors, vec![ParserError { pos: (0, 1), slice: Some((0, 14)), kind: ErrorKind::Generic }]);
    let mut parser = Parser::new(ftl);
    assert!(parser.try_parse().is_some());
}

#[test]
fn multiline_pattern_is_dedented() {
    let ftl = "foo =\n    Foo\n      Bar\n";
    let resource = parse(ftl).unwrap();
    match &resource.body[0] {
        ast::Entry::Message(m) => {
            let v = m.value.as_ref().unwrap();
            assert_eq!(v.elements, vec![text_element("Foo\n"), text_element("  Bar")]);
        },
        other => panic!("unexpected {:?}", other),
    }
}

#[test]
fn message_without_value_or_attributes_is_an_error() {
    let (resource, errors) = match parse("foo =\n") {
        Ok(_) => panic!("expected an error"),
        Err(e) => e,
    };
    assert_eq!(resource.body, vec![ast::Entry::Junk { content: text("foo =\n") }]);
    assert_eq!(
        errors,
        vec![ParserError {
            pos: (0, 6),
            slice: Some((0, 6)),
            kind: ErrorKind::ExpectedMessageField { entry_id: "foo".to_string() },
        }]
    );
}

#[test]
fn duplicated_named_argument_is_an_error() {
    let (_, errors) = match parse("foo = { FUN(a: 1, a: 2) }") {
        Ok(_) => panic!("expected an error"),
        Err(e) => e,
    };
    assert_eq!(
        errors,
        vec![ParserError {
            pos: (19, 20),
            slice: Some((0, 25)),
            kind: ErrorKind::DuplicatedNamedArgument("a".to_string()),
        }]
    );
}

#[test]
fn crlf_lines_and_terms_parse() {
    let resource = parse("-brand = Firefox\r\nabout = About { -brand }\r\n").unwrap();
    assert_eq!(resource.body.len(), 2);
    match &resource.body[0] {
        ast::Entry::Term(t) => {
            assert_eq!(t.id, ident("brand"));
            assert_eq!(t.value.elements, vec![text_element("Firefox")]);
        },
        other => panic!("unexpected {:?}", other),
    }
}

#[test]
fn carriage_return_at_line_start_ends_the_value() {
    let ftl = "foo = a\r\n\r\n    b\r\n";
    let (resource, errors) = match parse(ftl) {
        Ok(_) => panic!("expected errors"),
        Err(e) => e,
    };
    assert_eq!(resource.body.len(), 2);
    match &resource.body[0] {
        ast::Entry::Message(m) => {
            let v = m.value.as_ref().unwrap();
            assert_eq!(v.elements, vec![text_element("a")]);
        },
        _ => panic!("expected a message"),
    }
    assert_eq!(resource.body[1], ast::Entry::Junk { content: text("    b\r\n") });
    assert_eq!(errors.len(), 1);
}
