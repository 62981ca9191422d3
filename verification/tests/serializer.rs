use fluent::ast::{
    Attribute, CallArguments, Comment, Entry, Expression, Identifier, InlineExpression, Message,
    NamedArgument, Pattern, PatternElement, Resource, Term, Variant, VariantKey,
};
use fluent::parser::parse;
use fluent::serializer::{serialize, serialize_with_options, Options, TextWriter};

#[test]
fn write_something_then_indent() {
    let mut writer = TextWriter::default();

    writer.write_literal("foo =".as_bytes());
    writer.newline();
    writer.indent();
    writer.write_literal("first line".as_bytes());
    writer.newline();
    writer.write_literal("second line".as_bytes());
    writer.newline();
    writer.dedent();
    writer.write_literal("not indented".as_bytes());
    writer.newline();

    let got = String::from_utf8(writer.buffer.clone()).unwrap();
    assert_eq!(got, "foo =\n    first line\n    second line\nnot indented\n");
}

fn round_trip(text: &str, should_be: &str) {
    let input_without_tabs = text.replace("\t", "    ");
    let should_be_without_tabs = should_be.replace("\t", "    ");
    let resource = parse(&input_without_tabs).unwrap();
    let got = serialize(&resource);
    assert_eq!(got, should_be_without_tabs);
}

#[test]
fn simple_message_without_eol() {
    round_trip("foo = Foo", "foo = Foo\n");
}

#[test]
fn simple_message() {
    round_trip("foo = Foo\n", "foo = Foo\n");
}

#[test]
fn two_simple_messages() {
    round_trip("foo = Foo\nbar = Bar\n", "foo = Foo\nbar = Bar\n");
}

#[test]
fn block_multiline_message() {
    round_trip("foo =\n    Foo\n    Bar\n", "foo =\n    Foo\n    Bar\n");
}

#[test]
fn inline_multiline_message() {
    round_trip("foo = Foo\n    Bar\n", "foo =\n    Foo\n    Bar\n");
}

#[test]
fn message_reference() {
    round_trip("foo = Foo { bar }\n", "foo = Foo { bar }\n");
}

#[test]
fn term_reference() {
    round_trip("foo = Foo { -bar }\n", "foo = Foo { -bar }\n");
}

#[test]
fn external_reference() {
    round_trip("foo = Foo { $bar }\n", "foo = Foo { $bar }\n");
}

#[test]
fn number_element() {
    round_trip("foo = Foo { 1 }\n", "foo = Foo { 1 }\n");
}

#[test]
fn string_element() {
    round_trip("foo = Foo { \"bar\" }\n", "foo = Foo { \"bar\" }\n");
}

#[test]
fn attribute_expression() {
    round_trip("foo = Foo { bar.baz }\n", "foo = Foo { bar.baz }\n");
}

#[test]
fn resource_comment() {
    let t = "### A multiline\n### resource comment.\n\nfoo = Foo\n";
    round_trip(t, t);
}

#[test]
fn message_comment() {
    let t = "# A multiline\n# message comment.\nfoo = Foo\n";
    round_trip(t, t);
}

#[test]
fn group_comment() {
    let t = "## Comment Header\n##\n## A multiline\n## group comment.\n\nfoo = Foo\n";
    round_trip(t, t);
}

#[test]
fn standalone_comment() {
    let t = "foo = Foo\n\n# A Standalone Comment\n\nbar = Bar\n";
    round_trip(t, t);
}

#[test]
fn multiline_with_placeable() {
    let t = "foo =\n\tFoo { bar }\n\tBaz\n";
    round_trip(t, t);
}

#[test]
fn attribute() {
    let t = "foo =\n\t.attr = Foo Attr\n";
    round_trip(t, t);
}

#[test]
fn multiline_attribute() {
    let t = "foo =\n\t.attr =\n\t\tFoo Attr\n\t\tContinued\n";
    round_trip(t, t);
}

#[test]
fn two_attributes() {
    let t = "foo =\n\t.attr-a = Foo Attr A\n\t.attr-b = Foo Attr B\n";
    round_trip(t, t);
}

#[test]
fn value_and_attributes() {
    let t = "foo = Foo Value\n\t.attr-a = Foo Attr A\n\t.attr-b = Foo Attr B\n";
    round_trip(t, t);
}

#[test]
fn multiline_value_and_attributes() {
    let t = "foo =\n\tFoo Value\n\tContinued\n\t.attr-a = Foo Attr A\n\t.attr-b = Foo Attr B\n";
    round_trip(t, t);
}

#[test]
fn select_expression() {
    let t = "foo =\n\t{ $sel ->\n\t\t*[a] A\n\t\t[b] B\n\t}\n";
    round_trip(t, t);
}

#[test]
fn multiline_variant() {
    let t = "foo =\n\t{ $sel ->\n\t\t*[a]\n\t\t\tAAA\n\t\t\tBBBB\n\t}\n";
    round_trip(t, t);
}

#[test]
fn multiline_variant_with_first_line_inline() {
    round_trip(
        "foo =\n\t{ $sel ->\n\t\t*[a] AAA\n\t\tBBB\n\t}\n",
        "foo =\n\t{ $sel ->\n\t\t*[a]\n\t\t\tAAA\n\t\t\tBBB\n\t}\n",
    );
}

#[test]
fn select_expression_in_block_value() {
    let t = "foo =\n\tFoo { $sel ->\n\t\t*[a] A\n\t\t[b] B\n\t}\n";
    round_trip(t, t);
}

#[test]
fn select_expression_in_inline_value() {
    round_trip(
        "foo = Foo { $sel ->\n\t\t*[a] A\n\t\t[b] B\n\t}\n",
        "foo =\n\tFoo { $sel ->\n\t\t*[a] A\n\t\t[b] B\n\t}\n",
    );
}

#[test]
fn select_expression_in_multiline_value() {
    let t = "foo =\n\tFoo\n\tBar { $sel ->\n\t\t*[a] A\n\t\t[b] B\n\t}\n";
    round_trip(t, t);
}

#[test]
fn nested_select_expression() {
    let t = "foo =\n\t{ $a ->\n\t\t*[a]\n\t\t\t{ $b ->\n\t\t\t\t*[b] Foo\n\t\t\t}\n\t}\n";
    round_trip(t, t);
}

#[test]
fn selector_number_expression() {
    let t = "foo =\n\t{ 1 ->\n\t\t*[a] A\n\t}\n";
    round_trip(t, t);
}

#[test]
fn selector_string_expression() {
    let t = "foo =\n\t{ \"bar\" ->\n\t\t*[a] A\n\t}\n";
    round_trip(t, t);
}

#[test]
fn selector_attribute_expression() {
    let t = "foo =\n\t{ -bar.baz ->\n\t\t*[a] A\n\t}\n";
    round_trip(t, t);
}

#[test]
fn call_expression() {
    round_trip("foo = { FOO() }\n", "foo = { FOO() }\n");
}

#[test]
fn call_expression_with_string_expression() {
    round_trip("foo = { FOO(\"bar\") }\n", "foo = { FOO(\"bar\") }\n");
}

#[test]
fn call_expression_with_number_named_argument() {
    round_trip("foo = { FOO(bar: 1) }\n", "foo = { FOO(bar: 1) }\n");
}

#[test]
fn call_expression_with_positional_and_named_arguments() {
    let t = "foo = { FOO(bar, 1, baz: \"baz\") }\n";
    round_trip(t, t);
}

#[test]
fn macro_call() {
    round_trip("foo = { -term() }\n", "foo = { -term() }\n");
}

#[test]
fn nested_placeables() {
    round_trip("foo = {{ FOO() }}\n", "foo = {{ FOO() }}\n");
}

#[test]
fn backslash_in_text_element() {
    round_trip("foo = \\{ placeable }\n", "foo = \\{ placeable }\n");
}

#[test]
fn excaped_special_char_in_string_literal() {
    let t = "foo = { \"Escaped \\\" quote\" }\n";
    round_trip(t, t);
}

#[test]
fn unicode_escape_sequence() {
    round_trip("foo = { \"\\u0065\" }\n", "foo = { \"\\u0065\" }\n");
}

#[test]
fn standalone_comment_has_not_padding_when_first() {
    let t = "# Comment A\n\nfoo = Foo\n\n# Comment B\n\nbar = Bar\n";
    round_trip(t, t);
}

#[test]
fn group_comment_has_not_padding_when_first() {
    let t = "## Group A\n\nfoo = Foo\n\n## Group B\n\nbar = Bar\n";
    round_trip(t, t);
}

#[test]
fn resource_comment_has_not_padding_when_first() {
    let t = "### Resource Comment A\n\nfoo = Foo\n\n### Resource Comment B\n\nbar = Bar\n";
    round_trip(t, t);
}

#[test]
fn junk_is_left_out_unless_asked_for() {
    let resource = match parse("foo = Foo\nbar Bar\n") {
        Ok(_) => panic!("expected junk"),
        Err((resource, _)) => resource,
    };
    assert_eq!(serialize(&resource), "foo = Foo\n");
    assert_eq!(
        serialize_with_options(&resource, Options { with_junk: true }),
        "foo = Foo\nbar Bar\n"
    );
}

#[test]
fn plain_entries_survive_a_round_trip() {
    let pattern = |value: &str| Pattern {
        elements: vec![PatternElement::TextElement { value: value.as_bytes().to_vec() }],
    };
    let ident = |id: &str| Identifier { name: id.as_bytes().to_vec() };
    let resource = Resource {
        body: vec![
            Entry::Message(Message {
                id: ident("hello"),
                value: Some(pattern("Hello, World!")),
                attributes: vec![Attribute { id: ident("title"), value: pattern("Greeting") }],
                comment: None,
            }),
            Entry::Term(Term {
                id: ident("brand"),
                value: pattern("[Fire] *fox*"),
                attributes: vec![],
                comment: Some(Comment { content: vec![b"The brand".to_vec(), vec![]] }),
            }),
        ],
    };
    let text = serialize(&resource);
    assert_eq!(
        text,
        "hello = Hello, World!\n    .title = Greeting\n\n# The brand\n#\n-brand = [Fire] *fox*\n"
    );
    let back = parse(&text).unwrap();
    assert_eq!(back, resource);
}

#[test]
fn standalone_comments_survive_a_round_trip() {
    let comment = |lines: &[&str]| Comment {
        content: lines.iter().map(|l| l.as_bytes().to_vec()).collect(),
    };
    let resource = Resource {
        body: vec![
            Entry::ResourceComment(comment(&["Resource notes"])),
            Entry::GroupComment(comment(&["Group", ""])),
            Entry::Comment(comment(&["Loose"])),
            Entry::Message(Message {
                id: Identifier { name: b"key".to_vec() },
                value: Some(Pattern {
                    elements: vec![PatternElement::TextElement { value: b"Value".to_vec() }],
                }),
                attributes: vec![],
                comment: Some(comment(&["Attached"])),
            }),
        ],
    };
    let text = serialize(&resource);
    assert_eq!(
        text,
        "### Resource notes\n\n\n## Group\n##\n\n\n# Loose\n\n\n# Attached\nkey = Value\n"
    );
    let back = parse(&text).unwrap();
    assert_eq!(back, resource);
}

#[test]
fn variable_placeables_survive_a_round_trip() {
    let text = |value: &str| PatternElement::TextElement { value: value.as_bytes().to_vec() };
    let var = |id: &str| PatternElement::Placeable {
        expression: Expression::InlineExpression(InlineExpression::VariableReference {
            id: Identifier { name: id.as_bytes().to_vec() },
        }),
    };
    let resource = Resource {
        body: vec![Entry::Message(Message {
            id: Identifier { name: b"greeting".to_vec() },
            value: Some(Pattern { elements: vec![text("Hello, "), var("first"), text(" "), var("last"), text("!")] }),
            attributes: vec![Attribute {
                id: Identifier { name: b"count".to_vec() },
                value: Pattern { elements: vec![var("n"), text(" new")] },
            }],
            comment: None,
        })],
    };
    let serialized = serialize(&resource);
    assert_eq!(serialized, "greeting = Hello, { $first } { $last }!\n    .count = { $n } new\n");
    let back = parse(&serialized).unwrap();
    assert_eq!(back, resource);
    assert_eq!(serialize(&back), serialized);
}

#[test]
fn simple_placeables_survive_a_round_trip() {
    let text = |value: &str| PatternElement::TextElement { value: value.as_bytes().to_vec() };
    let inline = |e: InlineExpression<Vec<u8>>| PatternElement::Placeable {
        expression: Expression::InlineExpression(e),
    };
    let ident = |id: &str| Identifier { name: id.as_bytes().to_vec() };
    let resource = Resource {
        body: vec![Entry::Term(Term {
            id: ident("brand"),
            value: Pattern {
                elements: vec![
                    inline(InlineExpression::MessageReference { id: ident("vendor"), attribute: None }),
                    text(" "),
                    inline(InlineExpression::TermReference { id: ident("product"), attribute: None, arguments: None }),
                    text(" "),
                    inline(InlineExpression::MessageReference { id: ident("vendor"), attribute: Some(ident("title")) }),
                    text(" v"),
                    inline(InlineExpression::NumberLiteral { value: b"42".to_vec() }),
                    inline(InlineExpression::StringLiteral { value: b"{beta}".to_vec() }),
                ],
            },
            attributes: vec![],
            comment: None,
        })],
    };
    let serialized = serialize(&resource);
    assert_eq!(serialized, "-brand = { vendor } { -product } { vendor.title } v{ 42 }{ \"{beta}\" }\n");
    let back = parse(&serialized).unwrap();
    assert_eq!(back, resource);
    assert_eq!(serialize(&back), serialized);
}

#[test]
fn multiline_values_survive_a_round_trip() {
    let text = |value: &str| PatternElement::TextElement { value: value.as_bytes().to_vec() };
    let ident = |id: &str| Identifier { name: id.as_bytes().to_vec() };
    let resource = Resource {
        body: vec![
            Entry::Message(Message {
                id: ident("poem"),
                value: Some(Pattern { elements: vec![text("Roses are red,\n"), text("violets are blue.")] }),
                attributes: vec![Attribute {
                    id: ident("note"),
                    value: Pattern { elements: vec![text("First line\n"), text("second line\n"), text("third")] },
                }],
                comment: None,
            }),
            Entry::Term(Term {
                id: ident("brand"),
                value: Pattern { elements: vec![text("Fire\n"), text("fox")] },
                attributes: vec![],
                comment: None,
            }),
        ],
    };
    let serialized = serialize(&resource);
    assert_eq!(
        serialized,
        "poem =\n    Roses are red,\n    violets are blue.\n    .note =\n        First line\n        second line\n        third\n-brand =\n    Fire\n    fox\n"
    );
    let back = parse(&serialized).unwrap();
    assert_eq!(back, resource);
    assert_eq!(serialize(&back), serialized);
}

#[test]
fn message_without_value_survives_a_round_trip() {
    let resource = Resource {
        body: vec![Entry::Message(Message {
            id: Identifier { name: b"login-input".to_vec() },
            value: None,
            attributes: vec![
                Attribute {
                    id: Identifier { name: b"placeholder".to_vec() },
                    value: Pattern {
                        elements: vec![PatternElement::TextElement { value: b"email@example.com".to_vec() }],
                    },
                },
                Attribute {
                    id: Identifier { name: b"aria-label".to_vec() },
                    value: Pattern { elements: vec![PatternElement::TextElement { value: b"Login input value".to_vec() }] },
                },
            ],
            comment: None,
        })],
    };
    let serialized = serialize(&resource);
    assert_eq!(
        serialized,
        "login-input =\n    .placeholder = email@example.com\n    .aria-label = Login input value\n"
    );
    let back = parse(&serialized).unwrap();
    assert_eq!(back, resource);
    assert_eq!(serialize(&back), serialized);
}

#[test]
fn select_expressions_survive_a_round_trip() {
    let text = |value: &str| Pattern { elements: vec![PatternElement::TextElement { value: value.as_bytes().to_vec() }] };
    let ident = |id: &str| Identifier { name: id.as_bytes().to_vec() };
    let select = |selector: InlineExpression<Vec<u8>>, variants: Vec<Variant<Vec<u8>>>| Pattern {
        elements: vec![PatternElement::Placeable { expression: Expression::SelectExpression { selector, variants } }],
    };
    let resource = Resource {
        body: vec![Entry::Message(Message {
            id: ident("emails"),
            value: Some(select(
                InlineExpression::VariableReference { id: ident("unreadEmails") },
                vec![
                    Variant { key: VariantKey::NumberLiteral { value: b"0".to_vec() }, value: text("No new emails."), default: false },
                    Variant { key: VariantKey::Identifier { name: b"one".to_vec() }, value: text("One new email."), default: false },
                    Variant { key: VariantKey::Identifier { name: b"other".to_vec() }, value: text("Many new emails."), default: true },
                ],
            )),
            attributes: vec![Attribute {
                id: ident("title"),
                value: select(
                    InlineExpression::StringLiteral { value: b"x".to_vec() },
                    vec![Variant { key: VariantKey::Identifier { name: b"x".to_vec() }, value: text("Inbox"), default: true }],
                ),
            }],
            comment: None,
        })],
    };
    let serialized = serialize(&resource);
    assert_eq!(
        serialized,
        "emails =\n    { $unreadEmails ->\n        [0] No new emails.\n        [one] One new email.\n        *[other] Many new emails.\n    }\n    .title =\n        { \"x\" ->\n            *[x] Inbox\n        }\n"
    );
    let back = parse(&serialized).unwrap();
    assert_eq!(back, resource);
    assert_eq!(serialize(&back), serialized);
}

#[test]
fn function_calls_survive_a_round_trip() {
    let ident = |id: &str| Identifier { name: id.as_bytes().to_vec() };
    let call = InlineExpression::FunctionReference {
        id: ident("NUMBER"),
        arguments: Some(CallArguments {
            positional: vec![InlineExpression::VariableReference { id: ident("ratio") }],
            named: vec![
                NamedArgument {
                    name: ident("minimumFractionDigits"),
                    value: InlineExpression::NumberLiteral { value: b"2".to_vec() },
                },
                NamedArgument { name: ident("style"), value: InlineExpression::StringLiteral { value: b"percent".to_vec() } },
            ],
        }),
    };
    let empty_call = InlineExpression::FunctionReference {
        id: ident("NOW"),
        arguments: Some(CallArguments { positional: vec![], named: vec![] }),
    };
    let resource = Resource {
        body: vec![Entry::Message(Message {
            id: ident("share"),
            value: Some(Pattern {
                elements: vec![
                    PatternElement::Placeable { expression: Expression::InlineExpression(call) },
                    PatternElement::TextElement { value: b" at ".to_vec() },
                    PatternElement::Placeable { expression: Expression::InlineExpression(empty_call) },
                    PatternElement::TextElement { value: b" on ".to_vec() },
                    PatternElement::Placeable {
                        expression: Expression::InlineExpression(InlineExpression::TermReference {
                            id: ident("brand"),
                            attribute: None,
                            arguments: Some(CallArguments {
                                positional: vec![],
                                named: vec![NamedArgument {
                                    name: ident("case"),
                                    value: InlineExpression::StringLiteral { value: b"genitive".to_vec() },
                                }],
                            }),
                        }),
                    },
                ],
            }),
            attributes: vec![],
            comment: None,
        })],
    };
    let serialized = serialize(&resource);
    assert_eq!(
        serialized,
        "share = { NUMBER($ratio, minimumFractionDigits: 2, style: \"percent\") } at { NOW() } on { -brand(case: \"genitive\") }\n"
    );
    let back = parse(&serialized).unwrap();
    assert_eq!(back, resource);
    assert_eq!(serialize(&back), serialized);
}

#[test]
fn non_ascii_text_survives_a_round_trip() {
    let text = |value: &str| PatternElement::TextElement { value: value.as_bytes().to_vec() };
    let ident = |id: &str| Identifier { name: id.as_bytes().to_vec() };
    let resource = Resource {
        body: vec![
            Entry::Message(Message {
                id: ident("greeting"),
                value: Some(Pattern {
                    elements: vec![
                        text("Zażółć\tgęślą "),
                        PatternElement::Placeable {
                            expression: Expression::InlineExpression(InlineExpression::VariableReference {
                                id: ident("name"),
                            }),
                        },
                        text(" jaźń — ✓"),
                    ],
                }),
                attributes: vec![],
                comment: None,
            }),
            Entry::Message(Message {
                id: ident("poem"),
                value: Some(Pattern { elements: vec![text("Łódź\n"), text("日本語")] }),
                attributes: vec![],
                comment: None,
            }),
        ],
    };
    let serialized = serialize(&resource);
    assert_eq!(serialized, "greeting = Zażółć\tgęślą { $name } jaźń — ✓\npoem =\n    Łódź\n    日本語\n");
    let back = parse(&serialized).unwrap();
    assert_eq!(back, resource);
    assert_eq!(serialize(&back), serialized);
}

#[test]
fn junk_is_dropped_and_the_rest_read_back() {
    let with_junk = match parse("foo = Foo\nbar Bar\nbaz = Baz\n") {
        Ok(_) => panic!("expected junk"),
        Err((resource, _)) => resource,
    };
    let written = serialize(&with_junk);
    let back = parse(&written).unwrap();
    assert_eq!(back.body.len(), 2);
    assert_eq!(serialize(&back), written);
}

#[test]
fn junk_survives_a_round_trip_with_junk() {
    let text = "foo = Foo\nbar Bar\nbaz = Baz\n";
    let (resource, errors) = match parse(text) {
        Ok(_) => panic!("expected junk"),
        Err(e) => e,
    };
    let written = serialize_with_options(&resource, Options { with_junk: true });
    assert_eq!(written, text);
    let (back, back_errors) = match parse(&written) {
        Ok(_) => panic!("expected junk"),
        Err(e) => e,
    };
    assert_eq!(back, resource);
    assert_eq!(back_errors, errors);
}

#[test]
fn junk_over_several_lines_survives_a_round_trip() {
    let text = "foo = Foo\nbar\n  baz\nqux = Qux\n";
    let (resource, errors) = match parse(text) {
        Ok(_) => panic!("expected junk"),
        Err(e) => e,
    };
    assert_eq!(resource.body[1], Entry::Junk { content: b"bar\n  baz\n".to_vec() });
    let written = serialize_with_options(&resource, Options { with_junk: true });
    assert_eq!(written, text);
    let (back, back_errors) = match parse(&written) {
        Ok(_) => panic!("expected junk"),
        Err(e) => e,
    };
    assert_eq!(back, resource);
    assert_eq!(back_errors, errors);
}

#[test]
fn multiline_variants_survive_a_round_trip() {
    let text = |value: &str| PatternElement::TextElement { value: value.as_bytes().to_vec() };
    let ident = |id: &str| Identifier { name: id.as_bytes().to_vec() };
    let resource = Resource {
        body: vec![Entry::Message(Message {
            id: ident("emails"),
            value: Some(Pattern {
                elements: vec![PatternElement::Placeable {
                    expression: Expression::SelectExpression {
                        selector: InlineExpression::VariableReference { id: ident("n") },
                        variants: vec![
                            Variant {
                                key: VariantKey::Identifier { name: b"one".to_vec() },
                                value: Pattern { elements: vec![text("One new\n"), text("email.")] },
                                default: false,
                            },
                            Variant {
                                key: VariantKey::Identifier { name: b"other".to_vec() },
                                value: Pattern { elements: vec![text("Many.")] },
                                default: true,
                            },
                        ],
                    },
                }],
            }),
            attributes: vec![],
            comment: None,
        })],
    };
    let serialized = serialize(&resource);
    assert_eq!(
        serialized,
        "emails =\n    { $n ->\n        [one]\n            One new\n            email.\n        *[other] Many.\n    }\n"
    );
    let back = parse(&serialized).unwrap();
    assert_eq!(back, resource);
    assert_eq!(serialize(&back), serialized);
}

#[test]
fn nested_placeables_survive_a_round_trip() {
    let ident = |id: &str| Identifier { name: id.as_bytes().to_vec() };
    let nested = PatternElement::Placeable {
        expression: Expression::InlineExpression(InlineExpression::Placeable {
            expression: Box::new(Expression::InlineExpression(InlineExpression::VariableReference {
                id: ident("x"),
            })),
        }),
    };
    let resource = Resource {
        body: vec![Entry::Message(Message {
            id: ident("key"),
            value: Some(Pattern { elements: vec![nested] }),
            attributes: vec![],
            comment: None,
        })],
    };
    let serialized = serialize(&resource);
    assert_eq!(serialized, "key = {{ $x }}\n");
    let back = parse(&serialized).unwrap();
    assert_eq!(back, resource);
    assert_eq!(parse("key = { { $x } }\n").unwrap(), resource);
}

#[test]
fn mixed_lines_survive_a_round_trip() {
    let text = |value: &str| PatternElement::TextElement { value: value.as_bytes().to_vec() };
    let ident = |id: &str| Identifier { name: id.as_bytes().to_vec() };
    let var = |id: &str| PatternElement::Placeable {
        expression: Expression::InlineExpression(InlineExpression::VariableReference { id: ident(id) }),
    };
    let select = PatternElement::Placeable {
        expression: Expression::SelectExpression {
            selector: InlineExpression::TermReference {
                id: ident("brand"),
                attribute: Some(ident("gender")),
                arguments: None,
            },
            variants: vec![Variant {
                key: VariantKey::Identifier { name: b"other".to_vec() },
                value: Pattern { elements: vec![text("it")] },
                default: true,
            }],
        },
    };
    let resource = Resource {
        body: vec![Entry::Message(Message {
            id: ident("foo"),
            value: Some(Pattern {
                elements: vec![text("Hi "), var("name"), text(",\n"), text("see "), select, text(" now")],
            }),
            attributes: vec![],
            comment: None,
        })],
    };
    let serialized = serialize(&resource);
    assert_eq!(
        serialized,
        "foo =\n    Hi { $name },\n    see { -brand.gender ->\n        *[other] it\n    } now\n"
    );
    let back = parse(&serialized).unwrap();
    assert_eq!(back, resource);
    assert_eq!(serialize(&back), serialized);
}

#[test]
fn serializing_without_junk_drops_only_junk() {
    let with_junk = match parse("foo = Foo\nbar Bar\nbaz = Baz\n") {
        Ok(_) => panic!("expected junk"),
        Err((resource, _)) => resource,
    };
    let without = parse("foo = Foo\nbaz = Baz\n").unwrap();
    assert_eq!(serialize(&with_junk), serialize(&without));
    assert_eq!(serialize(&with_junk), "foo = Foo\nbaz = Baz\n");
}
