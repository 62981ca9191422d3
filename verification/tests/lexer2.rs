use fluent::parser2::lexer::{Lexer, LexerState, Token};

#[test]
fn second_lexer_reads_simple_messages() {
    let input = "key0 = Value 0\nkey1 = Value 1\n";
    let tokens = Lexer::new(input.as_bytes()).collect();
    assert_eq!(
        tokens,
        vec![
            Token::Identifier(0..4),
            Token::EqSign,
            Token::Text(1, 7..14),
            Token::Eot,
            Token::Identifier(15..19),
            Token::EqSign,
            Token::Text(1, 22..29),
            Token::Eot,
        ]
    );
}

#[test]
fn second_lexer_reads_comments_and_continuations() {
    let mut lexer = Lexer::new("# Hi\nkey =\n    Foo\n".as_bytes());
    assert_eq!(lexer.next(), Some(Token::CommentSign));
    assert_eq!(lexer.state, LexerState::TextLine);
    assert_eq!(lexer.next(), Some(Token::Text(1, 2..4)));
    assert_eq!(lexer.next(), Some(Token::Identifier(5..8)));
    assert_eq!(lexer.next(), Some(Token::EqSign));
    assert_eq!(lexer.next(), Some(Token::Eol));
    assert_eq!(lexer.next(), Some(Token::Text(0, 15..18)));
    assert_eq!(lexer.next(), Some(Token::Eot));
    assert_eq!(lexer.next(), None);
}
