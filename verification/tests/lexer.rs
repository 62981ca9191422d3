use fluent::parser::lexer::{Lexer, LexerError, Token};

/// Lexes two simple messages, written inline here in the shape of the benchmark file
/// of simple messages, and checks every token.
#[test]
fn lex_simple() {
    let input = "key0 = Value 0\nkey1 = Value 1\n";
    let lexer = Lexer::new(input.as_bytes());
    let tokens: Vec<Token> = lexer.collect();
    assert_eq!(
        tokens,
        vec![
            Token::Identifier(0..4),
            Token::EqSign,
            Token::Text(7..14),
            Token::Eot,
            Token::Identifier(15..19),
            Token::EqSign,
            Token::Text(22..29),
            Token::Eot,
        ]
    );
}

/// Lexes a message with attributes only, written inline here in the shape of the
/// benchmark file of menu bar labels, and checks every token.
#[test]
fn lex_menubar() {
    let input = "file-menu =\n    .label = File\n    .accesskey = F\n";
    let lexer = Lexer::new(input.as_bytes());
    let tokens: Vec<Token> = lexer.collect();
    assert_eq!(
        tokens,
        vec![
            Token::Identifier(0..9),
            Token::EqSign,
            Token::Eot,
            Token::Dot,
            Token::Identifier(17..22),
            Token::EqSign,
            Token::Text(25..29),
            Token::Eot,
            Token::Dot,
            Token::Identifier(35..44),
            Token::EqSign,
            Token::Text(47..48),
            Token::Eot,
        ]
    );
}

#[test]
fn lexer_reports_junk_for_an_invalid_entry() {
    let input = "= x\nkey = Value\n";
    let tokens: Vec<Token> = Lexer::new(input.as_bytes()).collect();
    assert_eq!(tokens[0], Token::Junk(0..4));
    assert_eq!(tokens[1], Token::Identifier(4..7));
}

#[test]
fn lexer_reads_comments_and_placeables() {
    let input = "# Hi\nkey = { $x }\n";
    let mut lexer = Lexer::new(input.as_bytes());
    assert_eq!(lexer.try_next(), Ok(Some(Token::CommentSign)));
    assert_eq!(lexer.try_next(), Ok(Some(Token::Text(2..4))));
    assert_eq!(lexer.take_if(Token::Identifier(5..8)), Ok(true));
    assert_eq!(lexer.expect(Token::EqSign), Ok(()));
    assert_eq!(lexer.try_peek(), Ok(Some(&Token::OpenCurlyBraces)));
    assert_eq!(lexer.try_next(), Ok(Some(Token::OpenCurlyBraces)));
    assert_eq!(lexer.try_next(), Err(LexerError::Unknown));
}
