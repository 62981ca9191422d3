use fluent::parser::errors::list::{get_error_desc, ErrorKind as CodedKind};
use fluent::parser::errors::ErrorKind;

#[test]
fn error_descriptions_have_codes() {
    let (code, message, hint) = get_error_desc(&CodedKind::Generic);
    assert_eq!((code, message.as_str(), hint), ("E0001", "generic error", ""));

    let (code, message, hint) = get_error_desc(&CodedKind::ExpectedToken { token: '=' });
    assert_eq!((code, message.as_str(), hint), ("E0003", "expected token `=`", ""));

    let (code, message, _) =
        get_error_desc(&CodedKind::ExpectedMessageField { entry_id: "foo".to_string() });
    assert_eq!(code, "E0005");
    assert_eq!(message, "Expected message `foo` to have a value or attributes");

    let (code, _, hint) = get_error_desc(&CodedKind::ExpectedEntry);
    assert_eq!(code, "E0002");
    assert_eq!(hint, "Expected one of ('a'...'Z' | '_' | #') here");

    let (code, message, _) = get_error_desc(&CodedKind::UnterminatedStringExpression);
    assert_eq!((code, message.as_str()), ("E0020", "Underminated string expression"));
}

#[test]
fn error_kinds_describe_themselves() {
    assert_eq!(ErrorKind::Generic.to_string(), "An error occurred");
    assert_eq!(ErrorKind::ExpectedToken('=').to_string(), "Expected a token starting with \"=\"");
    assert_eq!(
        ErrorKind::ExpectedCharRange { range: "a-zA-Z".to_string() }.to_string(),
        "Expected one of \"a-zA-Z\""
    );
    assert_eq!(
        ErrorKind::DuplicatedNamedArgument("x".to_string()).to_string(),
        "The \"x\" argument appears twice"
    );
    assert_eq!(ErrorKind::UnbalancedClosingBrace.to_string(), "Unbalanced closing brace");
}
