use fluent::fallback::{L10nAttribute, L10nMessage};
use fluent::localization::{
    LocalizationError, MessageAnswer, MessagesLookup, ValueAnswer, ValueLookup, ValuesLookup,
    value_or_id,
};

fn s(text: &str) -> String {
    text.to_string()
}

fn formatted(value: &str) -> ValueAnswer<String> {
    ValueAnswer::Formatted { value: s(value), errors: vec![] }
}

fn missing(id: &str) -> LocalizationError<String> {
    LocalizationError::MissingMessage { id: s(id) }
}

/// Asks each bundle in turn, only for the messages still pending, and stops once every
/// message has a value.
fn run_values(
    ids: &Vec<String>,
    bundles: Vec<(&str, Vec<ValueAnswer<String>>)>,
    errors: &mut Vec<LocalizationError<String>>,
) -> Vec<Option<String>> {
    let mut lookup = ValuesLookup::new(ids.len());
    for (locale, answers) in bundles {
        let mut asked = vec![];
        for (i, answer) in answers.into_iter().enumerate() {
            asked.push(if lookup.is_pending(i) { Some(answer) } else { None });
        }
        if lookup.bundle(ids, &s(locale), vec![], asked, errors) {
            break;
        }
    }
    lookup.finish(ids, errors)
}

#[test]
fn values_fall_back_to_the_next_locale() {
    let ids = vec![s("hello-world"), s("missing-message"), s("hello-world-3")];
    let mut errors = vec![];
    let values = run_values(
        &ids,
        vec![
            ("pl", vec![formatted("Hello World [pl]"), ValueAnswer::NoMessage, ValueAnswer::NoMessage]),
            (
                "en-US",
                vec![formatted("Hello World [en]"), ValueAnswer::NoMessage, formatted("Hello World 3 [en]")],
            ),
        ],
        &mut errors,
    );
    assert_eq!(values.len(), 3);
    assert_eq!(values[0], Some(s("Hello World [pl]")));
    assert_eq!(values[1], None);
    assert_eq!(values[2], Some(s("Hello World 3 [en]")));
    assert_eq!(
        errors,
        vec![
            missing("missing-message"),
        ]
    );
}

#[test]
fn values_stop_once_complete() {
    let ids = vec![s("a"), s("b")];
    let mut lookup = ValuesLookup::new(2);
    let mut errors = vec![];
    let complete = lookup.bundle(
        &ids,
        &s("en-US"),
        vec![],
        vec![Some(formatted("A")), Some(formatted("B"))],
        &mut errors,
    );
    assert!(complete);
    assert!(!lookup.is_pending(0));
    assert!(!lookup.is_pending(1));
    assert_eq!(lookup.finish(&ids, &mut errors), vec![Some(s("A")), Some(s("B"))]);
    assert!(errors.is_empty());
}

#[test]
fn value_without_a_value_is_reported() {
    let ids = vec![s("key")];
    let mut errors = vec![];
    let values = run_values(
        &ids,
        vec![("pl", vec![ValueAnswer::NoValue]), ("en-US", vec![ValueAnswer::NoMessage])],
        &mut errors,
    );
    assert_eq!(values, vec![None]);
    assert_eq!(
        errors,
        vec![
            LocalizationError::MissingValue { id: s("key"), locale: Some(s("pl")) },
            LocalizationError::MissingValue { id: s("key"), locale: None },
        ]
    );
}

#[test]
fn bundle_and_format_errors_are_reported() {
    let ids = vec![s("key")];
    let mut lookup = ValuesLookup::new(1);
    let mut errors = vec![];
    let complete = lookup.bundle(
        &ids,
        &s("pl"),
        vec![s("overriding")],
        vec![Some(ValueAnswer::Formatted { value: s("Klucz"), errors: vec![s("unknown variable")] })],
        &mut errors,
    );
    assert!(complete);
    assert_eq!(
        errors,
        vec![
            LocalizationError::Bundle { error: s("overriding") },
            LocalizationError::Resolver { id: s("key"), locale: s("pl"), errors: vec![s("unknown variable")] },
        ]
    );
    assert_eq!(lookup.finish(&ids, &mut errors), vec![Some(s("Klucz"))]);
    assert_eq!(errors.len(), 2);
}

#[test]
fn single_value_falls_back() {
    let id = s("hello-world-3");
    let mut lookup = ValueLookup::new();
    let mut errors: Vec<LocalizationError<String>> = vec![];
    assert_eq!(lookup.bundle(&id, &s("pl"), vec![], ValueAnswer::NoMessage, &mut errors), None);
    assert!(!lookup.found_message);
    assert_eq!(
        lookup.bundle(&id, &s("en-US"), vec![], formatted("Hello World 3 [en]"), &mut errors),
        Some(s("Hello World 3 [en]"))
    );
    assert!(lookup.found_message);
    assert!(errors.is_empty());
}

#[test]
fn single_value_missing_everywhere() {
    let id = s("missing-message");
    let mut lookup = ValueLookup::new();
    let mut errors: Vec<LocalizationError<String>> = vec![];
    assert_eq!(lookup.bundle(&id, &s("pl"), vec![], ValueAnswer::NoMessage, &mut errors), None);
    assert_eq!(lookup.bundle(&id, &s("en-US"), vec![], ValueAnswer::NoValue, &mut errors), None);
    lookup.finish(&id, &mut errors);
    assert_eq!(
        errors,
        vec![
            LocalizationError::MissingValue { id: s("missing-message"), locale: Some(s("en-US")) },
            LocalizationError::MissingValue { id: s("missing-message"), locale: None },
        ]
    );
}

fn message(value: &str, attribute: &str) -> L10nMessage {
    L10nMessage {
        value: Some(s(value)),
        attributes: vec![L10nAttribute { name: s("title"), value: s(attribute) }],
    }
}

#[test]
fn messages_fall_back_to_the_next_locale() {
    let ids = vec![s("message-1"), s("message-2"), s("message-3")];
    let mut lookup = MessagesLookup::new(3);
    let mut errors: Vec<LocalizationError<String>> = vec![];
    let complete = lookup.bundle(
        &ids,
        &s("pl"),
        vec![],
        vec![
            Some(MessageAnswer::NoMessage),
            Some(MessageAnswer::Formatted { message: message("Message 2 [pl]", "Title 2 [pl]"), errors: vec![] }),
            Some(MessageAnswer::NoMessage),
        ],
        &mut errors,
    );
    assert!(!complete);
    assert!(lookup.is_pending(0));
    assert!(!lookup.is_pending(1));
    let complete = lookup.bundle(
        &ids,
        &s("en-US"),
        vec![],
        vec![
            Some(MessageAnswer::Formatted {
                message: message("Message 1 Value [en]", "Message 1 Attribute [en]"),
                errors: vec![],
            }),
            None,
            Some(MessageAnswer::NoMessage),
        ],
        &mut errors,
    );
    assert!(!complete);
    let messages = lookup.finish(&ids, &mut errors);
    assert_eq!(messages.len(), 3);
    let first = messages[0].as_ref().unwrap();
    assert_eq!(first.value, Some(s("Message 1 Value [en]")));
    assert_eq!(first.attributes[0].value, s("Message 1 Attribute [en]"));
    assert_eq!(messages[1].as_ref().unwrap().value, Some(s("Message 2 [pl]")));
    assert!(messages[2].is_none());
    assert_eq!(
        errors,
        vec![
            missing("message-3"),
        ]
    );
}

#[test]
fn missing_value_shows_the_id() {
    assert_eq!(value_or_id(None, &s("missing-message")), "missing-message");
    assert_eq!(value_or_id(Some(s("Hello World [pl]")), &s("hello-world")), "Hello World [pl]");
}

/// Looks up three values in turn, each over the bundles of `pl` and then `en-US`, as a
/// localization does: only the message that no bundle has is reported.
#[test]
fn localization_format() {
    let bundles = |id: &str| -> Vec<(&str, ValueAnswer<String>)> {
        match id {
            "hello-world" => vec![("pl", formatted("Hello World [pl]")), ("en-US", formatted("Hello World [en]"))],
            "hello-world-3" => vec![("pl", ValueAnswer::NoMessage), ("en-US", formatted("Hello World 3 [en]"))],
            _ => vec![("pl", ValueAnswer::NoMessage), ("en-US", ValueAnswer::NoMessage)],
        }
    };
    let mut errors: Vec<LocalizationError<String>> = vec![];
    let format_value = |id: &str, errors: &mut Vec<LocalizationError<String>>| -> Option<String> {
        let id = s(id);
        let mut lookup = ValueLookup::new();
        for (locale, answer) in bundles(&id) {
            if let Some(value) = lookup.bundle(&id, &s(locale), vec![], answer, errors) {
                return Some(value);
            }
        }
        lookup.finish(&id, errors);
        None
    };
    assert_eq!(format_value("hello-world", &mut errors), Some(s("Hello World [pl]")));
    assert_eq!(format_value("missing-message", &mut errors), None);
    assert_eq!(format_value("hello-world-3", &mut errors), Some(s("Hello World 3 [en]")));
    assert_eq!(errors.len(), 1);
    assert_eq!(errors, vec![missing("missing-message")]);
}
