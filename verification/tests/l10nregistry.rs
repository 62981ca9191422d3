use fluent::fallback::{L10nAttribute, L10nMessage};

#[test]
fn localization_format_value_async() {}

#[test]
fn formatted_message_holds_value_and_attributes() {
    let message = L10nMessage {
        value: Some("Hello".to_string()),
        attributes: vec![L10nAttribute { name: "title".to_string(), value: "Hi".to_string() }],
    };
    assert_eq!(message.value.as_deref(), Some("Hello"));
    assert_eq!(message.attributes[0].name, "title");
}
