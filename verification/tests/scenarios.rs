use fluent::testing::{FileSource, L10nArgument, L10nAttribute, L10nKey, L10nMessage, Queries, Query, Scenario};

#[test]
fn file_source_defaults() {
    let fs = FileSource::default();
    assert_eq!(fs.name, "default");
    assert_eq!(fs.path_scheme, "{locale}/");
    assert_eq!(fs.locales, vec!["en-US".to_string()]);
}

#[test]
fn scenario_is_built_from_strings() {
    let fs = FileSource::new("browser", "browser/{locale}", vec!["en-US", "pl"]);
    assert_eq!(fs.locales, vec!["en-US".to_string(), "pl".to_string()]);
    let msg = L10nMessage::new(Some("Hello"), Some(vec![L10nAttribute::new("title", "Hi")]));
    assert_eq!(msg.value.as_deref(), Some("Hello"));
    let key = L10nKey::new("hello", Some(vec![L10nArgument::new("name", "John")]));
    assert_eq!(key.args.as_ref().unwrap()[0].value, "John");
    let q = Query::new(key, Some(msg));
    let s = Scenario::new("basic", vec![fs], vec!["pl", "en-US"], vec!["main.ftl"], Queries(vec![q]));
    assert_eq!(s.name, "basic");
    assert_eq!(s.locales, vec!["pl".to_string(), "en-US".to_string()]);
    assert_eq!(s.res_ids, vec!["main.ftl".to_string()]);
    assert_eq!(s.queries.0.len(), 1);
}

#[test]
fn simple_scenario_asks_for_history_label() {
    let s = fluent::testing::get_scenario();
    assert_eq!(s.name, "simple");
    assert_eq!(s.file_sources[0].path_scheme, "browser/{locale}/");
    assert_eq!(s.res_ids, vec!["browser/sanitize.ftl".to_string()]);
    assert_eq!(s.queries.0[0].input.id, "history-section-label");
    assert_eq!(s.queries.0[0].output.as_ref().unwrap().value.as_deref(), Some("History"));
}

#[test]
fn queries_are_built_from_keys_and_messages() {
    let query = Query::from(L10nKey::new("key", None));
    assert_eq!(query.input.id, "key");
    assert!(query.output.is_none());
    let query = Query::from((L10nKey::new("other", None), L10nMessage::new(Some("Value"), None)));
    assert_eq!(query.input.id, "other");
    assert_eq!(query.output.unwrap().value, Some("Value".to_string()));
}
