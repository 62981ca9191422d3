//! The data that describes a localization test scenario: where its files come from,
//! what it asks for and what it expects back.
use crate::text::owned;
use vstd::prelude::*;

verus! {

/// Owned copies of `items`, in order.
pub fn owned_all(items: &Vec<&str>) -> (r: Vec<String>)
    ensures
        r@.len() == items@.len(),
        forall|i: int| 0 <= i < items@.len() ==> #[trigger] r@[i]@ == items@[i]@,
{
    let mut r: Vec<String> = Vec::new();
    let mut i: usize = 0;
    while i < items.len()
        invariant
            i <= items@.len(),
            r@.len() == i,
            forall|k: int| 0 <= k < i ==> #[trigger] r@[k]@ == items@[k]@,
        decreases items@.len() - i,
    {
        r.push(owned(items[i]));
        i += 1;
    }
    r
}

/// A source of resource files: its name, the locales it has and where their files lie.
#[derive(Debug, Clone)]
pub struct FileSource {
    pub name: String,
    pub locales: Vec<String>,
    pub path_scheme: String,
}

impl Default for FileSource {
    fn default() -> (r: Self)
        ensures
            r.name@ == "default"@,
            r.path_scheme@ == "{locale}/"@,
            r.locales@.len() == 1,
            r.locales@[0]@ == "en-US"@,
    {
        let mut locales: Vec<String> = Vec::new();
        locales.push(owned("en-US"));
        FileSource { name: owned("default"), path_scheme: owned("{locale}/"), locales }
    }
}

impl FileSource {
    pub fn new(name: &str, path_scheme: &str, locales: Vec<&str>) -> (r: Self)
        ensures
            r.name@ == name@,
            r.path_scheme@ == path_scheme@,
            r.locales@.len() == locales@.len(),
            forall|i: int| 0 <= i < locales@.len() ==> #[trigger] r.locales@[i]@ == locales@[i]@,
    {
        FileSource {
            name: owned(name),
            path_scheme: owned(path_scheme),
            locales: owned_all(&locales),
        }
    }
}

/// An attribute of a formatted message.
#[derive(Debug)]
pub struct L10nAttribute {
    pub name: String,
    pub value: String,
}

impl L10nAttribute {
    pub fn new(name: &str, value: &str) -> (r: Self)
        ensures
            r.name@ == name@,
            r.value@ == value@,
    {
        L10nAttribute { name: owned(name), value: owned(value) }
    }
}

/// A formatted message: its value and attributes, where it has them.
#[derive(Debug)]
pub struct L10nMessage {
    pub value: Option<String>,
    pub attributes: Option<Vec<L10nAttribute>>,
}

impl L10nMessage {
    pub fn new(value: Option<&str>, attributes: Option<Vec<L10nAttribute>>) -> (r: Self)
        ensures
            match value {
                Some(v) => r.value matches Some(x) && x@ == v@,
                None => r.value is None,
            },
            r.attributes == attributes,
    {
        let value = match value {
            Some(v) => Some(owned(v)),
            None => None,
        };
        L10nMessage { value, attributes }
    }
}

/// An argument passed to a message.
#[derive(Debug)]
pub struct L10nArgument {
    pub id: String,
    pub value: String,
}

impl L10nArgument {
    pub fn new(id: &str, value: &str) -> (r: Self)
        ensures
            r.id@ == id@,
            r.value@ == value@,
    {
        L10nArgument { id: owned(id), value: owned(value) }
    }
}

/// The message asked for, with its arguments.
#[derive(Debug)]
pub struct L10nKey {
    pub id: String,
    pub args: Option<Vec<L10nArgument>>,
}

impl L10nKey {
    pub fn new(id: &str, args: Option<Vec<L10nArgument>>) -> (r: Self)
        ensures
            r.id@ == id@,
            r.args == args,
    {
        L10nKey { id: owned(id), args }
    }
}

/// A message asked for, and what it should format to, if anything.
#[derive(Debug)]
pub struct Query {
    pub input: L10nKey,
    pub output: Option<L10nMessage>,
}

impl Query {
    pub fn new(input: L10nKey, output: Option<L10nMessage>) -> (r: Self)
        ensures
            r.input == input,
            r.output == output,
    {
        Query { input, output }
    }
}

impl From<L10nKey> for Query {
    fn from(key: L10nKey) -> (r: Self) {
        Query { input: key, output: None }
    }
}

impl vstd::std_specs::convert::FromSpecImpl<L10nKey> for Query {
    open spec fn obeys_from_spec() -> bool {
        true
    }

    open spec fn from_spec(key: L10nKey) -> Self {
        Query { input: key, output: None }
    }
}

impl From<(L10nKey, L10nMessage)> for Query {
    fn from(i: (L10nKey, L10nMessage)) -> (r: Self) {
        Query { input: i.0, output: Some(i.1) }
    }
}

impl vstd::std_specs::convert::FromSpecImpl<(L10nKey, L10nMessage)> for Query {
    open spec fn obeys_from_spec() -> bool {
        true
    }

    open spec fn from_spec(i: (L10nKey, L10nMessage)) -> Self {
        Query { input: i.0, output: Some(i.1) }
    }
}

/// The queries of a scenario.
#[derive(Debug)]
pub struct Queries(pub Vec<Query>);

/// A test scenario: the file sources, the locales asked for in order, the resources
/// to load, and the queries with their expected results.
#[derive(Debug)]
pub struct Scenario {
    pub name: String,
    pub file_sources: Vec<FileSource>,
    pub locales: Vec<String>,
    pub res_ids: Vec<String>,
    pub queries: Queries,
}

impl Scenario {
    pub fn new(
        name: &str,
        file_sources: Vec<FileSource>,
        locales: Vec<&str>,
        res_ids: Vec<&str>,
        queries: Queries,
    ) -> (r: Self)
        ensures
            r.name@ == name@,
            r.file_sources == file_sources,
            r.locales@.len() == locales@.len(),
            forall|i: int| 0 <= i < locales@.len() ==> #[trigger] r.locales@[i]@ == locales@[i]@,
            r.res_ids@.len() == res_ids@.len(),
            forall|i: int| 0 <= i < res_ids@.len() ==> #[trigger] r.res_ids@[i]@ == res_ids@[i]@,
            r.queries == queries,
    {
        Scenario {
            name: owned(name),
            file_sources,
            locales: owned_all(&locales),
            res_ids: owned_all(&res_ids),
            queries,
        }
    }
}

/// The simple scenario: one English file source, and one query for the label of the
/// history section.
pub fn get_scenario() -> (r: Scenario)
    ensures
        r.name@ == "simple"@,
        r.file_sources@.len() == 1,
        r.file_sources@[0].name@ == "browser"@,
        r.file_sources@[0].path_scheme@ == "browser/{locale}/"@,
        r.locales@.len() == 1,
        r.locales@[0]@ == "en-US"@,
        r.res_ids@.len() == 1,
        r.res_ids@[0]@ == "browser/sanitize.ftl"@,
        r.queries.0@.len() == 1,
        r.queries.0@[0].input.id@ == "history-section-label"@,
        r.queries.0@[0].input.args is None,
        r.queries.0@[0].output matches Some(m) && m.value matches Some(v) && v@ == "History"@
            && m.attributes is None,
{
    let mut file_sources: Vec<FileSource> = Vec::new();
    file_sources.push(FileSource::new("browser", "browser/{locale}/", vec!["en-US"]));
    let mut queries: Vec<Query> = Vec::new();
    queries.push(
        Query::new(L10nKey::new("history-section-label", None), Some(L10nMessage::new(Some("History"), None))),
    );
    Scenario::new("simple", file_sources, vec!["en-US"], vec!["browser/sanitize.ftl"], Queries(queries))
}

} // verus!
