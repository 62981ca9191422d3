//! Falling back from one locale's bundle to the next.
//!
//! A localization asks its bundles, most preferred locale first, for the messages it
//! needs. What a bundle answers for a message id is handed to the lookups here, which
//! decide which answer is kept, which errors are reported, and when no further bundle
//! needs to be asked. The error type `E` is that of the bundles: errors met while a
//! bundle was built, and errors met while a pattern was formatted.
use vstd::prelude::*;
use crate::fallback::L10nMessage;

verus! {

/// What can go wrong while localizing.
#[allow(inconsistent_fields)]
#[derive(Debug, PartialEq)]
pub enum LocalizationError<E> {
    /// An error met while a bundle was built.
    Bundle { error: E },
    /// Errors met while the message `id` was formatted in `locale`.
    Resolver { id: String, locale: String, errors: Vec<E> },
    /// The message `id` is missing from every bundle.
    MissingMessage { id: String },
    /// The message `id` has no value: in the bundle of `locale`, or in all of them.
    MissingValue { id: String, locale: Option<String> },
    /// A synchronous request was made of a localization that works asynchronously.
    SyncRequestInAsyncMode,
}

/// What a bundle answers when asked for the value of a message.
#[derive(Debug)]
pub enum ValueAnswer<E> {
    /// The bundle has no message of that id.
    NoMessage,
    /// The bundle has the message, but the message has no value.
    NoValue,
    /// The value, formatted, with the errors met while formatting it.
    Formatted { value: String, errors: Vec<E> },
}

/// The errors reported for the errors met while a bundle was built.
pub open spec fn bundle_errors<E>(load: Seq<E>) -> Seq<LocalizationError<E>> {
    Seq::new(load.len(), |i: int| LocalizationError::Bundle { error: load[i] })
}

/// The errors reported when the bundle of `locale` answers `a` for the message `id`: a
/// bundle without the message reports nothing, since a later one may have it.
pub open spec fn answer_errors<E>(id: String, locale: String, a: ValueAnswer<E>) -> Seq<LocalizationError<E>> {
    match a {
        ValueAnswer::NoMessage => Seq::empty(),
        ValueAnswer::NoValue => seq![LocalizationError::MissingValue { id: id, locale: Some(locale) }],
        ValueAnswer::Formatted { value, errors } => if errors@.len() > 0 {
            seq![LocalizationError::Resolver { id: id, locale: locale, errors: errors }]
        } else {
            Seq::empty()
        },
    }
}

/// The value an answer carries, if any.
pub open spec fn answer_value<E>(a: ValueAnswer<E>) -> Option<String> {
    match a {
        ValueAnswer::Formatted { value, .. } => Some(value),
        _ => None,
    }
}

/// Reports each error met while a bundle was built, in order.
fn push_bundle_errors<E>(load: Vec<E>, errors: &mut Vec<LocalizationError<E>>)
    ensures
        final(errors)@ == old(errors)@ + bundle_errors(load@),
{
    let ghost start = errors@;
    let ghost all = load@;
    let mut load = load;
    let n: usize = load.len();
    let mut i: usize = 0;
    while i < n
        invariant
            i <= n == all.len(),
            load@ == all.skip(i as int),
            errors@ == start + bundle_errors(all.take(i as int)),
        decreases n - i,
    {
        let e = load.remove(0);
        errors.push(LocalizationError::Bundle { error: e });
        i = i + 1;
        assert(bundle_errors(all.take(i as int)) =~= bundle_errors(all.take(i - 1)).push(
            LocalizationError::Bundle { error: e },
        ));
    }
    assert(all.take(n as int) =~= all);
}

/// Asking the bundles, in order, for the value of one message.
pub struct ValueLookup {
    /// Whether some bundle asked so far has the message (without a value).
    pub found_message: bool,
}

impl ValueLookup {
    /// A lookup that has asked no bundle yet.
    pub fn new() -> (r: Self)
        ensures
            !r.found_message,
    {
        ValueLookup { found_message: false }
    }

    /// Takes the answer of the bundle of `locale` for the message `id`, after the errors
    /// met while that bundle was built. Returns the value where the bundle has one: then
    /// no further bundle is asked.
    pub fn bundle<E>(
        &mut self,
        id: &String,
        locale: &String,
        load: Vec<E>,
        answer: ValueAnswer<E>,
        errors: &mut Vec<LocalizationError<E>>,
    ) -> (r: Option<String>)
        ensures
            r == answer_value(answer),
            final(self).found_message == (old(self).found_message || !(answer is NoMessage)),
            final(errors)@ == old(errors)@ + bundle_errors(load@) + answer_errors(*id, *locale, answer),
    {
        push_bundle_errors(load, errors);
        match answer {
            ValueAnswer::NoMessage => None,
            ValueAnswer::NoValue => {
                self.found_message = true;
                errors.push(LocalizationError::MissingValue { id: id.clone(), locale: Some(locale.clone()) });
                None
            },
            ValueAnswer::Formatted { value, errors: format_errors } => {
                self.found_message = true;
                if format_errors.len() > 0 {
                    errors.push(
                        LocalizationError::Resolver { id: id.clone(), locale: locale.clone(), errors: format_errors },
                    );
                }
                Some(value)
            },
        }
    }

    /// Ends a lookup in which no bundle gave a value: the message is reported as missing,
    /// or as without a value where some bundle has it.
    pub fn finish<E>(self, id: &String, errors: &mut Vec<LocalizationError<E>>)
        ensures
            final(errors)@ == old(errors)@.push(
                if self.found_message {
                    LocalizationError::MissingValue { id: *id, locale: None }
                } else {
                    LocalizationError::MissingMessage { id: *id }
                },
            ),
    {
        if self.found_message {
            errors.push(LocalizationError::MissingValue { id: id.clone(), locale: None });
        } else {
            errors.push(LocalizationError::MissingMessage { id: id.clone() });
        }
    }
}

/// The text shown for the message `id`: the value a bundle gave, or else the id itself.
pub fn value_or_id(value: Option<String>, id: &String) -> (r: String)
    ensures
        r == match value {
            Some(v) => v,
            None => *id,
        },
{
    match value {
        Some(v) => v,
        None => id.clone(),
    }
}

/// Where the lookup of one message of several stands.
#[derive(Debug)]
pub enum ValueCell {
    /// A bundle gave this value.
    Value(String),
    /// Some bundle has the message, but none asked so far gave it a value.
    MissingValue,
    /// No bundle asked so far has the message.
    NotFound,
}

/// A cell after the answer `a`: a cell with a value keeps it (its message was not asked).
pub open spec fn cell_after<E>(cell: ValueCell, a: Option<ValueAnswer<E>>) -> ValueCell {
    if cell is Value {
        cell
    } else {
        match a {
            Some(ValueAnswer::Formatted { value, .. }) => ValueCell::Value(value),
            Some(ValueAnswer::NoValue) => ValueCell::MissingValue,
            _ => cell,
        }
    }
}

/// The cells after one bundle's answers.
pub open spec fn cells_after<E>(cells: Seq<ValueCell>, answers: Seq<Option<ValueAnswer<E>>>) -> Seq<ValueCell> {
    Seq::new(cells.len(), |i: int| cell_after(cells[i], answers[i]))
}

/// The errors reported for the answer to one message still looked up.
pub open spec fn cell_errors<E>(id: String, locale: String, cell: ValueCell, a: Option<ValueAnswer<E>>) -> Seq<
    LocalizationError<E>,
> {
    if cell is Value {
        Seq::empty()
    } else {
        match a {
            Some(answer) => answer_errors(id, locale, answer),
            None => Seq::empty(),
        }
    }
}

/// The errors reported for the answers to the first `k` messages, in order.
pub open spec fn cells_errors<E>(
    ids: Seq<String>,
    locale: String,
    cells: Seq<ValueCell>,
    answers: Seq<Option<ValueAnswer<E>>>,
    k: int,
) -> Seq<LocalizationError<E>>
    decreases k,
{
    if k <= 0 {
        Seq::empty()
    } else {
        cells_errors(ids, locale, cells, answers, k - 1) + cell_errors(ids[k - 1], locale, cells[k - 1], answers[k - 1])
    }
}

/// What a cell gives at the end.
pub open spec fn cell_result(cell: ValueCell) -> Option<String> {
    match cell {
        ValueCell::Value(v) => Some(v),
        _ => None,
    }
}

/// The errors reported at the end for the first `k` cells: each message without a value
/// is missing, or has no value where some bundle has it.
pub open spec fn finish_errors<E>(ids: Seq<String>, cells: Seq<ValueCell>, k: int) -> Seq<LocalizationError<E>>
    decreases k,
{
    if k <= 0 {
        Seq::empty()
    } else {
        finish_errors(ids, cells, k - 1) + match cells[k - 1] {
            ValueCell::Value(_) => Seq::empty(),
            ValueCell::MissingValue => seq![LocalizationError::MissingValue { id: ids[k - 1], locale: None }],
            ValueCell::NotFound => seq![LocalizationError::MissingMessage { id: ids[k - 1] }],
        }
    }
}

/// Asking the bundles, in order, for the values of several messages.
pub struct ValuesLookup {
    /// Where the lookup of each message stands.
    pub cells: Vec<ValueCell>,
}

impl ValuesLookup {
    /// A lookup of `n` messages that has asked no bundle yet.
    pub fn new(n: usize) -> (r: Self)
        ensures
            r.cells@ == Seq::new(n as nat, |i: int| ValueCell::NotFound),
    {
        let mut cells: Vec<ValueCell> = Vec::with_capacity(n);
        let mut i: usize = 0;
        while i < n
            invariant
                i <= n,
                cells@ == Seq::new(i as nat, |j: int| ValueCell::NotFound),
            decreases n - i,
        {
            cells.push(ValueCell::NotFound);
            i = i + 1;
            assert(cells@ =~= Seq::new(i as nat, |j: int| ValueCell::NotFound));
        }
        ValuesLookup { cells }
    }

    /// Whether the message `i` still needs to be asked for: no bundle gave it a value.
    pub fn is_pending(&self, i: usize) -> (r: bool)
        requires
            i < self.cells.len(),
        ensures
            r == !(self.cells@[i as int] is Value),
    {
        match &self.cells[i] {
            ValueCell::Value(_) => false,
            _ => true,
        }
    }

    /// Takes the answers of the bundle of `locale` for the messages `ids`, after the
    /// errors met while that bundle was built. Only the messages still pending are read:
    /// their answers must be there. Returns whether every message now has a value; then
    /// no further bundle is asked.
    pub fn bundle<E>(
        &mut self,
        ids: &Vec<String>,
        locale: &String,
        load: Vec<E>,
        answers: Vec<Option<ValueAnswer<E>>>,
        errors: &mut Vec<LocalizationError<E>>,
    ) -> (complete: bool)
        requires
            ids.len() == old(self).cells.len(),
            answers.len() == old(self).cells.len(),
            forall|i: int| 0 <= i < answers.len() && !(old(self).cells@[i] is Value) ==> answers@[i] is Some,
        ensures
            final(self).cells@ == cells_after(old(self).cells@, answers@),
            final(errors)@ == old(errors)@ + bundle_errors(load@) + cells_errors(
                ids@,
                *locale,
                old(self).cells@,
                answers@,
                ids.len() as int,
            ),
            complete == forall|i: int| 0 <= i < ids.len() ==> (#[trigger] final(self).cells@[i]) is Value,
    {
        push_bundle_errors(load, errors);
        let ghost start = errors@;
        let ghost cells0 = self.cells@;
        let ghost all = answers@;
        let mut answers = answers;
        let n: usize = self.cells.len();
        let mut complete = true;
        let mut i: usize = 0;
        while i < n
            invariant
                i <= n == cells0.len() == all.len() == ids.len(),
                forall|j: int| 0 <= j < n && !(cells0[j] is Value) ==> all[j] is Some,
                answers@ == all.skip(i as int),
                self.cells@.len() == n,
                forall|j: int| 0 <= j < i ==> self.cells@[j] == cell_after(cells0[j], all[j]),
                forall|j: int| i <= j < n ==> self.cells@[j] == cells0[j],
                errors@ == start + cells_errors(ids@, *locale, cells0, all, i as int),
                complete == forall|j: int| 0 <= j < i ==> (#[trigger] self.cells@[j]) is Value,
            decreases n - i,
        {
            let ghost before = self.cells@;
            let a = answers.remove(0);
            assert(a == all[i as int]);
            let pending = self.is_pending(i);
            if pending {
                match a {
                    Some(ValueAnswer::Formatted { value, errors: format_errors }) => {
                        if format_errors.len() > 0 {
                            errors.push(
                                LocalizationError::Resolver {
                                    id: ids[i].clone(),
                                    locale: locale.clone(),
                                    errors: format_errors,
                                },
                            );
                        }
                        self.cells.set(i, ValueCell::Value(value));
                    },
                    Some(ValueAnswer::NoValue) => {
                        complete = false;
                        errors.push(LocalizationError::MissingValue { id: ids[i].clone(), locale: Some(locale.clone()) });
                        self.cells.set(i, ValueCell::MissingValue);
                    },
                    Some(ValueAnswer::NoMessage) => {
                        complete = false;
                    },
                    None => {},
                }
            }
            assert(self.cells@[i as int] == cell_after(cells0[i as int], all[i as int]));
            assert(forall|j: int| 0 <= j < i ==> self.cells@[j] == before[j]);
            assert(complete == ((forall|j: int| 0 <= j < i ==> (#[trigger] before[j]) is Value)
                && self.cells@[i as int] is Value));
            i = i + 1;
        }
        assert(self.cells@ =~= cells_after(cells0, all));
        complete
    }

    /// Ends the lookup: the value of each message, where a bundle gave one; each message
    /// without one is reported, in order.
    pub fn finish<E>(self, ids: &Vec<String>, errors: &mut Vec<LocalizationError<E>>) -> (r: Vec<Option<String>>)
        requires
            ids.len() == self.cells.len(),
        ensures
            r@ == Seq::new(self.cells@.len(), |i: int| cell_result(self.cells@[i])),
            final(errors)@ == old(errors)@ + finish_errors(ids@, self.cells@, ids.len() as int),
    {
        let ghost start = errors@;
        let ghost cells0 = self.cells@;
        let mut cells = self.cells;
        let n: usize = cells.len();
        let mut r: Vec<Option<String>> = Vec::with_capacity(n);
        let mut i: usize = 0;
        while i < n
            invariant
                i <= n == cells0.len() == ids.len(),
                cells@ == cells0.skip(i as int),
                r@ == Seq::new(i as nat, |j: int| cell_result(cells0[j])),
                errors@ == start + finish_errors(ids@, cells0, i as int),
            decreases n - i,
        {
            let cell = cells.remove(0);
            assert(cell == cells0[i as int]);
            match cell {
                ValueCell::Value(v) => {
                    r.push(Some(v));
                },
                ValueCell::MissingValue => {
                    errors.push(LocalizationError::MissingValue { id: ids[i].clone(), locale: None });
                    r.push(None);
                },
                ValueCell::NotFound => {
                    errors.push(LocalizationError::MissingMessage { id: ids[i].clone() });
                    r.push(None);
                },
            }
            i = i + 1;
            assert(r@ =~= Seq::new(i as nat, |j: int| cell_result(cells0[j])));
        }
        r
    }
}

/// What a bundle answers when asked for a whole message.
#[derive(Debug)]
pub enum MessageAnswer<E> {
    /// The bundle has no message of that id.
    NoMessage,
    /// The message, its value and attributes formatted, with the errors met while
    /// formatting them.
    Formatted { message: L10nMessage, errors: Vec<E> },
}

/// A message cell after the answer `a`: a cell with a message keeps it (it was not
/// asked).
pub open spec fn message_cell_after<E>(cell: Option<L10nMessage>, a: Option<MessageAnswer<E>>) -> Option<L10nMessage> {
    if cell is Some {
        cell
    } else {
        match a {
            Some(MessageAnswer::Formatted { message, .. }) => Some(message),
            _ => None,
        }
    }
}

/// The message cells after one bundle's answers.
pub open spec fn message_cells_after<E>(
    cells: Seq<Option<L10nMessage>>,
    answers: Seq<Option<MessageAnswer<E>>>,
) -> Seq<Option<L10nMessage>> {
    Seq::new(cells.len(), |i: int| message_cell_after(cells[i], answers[i]))
}

/// The errors reported for the answer to one message still looked up.
pub open spec fn message_cell_errors<E>(
    id: String,
    locale: String,
    cell: Option<L10nMessage>,
    a: Option<MessageAnswer<E>>,
) -> Seq<LocalizationError<E>> {
    if cell is Some {
        Seq::empty()
    } else {
        match a {
            Some(MessageAnswer::NoMessage) => Seq::empty(),
            Some(MessageAnswer::Formatted { errors, .. }) => if errors@.len() > 0 {
                seq![LocalizationError::Resolver { id: id, locale: locale, errors: errors }]
            } else {
                Seq::empty()
            },
            None => Seq::empty(),
        }
    }
}

/// The errors reported for the answers to the first `k` messages, in order.
pub open spec fn message_cells_errors<E>(
    ids: Seq<String>,
    locale: String,
    cells: Seq<Option<L10nMessage>>,
    answers: Seq<Option<MessageAnswer<E>>>,
    k: int,
) -> Seq<LocalizationError<E>>
    decreases k,
{
    if k <= 0 {
        Seq::empty()
    } else {
        message_cells_errors(ids, locale, cells, answers, k - 1) + message_cell_errors(
            ids[k - 1],
            locale,
            cells[k - 1],
            answers[k - 1],
        )
    }
}

/// The errors reported at the end for the first `k` message cells: each message that no
/// bundle has is missing.
pub open spec fn missing_messages<E>(ids: Seq<String>, cells: Seq<Option<L10nMessage>>, k: int) -> Seq<
    LocalizationError<E>,
>
    decreases k,
{
    if k <= 0 {
        Seq::empty()
    } else {
        missing_messages(ids, cells, k - 1) + if cells[k - 1] is Some {
            Seq::empty()
        } else {
            seq![LocalizationError::MissingMessage { id: ids[k - 1] }]
        }
    }
}

/// Asking the bundles, in order, for several whole messages.
pub struct MessagesLookup {
    /// The message found for each id so far.
    pub cells: Vec<Option<L10nMessage>>,
}

impl MessagesLookup {
    /// A lookup of `n` messages that has asked no bundle yet.
    pub fn new(n: usize) -> (r: Self)
        ensures
            r.cells@ == Seq::new(n as nat, |i: int| None::<L10nMessage>),
    {
        let mut cells: Vec<Option<L10nMessage>> = Vec::with_capacity(n);
        let mut i: usize = 0;
        while i < n
            invariant
                i <= n,
                cells@ == Seq::new(i as nat, |j: int| None::<L10nMessage>),
            decreases n - i,
        {
            cells.push(None);
            i = i + 1;
            assert(cells@ =~= Seq::new(i as nat, |j: int| None::<L10nMessage>));
        }
        MessagesLookup { cells }
    }

    /// Whether the message `i` still needs to be asked for: no bundle has it yet.
    pub fn is_pending(&self, i: usize) -> (r: bool)
        requires
            i < self.cells.len(),
        ensures
            r == (self.cells@[i as int] is None),
    {
        self.cells[i].is_none()
    }

    /// Takes the answers of the bundle of `locale` for the messages `ids`, after the
    /// errors met while that bundle was built. Only the messages still pending are read:
    /// their answers must be there. Returns whether every message is now found; then no
    /// further bundle is asked.
    pub fn bundle<E>(
        &mut self,
        ids: &Vec<String>,
        locale: &String,
        load: Vec<E>,
        answers: Vec<Option<MessageAnswer<E>>>,
        errors: &mut Vec<LocalizationError<E>>,
    ) -> (complete: bool)
        requires
            ids.len() == old(self).cells.len(),
            answers.len() == old(self).cells.len(),
            forall|i: int| 0 <= i < answers.len() && old(self).cells@[i] is None ==> answers@[i] is Some,
        ensures
            final(self).cells@ == message_cells_after(old(self).cells@, answers@),
            final(errors)@ == old(errors)@ + bundle_errors(load@) + message_cells_errors(
                ids@,
                *locale,
                old(self).cells@,
                answers@,
                ids.len() as int,
            ),
            complete == forall|i: int| 0 <= i < ids.len() ==> (#[trigger] final(self).cells@[i]) is Some,
    {
        push_bundle_errors(load, errors);
        let ghost start = errors@;
        let ghost cells0 = self.cells@;
        let ghost all = answers@;
        let mut answers = answers;
        let n: usize = self.cells.len();
        let mut complete = true;
        let mut i: usize = 0;
        while i < n
            invariant
                i <= n == cells0.len() == all.len() == ids.len(),
                forall|j: int| 0 <= j < n && cells0[j] is None ==> all[j] is Some,
                answers@ == all.skip(i as int),
                self.cells@.len() == n,
                forall|j: int| 0 <= j < i ==> self.cells@[j] == message_cell_after(cells0[j], all[j]),
                forall|j: int| i <= j < n ==> self.cells@[j] == cells0[j],
                errors@ == start + message_cells_errors(ids@, *locale, cells0, all, i as int),
                complete == forall|j: int| 0 <= j < i ==> (#[trigger] self.cells@[j]) is Some,
            decreases n - i,
        {
            let ghost before = self.cells@;
            let a = answers.remove(0);
            assert(a == all[i as int]);
            let pending = self.is_pending(i);
            if pending {
                match a {
                    Some(MessageAnswer::Formatted { message, errors: format_errors }) => {
                        if format_errors.len() > 0 {
                            errors.push(
                                LocalizationError::Resolver {
                                    id: ids[i].clone(),
                                    locale: locale.clone(),
                                    errors: format_errors,
                                },
                            );
                        }
                        self.cells.set(i, Some(message));
                    },
                    Some(MessageAnswer::NoMessage) => {
                        complete = false;
                    },
                    None => {},
                }
            }
            assert(self.cells@[i as int] == message_cell_after(cells0[i as int], all[i as int]));
            assert(forall|j: int| 0 <= j < i ==> self.cells@[j] == before[j]);
            assert(complete == ((forall|j: int| 0 <= j < i ==> (#[trigger] before[j]) is Some)
                && self.cells@[i as int] is Some));
            i = i + 1;
        }
        assert(self.cells@ =~= message_cells_after(cells0, all));
        complete
    }

    /// Ends the lookup: the message found for each id, where a bundle has it; each
    /// message that none has is reported, in order.
    pub fn finish<E>(self, ids: &Vec<String>, errors: &mut Vec<LocalizationError<E>>) -> (r: Vec<Option<L10nMessage>>)
        requires
            ids.len() == self.cells.len(),
        ensures
            r@ == self.cells@,
            final(errors)@ == old(errors)@ + missing_messages(ids@, self.cells@, ids.len() as int),
    {
        let ghost start = errors@;
        let n: usize = self.cells.len();
        let mut i: usize = 0;
        while i < n
            invariant
                i <= n == self.cells.len() == ids.len(),
                errors@ == start + missing_messages(ids@, self.cells@, i as int),
            decreases n - i,
        {
            if self.cells[i].is_none() {
                errors.push(LocalizationError::MissingMessage { id: ids[i].clone() });
            }
            i = i + 1;
        }
        self.cells
    }
}

/// Every answer of a bundle, as handed to a lookup that asks for each message.
pub open spec fn asked_all<A>(row: Seq<A>) -> Seq<Option<A>> {
    Seq::new(row.len(), |i: int| Some(row[i]))
}

/// The cells of `n` messages after the bundles of `table` were asked in turn, each for
/// every message.
pub open spec fn values_after<E>(n: nat, table: Seq<Seq<ValueAnswer<E>>>) -> Seq<ValueCell>
    decreases table.len(),
{
    if table.len() == 0 {
        Seq::new(n, |i: int| ValueCell::NotFound)
    } else {
        cells_after(values_after(n, table.drop_last()), asked_all(table.last()))
    }
}

/// Each message gets its value from the first bundle that has one: a later bundle never
/// replaces it. Where no bundle has a value, the message counts as without a value if
/// some bundle has it, and as missing otherwise.
pub proof fn lemma_first_value_wins<E>(n: nat, table: Seq<Seq<ValueAnswer<E>>>, i: int)
    requires
        forall|j: int| 0 <= j < table.len() ==> (#[trigger] table[j]).len() == n,
        0 <= i < n,
    ensures
        values_after(n, table).len() == n,
        (values_after(n, table)[i] is Value) == exists|j: int|
            0 <= j < table.len() && (#[trigger] table[j][i]) is Formatted,
        forall|j: int|
            0 <= j < table.len() && (#[trigger] table[j][i]) is Formatted && (forall|k: int|
                0 <= k < j ==> !(#[trigger] table[k][i] is Formatted)) ==> values_after(n, table)[i]
                == ValueCell::Value(table[j][i]->value),
        (values_after(n, table)[i] is MissingValue) == ((forall|j: int|
            0 <= j < table.len() ==> !(#[trigger] table[j][i] is Formatted)) && exists|j: int|
            0 <= j < table.len() && (#[trigger] table[j][i]) is NoValue),
        (values_after(n, table)[i] is NotFound) == forall|j: int|
            0 <= j < table.len() ==> (#[trigger] table[j][i]) is NoMessage,
    decreases table.len(),
{
    if table.len() > 0 {
        let prev = table.drop_last();
        let m = table.len() - 1;
        lemma_first_value_wins(n, prev, i);
        assert forall|j: int| 0 <= j < m implies #[trigger] table[j][i] == prev[j][i] by {}
        let last = table.last();
        assert(last == table[m]);
        if exists|j: int| 0 <= j < m && (#[trigger] table[j][i]) is Formatted {
            let j0 = choose|j: int| 0 <= j < m && (#[trigger] table[j][i]) is Formatted;
            assert(prev[j0][i] is Formatted);
        }
        if exists|j: int| 0 <= j < m && (#[trigger] table[j][i]) is NoValue {
            let j0 = choose|j: int| 0 <= j < m && (#[trigger] table[j][i]) is NoValue;
            assert(prev[j0][i] is NoValue);
        }
        if !(forall|j: int| 0 <= j < m ==> (#[trigger] table[j][i]) is NoMessage) {
            let j0 = choose|j: int| 0 <= j < m && !((#[trigger] table[j][i]) is NoMessage);
            assert(!(prev[j0][i] is NoMessage));
        }
        assert forall|j: int|
            0 <= j < table.len() && (#[trigger] table[j][i]) is Formatted && (forall|k: int|
                0 <= k < j ==> !(#[trigger] table[k][i] is Formatted)) implies values_after(n, table)[i]
            == ValueCell::Value(table[j][i]->value) by {
            if j < m {
                assert(prev[j][i] is Formatted);
                assert forall|k: int| 0 <= k < j implies !(#[trigger] prev[k][i] is Formatted) by {
                    assert(table[k][i] == prev[k][i]);
                }
            } else {
                assert forall|k: int| 0 <= k < m implies !(#[trigger] prev[k][i] is Formatted) by {
                    assert(table[k][i] == prev[k][i]);
                }
            }
        }
    }
}

/// Answers to messages that already have a value are never read: two bundles that answer
/// alike for the messages still pending leave the same cells. Once every message has a
/// value, no bundle changes anything, so stopping there loses nothing.
pub proof fn lemma_only_pending_answers_count<E>(
    cells: Seq<ValueCell>,
    a: Seq<Option<ValueAnswer<E>>>,
    b: Seq<Option<ValueAnswer<E>>>,
)
    requires
        a.len() == cells.len(),
        b.len() == cells.len(),
        forall|i: int| 0 <= i < cells.len() && !(cells[i] is Value) ==> a[i] == b[i],
    ensures
        cells_after(cells, a) == cells_after(cells, b),
        (forall|i: int| 0 <= i < cells.len() ==> (#[trigger] cells[i]) is Value) ==> cells_after(cells, a) == cells,
{
    assert(cells_after(cells, a) =~= cells_after(cells, b));
    if forall|i: int| 0 <= i < cells.len() ==> (#[trigger] cells[i]) is Value {
        assert(cells_after(cells, a) =~= cells);
    }
}

/// The message cells of `n` ids after the bundles of `table` were asked in turn, each for
/// every message.
pub open spec fn messages_after<E>(n: nat, table: Seq<Seq<MessageAnswer<E>>>) -> Seq<Option<L10nMessage>>
    decreases table.len(),
{
    if table.len() == 0 {
        Seq::new(n, |i: int| None::<L10nMessage>)
    } else {
        message_cells_after(messages_after(n, table.drop_last()), asked_all(table.last()))
    }
}

/// Each id gets the message of the first bundle that has it, and none where no bundle
/// has it.
pub proof fn lemma_first_message_wins<E>(n: nat, table: Seq<Seq<MessageAnswer<E>>>, i: int)
    requires
        forall|j: int| 0 <= j < table.len() ==> (#[trigger] table[j]).len() == n,
        0 <= i < n,
    ensures
        messages_after(n, table).len() == n,
        (messages_after(n, table)[i] is None) == forall|j: int|
            0 <= j < table.len() ==> (#[trigger] table[j][i]) is NoMessage,
        forall|j: int|
            0 <= j < table.len() && (#[trigger] table[j][i]) is Formatted && (forall|k: int|
                0 <= k < j ==> (#[trigger] table[k][i]) is NoMessage) ==> messages_after(n, table)[i]
                == Some(table[j][i]->message),
    decreases table.len(),
{
    if table.len() > 0 {
        let prev = table.drop_last();
        let m = table.len() - 1;
        lemma_first_message_wins(n, prev, i);
        assert forall|j: int| 0 <= j < m implies #[trigger] table[j][i] == prev[j][i] by {}
        assert(table.last() == table[m]);
        if !(forall|j: int| 0 <= j < m ==> (#[trigger] table[j][i]) is NoMessage) {
            let j0 = choose|j: int| 0 <= j < m && !((#[trigger] table[j][i]) is NoMessage);
            assert(!(prev[j0][i] is NoMessage));
        }
        assert forall|j: int|
            0 <= j < table.len() && (#[trigger] table[j][i]) is Formatted && (forall|k: int|
                0 <= k < j ==> (#[trigger] table[k][i]) is NoMessage) implies messages_after(n, table)[i]
            == Some(table[j][i]->message) by {
            if j < m {
                assert(prev[j][i] is Formatted);
                assert forall|k: int| 0 <= k < j implies (#[trigger] prev[k][i]) is NoMessage by {
                    assert(table[k][i] == prev[k][i]);
                }
            } else {
                assert forall|k: int| 0 <= k < m implies (#[trigger] prev[k][i]) is NoMessage by {
                    assert(table[k][i] == prev[k][i]);
                }
            }
        }
    }
}

/// What a lookup hands a bundle: the answer for each message still pending, nothing for
/// the others.
pub open spec fn asked_pending<E>(cells: Seq<ValueCell>, row: Seq<ValueAnswer<E>>) -> Seq<Option<ValueAnswer<E>>> {
    Seq::new(cells.len(), |i: int| if cells[i] is Value {
        None
    } else {
        Some(row[i])
    })
}

/// Every message has a value.
pub open spec fn all_valued(cells: Seq<ValueCell>) -> bool {
    forall|i: int| 0 <= i < cells.len() ==> (#[trigger] cells[i]) is Value
}

/// A run of lookups: the bundles of `table` are asked in turn, each for the messages
/// still pending, and the run stops after the bundle by which every message has a value.
/// Yields the cells and how many bundles were asked.
pub open spec fn values_run<E>(cells: Seq<ValueCell>, table: Seq<Seq<ValueAnswer<E>>>) -> (Seq<ValueCell>, nat)
    decreases table.len(),
{
    if table.len() == 0 {
        (cells, 0)
    } else {
        let next = cells_after(cells, asked_pending(cells, table[0]));
        if all_valued(next) {
            (next, 1)
        } else {
            let (end, k) = values_run(next, table.skip(1));
            (end, k + 1)
        }
    }
}

/// The value of the first bundle of `table` that has one for message `i`.
pub open spec fn first_value<E>(table: Seq<Seq<ValueAnswer<E>>>, i: int) -> Option<String>
    decreases table.len(),
{
    if table.len() == 0 {
        None
    } else {
        match table[0][i] {
            ValueAnswer::Formatted { value, .. } => Some(value),
            _ => first_value(table.skip(1), i),
        }
    }
}

/// A run of lookups gives each message that had no value the value of the first bundle
/// that has one, and keeps the values it had; it asks every bundle unless it stops, and
/// it stops only once every message has a value.
pub proof fn lemma_run_first_value_wins<E>(cells: Seq<ValueCell>, table: Seq<Seq<ValueAnswer<E>>>)
    requires
        forall|j: int| 0 <= j < table.len() ==> (#[trigger] table[j]).len() == cells.len(),
    ensures
        values_run(cells, table).0.len() == cells.len(),
        forall|i: int|
            0 <= i < cells.len() ==> #[trigger] cell_result(values_run(cells, table).0[i]) == if cells[i] is Value {
                cell_result(cells[i])
            } else {
                first_value(table, i)
            },
        values_run(cells, table).1 <= table.len(),
        values_run(cells, table).1 < table.len() ==> all_valued(values_run(cells, table).0),
        values_run(cells, table).1 > 0 ==> (values_run(cells, table).1 == 1 || !all_valued(
            cells_after(cells, asked_pending(cells, table[0])),
        )),
    decreases table.len(),
{
    if table.len() > 0 {
        let next = cells_after(cells, asked_pending(cells, table[0]));
        let rest = table.skip(1);
        assert forall|j: int| 0 <= j < rest.len() implies (#[trigger] rest[j]).len() == next.len() by {
            assert(rest[j] == table[j + 1]);
        }
        assert forall|i: int| 0 <= i < cells.len() && !(cells[i] is Value) implies first_value(table, i) == match table[0][i] {
            ValueAnswer::Formatted { value, .. } => Some(value),
            _ => first_value(rest, i),
        } by {}
        if all_valued(next) {
            assert forall|i: int| 0 <= i < cells.len() implies #[trigger] cell_result(next[i]) == if cells[i] is Value {
                cell_result(cells[i])
            } else {
                first_value(table, i)
            } by {
                assert(next[i] is Value);
            }
        } else {
            lemma_run_first_value_wins(next, rest);
            let end = values_run(next, rest).0;
            assert forall|i: int| 0 <= i < cells.len() implies #[trigger] cell_result(end[i]) == if cells[i] is Value {
                cell_result(cells[i])
            } else {
                first_value(table, i)
            } by {
                assert(cell_result(end[i]) == if next[i] is Value {
                    cell_result(next[i])
                } else {
                    first_value(rest, i)
                });
            }
        }
    }
}

/// Looking up `n` messages over the bundles of `table`, each message gets the value of
/// the first bundle that has one, and none where no bundle has one.
pub proof fn lemma_fallback_values<E>(n: nat, table: Seq<Seq<ValueAnswer<E>>>)
    requires
        forall|j: int| 0 <= j < table.len() ==> (#[trigger] table[j]).len() == n,
    ensures
        ({
            let end = values_run(Seq::new(n, |i: int| ValueCell::NotFound), table).0;
            &&& end.len() == n
            &&& forall|i: int| 0 <= i < n ==> #[trigger] cell_result(end[i]) == first_value(table, i)
        }),
{
    lemma_run_first_value_wins(Seq::new(n, |i: int| ValueCell::NotFound), table);
}

} // verus!
