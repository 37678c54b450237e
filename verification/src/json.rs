//! Whole JSON documents, and what reading one comes to.

use vstd::prelude::*;

use crate::reading;
use crate::reading::{Place, Reading, Token, Wish};

verus! {

/// A JSON value.
pub enum Json {
    /// `null`.
    Null,
    /// A string.
    Text(Seq<char>),
    /// A number or a boolean.
    Scalar,
    /// An array.
    Array(Seq<Json>),
    /// An object: its keys and values in document order.
    Object(Seq<(Seq<char>, Json)>),
}

/// A reading after a value came that was asked for, skipped or not reached.
pub open spec fn fed(before: Reading, value: Json) -> Reading
    decreases value, 0nat,
{
    match before.wish() {
        Wish::Read => match value {
            Json::Null => reading::step(before, Token::Null),
            Json::Text(text) => reading::step(before, Token::Text(text)),
            Json::Scalar => reading::step(before, Token::Scalar),
            Json::Array(items) => ended(
                fed_items(reading::step(before, Token::ArrayStart), items),
                Token::ArrayEnd,
            ),
            Json::Object(entries) => ended(
                fed_entries(reading::step(before, Token::ObjectStart), entries),
                Token::ObjectEnd,
            ),
        },
        _ => before,
    }
}

/// A reading after a container ended, unless reading has stopped.
pub open spec fn ended(before: Reading, token: Token) -> Reading {
    if before.wish() is Stop {
        before
    } else {
        reading::step(before, token)
    }
}

/// A reading after the elements of an array.
pub open spec fn fed_items(before: Reading, items: Seq<Json>) -> Reading
    decreases items, items.len(),
{
    if items.len() == 0 {
        before
    } else {
        fed(fed_items(before, items.drop_last()), items[items.len() - 1])
    }
}

/// A reading after one entry of an object.
pub open spec fn fed_entry(before: Reading, key: Seq<char>, value: Json) -> Reading
    decreases value, 1nat,
{
    if before.wish() is Stop {
        before
    } else {
        fed(reading::step(before, Token::Key(key)), value)
    }
}

/// A reading after the entries of an object.
pub open spec fn fed_entries(before: Reading, entries: Seq<(Seq<char>, Json)>) -> Reading
    decreases entries, entries.len(),
{
    if entries.len() == 0 {
        before
    } else {
        fed_entry(
            fed_entries(before, entries.drop_last()),
            entries[entries.len() - 1].0,
            entries[entries.len() - 1].1,
        )
    }
}

/// A reading after a whole document.
pub open spec fn document(max_nodes: nat, limit: nat, value: Json) -> Reading {
    fed(Reading::start(max_nodes, limit), value)
}

/// How many containers of a derivation are open.
spec fn depth(place: Place) -> nat {
    match place {
        Place::Node { .. } | Place::OutputsValue { .. } | Place::InputsValue { .. } => 1,
        Place::Outputs { .. } | Place::OutputValue { .. } | Place::Inputs { .. } => 2,
        Place::Output { .. } | Place::PathValue { .. } => 3,
        Place::DrvsValue { legacy, .. } => (reading::drvs_depth(legacy) - 1) as nat,
        Place::Drvs { legacy, .. } | Place::SelectionValue { legacy, .. } => reading::drvs_depth(
            legacy,
        ),
        Place::Selection { legacy, .. } | Place::NamesValue { legacy, .. } => reading::drvs_depth(
            legacy,
        ) + 1,
        Place::Names { legacy, alone, .. } => reading::names_depth(legacy, alone),
        Place::Draining { depth } => depth,
        _ => 0,
    }
}

/// A place between the entries of an object of a derivation.
spec fn in_object(place: Place) -> bool {
    match place {
        Place::Node { .. } | Place::Outputs { .. } | Place::Output { .. } | Place::Inputs { .. }
        | Place::Drvs { .. } | Place::Selection { .. } => true,
        Place::Draining { depth } => depth > 0,
        _ => false,
    }
}

/// A place between the elements of an array of a derivation.
spec fn in_array(place: Place) -> bool {
    match place {
        Place::Names { .. } => true,
        Place::Draining { depth } => depth > 0,
        _ => false,
    }
}

/// A place before a value that belongs to an object of a derivation, or before a derivation.
spec fn before_value(place: Place) -> bool {
    match place {
        Place::NodeValue { .. } | Place::OutputsValue { .. } | Place::OutputValue { .. }
        | Place::PathValue { .. } | Place::InputsValue { .. } | Place::DrvsValue { .. }
        | Place::SelectionValue { .. } | Place::NamesValue { .. } => true,
        _ => false,
    }
}

/// The place between derivations.
spec fn between_nodes(before: Reading) -> Place {
    if before.wrapped {
        Place::Wrapper
    } else {
        Place::Document
    }
}

/// The same limits and the same form of document, and a defect only where it ends the reading.
spec fn goes_on(before: Reading, after: Reading) -> bool {
    &&& after.max_nodes == before.max_nodes
    &&& after.limit == before.limit
    &&& after.wrapped == before.wrapped
    &&& after.place is Failed ==> after.wrapped
    &&& after.place is Draining ==> !after.wrapped
}

/// Behind a value: between entries at the depth before it, or between derivations.
spec fn behind_value(before: Reading, after: Reading) -> bool {
    ||| after.place is Failed
    ||| if depth(before.place) == 0 {
        after.place == between_nodes(before)
    } else {
        in_object(after.place) && depth(after.place) == depth(before.place)
    }
}

pub proof fn lemma_draining_entries(before: Reading, entries: Seq<(Seq<char>, Json)>)
    requires
        before.place is Draining || before.place is Failed,
    ensures
        fed_entries(before, entries) == before,
    decreases entries.len(),
{
    if entries.len() > 0 {
        lemma_draining_entries(before, entries.drop_last());
        let (key, value) = entries[entries.len() - 1];
        assert(fed_entries(before, entries) == fed_entry(before, key, value));
        assert(reading::step(before, Token::Key(key)) == before) by {
            reveal(reading::step);
        }
        assert(fed(before, value) == before);
    }
}

pub proof fn lemma_draining_items(before: Reading, items: Seq<Json>)
    requires
        before.place is Draining || before.place is Failed,
    ensures
        fed_items(before, items) == before,
    decreases items.len(),
{
    if items.len() > 0 {
        lemma_draining_items(before, items.drop_last());
        assert(fed_items(before, items) == fed(before, items[items.len() - 1]));
    }
}

/// A key of an object leads before its value, past it, or behind a defect.
#[verifier::rlimit(40)]
proof fn lemma_key(before: Reading, key: Seq<char>)
    requires
        in_object(before.place),
        before.place is Draining ==> !before.wrapped,
    ensures
        ({
            let after = reading::step(before, Token::Key(key));
            &&& goes_on(before, after)
            &&& after.place is Failed || depth(after.place) == depth(before.place) && (in_object(
                after.place,
            ) || before_value(after.place) && depth(after.place) > 0)
        }),
{
    reveal(reading::step);
}

/// The end of an object leads behind the value that it is.
#[verifier::rlimit(40)]
proof fn lemma_object_end(before: Reading)
    requires
        in_object(before.place),
        before.place is Draining ==> !before.wrapped,
    ensures
        ({
            let after = reading::step(before, Token::ObjectEnd);
            &&& goes_on(before, after)
            &&& after.place is Failed || if depth(before.place) == 1 {
                after.place == between_nodes(before)
            } else {
                in_object(after.place) && depth(after.place) == depth(before.place) - 1
            }
        }),
{
    reveal(reading::step);
}

/// The end of an array leads behind the value that it is.
#[verifier::rlimit(40)]
proof fn lemma_array_end(before: Reading)
    requires
        in_array(before.place),
        before.place is Draining ==> !before.wrapped,
    ensures
        ({
            let after = reading::step(before, Token::ArrayEnd);
            &&& goes_on(before, after)
            &&& after.place is Failed || if depth(before.place) == 1 {
                after.place == between_nodes(before)
            } else {
                in_object(after.place) && depth(after.place) == depth(before.place) - 1
            }
        }),
{
    reveal(reading::step);
}

/// A plain value leads behind itself.
#[verifier::rlimit(40)]
proof fn lemma_plain(before: Reading, token: Token)
    requires
        before_value(before.place),
        token is Null || token is Text || token is Scalar,
    ensures
        goes_on(before, reading::step(before, token)),
        behind_value(before, reading::step(before, token)),
{
    reveal(reading::step);
}

/// A container leads into itself, or behind a defect inside it.
#[verifier::rlimit(40)]
proof fn lemma_open(before: Reading)
    requires
        before_value(before.place),
    ensures
        ({
            let after = reading::step(before, Token::ObjectStart);
            &&& goes_on(before, after)
            &&& after.place is Failed || in_object(after.place) && depth(after.place) == depth(
                before.place,
            ) + 1
        }),
        ({
            let after = reading::step(before, Token::ArrayStart);
            &&& goes_on(before, after)
            &&& after.place is Failed || in_array(after.place) && depth(after.place) == depth(
                before.place,
            ) + 1
        }),
{
    reveal(reading::step);
}

/// An element of an array of output names stays in the array, or leads behind a defect in it.
#[verifier::rlimit(40)]
proof fn lemma_element(before: Reading, value: Json)
    requires
        before.place is Names,
    ensures
        goes_on(before, fed(before, value)),
        fed(before, value).place is Failed || in_array(fed(before, value).place) && depth(
            fed(before, value).place,
        ) == depth(before.place),
{
    reveal(reading::step);
    match value {
        Json::Array(items) => {
            lemma_draining_items(reading::step(before, Token::ArrayStart), items);
        },
        Json::Object(entries) => {
            lemma_draining_entries(reading::step(before, Token::ObjectStart), entries);
        },
        _ => {},
    }
}

/// The elements of an array keep the reading in it, or lead behind a defect.
proof fn lemma_items(before: Reading, items: Seq<Json>)
    requires
        in_array(before.place),
        before.place is Draining ==> !before.wrapped,
    ensures
        goes_on(before, fed_items(before, items)),
        fed_items(before, items).place is Failed || in_array(fed_items(before, items).place)
            && depth(fed_items(before, items).place) == depth(before.place),
    decreases items.len(),
{
    if items.len() > 0 {
        lemma_items(before, items.drop_last());
        let middle = fed_items(before, items.drop_last());
        assert(fed_items(before, items) == fed(middle, items[items.len() - 1]));
        if middle.place is Names {
            lemma_element(middle, items[items.len() - 1]);
        }
    }
}

/// A value leads behind itself, whatever it is.
proof fn lemma_value(before: Reading, value: Json)
    requires
        before_value(before.place),
    ensures
        goes_on(before, fed(before, value)),
        behind_value(before, fed(before, value)),
    decreases value, 0nat,
{
    match value {
        Json::Null => lemma_plain(before, Token::Null),
        Json::Text(text) => lemma_plain(before, Token::Text(text)),
        Json::Scalar => lemma_plain(before, Token::Scalar),
        Json::Array(items) => {
            lemma_open(before);
            let inside = reading::step(before, Token::ArrayStart);
            if inside.place is Failed {
                lemma_draining_items(inside, items);
            } else {
                lemma_items(inside, items);
                let last = fed_items(inside, items);
                if !(last.place is Failed) {
                    lemma_array_end(last);
                }
            }
        },
        Json::Object(entries) => {
            lemma_open(before);
            let inside = reading::step(before, Token::ObjectStart);
            if inside.place is Failed {
                lemma_draining_entries(inside, entries);
            } else {
                lemma_entries(inside, entries);
                let last = fed_entries(inside, entries);
                if !(last.place is Failed) {
                    lemma_object_end(last);
                }
            }
        },
    }
}

/// The entries of an object keep the reading in it, or lead behind a defect.
proof fn lemma_entries(before: Reading, entries: Seq<(Seq<char>, Json)>)
    requires
        in_object(before.place),
        before.place is Draining ==> !before.wrapped,
    ensures
        goes_on(before, fed_entries(before, entries)),
        fed_entries(before, entries).place is Failed || in_object(
            fed_entries(before, entries).place,
        ) && depth(fed_entries(before, entries).place) == depth(before.place),
    decreases entries, entries.len(),
{
    if entries.len() > 0 {
        lemma_entries(before, entries.drop_last());
        let middle = fed_entries(before, entries.drop_last());
        let (key, value) = entries[entries.len() - 1];
        assert(fed_entries(before, entries) == fed_entry(middle, key, value));
        if !(middle.place is Failed) {
            lemma_key(middle, key);
            let after = reading::step(middle, Token::Key(key));
            assert(fed_entry(middle, key, value) == fed(after, value));
            if before_value(after.place) {
                lemma_value(after, value);
            }
        }
    }
}

/// An entry of the document that is not the wrapper leads back to the document, unless the
/// reading is wrapped and stays as it is.
proof fn lemma_sibling(before: Reading, key: Seq<char>, value: Json)
    requires
        before.place is Document,
        key != "derivations"@,
    ensures
        goes_on(before, fed_entry(before, key, value)),
        fed_entry(before, key, value).place is Document,
        before.wrapped ==> fed_entry(before, key, value) == before,
{
    let after = reading::step(before, Token::Key(key));
    assert(fed_entry(before, key, value) == fed(after, value));
    assert(goes_on(before, after) && (after.place is NodeValue || after.place is Document) && (
    before.wrapped ==> after == before)) by {
        reveal(reading::step);
    }
    if after.place is NodeValue {
        lemma_value(after, value);
    }
}

/// No entry's key is `derivations`.
pub open spec fn without_wrapper(entries: Seq<(Seq<char>, Json)>) -> bool {
    forall|i: int| 0 <= i < entries.len() ==> (#[trigger] entries[i]).0 != "derivations"@
}

proof fn lemma_siblings(before: Reading, entries: Seq<(Seq<char>, Json)>)
    requires
        before.place is Document,
        without_wrapper(entries),
    ensures
        goes_on(before, fed_entries(before, entries)),
        fed_entries(before, entries).place is Document,
        before.wrapped ==> fed_entries(before, entries) == before,
    decreases entries.len(),
{
    if entries.len() > 0 {
        assert(without_wrapper(entries.drop_last())) by {
            assert forall|i: int| 0 <= i < entries.drop_last().len() implies (
            #[trigger] entries.drop_last()[i]).0 != "derivations"@ by {
                assert(entries[i].0 != "derivations"@);
            }
        }
        lemma_siblings(before, entries.drop_last());
        assert(entries[entries.len() - 1].0 != "derivations"@);
        assert(fed_entries(before, entries) == fed_entry(
            fed_entries(before, entries.drop_last()),
            entries[entries.len() - 1].0,
            entries[entries.len() - 1].1,
        ));
        lemma_sibling(
            fed_entries(before, entries.drop_last()),
            entries[entries.len() - 1].0,
            entries[entries.len() - 1].1,
        );
    }
}

/// Between the entries of the wrapper, entries keep the reading there or end it.
proof fn lemma_wrapper_entries(before: Reading, entries: Seq<(Seq<char>, Json)>)
    requires
        before.place is Wrapper,
        before.wrapped,
    ensures
        goes_on(before, fed_entries(before, entries)),
        fed_entries(before, entries).place is Wrapper || fed_entries(before, entries).place
            is Failed,
    decreases entries.len(),
{
    if entries.len() > 0 {
        lemma_wrapper_entries(before, entries.drop_last());
        let middle = fed_entries(before, entries.drop_last());
        let (key, value) = entries[entries.len() - 1];
        assert(fed_entries(before, entries) == fed_entry(middle, key, value));
        if middle.place is Wrapper {
            let after = reading::step(middle, Token::Key(key));
            assert(fed_entry(middle, key, value) == fed(after, value));
            assert(goes_on(middle, after) && (after.place is NodeValue || after.place is Wrapper
                || after.place is Failed)) by {
                reveal(reading::step);
            }
            if after.place is NodeValue {
                lemma_value(after, value);
            }
        }
    }
}

/// Behind the wrapper, the reading is back in the document or has ended.
proof fn lemma_wrapper(before: Reading, value: Json)
    requires
        before.place is WrapperValue,
        before.wrapped,
    ensures
        goes_on(before, fed(before, value)),
        fed(before, value).place is Document || fed(before, value).place is Failed,
{
    let opened = reading::step(before, Token::ObjectStart);
    assert(goes_on(before, opened) && opened.place is Wrapper) by {
        reveal(reading::step);
    }
    assert forall|token: Token| token.begins_value() && !(token is ObjectStart) implies goes_on(
        before,
        #[trigger] reading::step(before, token),
    ) && reading::step(before, token).place is Failed by {
        reveal(reading::step);
    }
    match value {
        Json::Object(entries) => {
            lemma_wrapper_entries(opened, entries);
            let last = fed_entries(opened, entries);
            assert(last.place is Wrapper ==> reading::step(last, Token::ObjectEnd) == last.at(
                Place::Document,
            )) by {
                reveal(reading::step);
            }
        },
        Json::Array(items) => {
            lemma_draining_items(reading::step(before, Token::ArrayStart), items);
        },
        _ => {},
    }
}

/// Entries that come after others are read after them.
proof fn lemma_split(
    before: Reading,
    first: Seq<(Seq<char>, Json)>,
    rest: Seq<(Seq<char>, Json)>,
)
    ensures
        fed_entries(before, first + rest) == fed_entries(fed_entries(before, first), rest),
    decreases rest.len(),
{
    if rest.len() == 0 {
        assert(first + rest =~= first);
    } else {
        lemma_split(before, first, rest.drop_last());
        assert((first + rest).drop_last() =~= first + rest.drop_last());
        assert((first + rest)[(first + rest).len() - 1] == rest[rest.len() - 1]);
    }
}

/// A document whose only `derivations` entry is the one between `first` and `rest` reads as if it
/// held nothing else: its siblings give no derivations, no defects and no cost, on either side.
pub proof fn law_the_wrapper_ignores_its_siblings(
    max_nodes: nat,
    limit: nat,
    first: Seq<(Seq<char>, Json)>,
    wrapper: Json,
    rest: Seq<(Seq<char>, Json)>,
)
    requires
        without_wrapper(first),
        without_wrapper(rest),
    ensures
        document(
            max_nodes,
            limit,
            Json::Object(first + seq![("derivations"@, wrapper)] + rest),
        ) == document(max_nodes, limit, Json::Object(seq![("derivations"@, wrapper)])),
{
    reveal(reading::step);
    reveal_strlit("derivations");
    reveal_strlit("version");
    let start = reading::step(Reading::start(max_nodes, limit), Token::ObjectStart);
    let entry = seq![("derivations"@, wrapper)];
    lemma_siblings(start, first);
    let middle = fed_entries(start, first);
    lemma_split(start, first, entry);
    lemma_split(start, first + entry, rest);
    let opened = reading::step(middle, Token::Key("derivations"@));
    assert("derivations"@.len() != "version"@.len());
    assert(opened == reading::step(start, Token::Key("derivations"@)));
    assert(entry.drop_last() =~= Seq::empty());
    assert(fed_entries(middle, entry) == fed_entry(middle, "derivations"@, wrapper)) by {
        assert(fed_entries(middle, entry.drop_last()) == middle);
    }
    assert(fed_entries(start, entry) == fed_entry(start, "derivations"@, wrapper)) by {
        assert(fed_entries(start, entry.drop_last()) == start);
    }
    lemma_wrapper(opened, wrapper);
    let after = fed(opened, wrapper);
    if after.place is Document {
        lemma_siblings(after, rest);
    } else {
        lemma_draining_entries(after, rest);
    }
}

/// A document without a `derivations` entry is read to its end, and the first defect in it is then
/// reported.
pub proof fn law_legacy_documents_are_read_to_their_end(
    max_nodes: nat,
    limit: nat,
    entries: Seq<(Seq<char>, Json)>,
)
    requires
        without_wrapper(entries),
    ensures
        ({
            let start = reading::step(Reading::start(max_nodes, limit), Token::ObjectStart);
            let last = fed_entries(start, entries);
            let after = document(max_nodes, limit, Json::Object(entries));
            match last.deferred {
                Some(failure) => after.place == (Place::Failed { failure }),
                None => after.place is Finished && after.nodes == last.nodes,
            }
        }),
{
    reveal(reading::step);
    lemma_siblings(
        reading::step(Reading::start(max_nodes, limit), Token::ObjectStart),
        entries,
    );
}

} // verus!
