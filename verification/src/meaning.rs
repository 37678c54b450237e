//! What a derivation document says, and that reading it comes to just that.

use vstd::prelude::*;

use crate::json;
use crate::json::Json;
use crate::model::NodeModel;
use crate::reading;
use crate::reading::{
    Dependencies, Draft, Failure, Outputs, Place, Reading, Token, CONTAINER_OVERHEAD,
    ENTRY_OVERHEAD, MAX_STRING,
};
use crate::store;
use crate::text;

verus! {

/// The entries of an object in document order.
pub type Entries = Seq<(Seq<char>, Json)>;

/// The value of the last entry with a key.
pub open spec fn last_with(entries: Entries, key: Seq<char>) -> Option<Json>
    decreases entries.len(),
{
    if entries.len() == 0 {
        None
    } else if entries.last().0 == key {
        Some(entries.last().1)
    } else {
        last_with(entries.drop_last(), key)
    }
}

/// The value of the last entry whose key stands for a derivation path.
pub open spec fn last_under(entries: Entries, path: Seq<char>) -> Option<Json>
    decreases entries.len(),
{
    if entries.len() == 0 {
        None
    } else if store::derivation_path(entries.last().0) == path {
        Some(entries.last().1)
    } else {
        last_under(entries.drop_last(), path)
    }
}

/// The strings of an array.
pub open spec fn texts(items: Seq<Json>) -> Set<Seq<char>> {
    Set::new(|name: Seq<char>| items.contains(Json::Text(name)))
}

/// The names that an array lists.
pub open spec fn names_of(value: Json) -> Set<Seq<char>> {
    match value {
        Json::Array(items) => texts(items),
        _ => Set::empty(),
    }
}

/// The outputs that are selected from an input: an array of names, alone or as `outputs` of an
/// object.
pub open spec fn selection_of(value: Json) -> Set<Seq<char>> {
    match value {
        Json::Array(_) => names_of(value),
        Json::Object(fields) => match last_with(fields, "outputs"@) {
            Some(names) => names_of(names),
            None => Set::empty(),
        },
        _ => Set::empty(),
    }
}

/// The known path of an output: a string, alone or as `path` of an object.
pub open spec fn path_of(value: Json) -> Option<Seq<char>> {
    match value {
        Json::Text(path) => Some(store::output_path(path)),
        Json::Object(fields) => match last_with(fields, "path"@) {
            Some(Json::Text(path)) => Some(store::output_path(path)),
            _ => None,
        },
        _ => None,
    }
}

/// The outputs that an object names, each with its known path.
pub open spec fn outputs_in(entries: Entries) -> Outputs {
    Map::new(
        |name: Seq<char>| last_with(entries, name) is Some,
        |name: Seq<char>| path_of(last_with(entries, name)->0),
    )
}

/// The outputs of a derivation.
pub open spec fn outputs_of(value: Json) -> Outputs {
    match value {
        Json::Object(entries) => outputs_in(entries),
        _ => Map::empty(),
    }
}

/// The inputs that an object names, each with what is selected from it.
pub open spec fn drvs_in(entries: Entries) -> Dependencies {
    Map::new(
        |path: Seq<char>| last_under(entries, path) is Some,
        |path: Seq<char>| selection_of(last_under(entries, path)->0),
    )
}

/// The inputs of a map of input derivations.
pub open spec fn drvs_of(value: Json) -> Dependencies {
    match value {
        Json::Object(entries) => drvs_in(entries),
        _ => Map::empty(),
    }
}

/// The `drvs` of an `inputs` field.
pub open spec fn modern(value: Json) -> Option<Dependencies> {
    match value {
        Json::Object(fields) => match last_with(fields, "drvs"@) {
            Some(drvs) => Some(drvs_of(drvs)),
            None => None,
        },
        _ => None,
    }
}

/// What a derivation's fields make of what was known of it.
pub open spec fn drafted(node: Draft, fields: Entries) -> Draft {
    Draft {
        path: node.path,
        outputs: match last_with(fields, "outputs"@) {
            Some(value) => Some(outputs_of(value)),
            None => node.outputs,
        },
        dependencies: match last_with(fields, "inputs"@) {
            Some(value) => modern(value),
            None => node.dependencies,
        },
        legacy: match last_with(fields, "inputDrvs"@) {
            Some(value) => Some(drvs_of(value)),
            None => node.legacy,
        },
    }
}

/// The derivation of a path that a value describes: its outputs, and as dependencies the `drvs` of
/// its `inputs`, else its `inputDrvs`, else none.
pub open spec fn node_of(path: Seq<char>, value: Json) -> NodeModel {
    let fields = match value {
        Json::Object(fields) => fields,
        _ => Seq::empty(),
    };
    let inputs = match last_with(fields, "inputs"@) {
        Some(value) => modern(value),
        None => None,
    };
    NodeModel {
        drv_path: path,
        outputs: match last_with(fields, "outputs"@) {
            Some(value) => outputs_of(value),
            None => Map::empty(),
        },
        dependencies: match (inputs, last_with(fields, "inputDrvs"@)) {
            (Some(drvs), _) => drvs,
            (None, Some(value)) => drvs_of(value),
            (None, None) => Map::empty(),
        },
    }
}

/// The value of the last derivation of a path; `version` names none.
pub open spec fn last_node(entries: Entries, path: Seq<char>) -> Option<Json>
    decreases entries.len(),
{
    if entries.len() == 0 {
        None
    } else if entries.last().0 != "version"@ && store::derivation_path(entries.last().0) == path {
        Some(entries.last().1)
    } else {
        last_node(entries.drop_last(), path)
    }
}

/// The derivations that an object holds.
pub open spec fn nodes_in(entries: Entries) -> Map<Seq<char>, NodeModel> {
    Map::new(
        |path: Seq<char>| last_node(entries, path) is Some,
        |path: Seq<char>| node_of(path, last_node(entries, path)->0),
    )
}

/// A string that may be retained.
pub open spec fn short(name: Seq<char>) -> bool {
    text::byte_count(name) <= MAX_STRING
}

/// What retaining a string costs.
pub open spec fn price(name: Seq<char>) -> nat {
    text::byte_count(name) + ENTRY_OVERHEAD as nat
}

/// A name of an output.
pub open spec fn is_name(value: Json) -> bool {
    value matches Json::Text(name) && name.len() > 0 && short(name)
}

/// Every element is a name of an output.
pub open spec fn valid_items(items: Seq<Json>) -> bool {
    forall|i: int| 0 <= i < items.len() ==> is_name(#[trigger] items[i])
}

/// What retaining the names of an array costs.
pub open spec fn items_cost(items: Seq<Json>) -> nat
    decreases items.len(),
{
    if items.len() == 0 {
        0
    } else {
        items_cost(items.drop_last()) + match items.last() {
            Json::Text(name) => price(name),
            _ => 0,
        }
    }
}

/// An array of names of outputs.
pub open spec fn valid_names(value: Json) -> bool {
    value matches Json::Array(items) && valid_items(items)
}

/// What retaining an array of names costs.
pub open spec fn names_cost(value: Json) -> nat {
    match value {
        Json::Array(items) => items_cost(items),
        _ => 0,
    }
}

/// Every `outputs` of an object that selects outputs is an array of names.
pub open spec fn valid_selection_fields(fields: Entries) -> bool {
    forall|i: int|
        0 <= i < fields.len() && (#[trigger] fields[i]).0 == "outputs"@ ==> valid_names(fields[i].1)
}

/// What retaining the names of an object that selects outputs costs.
pub open spec fn selection_fields_cost(fields: Entries) -> nat
    decreases fields.len(),
{
    if fields.len() == 0 {
        0
    } else {
        selection_fields_cost(fields.drop_last()) + if fields.last().0 == "outputs"@ {
            names_cost(fields.last().1)
        } else {
            0
        }
    }
}

/// A selection of at least one output.
pub open spec fn valid_selection(value: Json) -> bool {
    &&& match value {
        Json::Array(items) => valid_items(items),
        Json::Object(fields) => valid_selection_fields(fields),
        _ => false,
    }
    &&& selection_of(value) != Set::<Seq<char>>::empty()
}

/// What retaining a selection costs.
pub open spec fn selection_cost(value: Json) -> nat {
    match value {
        Json::Array(items) => items_cost(items),
        Json::Object(fields) => selection_fields_cost(fields),
        _ => 0,
    }
}

/// Every entry selects outputs of an input whose path may be retained.
pub open spec fn valid_drvs_entries(entries: Entries) -> bool {
    forall|i: int|
        0 <= i < entries.len() ==> short(store::derivation_path((#[trigger] entries[i]).0))
            && valid_selection(entries[i].1)
}

/// What retaining the inputs of an object costs.
pub open spec fn drvs_entries_cost(entries: Entries) -> nat
    decreases entries.len(),
{
    if entries.len() == 0 {
        0
    } else {
        drvs_entries_cost(entries.drop_last()) + price(store::derivation_path(entries.last().0))
            + CONTAINER_OVERHEAD as nat + selection_cost(entries.last().1)
    }
}

/// A map of input derivations.
pub open spec fn valid_drvs(value: Json) -> bool {
    value matches Json::Object(entries) && valid_drvs_entries(entries)
}

/// What retaining a map of input derivations costs.
pub open spec fn drvs_cost(value: Json) -> nat {
    match value {
        Json::Object(entries) => drvs_entries_cost(entries),
        _ => 0,
    }
}

/// Every `drvs` is a map of input derivations.
pub open spec fn valid_inputs_fields(fields: Entries) -> bool {
    forall|i: int|
        0 <= i < fields.len() && (#[trigger] fields[i]).0 == "drvs"@ ==> valid_drvs(fields[i].1)
}

/// What retaining the fields of `inputs` costs.
pub open spec fn inputs_fields_cost(fields: Entries) -> nat
    decreases fields.len(),
{
    if fields.len() == 0 {
        0
    } else {
        inputs_fields_cost(fields.drop_last()) + if fields.last().0 == "drvs"@ {
            drvs_cost(fields.last().1)
        } else {
            0
        }
    }
}

/// An `inputs` field.
pub open spec fn valid_inputs(value: Json) -> bool {
    value matches Json::Object(fields) && valid_inputs_fields(fields)
}

/// What retaining an `inputs` field costs.
pub open spec fn inputs_cost(value: Json) -> nat {
    match value {
        Json::Object(fields) => inputs_fields_cost(fields),
        _ => 0,
    }
}

/// Every `path` is a string or `null`.
pub open spec fn valid_output_fields(fields: Entries) -> bool {
    forall|i: int|
        0 <= i < fields.len() && (#[trigger] fields[i]).0 == "path"@ ==> fields[i].1 is Null
            || fields[i].1 is Text
}

/// An output, whose path may be retained where it is known.
pub open spec fn valid_output(value: Json) -> bool {
    &&& match value {
        Json::Null => true,
        Json::Text(_) => true,
        Json::Object(fields) => valid_output_fields(fields),
        _ => false,
    }
    &&& path_of(value) matches Some(path) ==> short(path)
}

/// What retaining an output's path costs.
pub open spec fn output_cost(value: Json) -> nat {
    match path_of(value) {
        Some(path) => price(path),
        None => 0,
    }
}

/// Every entry is an output whose name may be retained.
pub open spec fn valid_outputs_entries(entries: Entries) -> bool {
    forall|i: int|
        0 <= i < entries.len() ==> (#[trigger] entries[i]).0.len() > 0 && short(entries[i].0)
            && valid_output(entries[i].1)
}

/// What retaining the outputs of an object costs.
pub open spec fn outputs_entries_cost(entries: Entries) -> nat
    decreases entries.len(),
{
    if entries.len() == 0 {
        0
    } else {
        outputs_entries_cost(entries.drop_last()) + price(entries.last().0) + output_cost(
            entries.last().1,
        )
    }
}

/// An `outputs` field of a derivation.
pub open spec fn valid_outputs(value: Json) -> bool {
    value matches Json::Object(entries) && valid_outputs_entries(entries)
}

/// What retaining an `outputs` field costs.
pub open spec fn outputs_cost(value: Json) -> nat {
    match value {
        Json::Object(entries) => outputs_entries_cost(entries),
        _ => 0,
    }
}

/// A field of a derivation that is read is valid.
pub open spec fn valid_field(key: Seq<char>, value: Json) -> bool {
    if key == "outputs"@ {
        valid_outputs(value)
    } else if key == "inputs"@ {
        valid_inputs(value)
    } else if key == "inputDrvs"@ {
        valid_drvs(value)
    } else {
        true
    }
}

/// What retaining a field of a derivation costs.
pub open spec fn field_cost(key: Seq<char>, value: Json) -> nat {
    if key == "outputs"@ {
        outputs_cost(value)
    } else if key == "inputs"@ {
        inputs_cost(value)
    } else if key == "inputDrvs"@ {
        drvs_cost(value)
    } else {
        0
    }
}

/// Every field of a derivation that is read is valid.
pub open spec fn valid_fields(fields: Entries) -> bool {
    forall|i: int| 0 <= i < fields.len() ==> valid_field((#[trigger] fields[i]).0, fields[i].1)
}

/// What retaining the fields of a derivation costs.
pub open spec fn fields_cost(fields: Entries) -> nat
    decreases fields.len(),
{
    if fields.len() == 0 {
        0
    } else {
        fields_cost(fields.drop_last()) + field_cost(fields.last().0, fields.last().1)
    }
}

/// A derivation, which has outputs.
pub open spec fn valid_node(value: Json) -> bool {
    value matches Json::Object(fields) && valid_fields(fields) && last_with(fields, "outputs"@)
        is Some
}

/// What retaining a derivation costs on top of its path.
pub open spec fn node_cost(value: Json) -> nat {
    match value {
        Json::Object(fields) => fields_cost(fields),
        _ => 0,
    }
}

/// Every entry but `version` is a derivation whose path may be retained.
pub open spec fn valid_nodes(entries: Entries) -> bool {
    forall|i: int|
        0 <= i < entries.len() && (#[trigger] entries[i]).0 != "version"@ ==> short(
            store::derivation_path(entries[i].0),
        ) && valid_node(entries[i].1)
}

/// What retaining the derivations of an object costs; each path is retained twice.
pub open spec fn nodes_cost(entries: Entries) -> nat
    decreases entries.len(),
{
    if entries.len() == 0 {
        0
    } else {
        nodes_cost(entries.drop_last()) + if entries.last().0 == "version"@ {
            0
        } else {
            2 * price(store::derivation_path(entries.last().0)) + node_cost(entries.last().1)
        }
    }
}

/// The derivations of an object are well-formed and within the limits.
pub open spec fn acceptable(entries: Entries, max_nodes: nat, limit: nat) -> bool {
    &&& valid_nodes(entries)
    &&& nodes_cost(entries) <= limit
    &&& nodes_in(entries).dom().len() <= max_nodes
}

/// Why a name may not be retained: it is too long, or there is no room for it.
pub open spec fn refusal(limit: nat, name: Seq<char>) -> Failure {
    if short(name) {
        Failure {
            code: "graph_memory_limit_exceeded"@,
            message: "derivation graph retains more than the configured limit of "@
                + text::decimal_text(limit) + " bytes"@,
        }
    } else {
        Failure {
            code: "graph_string_limit_exceeded"@,
            message: "derivation graph contains a "@ + text::decimal_text(text::byte_count(name))
                + "-byte name, exceeding the 4096-byte limit"@,
        }
    }
}

/// The first fault of an array of names, with `room` bytes left: what is no string or empty is no
/// name, and any other string may not be retained.
pub open spec fn items_fault(
    limit: nat,
    room: nat,
    path: Seq<char>,
    dependency: Seq<char>,
    items: Seq<Json>,
) -> Failure
    decreases items.len(),
{
    let front = items.drop_last();
    if items.len() > 0 && !(valid_items(front) && items_cost(front) <= room) {
        items_fault(limit, room, path, dependency, front)
    } else {
        match items.last() {
            Json::Text(name) => if name.len() > 0 {
                refusal(limit, name)
            } else {
                reading::selected_name_failure(path, dependency)
            },
            _ => reading::selected_name_failure(path, dependency),
        }
    }
}

/// The first fault of a value that should be an array of names.
pub open spec fn names_fault(
    limit: nat,
    room: nat,
    path: Seq<char>,
    dependency: Seq<char>,
    value: Json,
) -> Failure {
    match value {
        Json::Array(items) => items_fault(limit, room, path, dependency, items),
        _ => reading::selection_failure(path, dependency),
    }
}

/// The first fault of the fields of an object that selects outputs.
pub open spec fn selection_fields_fault(
    limit: nat,
    room: nat,
    path: Seq<char>,
    dependency: Seq<char>,
    fields: Entries,
) -> Failure
    decreases fields.len(),
{
    let front = fields.drop_last();
    if fields.len() > 0 && !(valid_selection_fields(front) && selection_fields_cost(front) <= room) {
        selection_fields_fault(limit, room, path, dependency, front)
    } else {
        names_fault(
            limit,
            (room - selection_fields_cost(front)) as nat,
            path,
            dependency,
            fields.last().1,
        )
    }
}

/// The first fault of a selection: that of its names, or that it is none, or that it is empty.
pub open spec fn selection_fault(
    limit: nat,
    room: nat,
    path: Seq<char>,
    dependency: Seq<char>,
    value: Json,
) -> Failure {
    match value {
        Json::Array(items) => if valid_items(items) && items_cost(items) <= room {
            reading::empty_selection_failure(path, dependency)
        } else {
            items_fault(limit, room, path, dependency, items)
        },
        Json::Object(fields) => if !(valid_selection_fields(fields) && selection_fields_cost(fields)
            <= room) {
            selection_fields_fault(limit, room, path, dependency, fields)
        } else if last_with(fields, "outputs"@) is None {
            reading::selection_failure(path, dependency)
        } else {
            reading::empty_selection_failure(path, dependency)
        },
        _ => reading::selection_failure(path, dependency),
    }
}

/// The first fault of the entries of a map of input derivations.
pub open spec fn drvs_entries_fault(
    limit: nat,
    room: nat,
    path: Seq<char>,
    entries: Entries,
) -> Failure
    decreases entries.len(),
{
    let front = entries.drop_last();
    let left = (room - drvs_entries_cost(front)) as nat;
    let dependency = store::derivation_path(entries.last().0);
    let cost = price(dependency) + CONTAINER_OVERHEAD as nat;
    if entries.len() > 0 && !(valid_drvs_entries(front) && drvs_entries_cost(front) <= room) {
        drvs_entries_fault(limit, room, path, front)
    } else if short(dependency) && cost <= left {
        selection_fault(limit, (left - cost) as nat, path, dependency, entries.last().1)
    } else {
        refusal(limit, dependency)
    }
}

/// The first fault of a value that should be a map of input derivations.
pub open spec fn drvs_fault(limit: nat, room: nat, path: Seq<char>, value: Json) -> Failure {
    match value {
        Json::Object(entries) => drvs_entries_fault(limit, room, path, entries),
        _ => reading::drvs_failure(path),
    }
}

/// The first fault of the fields of `inputs`.
pub open spec fn inputs_fields_fault(
    limit: nat,
    room: nat,
    path: Seq<char>,
    fields: Entries,
) -> Failure
    decreases fields.len(),
{
    let front = fields.drop_last();
    if fields.len() > 0 && !(valid_inputs_fields(front) && inputs_fields_cost(front) <= room) {
        inputs_fields_fault(limit, room, path, front)
    } else {
        drvs_fault(limit, (room - inputs_fields_cost(front)) as nat, path, fields.last().1)
    }
}

/// The first fault of a value that should be `inputs`.
pub open spec fn inputs_fault(limit: nat, room: nat, path: Seq<char>, value: Json) -> Failure {
    match value {
        Json::Object(fields) => inputs_fields_fault(limit, room, path, fields),
        _ => reading::inputs_failure(path),
    }
}

/// The first fault of a value that should be an output: it is none, its `path` is none, or its path
/// may not be retained.
pub open spec fn output_fault(
    limit: nat,
    path: Seq<char>,
    name: Seq<char>,
    value: Json,
) -> Failure {
    match value {
        Json::Object(fields) => if valid_output_fields(fields) {
            refusal(limit, path_of(value)->0)
        } else {
            reading::output_path_failure(path, name)
        },
        Json::Text(_) => refusal(limit, path_of(value)->0),
        _ => reading::output_failure(path, name),
    }
}

/// The first fault of the entries of `outputs`.
pub open spec fn outputs_entries_fault(
    limit: nat,
    room: nat,
    path: Seq<char>,
    entries: Entries,
) -> Failure
    decreases entries.len(),
{
    let front = entries.drop_last();
    let left = (room - outputs_entries_cost(front)) as nat;
    let name = entries.last().0;
    if entries.len() > 0 && !(valid_outputs_entries(front) && outputs_entries_cost(front) <= room) {
        outputs_entries_fault(limit, room, path, front)
    } else if name.len() == 0 {
        reading::output_name_failure(path)
    } else if short(name) && price(name) <= left {
        output_fault(limit, path, name, entries.last().1)
    } else {
        refusal(limit, name)
    }
}

/// The first fault of a value that should be the `outputs` of a derivation.
pub open spec fn outputs_fault(limit: nat, room: nat, path: Seq<char>, value: Json) -> Failure {
    match value {
        Json::Object(entries) => outputs_entries_fault(limit, room, path, entries),
        _ => reading::outputs_failure(path),
    }
}

/// The first fault of the fields of a derivation.
pub open spec fn fields_fault(
    limit: nat,
    room: nat,
    path: Seq<char>,
    fields: Entries,
) -> Failure
    decreases fields.len(),
{
    let front = fields.drop_last();
    let left = (room - fields_cost(front)) as nat;
    let (key, value) = fields.last();
    if fields.len() > 0 && !(valid_fields(front) && fields_cost(front) <= room) {
        fields_fault(limit, room, path, front)
    } else if key == "outputs"@ {
        outputs_fault(limit, left, path, value)
    } else if key == "inputs"@ {
        inputs_fault(limit, left, path, value)
    } else {
        drvs_fault(limit, left, path, value)
    }
}

/// The first fault of a value that should be one more derivation: it is none, one of its fields is
/// at fault, it lacks outputs, or it is one too many.
pub open spec fn node_fault(
    limit: nat,
    room: nat,
    max_nodes: nat,
    path: Seq<char>,
    value: Json,
) -> Failure {
    match value {
        Json::Object(fields) => if !(valid_fields(fields) && fields_cost(fields) <= room) {
            fields_fault(limit, room, path, fields)
        } else if last_with(fields, "outputs"@) is None {
            reading::outputs_failure(path)
        } else {
            reading::node_limit_failure(max_nodes)
        },
        _ => reading::node_failure(path),
    }
}

/// The first fault of the derivations of an object.
pub open spec fn nodes_fault(entries: Entries, max_nodes: nat, limit: nat) -> Failure
    decreases entries.len(),
{
    let front = entries.drop_last();
    let left = (limit - nodes_cost(front)) as nat;
    let path = store::derivation_path(entries.last().0);
    let cost = 2 * price(path);
    if entries.len() > 0 && !acceptable(front, max_nodes, limit) {
        nodes_fault(front, max_nodes, limit)
    } else if short(path) && cost <= left {
        node_fault(limit, (left - cost) as nat, max_nodes, path, entries.last().1)
    } else {
        refusal(limit, path)
    }
}

/// Behind a defect, with `depth` containers of the derivation still open.
spec fn behind(after: Reading, fault: Failure, depth: nat) -> bool {
    ||| after.place == (Place::Failed { failure: fault })
    ||| {
        &&& after.deferred == Some(fault)
        &&& !after.wrapped
        &&& after.place == if depth == 0 {
            Place::Document
        } else {
            Place::Draining { depth }
        }
    }
}

/// The reading came to `place` for `cost` if what it read is good and affordable, and behind a
/// defect otherwise.
spec fn came(
    before: Reading,
    after: Reading,
    good: bool,
    cost: nat,
    fault: Failure,
    place: Place,
    depth: nat,
) -> bool {
    if good && cost <= before.remaining {
        after == before.with((before.remaining - cost) as nat).at(place)
    } else {
        behind(after, fault, depth) && after.wrapped == before.wrapped
    }
}

/// How a value begins.
spec fn first_token(value: Json) -> Token {
    match value {
        Json::Null => Token::Null,
        Json::Text(text) => Token::Text(text),
        Json::Scalar => Token::Scalar,
        Json::Array(_) => Token::ArrayStart,
        Json::Object(_) => Token::ObjectStart,
    }
}

proof fn lemma_behind_stays(
    after: Reading,
    fault: Failure,
    depth: nat,
    key: Seq<char>,
    value: Json,
)
    requires
        behind(after, fault, depth),
        depth > 0,
    ensures
        json::fed(after, value) == after,
        json::fed_entry(after, key, value) == after,
{
    assert(reading::step(after, Token::Key(key)) == after) by {
        reveal(reading::step);
    }
}

proof fn lemma_behind_ends(after: Reading, fault: Failure, depth: nat)
    requires
        behind(after, fault, depth + 1),
    ensures
        behind(json::ended(after, Token::ObjectEnd), fault, depth),
        json::ended(after, Token::ObjectEnd).wrapped == after.wrapped,
        behind(json::ended(after, Token::ArrayEnd), fault, depth),
        json::ended(after, Token::ArrayEnd).wrapped == after.wrapped,
{
    reveal(reading::step);
}

/// A value that is refused leads behind a defect.
proof fn lemma_refused(before: Reading, value: Json, failure: Failure, depth: nat)
    requires
        before.wish() is Read,
        before.deferred is None,
        reading::step(before, first_token(value)) == before.refuse(
            failure,
            depth + first_token(value).opens(),
        ),
    ensures
        behind(json::fed(before, value), failure, depth),
        json::fed(before, value).wrapped == before.wrapped,
{
    let after = reading::step(before, first_token(value));
    assert(behind(after, failure, depth + first_token(value).opens()));
    match value {
        Json::Array(items) => {
            json::lemma_draining_items(after, items);
            lemma_behind_ends(after, failure, depth);
        },
        Json::Object(entries) => {
            json::lemma_draining_entries(after, entries);
            lemma_behind_ends(after, failure, depth);
        },
        _ => {},
    }
}

proof fn lemma_texts(items: Seq<Json>)
    requires
        items.len() > 0,
    ensures
        items.last() matches Json::Text(name) ==> texts(items) == texts(items.drop_last()).insert(
            name,
        ),
{
    if let Json::Text(name) = items.last() {
        let front = items.drop_last();
        assert forall|other: Seq<char>| texts(items).contains(other) <==> texts(front).insert(
            name,
        ).contains(other) by {
            if front.contains(Json::Text(other)) {
                assert(items[front.index_of(Json::Text(other))] == Json::Text(other));
            }
            if other == name {
                assert(items[items.len() - 1] == Json::Text(name));
            }
            if items.contains(Json::Text(other)) && other != name {
                let k = items.index_of(Json::Text(other));
                assert(front[k] == Json::Text(other));
            }
        }
        assert(texts(items) =~= texts(front).insert(name));
    }
}

#[verifier::rlimit(60)]
proof fn lemma_items(
    before: Reading,
    items: Seq<Json>,
    node: Draft,
    legacy: bool,
    drvs: Dependencies,
    dependency: Seq<char>,
    alone: bool,
)
    requires
        before.deferred is None,
        before.place == (Place::Names {
            node,
            legacy,
            drvs,
            dependency,
            names: Set::empty(),
            alone,
        }),
    ensures
        came(
            before,
            json::fed_items(before, items),
            valid_items(items),
            items_cost(items),
            items_fault(before.limit, before.remaining, node.path, dependency, items),
            Place::Names { node, legacy, drvs, dependency, names: texts(items), alone },
            reading::names_depth(legacy, alone),
        ),
    decreases items.len(),
{
    let depth = reading::names_depth(legacy, alone);
    if items.len() == 0 {
        assert(texts(items) =~= Set::<Seq<char>>::empty());
        assert(before.with(before.remaining) == before);
    } else {
        let front = items.drop_last();
        let last = items.last();
        let middle = json::fed_items(before, front);
        let fault = items_fault(before.limit, before.remaining, node.path, dependency, items);
        lemma_items(before, front, node, legacy, drvs, dependency, alone);
        assert(last == items[items.len() - 1]);
        assert(json::fed_items(before, items) == json::fed(middle, last));
        assert(valid_items(items) <==> valid_items(front) && is_name(last)) by {
            assert forall|i: int| 0 <= i < front.len() implies front[i] == #[trigger] items[i] by {}
        }
        if !(valid_items(front) && items_cost(front) <= before.remaining) {
            lemma_behind_stays(middle, fault, depth, Seq::empty(), last);
        } else {
            lemma_texts(items);
            assert(middle.wish() is Read);
            reveal(reading::step);
            match last {
                Json::Text(name) => {},
                _ => {
                    lemma_refused(
                        middle,
                        last,
                        reading::selected_name_failure(node.path, dependency),
                        depth,
                    );
                },
            }
        }
    }
}

#[verifier::rlimit(60)]
proof fn lemma_names(
    before: Reading,
    value: Json,
    node: Draft,
    legacy: bool,
    drvs: Dependencies,
    dependency: Seq<char>,
)
    requires
        before.deferred is None,
        before.place == (Place::NamesValue { node, legacy, drvs, dependency }),
    ensures
        came(
            before,
            json::fed(before, value),
            valid_names(value),
            names_cost(value),
            names_fault(before.limit, before.remaining, node.path, dependency, value),
            Place::Selection { node, legacy, drvs, dependency, chosen: Some(names_of(value)) },
            reading::drvs_depth(legacy) + 1,
        ),
{
    let depth = reading::drvs_depth(legacy) + 1;
    match value {
        Json::Array(items) => {
            let opened = reading::step(before, Token::ArrayStart);
            assert(opened == before.at(
                Place::Names {
                    node,
                    legacy,
                    drvs,
                    dependency,
                    names: Set::empty(),
                    alone: false,
                },
            )) by {
                reveal(reading::step);
            }
            lemma_items(opened, items, node, legacy, drvs, dependency, false);
            let last = json::fed_items(opened, items);
            if valid_items(items) && items_cost(items) <= before.remaining {
                reveal(reading::step);
            } else {
                lemma_behind_ends(
                    last,
                    items_fault(before.limit, before.remaining, node.path, dependency, items),
                    depth,
                );
            }
        },
        _ => {
            reveal(reading::step);
            lemma_refused(
                before,
                value,
                reading::selection_failure(node.path, dependency),
                depth,
            );
        },
    }
}

#[verifier::rlimit(60)]
proof fn lemma_selection_fields(
    before: Reading,
    fields: Entries,
    node: Draft,
    legacy: bool,
    drvs: Dependencies,
    dependency: Seq<char>,
)
    requires
        before.deferred is None,
        before.place == (Place::Selection { node, legacy, drvs, dependency, chosen: None }),
    ensures
        came(
            before,
            json::fed_entries(before, fields),
            valid_selection_fields(fields),
            selection_fields_cost(fields),
            selection_fields_fault(
                before.limit,
                before.remaining,
                node.path,
                dependency,
                fields,
            ),
            Place::Selection {
                node,
                legacy,
                drvs,
                dependency,
                chosen: match last_with(fields, "outputs"@) {
                    Some(value) => Some(names_of(value)),
                    None => None,
                },
            },
            reading::drvs_depth(legacy) + 1,
        ),
    decreases fields.len(),
{
    let depth = reading::drvs_depth(legacy) + 1;
    if fields.len() == 0 {
        assert(before.with(before.remaining) == before);
    } else {
        let front = fields.drop_last();
        let (key, value) = fields.last();
        let middle = json::fed_entries(before, front);
        let fault = selection_fields_fault(
            before.limit,
            before.remaining,
            node.path,
            dependency,
            fields,
        );
        lemma_selection_fields(before, front, node, legacy, drvs, dependency);
        assert(fields.last() == fields[fields.len() - 1]);
        assert(json::fed_entries(before, fields) == json::fed_entry(middle, key, value));
        assert(valid_selection_fields(fields) <==> valid_selection_fields(front) && (key
            == "outputs"@ ==> valid_names(value))) by {
            assert forall|i: int| 0 <= i < front.len() implies front[i] == #[trigger] fields[i] by {}
        }
        if !(valid_selection_fields(front) && selection_fields_cost(front) <= before.remaining) {
            lemma_behind_stays(middle, fault, depth, key, value);
        } else {
            let after = reading::step(middle, Token::Key(key));
            assert(after == if key == "outputs"@ {
                middle.at(Place::NamesValue { node, legacy, drvs, dependency })
            } else {
                middle
            }) by {
                reveal(reading::step);
            }
            if key == "outputs"@ {
                lemma_names(after, value, node, legacy, drvs, dependency);
            }
        }
    }
}

#[verifier::rlimit(60)]
proof fn lemma_selection(
    before: Reading,
    value: Json,
    node: Draft,
    legacy: bool,
    drvs: Dependencies,
    dependency: Seq<char>,
)
    requires
        before.deferred is None,
        before.place == (Place::SelectionValue { node, legacy, drvs, dependency }),
    ensures
        came(
            before,
            json::fed(before, value),
            valid_selection(value),
            selection_cost(value),
            selection_fault(before.limit, before.remaining, node.path, dependency, value),
            Place::Drvs { node, legacy, drvs: drvs.insert(dependency, selection_of(value)) },
            reading::drvs_depth(legacy),
        ),
{
    let depth = reading::drvs_depth(legacy);
    let fault = selection_fault(before.limit, before.remaining, node.path, dependency, value);
    match value {
        Json::Array(items) => {
            let opened = reading::step(before, Token::ArrayStart);
            assert(opened == before.at(
                Place::Names {
                    node,
                    legacy,
                    drvs,
                    dependency,
                    names: Set::empty(),
                    alone: true,
                },
            )) by {
                reveal(reading::step);
            }
            lemma_items(opened, items, node, legacy, drvs, dependency, true);
            let last = json::fed_items(opened, items);
            if valid_items(items) && items_cost(items) <= before.remaining {
                reveal(reading::step);
            } else {
                lemma_behind_ends(last, fault, depth);
            }
        },
        Json::Object(fields) => {
            let opened = reading::step(before, Token::ObjectStart);
            assert(opened == before.at(
                Place::Selection { node, legacy, drvs, dependency, chosen: None },
            )) by {
                reveal(reading::step);
            }
            lemma_selection_fields(opened, fields, node, legacy, drvs, dependency);
            let last = json::fed_entries(opened, fields);
            if valid_selection_fields(fields) && selection_fields_cost(fields) <= before.remaining {
                reveal(reading::step);
            } else {
                lemma_behind_ends(last, fault, depth);
            }
        },
        _ => {
            reveal(reading::step);
            lemma_refused(
                before,
                value,
                reading::selection_failure(node.path, dependency),
                depth,
            );
        },
    }
}

proof fn lemma_drvs_grow(drvs: Dependencies, entries: Entries)
    requires
        entries.len() > 0,
    ensures
        drvs.union_prefer_right(drvs_in(entries.drop_last())).insert(
            store::derivation_path(entries.last().0),
            selection_of(entries.last().1),
        ) == drvs.union_prefer_right(drvs_in(entries)),
{
    assert(drvs.union_prefer_right(drvs_in(entries.drop_last())).insert(
        store::derivation_path(entries.last().0),
        selection_of(entries.last().1),
    ) =~= drvs.union_prefer_right(drvs_in(entries)));
}

#[verifier::rlimit(60)]
proof fn lemma_drvs_entries(
    before: Reading,
    entries: Entries,
    node: Draft,
    legacy: bool,
    drvs: Dependencies,
)
    requires
        before.deferred is None,
        before.place == (Place::Drvs { node, legacy, drvs }),
    ensures
        came(
            before,
            json::fed_entries(before, entries),
            valid_drvs_entries(entries),
            drvs_entries_cost(entries),
            drvs_entries_fault(before.limit, before.remaining, node.path, entries),
            Place::Drvs { node, legacy, drvs: drvs.union_prefer_right(drvs_in(entries)) },
            reading::drvs_depth(legacy),
        ),
    decreases entries.len(),
{
    let depth = reading::drvs_depth(legacy);
    if entries.len() == 0 {
        assert(drvs.union_prefer_right(drvs_in(entries)) =~= drvs);
        assert(before.with(before.remaining) == before);
    } else {
        let front = entries.drop_last();
        let (key, value) = entries.last();
        let path = store::derivation_path(key);
        let middle = json::fed_entries(before, front);
        let fault = drvs_entries_fault(before.limit, before.remaining, node.path, entries);
        let known = drvs.union_prefer_right(drvs_in(front));
        lemma_drvs_entries(before, front, node, legacy, drvs);
        assert(entries.last() == entries[entries.len() - 1]);
        assert(json::fed_entries(before, entries) == json::fed_entry(middle, key, value));
        assert(valid_drvs_entries(entries) <==> valid_drvs_entries(front) && short(path)
            && valid_selection(value)) by {
            assert forall|i: int| 0 <= i < front.len() implies front[i] == #[trigger] entries[i] by {
            }
        }
        if !(valid_drvs_entries(front) && drvs_entries_cost(front) <= before.remaining) {
            lemma_behind_stays(middle, fault, depth, key, value);
        } else {
            lemma_drvs_grow(drvs, entries);
            let after = reading::step(middle, Token::Key(key));
            assert(after == middle.dependency_key(node, legacy, known, key)) by {
                reveal(reading::step);
            }
            if short(path) && price(path) + CONTAINER_OVERHEAD <= middle.remaining {
                lemma_selection(after, value, node, legacy, known, path);
            } else {
                assert(behind(after, fault, depth));
                lemma_behind_stays(after, fault, depth, key, value);
            }
        }
    }
}

#[verifier::rlimit(60)]
proof fn lemma_drvs(before: Reading, value: Json, node: Draft, legacy: bool)
    requires
        before.deferred is None,
        before.place == (Place::DrvsValue { node, legacy }),
    ensures
        came(
            before,
            json::fed(before, value),
            valid_drvs(value),
            drvs_cost(value),
            drvs_fault(before.limit, before.remaining, node.path, value),
            if legacy {
                Place::Node { node: Draft { legacy: Some(drvs_of(value)), ..node } }
            } else {
                Place::Inputs { node, found: Some(drvs_of(value)) }
            },
            (reading::drvs_depth(legacy) - 1) as nat,
        ),
{
    let depth = (reading::drvs_depth(legacy) - 1) as nat;
    match value {
        Json::Object(entries) => {
            let opened = reading::step(before, Token::ObjectStart);
            assert(opened == before.at(Place::Drvs { node, legacy, drvs: Map::empty() })) by {
                reveal(reading::step);
            }
            lemma_drvs_entries(opened, entries, node, legacy, Map::empty());
            assert(Map::<Seq<char>, Set<Seq<char>>>::empty().union_prefer_right(drvs_in(entries))
                =~= drvs_in(entries));
            let last = json::fed_entries(opened, entries);
            if valid_drvs_entries(entries) && drvs_entries_cost(entries) <= before.remaining {
                reveal(reading::step);
            } else {
                lemma_behind_ends(
                    last,
                    drvs_entries_fault(before.limit, before.remaining, node.path, entries),
                    depth,
                );
            }
        },
        _ => {
            reveal(reading::step);
            lemma_refused(before, value, reading::drvs_failure(node.path), depth);
        },
    }
}

#[verifier::rlimit(60)]
proof fn lemma_inputs_fields(before: Reading, fields: Entries, node: Draft)
    requires
        before.deferred is None,
        before.place == (Place::Inputs { node, found: None }),
    ensures
        came(
            before,
            json::fed_entries(before, fields),
            valid_inputs_fields(fields),
            inputs_fields_cost(fields),
            inputs_fields_fault(before.limit, before.remaining, node.path, fields),
            Place::Inputs { node, found: modern(Json::Object(fields)) },
            2,
        ),
    decreases fields.len(),
{
    if fields.len() == 0 {
        assert(before.with(before.remaining) == before);
    } else {
        let front = fields.drop_last();
        let (key, value) = fields.last();
        let middle = json::fed_entries(before, front);
        let fault = inputs_fields_fault(before.limit, before.remaining, node.path, fields);
        lemma_inputs_fields(before, front, node);
        assert(fields.last() == fields[fields.len() - 1]);
        assert(json::fed_entries(before, fields) == json::fed_entry(middle, key, value));
        assert(valid_inputs_fields(fields) <==> valid_inputs_fields(front) && (key == "drvs"@
            ==> valid_drvs(value))) by {
            assert forall|i: int| 0 <= i < front.len() implies front[i] == #[trigger] fields[i] by {}
        }
        if !(valid_inputs_fields(front) && inputs_fields_cost(front) <= before.remaining) {
            lemma_behind_stays(middle, fault, 2, key, value);
        } else {
            let after = reading::step(middle, Token::Key(key));
            assert(after == if key == "drvs"@ {
                middle.at(Place::DrvsValue { node, legacy: false })
            } else {
                middle
            }) by {
                reveal(reading::step);
            }
            if key == "drvs"@ {
                lemma_drvs(after, value, node, false);
            }
        }
    }
}

#[verifier::rlimit(60)]
proof fn lemma_inputs(before: Reading, value: Json, node: Draft)
    requires
        before.deferred is None,
        before.place == (Place::InputsValue { node }),
    ensures
        came(
            before,
            json::fed(before, value),
            valid_inputs(value),
            inputs_cost(value),
            inputs_fault(before.limit, before.remaining, node.path, value),
            Place::Node { node: Draft { dependencies: modern(value), ..node } },
            1,
        ),
{
    match value {
        Json::Object(fields) => {
            let opened = reading::step(before, Token::ObjectStart);
            assert(opened == before.at(Place::Inputs { node, found: None })) by {
                reveal(reading::step);
            }
            lemma_inputs_fields(opened, fields, node);
            let last = json::fed_entries(opened, fields);
            if valid_inputs_fields(fields) && inputs_fields_cost(fields) <= before.remaining {
                reveal(reading::step);
            } else {
                lemma_behind_ends(
                    last,
                    inputs_fields_fault(before.limit, before.remaining, node.path, fields),
                    1,
                );
            }
        },
        _ => {
            reveal(reading::step);
            lemma_refused(before, value, reading::inputs_failure(node.path), 1);
        },
    }
}

#[verifier::rlimit(60)]
proof fn lemma_output_fields(
    before: Reading,
    fields: Entries,
    node: Draft,
    outputs: Outputs,
    name: Seq<char>,
)
    requires
        before.deferred is None,
        before.place == (Place::Output { node, outputs, name, known: None }),
    ensures
        came(
            before,
            json::fed_entries(before, fields),
            valid_output_fields(fields),
            0,
            reading::output_path_failure(node.path, name),
            Place::Output { node, outputs, name, known: path_of(Json::Object(fields)) },
            3,
        ),
    decreases fields.len(),
{
    if fields.len() == 0 {
        assert(before.with(before.remaining) == before);
    } else {
        let front = fields.drop_last();
        let (key, value) = fields.last();
        let middle = json::fed_entries(before, front);
        let fault = reading::output_path_failure(node.path, name);
        lemma_output_fields(before, front, node, outputs, name);
        assert(fields.last() == fields[fields.len() - 1]);
        assert(json::fed_entries(before, fields) == json::fed_entry(middle, key, value));
        assert(valid_output_fields(fields) <==> valid_output_fields(front) && (key == "path"@
            ==> value is Null || value is Text)) by {
            assert forall|i: int| 0 <= i < front.len() implies front[i] == #[trigger] fields[i] by {}
        }
        if !valid_output_fields(front) {
            lemma_behind_stays(middle, fault, 3, key, value);
        } else {
            let after = reading::step(middle, Token::Key(key));
            assert(after == if key == "path"@ {
                middle.at(Place::PathValue { node, outputs, name })
            } else {
                middle
            }) by {
                reveal(reading::step);
            }
            if key == "path"@ {
                reveal(reading::step);
                if !(value is Null || value is Text) {
                    lemma_refused(
                        after,
                        value,
                        reading::output_path_failure(node.path, name),
                        3,
                    );
                }
            }
        }
    }
}

#[verifier::rlimit(60)]
proof fn lemma_output(
    before: Reading,
    value: Json,
    node: Draft,
    outputs: Outputs,
    name: Seq<char>,
)
    requires
        before.deferred is None,
        before.place == (Place::OutputValue { node, outputs, name }),
    ensures
        came(
            before,
            json::fed(before, value),
            valid_output(value),
            output_cost(value),
            output_fault(before.limit, node.path, name, value),
            Place::Outputs { node, outputs: outputs.insert(name, path_of(value)) },
            2,
        ),
{
    match value {
        Json::Object(fields) => {
            let opened = reading::step(before, Token::ObjectStart);
            assert(opened == before.at(Place::Output { node, outputs, name, known: None })) by {
                reveal(reading::step);
            }
            lemma_output_fields(opened, fields, node, outputs, name);
            let last = json::fed_entries(opened, fields);
            if valid_output_fields(fields) {
                reveal(reading::step);
                assert(last == before.at(
                    Place::Output { node, outputs, name, known: path_of(value) },
                ));
            } else {
                lemma_behind_ends(last, reading::output_path_failure(node.path, name), 2);
            }
        },
        Json::Null => {
            reveal(reading::step);
        },
        Json::Text(_) => {
            reveal(reading::step);
        },
        _ => {
            reveal(reading::step);
            lemma_refused(before, value, reading::output_failure(node.path, name), 2);
        },
    }
}

proof fn lemma_outputs_grow(outputs: Outputs, entries: Entries)
    requires
        entries.len() > 0,
    ensures
        outputs.union_prefer_right(outputs_in(entries.drop_last())).insert(
            entries.last().0,
            path_of(entries.last().1),
        ) == outputs.union_prefer_right(outputs_in(entries)),
{
    assert(outputs.union_prefer_right(outputs_in(entries.drop_last())).insert(
        entries.last().0,
        path_of(entries.last().1),
    ) =~= outputs.union_prefer_right(outputs_in(entries)));
}

#[verifier::rlimit(60)]
proof fn lemma_outputs_entries(before: Reading, entries: Entries, node: Draft, outputs: Outputs)
    requires
        before.deferred is None,
        before.place == (Place::Outputs { node, outputs }),
    ensures
        came(
            before,
            json::fed_entries(before, entries),
            valid_outputs_entries(entries),
            outputs_entries_cost(entries),
            outputs_entries_fault(before.limit, before.remaining, node.path, entries),
            Place::Outputs { node, outputs: outputs.union_prefer_right(outputs_in(entries)) },
            2,
        ),
    decreases entries.len(),
{
    if entries.len() == 0 {
        assert(outputs.union_prefer_right(outputs_in(entries)) =~= outputs);
        assert(before.with(before.remaining) == before);
    } else {
        let front = entries.drop_last();
        let (key, value) = entries.last();
        let middle = json::fed_entries(before, front);
        let fault = outputs_entries_fault(before.limit, before.remaining, node.path, entries);
        let known = outputs.union_prefer_right(outputs_in(front));
        lemma_outputs_entries(before, front, node, outputs);
        assert(entries.last() == entries[entries.len() - 1]);
        assert(json::fed_entries(before, entries) == json::fed_entry(middle, key, value));
        assert(valid_outputs_entries(entries) <==> valid_outputs_entries(front) && key.len() > 0
            && short(key) && valid_output(value)) by {
            assert forall|i: int| 0 <= i < front.len() implies front[i] == #[trigger] entries[i] by {
            }
        }
        if !(valid_outputs_entries(front) && outputs_entries_cost(front) <= before.remaining) {
            lemma_behind_stays(middle, fault, 2, key, value);
        } else {
            lemma_outputs_grow(outputs, entries);
            let after = reading::step(middle, Token::Key(key));
            assert(after == middle.output_key(node, known, key)) by {
                reveal(reading::step);
            }
            if key.len() > 0 && short(key) && price(key) <= middle.remaining {
                lemma_output(after, value, node, known, key);
            } else {
                assert(behind(after, fault, 2));
                lemma_behind_stays(after, fault, 2, key, value);
            }
        }
    }
}

#[verifier::rlimit(60)]
proof fn lemma_outputs(before: Reading, value: Json, node: Draft)
    requires
        before.deferred is None,
        before.place == (Place::OutputsValue { node }),
    ensures
        came(
            before,
            json::fed(before, value),
            valid_outputs(value),
            outputs_cost(value),
            outputs_fault(before.limit, before.remaining, node.path, value),
            Place::Node { node: Draft { outputs: Some(outputs_of(value)), ..node } },
            1,
        ),
{
    match value {
        Json::Object(entries) => {
            let opened = reading::step(before, Token::ObjectStart);
            assert(opened == before.at(Place::Outputs { node, outputs: Map::empty() })) by {
                reveal(reading::step);
            }
            lemma_outputs_entries(opened, entries, node, Map::empty());
            assert(Map::<Seq<char>, Option<Seq<char>>>::empty().union_prefer_right(
                outputs_in(entries),
            ) =~= outputs_in(entries));
            let last = json::fed_entries(opened, entries);
            if valid_outputs_entries(entries) && outputs_entries_cost(entries) <= before.remaining {
                reveal(reading::step);
            } else {
                lemma_behind_ends(
                    last,
                    outputs_entries_fault(before.limit, before.remaining, node.path, entries),
                    1,
                );
            }
        },
        _ => {
            reveal(reading::step);
            lemma_refused(before, value, reading::outputs_failure(node.path), 1);
        },
    }
}

#[verifier::rlimit(60)]
proof fn lemma_fields(before: Reading, fields: Entries, node: Draft)
    requires
        before.deferred is None,
        before.place == (Place::Node { node }),
    ensures
        came(
            before,
            json::fed_entries(before, fields),
            valid_fields(fields),
            fields_cost(fields),
            fields_fault(before.limit, before.remaining, node.path, fields),
            Place::Node { node: drafted(node, fields) },
            1,
        ),
    decreases fields.len(),
{
    if fields.len() == 0 {
        assert(before.with(before.remaining) == before);
        assert(drafted(node, fields) == node);
    } else {
        let front = fields.drop_last();
        let (key, value) = fields.last();
        let middle = json::fed_entries(before, front);
        let fault = fields_fault(before.limit, before.remaining, node.path, fields);
        let known = drafted(node, front);
        lemma_fields(before, front, node);
        lemma_keys_differ();
        assert(fields.last() == fields[fields.len() - 1]);
        assert(json::fed_entries(before, fields) == json::fed_entry(middle, key, value));
        assert(valid_fields(fields) <==> valid_fields(front) && valid_field(key, value)) by {
            assert forall|i: int| 0 <= i < front.len() implies front[i] == #[trigger] fields[i] by {}
        }
        if !(valid_fields(front) && fields_cost(front) <= before.remaining) {
            lemma_behind_stays(middle, fault, 1, key, value);
        } else {
            let after = reading::step(middle, Token::Key(key));
            assert(after == if key == "outputs"@ {
                middle.at(Place::OutputsValue { node: known })
            } else if key == "inputs"@ {
                middle.at(Place::InputsValue { node: known })
            } else if key == "inputDrvs"@ {
                middle.at(Place::DrvsValue { node: known, legacy: true })
            } else {
                middle
            }) by {
                reveal(reading::step);
            }
            if key == "outputs"@ {
                lemma_outputs(after, value, known);
            } else if key == "inputs"@ {
                lemma_inputs(after, value, known);
            } else if key == "inputDrvs"@ {
                lemma_drvs(after, value, known, true);
            } else {
                assert(drafted(node, fields) == known);
            }
        }
    }
}

proof fn lemma_keys_differ()
    ensures
        "outputs"@ != "inputs"@,
        "outputs"@ != "inputDrvs"@,
        "inputs"@ != "inputDrvs"@,
{
    reveal_strlit("outputs");
    reveal_strlit("inputs");
    reveal_strlit("inputDrvs");
    assert("outputs"@.len() == 7 && "inputs"@.len() == 6 && "inputDrvs"@.len() == 9);
}

/// The place between derivations.
spec fn between(reading: Reading) -> Place {
    if reading.wrapped {
        Place::Wrapper
    } else {
        Place::Document
    }
}

/// The reading with one more derivation, between derivations again.
spec fn with_node(before: Reading, cost: nat, path: Seq<char>, node: NodeModel) -> Reading {
    Reading {
        nodes: before.nodes.insert(path, node),
        remaining: (before.remaining - cost) as nat,
        place: between(before),
        ..before
    }
}

#[verifier::rlimit(60)]
proof fn lemma_node(before: Reading, value: Json, path: Seq<char>)
    requires
        before.deferred is None,
        before.place == (Place::NodeValue { path }),
    ensures
        if valid_node(value) && node_cost(value) <= before.remaining && before.nodes.insert(
            path,
            node_of(path, value),
        ).dom().len() <= before.max_nodes {
            json::fed(before, value) == with_node(
                before,
                node_cost(value),
                path,
                node_of(path, value),
            )
        } else {
            behind(
                json::fed(before, value),
                node_fault(before.limit, before.remaining, before.max_nodes, path, value),
                0,
            ) && json::fed(before, value).wrapped == before.wrapped
        },
{
    match value {
        Json::Object(fields) => {
            let draft = Draft::new(path);
            let opened = reading::step(before, Token::ObjectStart);
            assert(opened == before.at(Place::Node { node: draft })) by {
                reveal(reading::step);
            }
            lemma_fields(opened, fields, draft);
            let last = json::fed_entries(opened, fields);
            if valid_fields(fields) && fields_cost(fields) <= before.remaining {
                let node = drafted(draft, fields);
                assert(json::ended(last, Token::ObjectEnd) == last.node_end(node)) by {
                    reveal(reading::step);
                }
                if last_with(fields, "outputs"@) is Some {
                    assert(node.outputs == Some(node_of(path, value).outputs));
                    assert(node.inputs() == node_of(path, value).dependencies);
                    assert(node.path == path);
                }
            } else {
                lemma_behind_ends(
                    last,
                    fields_fault(before.limit, before.remaining, path, fields),
                    0,
                );
            }
        },
        _ => {
            reveal(reading::step);
            lemma_refused(before, value, reading::node_failure(path), 0);
        },
    }
}

/// The reading with the derivations of some entries.
spec fn with_nodes(before: Reading, entries: Entries) -> Reading {
    Reading {
        nodes: nodes_in(entries),
        remaining: (before.limit - nodes_cost(entries)) as nat,
        ..before
    }
}

proof fn lemma_nodes_grow(entries: Entries)
    requires
        entries.len() > 0,
    ensures
        ({
            let (key, value) = entries.last();
            let path = store::derivation_path(key);
            let before = nodes_in(entries.drop_last());
            nodes_in(entries) == if key == "version"@ {
                before
            } else {
                before.insert(path, node_of(path, value))
            }
        }),
{
    let (key, value) = entries.last();
    let path = store::derivation_path(key);
    let before = nodes_in(entries.drop_last());
    assert(nodes_in(entries) =~= if key == "version"@ {
        before
    } else {
        before.insert(path, node_of(path, value))
    });
}

proof fn lemma_nodes_finite(entries: Entries)
    ensures
        nodes_in(entries).dom().finite(),
        entries.len() == 0 ==> nodes_in(entries) == Map::<Seq<char>, NodeModel>::empty(),
    decreases entries.len(),
{
    if entries.len() == 0 {
        assert(nodes_in(entries) =~= Map::<Seq<char>, NodeModel>::empty());
    } else {
        lemma_nodes_finite(entries.drop_last());
        lemma_nodes_grow(entries);
    }
}

#[verifier::rlimit(80)]
proof fn lemma_nodes(before: Reading, entries: Entries)
    requires
        before.deferred is None,
        before.place == between(before),
        before.nodes == Map::<Seq<char>, NodeModel>::empty(),
        before.remaining == before.limit,
        !before.wrapped ==> json::without_wrapper(entries),
    ensures
        if acceptable(entries, before.max_nodes, before.limit) {
            json::fed_entries(before, entries) == with_nodes(before, entries)
        } else {
            behind(
                json::fed_entries(before, entries),
                nodes_fault(entries, before.max_nodes, before.limit),
                0,
            ) && json::fed_entries(before, entries).wrapped == before.wrapped
        },
    decreases entries.len(),
{
    lemma_nodes_finite(entries);
    if entries.len() == 0 {
        assert(json::fed_entries(before, entries) == before);
        assert(with_nodes(before, entries) == before);
    } else {
        let front = entries.drop_last();
        let (key, value) = entries.last();
        let path = store::derivation_path(key);
        let middle = json::fed_entries(before, front);
        let fault = nodes_fault(entries, before.max_nodes, before.limit);
        assert(entries.last() == entries[entries.len() - 1]);
        assert forall|i: int| 0 <= i < front.len() implies front[i] == #[trigger] entries[i] by {}
        if !before.wrapped {
            assert(key != "derivations"@);
            assert forall|i: int| 0 <= i < front.len() implies (#[trigger] front[i]).0
                != "derivations"@ by {
                assert(entries[i].0 != "derivations"@);
            }
        }
        lemma_nodes(before, front);
        lemma_nodes_grow(entries);
        lemma_nodes_finite(front);
        assert(json::fed_entries(before, entries) == json::fed_entry(middle, key, value));
        assert(valid_nodes(entries) <==> valid_nodes(front) && (key != "version"@ ==> short(path)
            && valid_node(value)));
        let (known, all) = (nodes_in(front), nodes_in(entries));
        assert(known.dom().len() <= all.dom().len()) by {
            assert(known.dom().subset_of(all.dom()));
            vstd::set_lib::lemma_len_subset(known.dom(), all.dom());
        }
        if !acceptable(front, before.max_nodes, before.limit) {
            lemma_ruined(middle, fault, key, value);
        } else {
            lemma_next_node(middle, key, value);
            assert(middle == with_nodes(before, front));
            if key == "version"@ {
                assert(with_nodes(before, entries) == middle);
            }
        }
    }
}

#[verifier::rlimit(60)]
proof fn lemma_next_node(middle: Reading, key: Seq<char>, value: Json)
    requires
        middle.deferred is None,
        middle.place == between(middle),
        middle.wrapped || key != "derivations"@,
    ensures
        ({
            let path = store::derivation_path(key);
            let after = json::fed_entry(middle, key, value);
            let room = (middle.remaining - 2 * price(path)) as nat;
            if key == "version"@ {
                after == middle
            } else if short(path) && 2 * price(path) <= middle.remaining && valid_node(value)
                && node_cost(value) <= room && middle.nodes.insert(
                path,
                node_of(path, value),
            ).dom().len() <= middle.max_nodes {
                after == with_node(
                    middle,
                    2 * price(path) + node_cost(value),
                    path,
                    node_of(path, value),
                )
            } else {
                after.wrapped == middle.wrapped && behind(
                    after,
                    if short(path) && 2 * price(path) <= middle.remaining {
                        node_fault(middle.limit, room, middle.max_nodes, path, value)
                    } else {
                        refusal(middle.limit, path)
                    },
                    0,
                )
            }
        }),
{
    let path = store::derivation_path(key);
    let after = reading::step(middle, Token::Key(key));
    assert(after == if key == "version"@ {
        middle
    } else {
        middle.node_key(key)
    }) by {
        reveal(reading::step);
    }
    if key == "version"@ {
    } else if short(path) && 2 * price(path) <= middle.remaining {
        lemma_node(after, value, path);
    } else {
        assert(behind(after, refusal(middle.limit, path), 0));
        assert(json::fed(after, value) == after);
    }
}

/// Between derivations behind a defect, an entry that is not the wrapper changes nothing.
proof fn lemma_ruined(after: Reading, fault: Failure, key: Seq<char>, value: Json)
    requires
        behind(after, fault, 0),
        after.place is Failed || key != "derivations"@,
    ensures
        json::fed_entry(after, key, value) == after,
{
    assert(reading::step(after, Token::Key(key)) == after) by {
        reveal(reading::step);
    }
}

/// A document without a wrapper is accepted exactly where its entries are well-formed derivations
/// within the limits, and what is read of it is what it says. Otherwise its first fault is reported.
pub proof fn law_plain_documents_are_read_as_written(
    max_nodes: nat,
    limit: nat,
    entries: Entries,
)
    requires
        json::without_wrapper(entries),
    ensures
        ({
            let after = json::document(max_nodes, limit, Json::Object(entries));
            if acceptable(entries, max_nodes, limit) {
                after.place is Finished && after.nodes == nodes_in(entries)
            } else {
                after.place == Place::Failed { failure: nodes_fault(entries, max_nodes, limit) }
            }
        }),
{
    let start = Reading::start(max_nodes, limit);
    let opened = reading::step(start, Token::ObjectStart);
    assert(opened == start.at(Place::Document)) by {
        reveal(reading::step);
    }
    lemma_nodes(opened, entries);
    let last = json::fed_entries(opened, entries);
    assert(json::document(max_nodes, limit, Json::Object(entries)) == json::ended(
        last,
        Token::ObjectEnd,
    ));
    reveal(reading::step);
}

/// A document with a wrapper is accepted exactly where the wrapper is an object of well-formed
/// derivations within the limits, and what is read of it is what the wrapper says, whatever stands
/// beside it. Otherwise the first fault of the wrapper is reported.
pub proof fn law_wrapped_documents_are_read_as_written(
    max_nodes: nat,
    limit: nat,
    first: Entries,
    wrapper: Json,
    rest: Entries,
)
    requires
        json::without_wrapper(first),
        json::without_wrapper(rest),
    ensures
        ({
            let after = json::document(
                max_nodes,
                limit,
                Json::Object(first + seq![("derivations"@, wrapper)] + rest),
            );
            match wrapper {
                Json::Object(entries) => if acceptable(entries, max_nodes, limit) {
                    after.place is Finished && after.nodes == nodes_in(entries)
                } else {
                    after.place == Place::Failed { failure: nodes_fault(entries, max_nodes, limit) }
                },
                _ => after.place == Place::Failed { failure: reading::wrapper_failure() },
            }
        }),
{
    json::law_the_wrapper_ignores_its_siblings(max_nodes, limit, first, wrapper, rest);
    let entry = seq![("derivations"@, wrapper)];
    let after = json::document(max_nodes, limit, Json::Object(first + entry + rest));
    let start = Reading::start(max_nodes, limit);
    let opened = reading::step(start, Token::ObjectStart);
    let named = reading::step(opened, Token::Key("derivations"@));
    reveal_strlit("derivations");
    reveal_strlit("version");
    assert("derivations"@.len() != "version"@.len());
    assert(opened == start.at(Place::Document) && named == Reading {
        wrapped: true,
        place: Place::WrapperValue,
        ..start
    }) by {
        reveal(reading::step);
    }
    assert(entry.drop_last() =~= Seq::empty());
    assert(json::fed_entries(opened, entry.drop_last()) == opened);
    assert(entry.last() == ("derivations"@, wrapper));
    assert(json::fed_entries(opened, entry) == json::fed_entry(opened, "derivations"@, wrapper));
    assert(json::fed_entries(opened, entry) == json::fed(named, wrapper));
    assert(json::document(max_nodes, limit, Json::Object(entry)) == json::ended(
        json::fed(named, wrapper),
        Token::ObjectEnd,
    ));
    match wrapper {
        Json::Object(entries) => {
            let inside = reading::step(named, Token::ObjectStart);
            assert(inside == named.at(Place::Wrapper)) by {
                reveal(reading::step);
            }
            lemma_nodes(inside, entries);
            let last = json::fed_entries(inside, entries);
            assert(json::fed(named, wrapper) == json::ended(last, Token::ObjectEnd));
            if acceptable(entries, max_nodes, limit) {
                assert(json::ended(last, Token::ObjectEnd) == last.at(Place::Document)) by {
                    reveal(reading::step);
                }
                assert(json::ended(last.at(Place::Document), Token::ObjectEnd) == last.at(
                    Place::Finished,
                )) by {
                    reveal(reading::step);
                }
                assert(after == last.at(Place::Finished));
            } else {
                assert(last.place == Place::Failed {
                    failure: nodes_fault(entries, max_nodes, limit),
                });
                assert(json::ended(last, Token::ObjectEnd) == last);
                assert(after == last);
            }
        },
        Json::Array(items) => {
            let inside = reading::step(named, Token::ArrayStart);
            assert(inside.place == Place::Failed { failure: reading::wrapper_failure() }) by {
                reveal(reading::step);
            }
            json::lemma_draining_items(inside, items);
            assert(after == inside);
        },
        _ => {
            reveal(reading::step);
        },
    }
}

/// A value that is no object is no document.
pub proof fn law_documents_are_objects(max_nodes: nat, limit: nat, value: Json)
    requires
        !(value is Object),
    ensures
        json::document(max_nodes, limit, value).place == (Place::Failed {
            failure: reading::document_failure(),
        }),
{
    let start = Reading::start(max_nodes, limit);
    reveal(reading::step);
    if let Json::Array(items) = value {
        json::lemma_draining_items(reading::step(start, Token::ArrayStart), items);
    }
}

/// The entry is the last one with its key.
pub open spec fn last_of_key(entries: Entries, at: int) -> bool {
    &&& 0 <= at < entries.len()
    &&& forall|i: int| at < i < entries.len() ==> (#[trigger] entries[i]).0 != entries[at].0
}

/// The entry is the last one whose key stands for its derivation path.
pub open spec fn last_of_path(entries: Entries, at: int) -> bool {
    &&& 0 <= at < entries.len()
    &&& forall|i: int|
        at < i < entries.len() ==> store::derivation_path((#[trigger] entries[i]).0)
            != store::derivation_path(entries[at].0)
}

/// No entry has the key.
pub open spec fn no_key(entries: Entries, key: Seq<char>) -> bool {
    forall|i: int| 0 <= i < entries.len() ==> (#[trigger] entries[i]).0 != key
}

/// The reading of a document whose derivations are the entries, plain or as the wrapper.
pub open spec fn reads(after: Reading, max_nodes: nat, limit: nat, entries: Entries) -> bool {
    ||| json::without_wrapper(entries) && after == json::document(
        max_nodes,
        limit,
        Json::Object(entries),
    )
    ||| after == json::document(
        max_nodes,
        limit,
        Json::Object(seq![("derivations"@, Json::Object(entries))]),
    )
}

proof fn lemma_reads(after: Reading, max_nodes: nat, limit: nat, entries: Entries)
    requires
        reads(after, max_nodes, limit, entries),
    ensures
        after.place is Finished <==> acceptable(entries, max_nodes, limit),
        after.place is Finished ==> after.nodes == nodes_in(entries),
        !(after.place is Finished) ==> after.place == (Place::Failed {
            failure: nodes_fault(entries, max_nodes, limit),
        }),
{
    if json::without_wrapper(entries) && after == json::document(
        max_nodes,
        limit,
        Json::Object(entries),
    ) {
        law_plain_documents_are_read_as_written(max_nodes, limit, entries);
    } else {
        let none: Entries = Seq::empty();
        let wrapper = Json::Object(entries);
        law_wrapped_documents_are_read_as_written(max_nodes, limit, none, wrapper, none);
        assert(none + seq![("derivations"@, wrapper)] + none =~= seq![("derivations"@, wrapper)]);
    }
}

proof fn lemma_last_with(entries: Entries, at: int)
    requires
        last_of_key(entries, at),
    ensures
        last_with(entries, entries[at].0) == Some(entries[at].1),
    decreases entries.len(),
{
    let front = entries.drop_last();
    if at < front.len() {
        assert(entries[front.len() as int].0 != entries[at].0);
        assert forall|i: int| at < i < front.len() implies (#[trigger] front[i]).0
            != front[at].0 by {
            assert(entries[i].0 != entries[at].0);
        }
        lemma_last_with(front, at);
    }
}

proof fn lemma_no_key(entries: Entries, key: Seq<char>)
    requires
        no_key(entries, key),
    ensures
        last_with(entries, key) is None,
    decreases entries.len(),
{
    if entries.len() > 0 {
        let front = entries.drop_last();
        assert(entries[front.len() as int].0 != key);
        assert forall|i: int| 0 <= i < front.len() implies (#[trigger] front[i]).0 != key by {
            assert(entries[i].0 != key);
        }
        lemma_no_key(front, key);
    }
}

proof fn lemma_last_under(entries: Entries, at: int)
    requires
        last_of_path(entries, at),
    ensures
        last_under(entries, store::derivation_path(entries[at].0)) == Some(entries[at].1),
    decreases entries.len(),
{
    let front = entries.drop_last();
    let path = store::derivation_path(entries[at].0);
    if at < front.len() {
        assert(store::derivation_path(entries[front.len() as int].0) != path);
        assert forall|i: int| at < i < front.len() implies store::derivation_path(
            (#[trigger] front[i]).0,
        ) != store::derivation_path(front[at].0) by {
            assert(store::derivation_path(entries[i].0) != path);
        }
        lemma_last_under(front, at);
    }
}

proof fn lemma_last_node(entries: Entries, at: int)
    requires
        last_of_path(entries, at),
        entries[at].0 != "version"@,
    ensures
        last_node(entries, store::derivation_path(entries[at].0)) == Some(entries[at].1),
    decreases entries.len(),
{
    let front = entries.drop_last();
    let path = store::derivation_path(entries[at].0);
    if at < front.len() {
        assert(store::derivation_path(entries[front.len() as int].0) != path);
        assert forall|i: int| at < i < front.len() implies store::derivation_path(
            (#[trigger] front[i]).0,
        ) != store::derivation_path(front[at].0) by {
            assert(store::derivation_path(entries[i].0) != path);
        }
        lemma_last_node(front, at);
    }
}

proof fn lemma_nodes_come_from_entries(entries: Entries, path: Seq<char>)
    requires
        last_node(entries, path) is Some,
    ensures
        exists|i: int|
            0 <= i < entries.len() && (#[trigger] entries[i]).0 != "version"@
                && store::derivation_path(entries[i].0) == path,
    decreases entries.len(),
{
    let last = entries.len() - 1;
    if entries[last].0 != "version"@ && store::derivation_path(entries[last].0) == path {
    } else {
        let front = entries.drop_last();
        lemma_nodes_come_from_entries(front, path);
        let i = choose|i: int|
            0 <= i < front.len() && (#[trigger] front[i]).0 != "version"@
                && store::derivation_path(front[i].0) == path;
        assert(entries[i] == front[i]);
    }
}

/// The derivations of an accepted document are those that its entries name, and no others.
pub proof fn law_documents_hold_the_derivations_they_name(
    after: Reading,
    max_nodes: nat,
    limit: nat,
    entries: Entries,
    path: Seq<char>,
)
    requires
        reads(after, max_nodes, limit, entries),
        after.place is Finished,
    ensures
        after.nodes.dom().contains(path) <==> exists|i: int|
            0 <= i < entries.len() && (#[trigger] entries[i]).0 != "version"@
                && store::derivation_path(entries[i].0) == path,
        after.nodes.dom().contains(path) ==> after.nodes[path].drv_path == path,
        after.nodes.dom().len() <= max_nodes,
{
    lemma_reads(after, max_nodes, limit, entries);
    if after.nodes.dom().contains(path) {
        lemma_nodes_come_from_entries(entries, path);
    }
    if exists|i: int|
        0 <= i < entries.len() && (#[trigger] entries[i]).0 != "version"@
            && store::derivation_path(entries[i].0) == path {
        let i = choose|i: int|
            0 <= i < entries.len() && (#[trigger] entries[i]).0 != "version"@
                && store::derivation_path(entries[i].0) == path;
        lemma_named_nodes_are_held(entries, i);
    }
}

proof fn lemma_named_nodes_are_held(entries: Entries, at: int)
    requires
        0 <= at < entries.len(),
        entries[at].0 != "version"@,
    ensures
        last_node(entries, store::derivation_path(entries[at].0)) is Some,
    decreases entries.len(),
{
    let front = entries.drop_last();
    if at < front.len() {
        assert(front[at] == entries[at]);
        lemma_named_nodes_are_held(front, at);
    }
}

/// Of an accepted document, the selection of an input whose `inputDrvs` entry is an array is just
/// the set of the names in it.
pub proof fn law_selections_are_the_listed_names(
    after: Reading,
    max_nodes: nat,
    limit: nat,
    entries: Entries,
    node: int,
    fields: Entries,
    field: int,
    drvs: Entries,
    drv: int,
    items: Seq<Json>,
    name: Seq<char>,
)
    requires
        reads(after, max_nodes, limit, entries),
        after.place is Finished,
        last_of_path(entries, node),
        entries[node].0 != "version"@,
        entries[node].1 == Json::Object(fields),
        no_key(fields, "inputs"@),
        last_of_key(fields, field),
        fields[field] == ("inputDrvs"@, Json::Object(drvs)),
        last_of_path(drvs, drv),
        drvs[drv].1 == Json::Array(items),
    ensures
        ({
            let read = after.nodes[store::derivation_path(entries[node].0)];
            let input = store::derivation_path(drvs[drv].0);
            &&& after.nodes.dom().contains(store::derivation_path(entries[node].0))
            &&& read.dependencies.dom().contains(input)
            &&& read.dependencies[input].contains(name) <==> exists|i: int|
                0 <= i < items.len() && #[trigger] items[i] == Json::Text(name)
        }),
{
    lemma_reads(after, max_nodes, limit, entries);
    lemma_last_node(entries, node);
    lemma_no_key(fields, "inputs"@);
    lemma_last_with(fields, field);
    lemma_last_under(drvs, drv);
    if exists|i: int| 0 <= i < items.len() && #[trigger] items[i] == Json::Text(name) {
        assert(items.contains(Json::Text(name)));
    }
}

/// Of an accepted document, the selection of an input whose entry under `drvs` of `inputs` is an
/// object is just the set of the names in the `outputs` of it.
pub proof fn law_nested_selections_are_the_listed_names(
    after: Reading,
    max_nodes: nat,
    limit: nat,
    entries: Entries,
    node: int,
    fields: Entries,
    field: int,
    inputs: Entries,
    input: int,
    drvs: Entries,
    drv: int,
    chosen: Entries,
    choice: int,
    items: Seq<Json>,
    name: Seq<char>,
)
    requires
        reads(after, max_nodes, limit, entries),
        after.place is Finished,
        last_of_path(entries, node),
        entries[node].0 != "version"@,
        entries[node].1 == Json::Object(fields),
        last_of_key(fields, field),
        fields[field] == ("inputs"@, Json::Object(inputs)),
        last_of_key(inputs, input),
        inputs[input] == ("drvs"@, Json::Object(drvs)),
        last_of_path(drvs, drv),
        drvs[drv].1 == Json::Object(chosen),
        last_of_key(chosen, choice),
        chosen[choice] == ("outputs"@, Json::Array(items)),
    ensures
        ({
            let read = after.nodes[store::derivation_path(entries[node].0)];
            let path = store::derivation_path(drvs[drv].0);
            &&& after.nodes.dom().contains(store::derivation_path(entries[node].0))
            &&& read.dependencies.dom().contains(path)
            &&& read.dependencies[path].contains(name) <==> exists|i: int|
                0 <= i < items.len() && #[trigger] items[i] == Json::Text(name)
        }),
{
    lemma_reads(after, max_nodes, limit, entries);
    lemma_last_node(entries, node);
    lemma_last_with(fields, field);
    lemma_last_with(inputs, input);
    lemma_last_under(drvs, drv);
    lemma_last_with(chosen, choice);
    if exists|i: int| 0 <= i < items.len() && #[trigger] items[i] == Json::Text(name) {
        assert(items.contains(Json::Text(name)));
    }
}

/// Of an accepted document, an output has the path that its entry gives, as a string or as `path`
/// of an object, and none where it gives none.
pub proof fn law_outputs_have_the_path_that_is_given(
    after: Reading,
    max_nodes: nat,
    limit: nat,
    entries: Entries,
    node: int,
    fields: Entries,
    field: int,
    outputs: Entries,
    output: int,
)
    requires
        reads(after, max_nodes, limit, entries),
        after.place is Finished,
        last_of_path(entries, node),
        entries[node].0 != "version"@,
        entries[node].1 == Json::Object(fields),
        last_of_key(fields, field),
        fields[field] == ("outputs"@, Json::Object(outputs)),
        last_of_key(outputs, output),
    ensures
        ({
            let read = after.nodes[store::derivation_path(entries[node].0)];
            let (name, value) = outputs[output];
            &&& read.outputs.dom().contains(name)
            &&& value matches Json::Text(path) ==> read.outputs[name] == Some(
                store::output_path(path),
            )
            &&& value is Null ==> read.outputs[name] is None
            &&& value matches Json::Object(inner) ==> {
                &&& no_key(inner, "path"@) ==> read.outputs[name] is None
                &&& forall|i: int| #[trigger]
                    last_of_key(inner, i) && inner[i].0 == "path"@ ==> match inner[i].1 {
                        Json::Text(path) => read.outputs[name] == Some(store::output_path(path)),
                        _ => read.outputs[name] is None,
                    }
            }
        }),
{
    lemma_reads(after, max_nodes, limit, entries);
    lemma_last_node(entries, node);
    lemma_last_with(fields, field);
    lemma_last_with(outputs, output);
    if let Json::Object(inner) = outputs[output].1 {
        if no_key(inner, "path"@) {
            lemma_no_key(inner, "path"@);
        }
        assert forall|i: int| #[trigger] last_of_key(inner, i) && inner[i].0
            == "path"@ implies last_with(inner, "path"@) == Some(inner[i].1) by {
            lemma_last_with(inner, i);
        }
    }
}

/// Every entry of an accepted document but `version` is an object with `outputs`, under a path
/// within the limit on strings.
pub proof fn law_accepted_documents_are_well_formed(
    after: Reading,
    max_nodes: nat,
    limit: nat,
    entries: Entries,
    node: int,
    fields: Entries,
)
    requires
        reads(after, max_nodes, limit, entries),
        after.place is Finished,
        0 <= node < entries.len(),
        entries[node].0 != "version"@,
    ensures
        text::byte_count(store::derivation_path(entries[node].0)) <= MAX_STRING,
        entries[node].1 is Object,
        entries[node].1 == Json::Object(fields) ==> !no_key(fields, "outputs"@),
{
    lemma_reads(after, max_nodes, limit, entries);
    if entries[node].1 == Json::Object(fields) && no_key(fields, "outputs"@) {
        lemma_no_key(fields, "outputs"@);
    }
}

} // verus!
