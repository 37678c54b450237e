//! Reading a derivation document while it streams in.
//!
//! The caller walks the JSON text and reports each step with [`GraphDocument::accept`]. Before each
//! value it asks [`GraphDocument::wish`] whether to read the value, to skip it without reporting
//! anything, or to stop.

use vstd::prelude::*;

use crate::graph::DependencyGraph;
use crate::model::{DerivationNode, EngineError};
use crate::ordered::{StringMap, StringSet};
use crate::reading::{Draft, Failure, Place, Reading, Token, Wish};
use crate::reading::{CONTAINER_OVERHEAD, ENTRY_OVERHEAD, MAX_STRING};
use crate::store;
use crate::text;

verus! {

/// One step of a JSON document.
#[derive(Debug, PartialEq, Eq)]
pub enum JsonEvent {
    /// `null`.
    Null,
    /// A string value.
    Text(String),
    /// A number or a boolean.
    Scalar,
    /// The start of an array.
    ArrayStart,
    /// The end of an array.
    ArrayEnd,
    /// The start of an object.
    ObjectStart,
    /// A key of an object; its value follows.
    Key(String),
    /// The end of an object.
    ObjectEnd,
}

impl JsonEvent {
    /// The step that the event reports.
    pub open spec fn token(&self) -> Token {
        match self {
            JsonEvent::Null => Token::Null,
            JsonEvent::Text(text) => Token::Text(text@),
            JsonEvent::Scalar => Token::Scalar,
            JsonEvent::ArrayStart => Token::ArrayStart,
            JsonEvent::ArrayEnd => Token::ArrayEnd,
            JsonEvent::ObjectStart => Token::ObjectStart,
            JsonEvent::Key(key) => Token::Key(key@),
            JsonEvent::ObjectEnd => Token::ObjectEnd,
        }
    }

    fn begins_value(&self) -> (result: bool)
        ensures
            result == self.token().begins_value(),
    {
        match self {
            JsonEvent::Null | JsonEvent::Text(_) | JsonEvent::Scalar | JsonEvent::ArrayStart
            | JsonEvent::ObjectStart => true,
            _ => false,
        }
    }

    fn opens(&self) -> (result: usize)
        ensures
            result == self.token().opens(),
            result <= 1,
    {
        match self {
            JsonEvent::ArrayStart | JsonEvent::ObjectStart => 1,
            _ => 0,
        }
    }
}

/// How the JSON text ended.
#[derive(Debug, PartialEq, Eq)]
pub enum Ending {
    /// The document was complete and nothing followed it.
    Complete,
    /// The text is not JSON; says why.
    Malformed(String),
    /// The text could not be read to its end; says why.
    Unreadable(String),
}

/// A derivation whose fields are still being read.
#[derive(Debug, PartialEq, Eq)]
struct NodeDraft {
    path: String,
    outputs: Option<StringMap<Option<String>>>,
    dependencies: Option<StringMap<StringSet>>,
    legacy: Option<StringMap<StringSet>>,
}

impl NodeDraft {
    spec fn model(&self) -> Draft {
        Draft {
            path: self.path@,
            outputs: self.outputs.deep_view(),
            dependencies: self.dependencies.deep_view(),
            legacy: self.legacy.deep_view(),
        }
    }

    spec fn wf(&self) -> bool {
        &&& (self.outputs matches Some(outputs) ==> outputs.wf())
        &&& (self.dependencies matches Some(map) ==> crate::model::selections_wf(map))
        &&& (self.legacy matches Some(map) ==> crate::model::selections_wf(map))
    }
}

/// The input derivation whose selection is being read, with what stands around it.
#[derive(Debug, PartialEq, Eq)]
struct InputDraft {
    node: NodeDraft,
    legacy: bool,
    drvs: StringMap<StringSet>,
    dependency: String,
}

impl InputDraft {
    spec fn wf(&self) -> bool {
        self.node.wf() && crate::model::selections_wf(self.drvs)
    }
}

/// Where in the document the next event stands.
#[derive(Debug, PartialEq, Eq)]
enum Frame {
    Start,
    Document,
    WrapperValue,
    Wrapper,
    NodeValue { path: String },
    Node { node: NodeDraft },
    OutputsValue { node: NodeDraft },
    Outputs { node: NodeDraft, outputs: StringMap<Option<String>> },
    OutputValue { node: NodeDraft, outputs: StringMap<Option<String>>, name: String },
    Output {
        node: NodeDraft,
        outputs: StringMap<Option<String>>,
        name: String,
        known: Option<String>,
    },
    PathValue { node: NodeDraft, outputs: StringMap<Option<String>>, name: String },
    InputsValue { node: NodeDraft },
    Inputs { node: NodeDraft, found: Option<StringMap<StringSet>> },
    DrvsValue { node: NodeDraft, legacy: bool },
    Drvs { node: NodeDraft, legacy: bool, drvs: StringMap<StringSet> },
    SelectionValue { input: InputDraft },
    Selection { input: InputDraft, chosen: Option<StringSet> },
    NamesValue { input: InputDraft },
    Names { input: InputDraft, names: StringSet, alone: bool },
    Draining { depth: usize },
    Finished,
    Failed { error: EngineError },
}

/// What an error says.
spec fn failure_of(error: EngineError) -> Failure {
    Failure { code: error.code_text(), message: error.message_text() }
}

impl Frame {
    spec fn place(&self) -> Place {
        match self {
            Frame::Start => Place::Start,
            Frame::Document => Place::Document,
            Frame::WrapperValue => Place::WrapperValue,
            Frame::Wrapper => Place::Wrapper,
            Frame::NodeValue { path } => Place::NodeValue { path: path@ },
            Frame::Node { node } => Place::Node { node: node.model() },
            Frame::OutputsValue { node } => Place::OutputsValue { node: node.model() },
            Frame::Outputs { node, outputs } => Place::Outputs {
                node: node.model(),
                outputs: outputs.deep_view(),
            },
            Frame::OutputValue { node, outputs, name } => Place::OutputValue {
                node: node.model(),
                outputs: outputs.deep_view(),
                name: name@,
            },
            Frame::Output { node, outputs, name, known } => Place::Output {
                node: node.model(),
                outputs: outputs.deep_view(),
                name: name@,
                known: known.deep_view(),
            },
            Frame::PathValue { node, outputs, name } => Place::PathValue {
                node: node.model(),
                outputs: outputs.deep_view(),
                name: name@,
            },
            Frame::InputsValue { node } => Place::InputsValue { node: node.model() },
            Frame::Inputs { node, found } => Place::Inputs {
                node: node.model(),
                found: found.deep_view(),
            },
            Frame::DrvsValue { node, legacy } => Place::DrvsValue {
                node: node.model(),
                legacy: *legacy,
            },
            Frame::Drvs { node, legacy, drvs } => Place::Drvs {
                node: node.model(),
                legacy: *legacy,
                drvs: drvs.deep_view(),
            },
            Frame::SelectionValue { input } => Place::SelectionValue {
                node: input.node.model(),
                legacy: input.legacy,
                drvs: input.drvs.deep_view(),
                dependency: input.dependency@,
            },
            Frame::Selection { input, chosen } => Place::Selection {
                node: input.node.model(),
                legacy: input.legacy,
                drvs: input.drvs.deep_view(),
                dependency: input.dependency@,
                chosen: chosen.deep_view(),
            },
            Frame::NamesValue { input } => Place::NamesValue {
                node: input.node.model(),
                legacy: input.legacy,
                drvs: input.drvs.deep_view(),
                dependency: input.dependency@,
            },
            Frame::Names { input, names, alone } => Place::Names {
                node: input.node.model(),
                legacy: input.legacy,
                drvs: input.drvs.deep_view(),
                dependency: input.dependency@,
                names: names@,
                alone: *alone,
            },
            Frame::Draining { depth } => Place::Draining { depth: *depth as nat },
            Frame::Finished => Place::Finished,
            Frame::Failed { error } => Place::Failed { failure: failure_of(*error) },
        }
    }

    spec fn wf(&self) -> bool {
        match self {
            Frame::Node { node } => node.wf(),
            Frame::OutputsValue { node } => node.wf(),
            Frame::Outputs { node, outputs } => node.wf() && outputs.wf(),
            Frame::OutputValue { node, outputs, .. } => node.wf() && outputs.wf(),
            Frame::Output { node, outputs, .. } => node.wf() && outputs.wf(),
            Frame::PathValue { node, outputs, .. } => node.wf() && outputs.wf(),
            Frame::InputsValue { node } => node.wf(),
            Frame::Inputs { node, found } => node.wf() && (found matches Some(map)
                ==> crate::model::selections_wf(*map)),
            Frame::DrvsValue { node, .. } => node.wf(),
            Frame::Drvs { node, drvs, .. } => node.wf() && crate::model::selections_wf(*drvs),
            Frame::SelectionValue { input } => input.wf(),
            Frame::Selection { input, chosen } => input.wf() && (chosen matches Some(set)
                ==> set.wf()),
            Frame::NamesValue { input } => input.wf(),
            Frame::Names { input, names, .. } => input.wf() && names.wf(),
            Frame::Draining { depth } => *depth > 0,
            _ => true,
        }
    }
}

/// A derivation document that is being read.
#[derive(Debug, PartialEq, Eq)]
pub struct GraphDocument {
    max_nodes: usize,
    limit_bytes: usize,
    remaining_bytes: usize,
    nodes: StringMap<DerivationNode>,
    wrapped: bool,
    deferred: Option<EngineError>,
    frame: Frame,
}

impl GraphDocument {
    /// What has been read so far.
    pub closed spec fn reading(&self) -> Reading {
        Reading {
            max_nodes: self.max_nodes as nat,
            limit: self.limit_bytes as nat,
            remaining: self.remaining_bytes as nat,
            nodes: self.nodes.deep_view(),
            wrapped: self.wrapped,
            deferred: match self.deferred {
                Some(error) => Some(failure_of(error)),
                None => None,
            },
            place: self.frame.place(),
        }
    }

    /// The collections read so far are well-formed.
    pub closed spec fn wf(&self) -> bool {
        &&& crate::graph::nodes_wf(self.nodes)
        &&& self.frame.wf()
    }

    /// Starts reading a document that may hold `max_nodes` derivations, whose retained strings may
    /// cost `max_retained_bytes`.
    pub fn new(max_nodes: usize, max_retained_bytes: usize) -> (result: Self)
        ensures
            result.wf(),
            result.reading() == Reading::start(max_nodes as nat, max_retained_bytes as nat),
    {
        let result = GraphDocument {
            max_nodes,
            limit_bytes: max_retained_bytes,
            remaining_bytes: max_retained_bytes,
            nodes: StringMap::new(),
            wrapped: false,
            deferred: None,
            frame: Frame::Start,
        };
        assert(result.nodes.deep_view() =~= Map::empty());
        result
    }

    /// Returns what to do with the value that follows.
    pub fn wish(&self) -> (result: Wish)
        ensures
            result == self.reading().wish(),
    {
        match &self.frame {
            Frame::Start | Frame::WrapperValue | Frame::NodeValue { .. }
            | Frame::OutputsValue { .. } | Frame::OutputValue { .. } | Frame::PathValue { .. }
            | Frame::InputsValue { .. } | Frame::DrvsValue { .. } | Frame::SelectionValue { .. }
            | Frame::NamesValue { .. } | Frame::Names { .. } => Wish::Read,
            Frame::Failed { .. } => Wish::Stop,
            _ => Wish::Skip,
        }
    }

    /// Charges a string that is about to be retained.
    fn charge(&mut self, retained: &str, extra: usize) -> (result: Result<(), EngineError>)
        requires
            extra <= CONTAINER_OVERHEAD,
        ensures
            match crate::reading::charge(
                old(self).reading().limit,
                old(self).reading().remaining,
                retained@,
                extra as nat,
            ) {
                Ok(remaining) => {
                    &&& result is Ok
                    &&& final(self).reading() == old(self).reading().with(remaining)
                },
                Err(failure) => {
                    &&& result matches Err(error)
                    &&& failure_of(error) == failure
                    &&& final(self).reading() == old(self).reading()
                },
            },
            final(self).frame == old(self).frame,
            final(self).nodes == old(self).nodes,
    {
        let size = text::byte_len(retained);
        if size > MAX_STRING {
            return Err(
                EngineError::new(
                    "graph_string_limit_exceeded",
                    text::cat3(
                        "derivation graph contains a ",
                        text::decimal(size as u128).as_str(),
                        "-byte name, exceeding the 4096-byte limit",
                    ),
                ),
            );
        }
        let cost = size + ENTRY_OVERHEAD + extra;
        if cost > self.remaining_bytes {
            return Err(
                EngineError::new(
                    "graph_memory_limit_exceeded",
                    text::cat3(
                        "derivation graph retains more than the configured limit of ",
                        text::decimal(self.limit_bytes as u128).as_str(),
                        " bytes",
                    ),
                ),
            );
        }
        self.remaining_bytes = self.remaining_bytes - cost;
        Ok(())
    }

    /// Records a defect inside `depth` containers of a derivation.
    fn refuse(&mut self, error: EngineError, depth: usize)
        ensures
            final(self).reading() == old(self).reading().refuse(failure_of(error), depth as nat),
            final(self).frame.wf(),
            final(self).nodes == old(self).nodes,
    {
        if self.wrapped {
            self.frame = Frame::Failed { error };
        } else {
            self.deferred = Some(error);
            self.drain(depth);
        }
    }

    /// Goes on behind a defect, inside `depth` containers of the derivation.
    fn drain(&mut self, depth: usize)
        ensures
            final(self).reading() == old(self).reading().drained(depth as nat),
            final(self).frame.wf(),
            final(self).nodes == old(self).nodes,
    {
        self.frame = if depth == 0 {
            Frame::Document
        } else {
            Frame::Draining { depth }
        };
    }

    /// Takes the key of a derivation.
    fn node_key(&mut self, key: String)
        requires
            crate::graph::nodes_wf(old(self).nodes),
        ensures
            final(self).reading() == old(self).reading().node_key(key@),
            final(self).wf(),
    {
        let path = store::normalize_derivation_path(key);
        match self.charge(path.as_str(), 0) {
            Err(error) => self.refuse(error, 0),
            Ok(_) => match self.charge(path.as_str(), 0) {
                Err(error) => {
                    self.refuse(error, 0);
                },
                Ok(_) => {
                    self.frame = Frame::NodeValue { path };
                },
            },
        }
    }

    /// Takes a key of the document.
    fn document_key(&mut self, key: String)
        requires
            old(self).wf(),
            old(self).frame is Document,
        ensures
            final(self).reading() == old(self).reading().document_key(key@),
            final(self).wf(),
    {
        if text::same(key.as_str(), "version") {
        } else if text::same(key.as_str(), "derivations") {
            self.nodes = StringMap::new();
            self.remaining_bytes = self.limit_bytes;
            self.deferred = None;
            self.wrapped = true;
            self.frame = Frame::WrapperValue;
            assert(self.nodes.deep_view() =~= Map::empty());
        } else if self.wrapped || self.deferred.is_some() {
        } else {
            self.node_key(key);
        }
    }

    /// Ends a derivation.
    fn node_end(&mut self, node: NodeDraft)
        requires
            crate::graph::nodes_wf(old(self).nodes),
            node.wf(),
        ensures
            final(self).reading() == old(self).reading().node_end(node.model()),
            final(self).wf(),
    {
        let NodeDraft { path, outputs, dependencies, legacy } = node;
        match outputs {
            None => {
                self.refuse(
                    EngineError::new(
                        "invalid_graph_outputs",
                        text::cat3("derivation ", path.as_str(), " outputs must be an object"),
                    ),
                    0,
                );
            },
            Some(outputs) => {
                let dependencies = match dependencies {
                    Some(map) => map,
                    None => match legacy {
                        Some(map) => map,
                        None => StringMap::new(),
                    },
                };
                let ghost before = *self;
                let ghost name = path@;
                let entry = DerivationNode { drv_path: path.clone(), dependencies, outputs };
                let ghost model = entry.deep_view();
                proof {
                    assert(model.dependencies =~= node.model().inputs());
                }
                self.nodes.insert(path, entry);
                proof {
                    lemma_node_inserted(before.nodes, self.nodes, name, entry);
                    crate::ordered::lemma_keys(self.nodes);
                    assert(self.nodes.deep_view().dom() =~= self.nodes@.dom());
                }
                if self.nodes.len() > self.max_nodes {
                    self.refuse(
                        EngineError::new(
                            "graph_node_limit_exceeded",
                            text::cat2(
                                "derivation graph exceeds the configured limit of ",
                                text::decimal(self.max_nodes as u128).as_str(),
                            ),
                        ),
                        0,
                    );
                } else if self.wrapped {
                    self.frame = Frame::Wrapper;
                } else {
                    self.frame = Frame::Document;
                }
            },
        }
    }

    /// Takes the name of an output.
    fn output_key(&mut self, node: NodeDraft, outputs: StringMap<Option<String>>, name: String)
        requires
            crate::graph::nodes_wf(old(self).nodes),
            node.wf(),
            outputs.wf(),
        ensures
            final(self).reading() == old(self).reading().output_key(
                node.model(),
                outputs.deep_view(),
                name@,
            ),
            final(self).wf(),
    {
        if name.as_str().is_empty() {
            self.refuse(
                EngineError::new(
                    "invalid_output_name",
                    text::cat3("derivation ", node.path.as_str(), " has an empty output name"),
                ),
                2,
            );
        } else {
            match self.charge(name.as_str(), 0) {
                Ok(_) => {
                    self.frame = Frame::OutputValue { node, outputs, name };
                },
                Err(error) => self.refuse(error, 2),
            }
        }
    }

    /// Ends an output.
    fn output_end(
        &mut self,
        node: NodeDraft,
        outputs: StringMap<Option<String>>,
        name: String,
        path: Option<String>,
    )
        requires
            crate::graph::nodes_wf(old(self).nodes),
            node.wf(),
            outputs.wf(),
        ensures
            final(self).reading() == old(self).reading().output_end(
                node.model(),
                outputs.deep_view(),
                name@,
                path.deep_view(),
            ),
            final(self).wf(),
    {
        let mut outputs = outputs;
        let ghost before = outputs;
        let ghost key = name@;
        if let Some(text) = &path {
            if let Err(error) = self.charge(text.as_str(), 0) {
                self.refuse(error, 2);
                return;
            }
        }
        outputs.insert(name, path);
        assert(outputs.deep_view() =~= before.deep_view().insert(key, path.deep_view()));
        self.frame = Frame::Outputs { node, outputs };
    }

    /// Takes the path of an input derivation.
    fn dependency_key(
        &mut self,
        node: NodeDraft,
        legacy: bool,
        drvs: StringMap<StringSet>,
        key: String,
    )
        requires
            crate::graph::nodes_wf(old(self).nodes),
            node.wf(),
            crate::model::selections_wf(drvs),
        ensures
            final(self).reading() == old(self).reading().dependency_key(
                node.model(),
                legacy,
                drvs.deep_view(),
                key@,
            ),
            final(self).wf(),
    {
        let dependency = store::normalize_derivation_path(key);
        match self.charge(dependency.as_str(), CONTAINER_OVERHEAD) {
            Ok(_) => {
                self.frame = Frame::SelectionValue {
                    input: InputDraft { node, legacy, drvs, dependency },
                };
            },
            Err(error) => self.refuse(error, drvs_depth(legacy)),
        }
    }

    /// Ends the outputs selected from an input derivation.
    fn selection_end(&mut self, input: InputDraft, names: StringSet)
        requires
            crate::graph::nodes_wf(old(self).nodes),
            input.wf(),
            names.wf(),
        ensures
            final(self).reading() == old(self).reading().selection_end(
                input.node.model(),
                input.legacy,
                input.drvs.deep_view(),
                input.dependency@,
                names@,
            ),
            final(self).wf(),
    {
        let InputDraft { node, legacy, mut drvs, dependency } = input;
        if names.is_empty() {
            self.refuse(
                EngineError::new(
                    "empty_input_output_selection",
                    text::cat4(
                        "derivation ",
                        node.path.as_str(),
                        " selects no outputs from ",
                        dependency.as_str(),
                    ),
                ),
                drvs_depth(legacy),
            );
        } else {
            let ghost before = drvs;
            let ghost key = dependency@;
            drvs.insert(dependency, names);
            proof {
                lemma_selection_inserted(before, drvs, key, names);
            }
            self.frame = Frame::Drvs { node, legacy, drvs };
        }
    }

    /// Takes a selected output name.
    fn selected_name(&mut self, input: InputDraft, names: StringSet, alone: bool, name: String)
        requires
            crate::graph::nodes_wf(old(self).nodes),
            input.wf(),
            names.wf(),
        ensures
            final(self).reading() == old(self).reading().selected_name(
                input.node.model(),
                input.legacy,
                input.drvs.deep_view(),
                input.dependency@,
                names@,
                alone,
                name@,
            ),
            final(self).wf(),
    {
        let depth = names_depth(input.legacy, alone);
        if name.as_str().is_empty() {
            self.refuse(
                selected_name_error(input.node.path.as_str(), input.dependency.as_str()),
                depth,
            );
        } else {
            match self.charge(name.as_str(), 0) {
                Ok(_) => {
                    let mut names = names;
                    names.insert(name);
                    self.frame = Frame::Names { input, names, alone };
                },
                Err(error) => self.refuse(error, depth),
            }
        }
    }

    /// Takes an event between the entries of the document.
    fn on_document(&mut self, event: JsonEvent)
        requires
            crate::graph::nodes_wf(old(self).nodes),
        ensures
            final(self).reading() == crate::reading::step(
                old(self).reading().at(Place::Document),
                event.token(),
            ),
            final(self).wf(),
    {
        proof {
            reveal(crate::reading::step);
        }
        self.frame = Frame::Document;
        match event {
            JsonEvent::Key(key) => self.document_key(key),
            JsonEvent::ObjectEnd => {
                let mut deferred: Option<EngineError> = None;
                std::mem::swap(&mut deferred, &mut self.deferred);
                match deferred {
                    Some(error) => {
                        self.deferred = Some(error.clone());
                        self.frame = Frame::Failed { error };
                    },
                    None => {
                        self.frame = Frame::Finished;
                    },
                }
            },
            _ => {},
        }
    }

    /// Takes an event between the entries of `derivations`.
    fn on_wrapper(&mut self, event: JsonEvent)
        requires
            crate::graph::nodes_wf(old(self).nodes),
        ensures
            final(self).reading() == crate::reading::step(
                old(self).reading().at(Place::Wrapper),
                event.token(),
            ),
            final(self).wf(),
    {
        proof {
            reveal(crate::reading::step);
        }
        self.frame = Frame::Wrapper;
        match event {
            JsonEvent::Key(key) => {
                if !text::same(key.as_str(), "version") {
                    self.node_key(key);
                }
            },
            JsonEvent::ObjectEnd => {
                self.frame = Frame::Document;
            },
            _ => {},
        }
    }

    /// Takes an event before a derivation.
    fn on_node_value(&mut self, path: String, event: JsonEvent)
        requires
            crate::graph::nodes_wf(old(self).nodes),
        ensures
            final(self).reading() == crate::reading::step(
                old(self).reading().at(Place::NodeValue { path: path@ }),
                event.token(),
            ),
            final(self).wf(),
    {
        proof {
            reveal(crate::reading::step);
        }
        match event {
            JsonEvent::ObjectStart => {
                self.frame = Frame::Node {
                    node: NodeDraft { path, outputs: None, dependencies: None, legacy: None },
                };
            },
            _ => {
                if event.begins_value() {
                    self.refuse(
                        EngineError::new(
                            "invalid_graph_node",
                            text::cat3("derivation ", path.as_str(), " must be an object"),
                        ),
                        event.opens(),
                    );
                } else {
                    self.frame = Frame::NodeValue { path };
                }
            },
        }
    }

    /// Takes an event between the fields of a derivation.
    fn on_node(&mut self, node: NodeDraft, event: JsonEvent)
        requires
            crate::graph::nodes_wf(old(self).nodes),
            node.wf(),
        ensures
            final(self).reading() == crate::reading::step(
                old(self).reading().at(Place::Node { node: node.model() }),
                event.token(),
            ),
            final(self).wf(),
    {
        proof {
            reveal(crate::reading::step);
        }
        match event {
            JsonEvent::Key(key) => {
                let key = key.as_str();
                self.frame = if text::same(key, "outputs") {
                    Frame::OutputsValue { node }
                } else if text::same(key, "inputs") {
                    Frame::InputsValue { node }
                } else if text::same(key, "inputDrvs") {
                    Frame::DrvsValue { node, legacy: true }
                } else {
                    Frame::Node { node }
                };
            },
            JsonEvent::ObjectEnd => self.node_end(node),
            _ => {
                self.frame = Frame::Node { node };
            },
        }
    }

    /// Takes an event before the value of `outputs`.
    fn on_outputs_value(&mut self, node: NodeDraft, event: JsonEvent)
        requires
            crate::graph::nodes_wf(old(self).nodes),
            node.wf(),
        ensures
            final(self).reading() == crate::reading::step(
                old(self).reading().at(Place::OutputsValue { node: node.model() }),
                event.token(),
            ),
            final(self).wf(),
    {
        proof {
            reveal(crate::reading::step);
        }
        match event {
            JsonEvent::ObjectStart => {
                let outputs: StringMap<Option<String>> = StringMap::new();
                assert(outputs.deep_view() =~= Map::empty());
                self.frame = Frame::Outputs { node, outputs };
            },
            _ => {
                if event.begins_value() {
                    self.refuse(
                        EngineError::new(
                            "invalid_graph_outputs",
                            text::cat3(
                                "derivation ",
                                node.path.as_str(),
                                " outputs must be an object",
                            ),
                        ),
                        1 + event.opens(),
                    );
                } else {
                    self.frame = Frame::OutputsValue { node };
                }
            },
        }
    }

    /// Takes an event between the entries of `outputs`.
    fn on_outputs(&mut self, node: NodeDraft, outputs: StringMap<Option<String>>, event: JsonEvent)
        requires
            crate::graph::nodes_wf(old(self).nodes),
            node.wf(),
            outputs.wf(),
        ensures
            final(self).reading() == crate::reading::step(
                old(self).reading().at(
                    Place::Outputs { node: node.model(), outputs: outputs.deep_view() },
                ),
                event.token(),
            ),
            final(self).wf(),
    {
        proof {
            reveal(crate::reading::step);
        }
        match event {
            JsonEvent::Key(key) => self.output_key(node, outputs, key),
            JsonEvent::ObjectEnd => {
                let NodeDraft { path, outputs: _, dependencies, legacy } = node;
                self.frame = Frame::Node {
                    node: NodeDraft { path, outputs: Some(outputs), dependencies, legacy },
                };
            },
            _ => {
                self.frame = Frame::Outputs { node, outputs };
            },
        }
    }

    /// Takes an event before an output.
    fn on_output_value(&mut self, node: NodeDraft, outputs: StringMap<Option<String>>, name: String, event: JsonEvent)
        requires
            crate::graph::nodes_wf(old(self).nodes),
            node.wf(),
            outputs.wf(),
        ensures
            final(self).reading() == crate::reading::step(
                old(self).reading().at(
                    Place::OutputValue {
                        node: node.model(),
                        outputs: outputs.deep_view(),
                        name: name@,
                    },
                ),
                event.token(),
            ),
            final(self).wf(),
    {
        proof {
            reveal(crate::reading::step);
        }
        match event {
            JsonEvent::Null => self.output_end(node, outputs, name, None),
            JsonEvent::Text(text) => {
                self.output_end(node, outputs, name, Some(store::normalize_output_path(text)));
            },
            JsonEvent::ObjectStart => {
                self.frame = Frame::Output { node, outputs, name, known: None };
            },
            _ => {
                if event.begins_value() {
                    self.refuse(
                        EngineError::new(
                            "invalid_graph_output",
                            text::cat5(
                                "derivation ",
                                node.path.as_str(),
                                " output ",
                                name.as_str(),
                                " must be an object",
                            ),
                        ),
                        2 + event.opens(),
                    );
                } else {
                    self.frame = Frame::OutputValue { node, outputs, name };
                }
            },
        }
    }

    /// Takes an event between the fields of an output.
    fn on_output(&mut self, node: NodeDraft, outputs: StringMap<Option<String>>, name: String, known: Option<String>, event: JsonEvent)
        requires
            crate::graph::nodes_wf(old(self).nodes),
            node.wf(),
            outputs.wf(),
        ensures
            final(self).reading() == crate::reading::step(
                old(self).reading().at(
                    Place::Output {
                        node: node.model(),
                        outputs: outputs.deep_view(),
                        name: name@,
                        known: known.deep_view(),
                    },
                ),
                event.token(),
            ),
            final(self).wf(),
    {
        proof {
            reveal(crate::reading::step);
        }
        match event {
            JsonEvent::Key(key) => {
                self.frame = if text::same(key.as_str(), "path") {
                    Frame::PathValue { node, outputs, name }
                } else {
                    Frame::Output { node, outputs, name, known }
                };
            },
            JsonEvent::ObjectEnd => self.output_end(node, outputs, name, known),
            _ => {
                self.frame = Frame::Output { node, outputs, name, known };
            },
        }
    }

    /// Takes an event before the value of an output's `path`.
    fn on_path_value(&mut self, node: NodeDraft, outputs: StringMap<Option<String>>, name: String, event: JsonEvent)
        requires
            crate::graph::nodes_wf(old(self).nodes),
            node.wf(),
            outputs.wf(),
        ensures
            final(self).reading() == crate::reading::step(
                old(self).reading().at(
                    Place::PathValue {
                        node: node.model(),
                        outputs: outputs.deep_view(),
                        name: name@,
                    },
                ),
                event.token(),
            ),
            final(self).wf(),
    {
        proof {
            reveal(crate::reading::step);
        }
        match event {
            JsonEvent::Null => {
                self.frame = Frame::Output { node, outputs, name, known: None };
            },
            JsonEvent::Text(text) => {
                let known = Some(store::normalize_output_path(text));
                self.frame = Frame::Output { node, outputs, name, known };
            },
            _ => {
                if event.begins_value() {
                    self.refuse(
                        EngineError::new(
                            "invalid_graph_output_path",
                            text::cat5(
                                "derivation ",
                                node.path.as_str(),
                                " output ",
                                name.as_str(),
                                " path must be a string",
                            ),
                        ),
                        3 + event.opens(),
                    );
                } else {
                    self.frame = Frame::PathValue { node, outputs, name };
                }
            },
        }
    }

    /// Takes an event before the value of `inputs`.
    fn on_inputs_value(&mut self, node: NodeDraft, event: JsonEvent)
        requires
            crate::graph::nodes_wf(old(self).nodes),
            node.wf(),
        ensures
            final(self).reading() == crate::reading::step(
                old(self).reading().at(Place::InputsValue { node: node.model() }),
                event.token(),
            ),
            final(self).wf(),
    {
        proof {
            reveal(crate::reading::step);
        }
        match event {
            JsonEvent::ObjectStart => {
                self.frame = Frame::Inputs { node, found: None };
            },
            _ => {
                if event.begins_value() {
                    self.refuse(
                        EngineError::new(
                            "invalid_input_derivations",
                            text::cat3(
                                "derivation ",
                                node.path.as_str(),
                                " inputs must be an object",
                            ),
                        ),
                        1 + event.opens(),
                    );
                } else {
                    self.frame = Frame::InputsValue { node };
                }
            },
        }
    }

    /// Takes an event between the fields of `inputs`.
    fn on_inputs(&mut self, node: NodeDraft, found: Option<StringMap<StringSet>>, event: JsonEvent)
        requires
            crate::graph::nodes_wf(old(self).nodes),
            node.wf(),
            found matches Some(map) ==> crate::model::selections_wf(map),
        ensures
            final(self).reading() == crate::reading::step(
                old(self).reading().at(
                    Place::Inputs { node: node.model(), found: found.deep_view() },
                ),
                event.token(),
            ),
            final(self).wf(),
    {
        proof {
            reveal(crate::reading::step);
        }
        match event {
            JsonEvent::Key(key) => {
                self.frame = if text::same(key.as_str(), "drvs") {
                    Frame::DrvsValue { node, legacy: false }
                } else {
                    Frame::Inputs { node, found }
                };
            },
            JsonEvent::ObjectEnd => {
                let NodeDraft { path, outputs, dependencies: _, legacy } = node;
                self.frame = Frame::Node {
                    node: NodeDraft { path, outputs, dependencies: found, legacy },
                };
            },
            _ => {
                self.frame = Frame::Inputs { node, found };
            },
        }
    }

    /// Takes an event before a map of input derivations.
    fn on_drvs_value(&mut self, node: NodeDraft, legacy: bool, event: JsonEvent)
        requires
            crate::graph::nodes_wf(old(self).nodes),
            node.wf(),
        ensures
            final(self).reading() == crate::reading::step(
                old(self).reading().at(
                    Place::DrvsValue { node: node.model(), legacy },
                ),
                event.token(),
            ),
            final(self).wf(),
    {
        proof {
            reveal(crate::reading::step);
        }
        match event {
            JsonEvent::ObjectStart => {
                let drvs: StringMap<StringSet> = StringMap::new();
                assert(drvs.deep_view() =~= Map::empty());
                self.frame = Frame::Drvs { node, legacy, drvs };
            },
            _ => {
                if event.begins_value() {
                    self.refuse(
                        EngineError::new(
                            "invalid_input_derivations",
                            text::cat3(
                                "derivation ",
                                node.path.as_str(),
                                " input derivations must be an object",
                            ),
                        ),
                        drvs_depth(legacy) - 1 + event.opens(),
                    );
                } else {
                    self.frame = Frame::DrvsValue { node, legacy };
                }
            },
        }
    }

    /// Takes an event between the entries of a map of input derivations.
    fn on_drvs(&mut self, node: NodeDraft, legacy: bool, drvs: StringMap<StringSet>, event: JsonEvent)
        requires
            crate::graph::nodes_wf(old(self).nodes),
            node.wf(),
            crate::model::selections_wf(drvs),
        ensures
            final(self).reading() == crate::reading::step(
                old(self).reading().at(
                    Place::Drvs { node: node.model(), legacy, drvs: drvs.deep_view() },
                ),
                event.token(),
            ),
            final(self).wf(),
    {
        proof {
            reveal(crate::reading::step);
        }
        match event {
            JsonEvent::Key(key) => self.dependency_key(node, legacy, drvs, key),
            JsonEvent::ObjectEnd => {
                if legacy {
                    let NodeDraft { path, outputs, dependencies, legacy: _ } = node;
                    self.frame = Frame::Node {
                        node: NodeDraft { path, outputs, dependencies, legacy: Some(drvs) },
                    };
                } else {
                    self.frame = Frame::Inputs { node, found: Some(drvs) };
                }
            },
            _ => {
                self.frame = Frame::Drvs { node, legacy, drvs };
            },
        }
    }

    /// Takes an event before the outputs selected from an input derivation.
    fn on_selection_value(&mut self, input: InputDraft, event: JsonEvent)
        requires
            crate::graph::nodes_wf(old(self).nodes),
            input.wf(),
        ensures
            final(self).reading() == crate::reading::step(
                old(self).reading().at(
                    Place::SelectionValue {
                        node: input.node.model(),
                        legacy: input.legacy,
                        drvs: input.drvs.deep_view(),
                        dependency: input.dependency@,
                    },
                ),
                event.token(),
            ),
            final(self).wf(),
    {
        proof {
            reveal(crate::reading::step);
        }
        match event {
            JsonEvent::ArrayStart => {
                self.frame = Frame::Names { input, names: StringSet::new(), alone: true };
            },
            JsonEvent::ObjectStart => {
                self.frame = Frame::Selection { input, chosen: None };
            },
            _ => {
                if event.begins_value() {
                    self.refuse(
                        selection_error(input.node.path.as_str(), input.dependency.as_str()),
                        drvs_depth(input.legacy),
                    );
                } else {
                    self.frame = Frame::SelectionValue { input };
                }
            },
        }
    }

    /// Takes an event between the fields of an object that selects outputs.
    fn on_selection(&mut self, input: InputDraft, chosen: Option<StringSet>, event: JsonEvent)
        requires
            crate::graph::nodes_wf(old(self).nodes),
            input.wf(),
            chosen matches Some(set) ==> set.wf(),
        ensures
            final(self).reading() == crate::reading::step(
                old(self).reading().at(
                    Place::Selection {
                        node: input.node.model(),
                        legacy: input.legacy,
                        drvs: input.drvs.deep_view(),
                        dependency: input.dependency@,
                        chosen: chosen.deep_view(),
                    },
                ),
                event.token(),
            ),
            final(self).wf(),
    {
        proof {
            reveal(crate::reading::step);
        }
        match event {
            JsonEvent::Key(key) => {
                self.frame = if text::same(key.as_str(), "outputs") {
                    Frame::NamesValue { input }
                } else {
                    Frame::Selection { input, chosen }
                };
            },
            JsonEvent::ObjectEnd => match chosen {
                None => {
                    self.refuse(
                        selection_error(input.node.path.as_str(), input.dependency.as_str()),
                        drvs_depth(input.legacy),
                    );
                },
                Some(names) => self.selection_end(input, names),
            },
            _ => {
                self.frame = Frame::Selection { input, chosen };
            },
        }
    }

    /// Takes an event before the value of a selection's `outputs`.
    fn on_names_value(&mut self, input: InputDraft, event: JsonEvent)
        requires
            crate::graph::nodes_wf(old(self).nodes),
            input.wf(),
        ensures
            final(self).reading() == crate::reading::step(
                old(self).reading().at(
                    Place::NamesValue {
                        node: input.node.model(),
                        legacy: input.legacy,
                        drvs: input.drvs.deep_view(),
                        dependency: input.dependency@,
                    },
                ),
                event.token(),
            ),
            final(self).wf(),
    {
        proof {
            reveal(crate::reading::step);
        }
        match event {
            JsonEvent::ArrayStart => {
                self.frame = Frame::Names { input, names: StringSet::new(), alone: false };
            },
            _ => {
                if event.begins_value() {
                    self.refuse(
                        selection_error(input.node.path.as_str(), input.dependency.as_str()),
                        drvs_depth(input.legacy) + 1 + event.opens(),
                    );
                } else {
                    self.frame = Frame::NamesValue { input };
                }
            },
        }
    }

    /// Takes an event between the elements of an array of output names.
    fn on_names(&mut self, input: InputDraft, names: StringSet, alone: bool, event: JsonEvent)
        requires
            crate::graph::nodes_wf(old(self).nodes),
            input.wf(),
            names.wf(),
        ensures
            final(self).reading() == crate::reading::step(
                old(self).reading().at(
                    Place::Names {
                        node: input.node.model(),
                        legacy: input.legacy,
                        drvs: input.drvs.deep_view(),
                        dependency: input.dependency@,
                        names: names@,
                        alone,
                    },
                ),
                event.token(),
            ),
            final(self).wf(),
    {
        proof {
            reveal(crate::reading::step);
        }
        match event {
            JsonEvent::Text(text) => self.selected_name(input, names, alone, text),
            JsonEvent::ArrayEnd => {
                if alone {
                    self.selection_end(input, names);
                } else {
                    self.frame = Frame::Selection { input, chosen: Some(names) };
                }
            },
            _ => {
                if event.begins_value() {
                    self.refuse(
                        selected_name_error(input.node.path.as_str(), input.dependency.as_str()),
                        names_depth(input.legacy, alone) + event.opens(),
                    );
                } else {
                    self.frame = Frame::Names { input, names, alone };
                }
            },
        }
    }

    /// Takes the next step of the document.
    pub fn accept(&mut self, event: JsonEvent)
        requires
            old(self).wf(),
        ensures
            final(self).wf(),
            final(self).reading() == crate::reading::step(old(self).reading(), event.token()),
    {
        proof {
            reveal(crate::reading::step);
        }
        let mut frame = Frame::Finished;
        std::mem::swap(&mut frame, &mut self.frame);
        match frame {
            Frame::Start => {
                self.frame = Frame::Start;
                match event {
                    JsonEvent::ObjectStart => {
                        self.frame = Frame::Document;
                    },
                    _ => {
                        if event.begins_value() {
                            let error = EngineError::new(
                                "invalid_graph_schema",
                                "nix derivation graph must be a JSON object".to_owned(),
                            );
                            self.frame = Frame::Failed { error };
                        }
                    },
                }
            },
            Frame::Document => self.on_document(event),
            Frame::WrapperValue => {
                self.frame = Frame::WrapperValue;
                match event {
                    JsonEvent::ObjectStart => {
                        self.frame = Frame::Wrapper;
                    },
                    _ => {
                        if event.begins_value() {
                            let error = EngineError::new(
                                "invalid_graph_schema",
                                "derivations must be a JSON object".to_owned(),
                            );
                            self.frame = Frame::Failed { error };
                        }
                    },
                }
            },
            Frame::Wrapper => self.on_wrapper(event),
            Frame::NodeValue { path } => self.on_node_value(path, event),
            Frame::Node { node } => self.on_node(node, event),
            Frame::OutputsValue { node } => self.on_outputs_value(node, event),
            Frame::Outputs { node, outputs } => self.on_outputs(node, outputs, event),
            Frame::OutputValue { node, outputs, name } => {
                self.on_output_value(node, outputs, name, event);
            },
            Frame::Output { node, outputs, name, known } => {
                self.on_output(node, outputs, name, known, event);
            },
            Frame::PathValue { node, outputs, name } => {
                self.on_path_value(node, outputs, name, event);
            },
            Frame::InputsValue { node } => self.on_inputs_value(node, event),
            Frame::Inputs { node, found } => self.on_inputs(node, found, event),
            Frame::DrvsValue { node, legacy } => self.on_drvs_value(node, legacy, event),
            Frame::Drvs { node, legacy, drvs } => self.on_drvs(node, legacy, drvs, event),
            Frame::SelectionValue { input } => self.on_selection_value(input, event),
            Frame::Selection { input, chosen } => self.on_selection(input, chosen, event),
            Frame::NamesValue { input } => self.on_names_value(input, event),
            Frame::Names { input, names, alone } => self.on_names(input, names, alone, event),
            Frame::Draining { depth } => match event {
                JsonEvent::ArrayEnd | JsonEvent::ObjectEnd => self.drain(depth - 1),
                _ => {
                    self.frame = Frame::Draining { depth };
                },
            },
            Frame::Finished => {},
            Frame::Failed { error } => {
                self.frame = Frame::Failed { error };
            },
        }
    }
}

impl GraphDocument {
    /// Ends the document and validates the graph it describes.
    ///
    /// A defect in the document is reported before a fault of the text it was read from, and a text
    /// that could not be read is told apart from one that is not JSON.
    pub fn finish(self, ending: Ending, roots: &StringSet) -> (result: Result<
        DependencyGraph,
        EngineError,
    >)
        requires
            self.wf(),
            roots.wf(),
        ensures
            match (self.reading().place, ending) {
                (Place::Failed { failure }, _) => {
                    &&& result matches Err(error)
                    &&& error.says(failure.code, failure.message)
                },
                (_, Ending::Malformed(reason)) => {
                    &&& result matches Err(error)
                    &&& error.says(
                        "invalid_graph_json"@,
                        "parse nix derivation graph JSON: "@ + reason@,
                    )
                },
                (_, Ending::Unreadable(reason)) => {
                    &&& result matches Err(error)
                    &&& error.says(
                        "graph_stream_read_failed"@,
                        "parse nix derivation graph JSON: "@ + reason@,
                    )
                },
                (Place::Finished, Ending::Complete) => {
                    let nodes = self.reading().nodes;
                    let max_nodes = self.reading().max_nodes as int;
                    match crate::graph::defect(nodes, roots@, max_nodes) {
                        Some(found) => {
                            &&& result matches Err(error)
                            &&& crate::graph::reports(nodes, max_nodes, found, error)
                        },
                        None => {
                            &&& result matches Ok(graph)
                            &&& graph.wf()
                            &&& graph.model() == nodes
                        },
                    }
                },
                (_, Ending::Complete) => {
                    &&& result matches Err(error)
                    &&& error.says(
                        "invalid_graph_json"@,
                        "nix derivation show produced no derivation graph"@,
                    )
                },
            },
    {
        if let Frame::Failed { error } = self.frame {
            return Err(error);
        }
        match ending {
            Ending::Malformed(reason) => Err(
                EngineError::new(
                    "invalid_graph_json",
                    text::cat2("parse nix derivation graph JSON: ", reason.as_str()),
                ),
            ),
            Ending::Unreadable(reason) => Err(
                EngineError::new(
                    "graph_stream_read_failed",
                    text::cat2("parse nix derivation graph JSON: ", reason.as_str()),
                ),
            ),
            Ending::Complete => {
                if let Frame::Finished = self.frame {
                    DependencyGraph::new(self.nodes, roots, self.max_nodes)
                } else {
                    Err(no_graph())
                }
            },
        }
    }
}

/// The error of a stream that produced no graph.
fn no_graph() -> (result: EngineError)
    ensures
        result.says(
            "invalid_graph_json"@,
            "nix derivation show produced no derivation graph"@,
        ),
{
    EngineError::new(
        "invalid_graph_json",
        "nix derivation show produced no derivation graph".to_owned(),
    )
}

/// What one `nix derivation show` stream produced.
#[derive(Debug, PartialEq, Eq)]
pub struct GraphStream {
    outcome: Option<Result<DependencyGraph, EngineError>>,
}

impl GraphStream {
    /// The graph or the error that the stream produced and that was not taken yet.
    pub closed spec fn outcome(&self) -> Option<Result<DependencyGraph, EngineError>> {
        self.outcome
    }

    /// Creates a stream that has produced nothing.
    pub fn new() -> (result: Self)
        ensures
            result.outcome() is None,
    {
        GraphStream { outcome: None }
    }

    /// Keeps what reading the stream produced. A failed read is handed back instead, so that a
    /// broken stream and a malformed document stay apart.
    pub fn record(&mut self, parsed: Result<DependencyGraph, EngineError>) -> (result: Result<
        (),
        String,
    >)
        ensures
            match parsed {
                Err(error) => if error.code_text() == "graph_stream_read_failed"@ {
                    &&& result matches Err(reason)
                    &&& reason@ == error.message_text()
                    &&& *final(self) == *old(self)
                } else {
                    result is Ok && final(self).outcome() == Some(parsed)
                },
                Ok(_) => result is Ok && final(self).outcome() == Some(parsed),
            },
    {
        if let Err(error) = &parsed {
            if text::same(error.code(), "graph_stream_read_failed") {
                return Err(error.message().to_owned());
            }
        }
        self.outcome = Some(parsed);
        Ok(())
    }

    /// Returns the parsed graph, or why the stream did not produce one.
    pub fn take(&mut self) -> (result: Result<DependencyGraph, EngineError>)
        ensures
            match old(self).outcome() {
                Some(parsed) => result == parsed,
                None => {
                    &&& result matches Err(error)
                    &&& error.says(
                        "invalid_graph_json"@,
                        "nix derivation show produced no derivation graph"@,
                    )
                },
            },
            final(self).outcome() is None,
    {
        match self.outcome.take() {
            Some(parsed) => parsed,
            None => Err(no_graph()),
        }
    }
}

fn selection_error(path: &str, dependency: &str) -> (result: EngineError)
    ensures
        failure_of(result) == crate::reading::selection_failure(path@, dependency@),
{
    EngineError::new(
        "invalid_input_outputs",
        text::cat5(
            "derivation ",
            path,
            " input ",
            dependency,
            " outputs must be an array",
        ),
    )
}

fn drvs_depth(legacy: bool) -> (result: usize)
    ensures
        result == crate::reading::drvs_depth(legacy),
{
    if legacy {
        2
    } else {
        3
    }
}

fn names_depth(legacy: bool, alone: bool) -> (result: usize)
    ensures
        result == crate::reading::names_depth(legacy, alone),
        result <= 5,
{
    drvs_depth(legacy) + if alone {
        1
    } else {
        2
    }
}

fn selected_name_error(path: &str, dependency: &str) -> (result: EngineError)
    ensures
        failure_of(result) == crate::reading::selected_name_failure(path@, dependency@),
{
    EngineError::new(
        "invalid_input_output_name",
        text::cat5(
            "derivation ",
            path,
            " input ",
            dependency,
            " output names must be non-empty strings",
        ),
    )
}

/// Inserting a node into a well-formed map inserts what it says.
proof fn lemma_node_inserted(
    before: StringMap<DerivationNode>,
    after: StringMap<DerivationNode>,
    path: Seq<char>,
    node: DerivationNode,
)
    requires
        crate::graph::nodes_wf(before),
        node.wf(),
        after.wf(),
        after@ == before@.insert(path, node),
    ensures
        crate::graph::nodes_wf(after),
        after.deep_view() == before.deep_view().insert(path, node.deep_view()),
{
    assert forall|i: int| 0 <= i < after.values().len() implies (
    #[trigger] after.values()[i]).wf() by {
        crate::ordered::lemma_map_at(after, i);
        let key = after.keys()[i];
        if key != path {
            assert(before@.dom().contains(key));
            let j = crate::ordered::lemma_map_position(before, key);
            assert(before.values()[j].wf());
        }
    }
    assert(after.deep_view() =~= before.deep_view().insert(path, node.deep_view()));
}

/// Inserting a selection into a well-formed map inserts its names.
proof fn lemma_selection_inserted(
    before: StringMap<StringSet>,
    after: StringMap<StringSet>,
    dependency: Seq<char>,
    names: StringSet,
)
    requires
        crate::model::selections_wf(before),
        names.wf(),
        after.wf(),
        after@ == before@.insert(dependency, names),
    ensures
        crate::model::selections_wf(after),
        after.deep_view() == before.deep_view().insert(dependency, names@),
{
    assert forall|i: int| 0 <= i < after.values().len() implies (
    #[trigger] after.values()[i]).wf() by {
        crate::ordered::lemma_map_at(after, i);
        let key = after.keys()[i];
        if key != dependency {
            assert(before@.dom().contains(key));
            let j = crate::ordered::lemma_map_position(before, key);
            assert(before.values()[j].wf());
        }
    }
    assert(after.deep_view() =~= before.deep_view().insert(dependency, names@));
}

/// Only a document that was read to its end without a defect gives a graph, and the graph is that
/// of its derivations. A defect in the document is reported whatever became of the text behind it.
pub proof fn law_graphs_come_of_whole_documents(
    document: GraphDocument,
    ending: Ending,
    roots: StringSet,
    result: Result<DependencyGraph, EngineError>,
)
    requires
        document.wf(),
        roots.wf(),
        call_ensures(GraphDocument::finish, (document, ending, &roots), result),
    ensures
        result matches Ok(graph) ==> {
            &&& ending is Complete
            &&& document.reading().place is Finished
            &&& graph.model() == document.reading().nodes
            &&& forall|root: Seq<char>| #[trigger]
                roots@.contains(root) ==> graph.model().dom().contains(root)
        },
        document.reading().place matches Place::Failed { failure } ==> (result matches Err(error)
            && error.code_text() == failure.code && error.message_text() == failure.message),
        ending is Unreadable && !(document.reading().place is Failed) ==> (result matches Err(
            error,
        ) && error.code_text() == "graph_stream_read_failed"@),
{
    if let Ok(graph) = result {
        let nodes = document.reading().nodes;
        let none = Seq::<char>::empty();
        assert forall|root: Seq<char>| #[trigger] roots@.contains(root) implies
            nodes.dom().contains(root) by {
            crate::graph::law_graphs_are_sound(
                nodes,
                roots@,
                document.reading().max_nodes as int,
                root,
                none,
                none,
                Seq::empty(),
            );
        }
    }
}

} // verus!
