//! What reading a derivation document means, one JSON event at a time.
//!
//! `nix derivation show` writes either a map from derivation paths to derivations, or an object
//! whose `derivations` key holds that map. Which of the two a document is turns out only when the
//! `derivations` key arrives, so a derivation read before it is provisional: a defect in it is kept
//! back until the end of the document, and a `derivations` key discards everything read so far.

use vstd::prelude::*;

use crate::model::NodeModel;

verus! {

/// Output names and their known paths.
pub type Outputs = Map<Seq<char>, Option<Seq<char>>>;

/// Input derivations and the outputs consumed from each.
pub type Dependencies = Map<Seq<char>, Set<Seq<char>>>;

/// One step of a JSON document.
pub enum Token {
    /// `null`.
    Null,
    /// A string value.
    Text(Seq<char>),
    /// A number or a boolean.
    Scalar,
    /// The start of an array.
    ArrayStart,
    /// The end of an array.
    ArrayEnd,
    /// The start of an object.
    ObjectStart,
    /// A key of an object; its value follows.
    Key(Seq<char>),
    /// The end of an object.
    ObjectEnd,
}

impl Token {
    /// The step begins a value.
    pub open spec fn begins_value(self) -> bool {
        match self {
            Token::Null | Token::Text(_) | Token::Scalar | Token::ArrayStart
            | Token::ObjectStart => true,
            _ => false,
        }
    }

    /// How many containers the step opens.
    pub open spec fn opens(self) -> nat {
        match self {
            Token::ArrayStart | Token::ObjectStart => 1,
            _ => 0,
        }
    }
}

/// A protocol error: its code and its message.
pub struct Failure {
    /// Stable machine-readable code.
    pub code: Seq<char>,
    /// Human-readable detail.
    pub message: Seq<char>,
}

/// A derivation whose fields are still being read.
pub struct Draft {
    /// Derivation path.
    pub path: Seq<char>,
    /// The `outputs` field, once read.
    pub outputs: Option<Outputs>,
    /// The `drvs` of the `inputs` field, once read.
    pub dependencies: Option<Dependencies>,
    /// The `inputDrvs` field, once read.
    pub legacy: Option<Dependencies>,
}

/// Where in the document the next step stands.
pub enum Place {
    /// Before the document.
    Start,
    /// Between the entries of the document.
    Document,
    /// Before the value of `derivations`.
    WrapperValue,
    /// Between the entries of `derivations`.
    Wrapper,
    /// Before a derivation.
    NodeValue { path: Seq<char> },
    /// Between the fields of a derivation.
    Node { node: Draft },
    /// Before the value of `outputs`.
    OutputsValue { node: Draft },
    /// Between the entries of `outputs`.
    Outputs { node: Draft, outputs: Outputs },
    /// Before an output.
    OutputValue { node: Draft, outputs: Outputs, name: Seq<char> },
    /// Between the fields of an output.
    Output { node: Draft, outputs: Outputs, name: Seq<char>, known: Option<Seq<char>> },
    /// Before the value of an output's `path`.
    PathValue { node: Draft, outputs: Outputs, name: Seq<char> },
    /// Before the value of `inputs`.
    InputsValue { node: Draft },
    /// Between the fields of `inputs`.
    Inputs { node: Draft, found: Option<Dependencies> },
    /// Before a map of input derivations, which is either `inputDrvs` or the `drvs` of `inputs`.
    DrvsValue { node: Draft, legacy: bool },
    /// Between the entries of a map of input derivations.
    Drvs { node: Draft, legacy: bool, drvs: Dependencies },
    /// Before the outputs selected from an input derivation.
    SelectionValue { node: Draft, legacy: bool, drvs: Dependencies, dependency: Seq<char> },
    /// Between the fields of an object that selects outputs.
    Selection {
        node: Draft,
        legacy: bool,
        drvs: Dependencies,
        dependency: Seq<char>,
        chosen: Option<Set<Seq<char>>>,
    },
    /// Before the value of a selection's `outputs`.
    NamesValue { node: Draft, legacy: bool, drvs: Dependencies, dependency: Seq<char> },
    /// Between the elements of an array of output names, which stands either alone or in an object
    /// that selects outputs.
    Names {
        node: Draft,
        legacy: bool,
        drvs: Dependencies,
        dependency: Seq<char>,
        names: Set<Seq<char>>,
        alone: bool,
    },
    /// Behind a defect of a provisional derivation, inside this many containers of it.
    Draining { depth: nat },
    /// Behind the document.
    Finished,
    /// Behind a defect that ended the reading.
    Failed { failure: Failure },
}

/// What is done with the value that follows.
#[derive(Clone, Copy, Debug, PartialEq, Eq, Structural)]
pub enum Wish {
    /// It is read.
    Read,
    /// It is skipped.
    Skip,
    /// Reading has ended.
    Stop,
}

/// Everything that reading has retained so far.
pub struct Reading {
    /// Maximum derivations.
    pub max_nodes: nat,
    /// Bytes the retained strings may cost.
    pub limit: nat,
    /// Bytes that are left of `limit`.
    pub remaining: nat,
    /// The derivations read so far.
    pub nodes: Map<Seq<char>, NodeModel>,
    /// Whether a `derivations` key has been seen.
    pub wrapped: bool,
    /// The first defect of a provisional derivation.
    pub deferred: Option<Failure>,
    /// Where the next step stands.
    pub place: Place,
}

/// A retained string costs this much on top of its own bytes.
pub const ENTRY_OVERHEAD: usize = 128;

/// An entry that owns a container costs this much more.
pub const CONTAINER_OVERHEAD: usize = 384;

/// The most bytes one retained name or path may have.
pub const MAX_STRING: usize = 4096;

/// The document is not an object.
pub open spec fn document_failure() -> Failure {
    Failure {
        code: "invalid_graph_schema"@,
        message: "nix derivation graph must be a JSON object"@,
    }
}

/// `derivations` is not an object.
pub open spec fn wrapper_failure() -> Failure {
    Failure { code: "invalid_graph_schema"@, message: "derivations must be a JSON object"@ }
}

/// A derivation is not an object.
pub open spec fn node_failure(path: Seq<char>) -> Failure {
    Failure {
        code: "invalid_graph_node"@,
        message: "derivation "@ + path + " must be an object"@,
    }
}

/// The graph has too many nodes.
pub open spec fn node_limit_failure(max_nodes: nat) -> Failure {
    Failure {
        code: "graph_node_limit_exceeded"@,
        message: "derivation graph exceeds the configured limit of "@ + crate::text::decimal_text(
            max_nodes,
        ),
    }
}

/// `outputs` is missing or not an object.
pub open spec fn outputs_failure(path: Seq<char>) -> Failure {
    Failure {
        code: "invalid_graph_outputs"@,
        message: "derivation "@ + path + " outputs must be an object"@,
    }
}

/// An output has no name.
pub open spec fn output_name_failure(path: Seq<char>) -> Failure {
    Failure {
        code: "invalid_output_name"@,
        message: "derivation "@ + path + " has an empty output name"@,
    }
}

/// An output is neither a path nor an object.
pub open spec fn output_failure(path: Seq<char>, name: Seq<char>) -> Failure {
    Failure {
        code: "invalid_graph_output"@,
        message: "derivation "@ + path + " output "@ + name + " must be an object"@,
    }
}

/// An output's `path` is not a string.
pub open spec fn output_path_failure(path: Seq<char>, name: Seq<char>) -> Failure {
    Failure {
        code: "invalid_graph_output_path"@,
        message: "derivation "@ + path + " output "@ + name + " path must be a string"@,
    }
}

/// `inputs` is not an object.
pub open spec fn inputs_failure(path: Seq<char>) -> Failure {
    Failure {
        code: "invalid_input_derivations"@,
        message: "derivation "@ + path + " inputs must be an object"@,
    }
}

/// A map of input derivations is not an object.
pub open spec fn drvs_failure(path: Seq<char>) -> Failure {
    Failure {
        code: "invalid_input_derivations"@,
        message: "derivation "@ + path + " input derivations must be an object"@,
    }
}

/// The outputs selected from an input are not an array.
pub open spec fn selection_failure(path: Seq<char>, dependency: Seq<char>) -> Failure {
    Failure {
        code: "invalid_input_outputs"@,
        message: "derivation "@ + path + " input "@ + dependency + " outputs must be an array"@,
    }
}

/// A selected output is not a non-empty string.
pub open spec fn selected_name_failure(path: Seq<char>, dependency: Seq<char>) -> Failure {
    Failure {
        code: "invalid_input_output_name"@,
        message: "derivation "@ + path + " input "@ + dependency
            + " output names must be non-empty strings"@,
    }
}

/// No output is selected from an input.
pub open spec fn empty_selection_failure(path: Seq<char>, dependency: Seq<char>) -> Failure {
    Failure {
        code: "empty_input_output_selection"@,
        message: "derivation "@ + path + " selects no outputs from "@ + dependency,
    }
}

/// What retaining `text` leaves of `remaining` bytes, or why it may not be retained.
pub open spec fn charge(limit: nat, remaining: nat, text: Seq<char>, extra: nat) -> Result<
    nat,
    Failure,
> {
    let size = crate::text::byte_count(text);
    if size > MAX_STRING {
        Err(
            Failure {
                code: "graph_string_limit_exceeded"@,
                message: "derivation graph contains a "@ + crate::text::decimal_text(size)
                    + "-byte name, exceeding the 4096-byte limit"@,
            },
        )
    } else if size + ENTRY_OVERHEAD + extra > remaining {
        Err(
            Failure {
                code: "graph_memory_limit_exceeded"@,
                message: "derivation graph retains more than the configured limit of "@
                    + crate::text::decimal_text(limit) + " bytes"@,
            },
        )
    } else {
        Ok((remaining - size - ENTRY_OVERHEAD - extra) as nat)
    }
}

impl Draft {
    /// A derivation of which nothing but the path is known.
    pub open spec fn new(path: Seq<char>) -> Draft {
        Draft { path, outputs: None, dependencies: None, legacy: None }
    }

    /// What its dependencies are: those of `inputs`, else those of `inputDrvs`, else none.
    pub open spec fn inputs(self) -> Dependencies {
        match self.dependencies {
            Some(dependencies) => dependencies,
            None => match self.legacy {
                Some(dependencies) => dependencies,
                None => Map::empty(),
            },
        }
    }
}

impl Reading {
    /// Reading before the document.
    pub open spec fn start(max_nodes: nat, limit: nat) -> Reading {
        Reading {
            max_nodes,
            limit,
            remaining: limit,
            nodes: Map::empty(),
            wrapped: false,
            deferred: None,
            place: Place::Start,
        }
    }

    /// The same reading at another place.
    pub open spec fn at(self, place: Place) -> Reading {
        Reading { place, ..self }
    }

    /// The same reading with fewer bytes left.
    pub open spec fn with(self, remaining: nat) -> Reading {
        Reading { remaining, ..self }
    }

    /// What is done with the value that follows.
    pub open spec fn wish(self) -> Wish {
        match self.place {
            Place::Start | Place::WrapperValue | Place::NodeValue { .. }
            | Place::OutputsValue { .. } | Place::OutputValue { .. } | Place::PathValue { .. }
            | Place::InputsValue { .. } | Place::DrvsValue { .. } | Place::SelectionValue { .. }
            | Place::NamesValue { .. } | Place::Names { .. } => Wish::Read,
            Place::Failed { .. } => Wish::Stop,
            _ => Wish::Skip,
        }
    }

    /// A defect inside `depth` containers of a derivation: it ends the reading, unless the
    /// derivation is provisional.
    pub open spec fn refuse(self, failure: Failure, depth: nat) -> Reading {
        if self.wrapped {
            self.at(Place::Failed { failure })
        } else {
            Reading { deferred: Some(failure), ..self }.drained(depth)
        }
    }

    /// Behind a defect, inside `depth` containers of the derivation.
    pub open spec fn drained(self, depth: nat) -> Reading {
        self.at(
            if depth == 0 {
                Place::Document
            } else {
                Place::Draining { depth }
            },
        )
    }

    /// The key of a derivation arrived. The graph keeps its path twice.
    pub open spec fn node_key(self, key: Seq<char>) -> Reading {
        let path = crate::store::derivation_path(key);
        match charge(self.limit, self.remaining, path, 0) {
            Ok(left) => match charge(self.limit, left, path, 0) {
                Ok(remaining) => self.with(remaining).at(Place::NodeValue { path }),
                Err(failure) => self.with(left).refuse(failure, 0),
            },
            Err(failure) => self.refuse(failure, 0),
        }
    }

    /// A key of the document arrived.
    pub open spec fn document_key(self, key: Seq<char>) -> Reading {
        if key == "version"@ {
            self
        } else if key == "derivations"@ {
            Reading {
                remaining: self.limit,
                nodes: Map::empty(),
                wrapped: true,
                deferred: None,
                place: Place::WrapperValue,
                ..self
            }
        } else if self.wrapped || self.deferred is Some {
            self
        } else {
            self.node_key(key)
        }
    }

    /// The document ended.
    pub open spec fn document_end(self) -> Reading {
        match self.deferred {
            Some(failure) => self.at(Place::Failed { failure }),
            None => self.at(Place::Finished),
        }
    }

    /// A derivation ended.
    pub open spec fn node_end(self, node: Draft) -> Reading {
        match node.outputs {
            None => self.refuse(outputs_failure(node.path), 0),
            Some(outputs) => {
                let nodes = self.nodes.insert(
                    node.path,
                    NodeModel { drv_path: node.path, dependencies: node.inputs(), outputs },
                );
                let after = Reading { nodes, ..self };
                if nodes.dom().len() > self.max_nodes {
                    after.refuse(node_limit_failure(self.max_nodes), 0)
                } else if self.wrapped {
                    after.at(Place::Wrapper)
                } else {
                    after.at(Place::Document)
                }
            },
        }
    }

    /// The name of an output arrived.
    pub open spec fn output_key(self, node: Draft, outputs: Outputs, name: Seq<char>) -> Reading {
        if name.len() == 0 {
            self.refuse(output_name_failure(node.path), 2)
        } else {
            match charge(self.limit, self.remaining, name, 0) {
                Ok(remaining) => self.with(remaining).at(
                    Place::OutputValue { node, outputs, name },
                ),
                Err(failure) => self.refuse(failure, 2),
            }
        }
    }

    /// An output ended.
    pub open spec fn output_end(
        self,
        node: Draft,
        outputs: Outputs,
        name: Seq<char>,
        path: Option<Seq<char>>,
    ) -> Reading {
        let place = Place::Outputs { node, outputs: outputs.insert(name, path) };
        match path {
            None => self.at(place),
            Some(text) => match charge(self.limit, self.remaining, text, 0) {
                Ok(remaining) => self.with(remaining).at(place),
                Err(failure) => self.refuse(failure, 2),
            },
        }
    }

    /// The path of an input derivation arrived.
    pub open spec fn dependency_key(
        self,
        node: Draft,
        legacy: bool,
        drvs: Dependencies,
        key: Seq<char>,
    ) -> Reading {
        let dependency = crate::store::derivation_path(key);
        match charge(self.limit, self.remaining, dependency, CONTAINER_OVERHEAD as nat) {
            Ok(remaining) => self.with(remaining).at(
                Place::SelectionValue { node, legacy, drvs, dependency },
            ),
            Err(failure) => self.refuse(failure, drvs_depth(legacy)),
        }
    }

    /// The outputs selected from an input derivation ended.
    pub open spec fn selection_end(
        self,
        node: Draft,
        legacy: bool,
        drvs: Dependencies,
        dependency: Seq<char>,
        names: Set<Seq<char>>,
    ) -> Reading {
        if names == Set::<Seq<char>>::empty() {
            self.refuse(empty_selection_failure(node.path, dependency), drvs_depth(legacy))
        } else {
            self.at(Place::Drvs { node, legacy, drvs: drvs.insert(dependency, names) })
        }
    }

    /// A selected output name arrived.
    pub open spec fn selected_name(
        self,
        node: Draft,
        legacy: bool,
        drvs: Dependencies,
        dependency: Seq<char>,
        names: Set<Seq<char>>,
        alone: bool,
        name: Seq<char>,
    ) -> Reading {
        if name.len() == 0 {
            self.refuse(selected_name_failure(node.path, dependency), names_depth(legacy, alone))
        } else {
            match charge(self.limit, self.remaining, name, 0) {
                Ok(remaining) => self.with(remaining).at(
                    Place::Names {
                        node,
                        legacy,
                        drvs,
                        dependency,
                        names: names.insert(name),
                        alone,
                    },
                ),
                Err(failure) => self.refuse(failure, names_depth(legacy, alone)),
            }
        }
    }
}

/// How many containers of a derivation are open inside a map of input derivations.
pub open spec fn drvs_depth(legacy: bool) -> nat {
    if legacy {
        2
    } else {
        3
    }
}

/// How many containers of a derivation are open inside an array of output names.
pub open spec fn names_depth(legacy: bool, alone: bool) -> nat {
    drvs_depth(legacy) + if alone {
        1nat
    } else {
        2nat
    }
}

/// What one step of the document makes of a reading. A step that no JSON document takes at a place
/// changes nothing.
#[verifier::opaque]
pub open spec fn step(reading: Reading, token: Token) -> Reading {
    match reading.place {
        Place::Start => match token {
            Token::ObjectStart => reading.at(Place::Document),
            _ => if token.begins_value() {
                reading.at(Place::Failed { failure: document_failure() })
            } else {
                reading
            },
        },
        Place::Document => match token {
            Token::Key(key) => reading.document_key(key),
            Token::ObjectEnd => reading.document_end(),
            _ => reading,
        },
        Place::WrapperValue => match token {
            Token::ObjectStart => reading.at(Place::Wrapper),
            _ => if token.begins_value() {
                reading.at(Place::Failed { failure: wrapper_failure() })
            } else {
                reading
            },
        },
        Place::Wrapper => match token {
            Token::Key(key) => if key == "version"@ {
                reading
            } else {
                reading.node_key(key)
            },
            Token::ObjectEnd => reading.at(Place::Document),
            _ => reading,
        },
        Place::NodeValue { path } => match token {
            Token::ObjectStart => reading.at(Place::Node { node: Draft::new(path) }),
            _ => if token.begins_value() {
                reading.refuse(node_failure(path), token.opens())
            } else {
                reading
            },
        },
        Place::Node { node } => match token {
            Token::Key(key) => if key == "outputs"@ {
                reading.at(Place::OutputsValue { node })
            } else if key == "inputs"@ {
                reading.at(Place::InputsValue { node })
            } else if key == "inputDrvs"@ {
                reading.at(Place::DrvsValue { node, legacy: true })
            } else {
                reading
            },
            Token::ObjectEnd => reading.node_end(node),
            _ => reading,
        },
        Place::OutputsValue { node } => match token {
            Token::ObjectStart => reading.at(Place::Outputs { node, outputs: Map::empty() }),
            _ => if token.begins_value() {
                reading.refuse(outputs_failure(node.path), 1 + token.opens())
            } else {
                reading
            },
        },
        Place::Outputs { node, outputs } => match token {
            Token::Key(key) => reading.output_key(node, outputs, key),
            Token::ObjectEnd => reading.at(
                Place::Node { node: Draft { outputs: Some(outputs), ..node } },
            ),
            _ => reading,
        },
        Place::OutputValue { node, outputs, name } => match token {
            Token::Null => reading.output_end(node, outputs, name, None),
            Token::Text(text) => reading.output_end(
                node,
                outputs,
                name,
                Some(crate::store::output_path(text)),
            ),
            Token::ObjectStart => reading.at(Place::Output { node, outputs, name, known: None }),
            _ => if token.begins_value() {
                reading.refuse(output_failure(node.path, name), 2 + token.opens())
            } else {
                reading
            },
        },
        Place::Output { node, outputs, name, known } => match token {
            Token::Key(key) => if key == "path"@ {
                reading.at(Place::PathValue { node, outputs, name })
            } else {
                reading
            },
            Token::ObjectEnd => reading.output_end(node, outputs, name, known),
            _ => reading,
        },
        Place::PathValue { node, outputs, name } => match token {
            Token::Null => reading.at(Place::Output { node, outputs, name, known: None }),
            Token::Text(text) => reading.at(
                Place::Output {
                    node,
                    outputs,
                    name,
                    known: Some(crate::store::output_path(text)),
                },
            ),
            _ => if token.begins_value() {
                reading.refuse(output_path_failure(node.path, name), 3 + token.opens())
            } else {
                reading
            },
        },
        Place::InputsValue { node } => match token {
            Token::ObjectStart => reading.at(Place::Inputs { node, found: None }),
            _ => if token.begins_value() {
                reading.refuse(inputs_failure(node.path), 1 + token.opens())
            } else {
                reading
            },
        },
        Place::Inputs { node, found } => match token {
            Token::Key(key) => if key == "drvs"@ {
                reading.at(Place::DrvsValue { node, legacy: false })
            } else {
                reading
            },
            Token::ObjectEnd => reading.at(
                Place::Node { node: Draft { dependencies: found, ..node } },
            ),
            _ => reading,
        },
        Place::DrvsValue { node, legacy } => match token {
            Token::ObjectStart => reading.at(Place::Drvs { node, legacy, drvs: Map::empty() }),
            _ => if token.begins_value() {
                reading.refuse(
                    drvs_failure(node.path),
                    (drvs_depth(legacy) - 1 + token.opens()) as nat,
                )
            } else {
                reading
            },
        },
        Place::Drvs { node, legacy, drvs } => match token {
            Token::Key(key) => reading.dependency_key(node, legacy, drvs, key),
            Token::ObjectEnd => reading.at(
                if legacy {
                    Place::Node { node: Draft { legacy: Some(drvs), ..node } }
                } else {
                    Place::Inputs { node, found: Some(drvs) }
                },
            ),
            _ => reading,
        },
        Place::SelectionValue { node, legacy, drvs, dependency } => match token {
            Token::ArrayStart => reading.at(
                Place::Names {
                    node,
                    legacy,
                    drvs,
                    dependency,
                    names: Set::empty(),
                    alone: true,
                },
            ),
            Token::ObjectStart => reading.at(
                Place::Selection { node, legacy, drvs, dependency, chosen: None },
            ),
            _ => if token.begins_value() {
                reading.refuse(selection_failure(node.path, dependency), drvs_depth(legacy))
            } else {
                reading
            },
        },
        Place::Selection { node, legacy, drvs, dependency, chosen } => match token {
            Token::Key(key) => if key == "outputs"@ {
                reading.at(Place::NamesValue { node, legacy, drvs, dependency })
            } else {
                reading
            },
            Token::ObjectEnd => match chosen {
                None => reading.refuse(
                    selection_failure(node.path, dependency),
                    drvs_depth(legacy),
                ),
                Some(names) => reading.selection_end(node, legacy, drvs, dependency, names),
            },
            _ => reading,
        },
        Place::NamesValue { node, legacy, drvs, dependency } => match token {
            Token::ArrayStart => reading.at(
                Place::Names {
                    node,
                    legacy,
                    drvs,
                    dependency,
                    names: Set::empty(),
                    alone: false,
                },
            ),
            _ => if token.begins_value() {
                reading.refuse(
                    selection_failure(node.path, dependency),
                    drvs_depth(legacy) + 1 + token.opens(),
                )
            } else {
                reading
            },
        },
        Place::Names { node, legacy, drvs, dependency, names, alone } => match token {
            Token::Text(text) => reading.selected_name(
                node,
                legacy,
                drvs,
                dependency,
                names,
                alone,
                text,
            ),
            Token::ArrayEnd => if alone {
                reading.selection_end(node, legacy, drvs, dependency, names)
            } else {
                reading.at(
                    Place::Selection { node, legacy, drvs, dependency, chosen: Some(names) },
                )
            },
            _ => if token.begins_value() {
                reading.refuse(
                    selected_name_failure(node.path, dependency),
                    names_depth(legacy, alone) + token.opens(),
                )
            } else {
                reading
            },
        },
        Place::Draining { depth } => match token {
            Token::ArrayEnd | Token::ObjectEnd => reading.drained((depth - 1) as nat),
            _ => reading,
        },
        Place::Finished | Place::Failed { .. } => reading,
    }
}

/// Every input of a map selects an output.
pub open spec fn selective(drvs: Dependencies) -> bool {
    forall|dependency: Seq<char>| #[trigger]
        drvs.dom().contains(dependency) ==> drvs[dependency] != Set::<Seq<char>>::empty()
}

impl Draft {
    /// The draft's path is within its limit, and its inputs select outputs.
    pub open spec fn sound(self) -> bool {
        &&& crate::text::byte_count(self.path) <= MAX_STRING
        &&& (self.dependencies matches Some(drvs) ==> selective(drvs))
        &&& (self.legacy matches Some(drvs) ==> selective(drvs))
    }
}

impl Place {
    /// The derivation that is being read is sound so far.
    pub open spec fn sound(self) -> bool {
        match self {
            Place::NodeValue { path } => crate::text::byte_count(path) <= MAX_STRING,
            Place::Node { node } => node.sound(),
            Place::OutputsValue { node } => node.sound(),
            Place::Outputs { node, .. } => node.sound(),
            Place::OutputValue { node, .. } => node.sound(),
            Place::Output { node, .. } => node.sound(),
            Place::PathValue { node, .. } => node.sound(),
            Place::InputsValue { node } => node.sound(),
            Place::Inputs { node, found } => node.sound() && (found matches Some(drvs)
                ==> selective(drvs)),
            Place::DrvsValue { node, .. } => node.sound(),
            Place::Drvs { node, drvs, .. } => node.sound() && selective(drvs),
            Place::SelectionValue { node, drvs, .. } => node.sound() && selective(drvs),
            Place::Selection { node, drvs, .. } => node.sound() && selective(drvs),
            Place::NamesValue { node, drvs, .. } => node.sound() && selective(drvs),
            Place::Names { node, drvs, .. } => node.sound() && selective(drvs),
            _ => true,
        }
    }

    /// A derivation is being read.
    pub open spec fn in_node(self) -> bool {
        match self {
            Place::Start | Place::Document | Place::WrapperValue | Place::Wrapper
            | Place::Draining { .. } | Place::Finished | Place::Failed { .. } => false,
            _ => true,
        }
    }
}

impl Reading {
    /// What the paths of the derivations read so far cost at least; each is retained twice.
    pub open spec fn cost(self) -> int {
        256 * self.nodes.dom().len() + if self.place.in_node() {
            256int
        } else {
            0int
        }
    }

    /// Every derivation read so far stands under its own path, which is within its limit, and
    /// selects an output of each of its inputs. There are no more than the limits admit.
    pub open spec fn sound(self) -> bool {
        &&& self.remaining <= self.limit
        &&& self.nodes.dom().finite()
        &&& forall|path: Seq<char>| #[trigger]
            self.nodes.dom().contains(path) ==> {
                &&& self.nodes[path].drv_path == path
                &&& crate::text::byte_count(path) <= MAX_STRING
                &&& selective(self.nodes[path].dependencies)
            }
        &&& self.place.sound()
        &&& self.cost() <= self.limit - self.remaining
        &&& !(self.place is Failed) && self.deferred is None ==> self.nodes.dom().len()
            <= self.max_nodes
    }
}

/// A reading is sound before the document.
pub proof fn law_readings_start_sound(max_nodes: nat, limit: nat)
    ensures
        Reading::start(max_nodes, limit).sound(),
{
}

/// Retaining a string leaves what was read sound.
proof fn lemma_charge(reading: Reading, text: Seq<char>, extra: nat)
    requires
        reading.sound(),
    ensures
        match charge(reading.limit, reading.remaining, text, extra) {
            Ok(remaining) => {
                &&& reading.with(remaining).sound()
                &&& remaining + 128 <= reading.remaining
                &&& crate::text::byte_count(text) <= MAX_STRING
            },
            Err(_) => true,
        },
{
}

proof fn lemma_node_key(reading: Reading, key: Seq<char>)
    requires
        reading.sound(),
        !reading.place.in_node(),
        !(reading.place is Failed),
    ensures
        reading.node_key(key).sound(),
{
    let path = crate::store::derivation_path(key);
    lemma_charge(reading, path, 0);
    if let Ok(left) = charge(reading.limit, reading.remaining, path, 0) {
        lemma_charge(reading.with(left), path, 0);
    }
}

proof fn lemma_node_end(reading: Reading, node: Draft)
    requires
        reading.sound(),
        reading.place == (Place::Node { node }),
    ensures
        reading.node_end(node).sound(),
{
    assert(selective(Map::empty()));
    assert(selective(node.inputs()));
}

proof fn lemma_output_key(reading: Reading, node: Draft, outputs: Outputs, name: Seq<char>)
    requires
        reading.sound(),
        reading.place == (Place::Outputs { node, outputs }),
    ensures
        reading.output_key(node, outputs, name).sound(),
{
    lemma_charge(reading, name, 0);
}

proof fn lemma_output_end(
    reading: Reading,
    node: Draft,
    outputs: Outputs,
    name: Seq<char>,
    path: Option<Seq<char>>,
)
    requires
        reading.sound(),
        node.sound(),
        reading.place.in_node(),
    ensures
        reading.output_end(node, outputs, name, path).sound(),
{
    if let Some(text) = path {
        lemma_charge(reading, text, 0);
    }
}

proof fn lemma_dependency_key(
    reading: Reading,
    node: Draft,
    legacy: bool,
    drvs: Dependencies,
    key: Seq<char>,
)
    requires
        reading.sound(),
        reading.place == (Place::Drvs { node, legacy, drvs }),
    ensures
        reading.dependency_key(node, legacy, drvs, key).sound(),
{
    lemma_charge(reading, crate::store::derivation_path(key), CONTAINER_OVERHEAD as nat);
}

proof fn lemma_selection_end(
    reading: Reading,
    node: Draft,
    legacy: bool,
    drvs: Dependencies,
    dependency: Seq<char>,
    names: Set<Seq<char>>,
)
    requires
        reading.sound(),
        node.sound(),
        selective(drvs),
        reading.place.in_node(),
    ensures
        reading.selection_end(node, legacy, drvs, dependency, names).sound(),
{
}

proof fn lemma_selected_name(
    reading: Reading,
    node: Draft,
    legacy: bool,
    drvs: Dependencies,
    dependency: Seq<char>,
    names: Set<Seq<char>>,
    alone: bool,
    name: Seq<char>,
)
    requires
        reading.sound(),
        node.sound(),
        selective(drvs),
        reading.place.in_node(),
    ensures
        reading.selected_name(node, legacy, drvs, dependency, names, alone, name).sound(),
{
    lemma_charge(reading, name, 0);
}

/// Every step keeps a reading sound: what is retained never exceeds the limits, whatever the
/// document says.
#[verifier::rlimit(80)]
pub proof fn law_steps_keep_readings_sound(reading: Reading, token: Token)
    requires
        reading.sound(),
    ensures
        step(reading, token).sound(),
{
    reveal(step);
    assert(selective(Map::empty()));
    match (reading.place, token) {
        (Place::Document, Token::Key(key)) => lemma_node_key(reading, key),
        (Place::Wrapper, Token::Key(key)) => lemma_node_key(reading, key),
        (Place::Node { node }, Token::ObjectEnd) => lemma_node_end(reading, node),
        (Place::Outputs { node, outputs }, Token::Key(key)) => lemma_output_key(
            reading,
            node,
            outputs,
            key,
        ),
        (Place::OutputValue { node, outputs, name }, Token::Null) => lemma_output_end(
            reading,
            node,
            outputs,
            name,
            None,
        ),
        (Place::OutputValue { node, outputs, name }, Token::Text(text)) => lemma_output_end(
            reading,
            node,
            outputs,
            name,
            Some(crate::store::output_path(text)),
        ),
        (Place::Output { node, outputs, name, known }, Token::ObjectEnd) => lemma_output_end(
            reading,
            node,
            outputs,
            name,
            known,
        ),
        (Place::Drvs { node, legacy, drvs }, Token::Key(key)) => lemma_dependency_key(
            reading,
            node,
            legacy,
            drvs,
            key,
        ),
        (
            Place::Selection { node, legacy, drvs, dependency, chosen: Some(names) },
            Token::ObjectEnd,
        ) => lemma_selection_end(reading, node, legacy, drvs, dependency, names),
        (Place::Names { node, legacy, drvs, dependency, names, alone }, Token::ArrayEnd) => {
            lemma_selection_end(reading, node, legacy, drvs, dependency, names);
        },
        (Place::Names { node, legacy, drvs, dependency, names, alone }, Token::Text(text)) => {
            lemma_selected_name(
                reading,
                node,
                legacy,
                drvs,
                dependency,
                names,
                alone,
                text,
            );
        },
        _ => {},
    }
}

/// A defect that ended the reading stays the one that is reported.
pub proof fn law_the_first_defect_stays(reading: Reading, token: Token)
    requires
        reading.place is Failed,
    ensures
        step(reading, token) == reading,
{
    reveal(step);
}

/// A defect of a provisional derivation stays the one that is kept back, until a wrapper discards
/// it.
pub proof fn law_the_first_deferred_defect_stays(reading: Reading, token: Token)
    requires
        reading.deferred is Some,
        !reading.wrapped,
        reading.place is Document || reading.place is Draining,
    ensures
        ({
            let after = step(reading, token);
            after.wrapped || after.deferred == reading.deferred && (after.place is Document
                || after.place is Draining || after.place == (Place::Failed {
                failure: reading.deferred->0,
            }))
        }),
{
    reveal(step);
}

} // verus!
