//! The derivation dependency graph: validation, ordering and output requirements.

use std::sync::Arc;

use vstd::prelude::*;

use crate::model::{DerivationNode, EngineError, NodeModel};
use crate::ordered::{StringMap, StringSet};
use crate::text;
use crate::topology;

verus! {

/// `path` is the first of `paths`, in path order, that `wanted` holds of.
pub open spec fn is_first(
    paths: Set<Seq<char>>,
    wanted: spec_fn(Seq<char>) -> bool,
    path: Seq<char>,
) -> bool {
    &&& paths.contains(path)
    &&& wanted(path)
    &&& forall|other: Seq<char>| #[trigger]
        paths.contains(other) && wanted(other) ==> other == path || text::precedes(path, other)
}

/// The first of `paths`, in path order, that `wanted` holds of.
pub open spec fn first(
    paths: Set<Seq<char>>,
    wanted: spec_fn(Seq<char>) -> bool,
) -> Seq<char> {
    choose|path: Seq<char>| is_first(paths, wanted, path)
}

/// What keeps a set of nodes from being a graph.
pub enum Defect {
    /// More nodes than the limit.
    TooManyNodes,
    /// A node stored under a path that is not its own.
    Identity {
        /// The path it is stored under.
        path: Seq<char>,
    },
    /// A root that is not among the nodes.
    Root {
        /// The root.
        root: Seq<char>,
    },
    /// A dependency that is not among the nodes.
    Reference {
        /// The dependent node.
        path: Seq<char>,
        /// The missing node.
        dependency: Seq<char>,
    },
    /// An output that the dependency does not have.
    Output {
        /// The dependent node.
        path: Seq<char>,
        /// The dependency.
        dependency: Seq<char>,
        /// The missing output.
        output: Seq<char>,
    },
    /// A dependency cycle.
    Cycle,
}

/// `dependency` lacks the output `output` that `path` consumes.
pub open spec fn lacks_output(
    nodes: Map<Seq<char>, NodeModel>,
    path: Seq<char>,
    dependency: Seq<char>,
    output: Seq<char>,
) -> bool {
    nodes[path].dependencies[dependency].contains(output) && !nodes[dependency].outputs.dom().contains(
        output,
    )
}

/// The outputs that `path` consumes and `dependency` lacks.
pub open spec fn lacking(
    nodes: Map<Seq<char>, NodeModel>,
    path: Seq<char>,
    dependency: Seq<char>,
) -> spec_fn(Seq<char>) -> bool {
    |output: Seq<char>| lacks_output(nodes, path, dependency, output)
}

/// `dependency` is missing, or lacks an output that `path` consumes.
pub open spec fn unmet(
    nodes: Map<Seq<char>, NodeModel>,
    path: Seq<char>,
    dependency: Seq<char>,
) -> bool {
    !nodes.dom().contains(dependency) || exists|output: Seq<char>|
        lacks_output(nodes, path, dependency, output)
}

/// The dependencies of `path` that are missing or lack an output.
pub open spec fn unmet_by(
    nodes: Map<Seq<char>, NodeModel>,
    path: Seq<char>,
) -> spec_fn(Seq<char>) -> bool {
    |dependency: Seq<char>| unmet(nodes, path, dependency)
}

/// `path` has a dependency that is missing or lacks an output.
pub open spec fn has_unmet(nodes: Map<Seq<char>, NodeModel>, path: Seq<char>) -> bool {
    exists|dependency: Seq<char>| #[trigger]
        nodes[path].dependencies.dom().contains(dependency) && unmet(nodes, path, dependency)
}

/// The nodes stored under a path that is not their own.
pub open spec fn misplaced(nodes: Map<Seq<char>, NodeModel>) -> spec_fn(Seq<char>) -> bool {
    |path: Seq<char>| nodes[path].drv_path != path
}

/// The paths that are not among the nodes.
pub open spec fn absent(nodes: Map<Seq<char>, NodeModel>) -> spec_fn(Seq<char>) -> bool {
    |path: Seq<char>| !nodes.dom().contains(path)
}

/// The nodes with a dependency that is missing or lacks an output.
pub open spec fn broken(nodes: Map<Seq<char>, NodeModel>) -> spec_fn(Seq<char>) -> bool {
    |path: Seq<char>| has_unmet(nodes, path)
}

/// `wanted` holds of one of `paths`.
pub open spec fn any(paths: Set<Seq<char>>, wanted: spec_fn(Seq<char>) -> bool) -> bool {
    exists|path: Seq<char>| #[trigger] paths.contains(path) && wanted(path)
}

/// `path` depends on a member of `group`.
#[verifier::opaque]
pub open spec fn depends_on(
    nodes: Map<Seq<char>, NodeModel>,
    path: Seq<char>,
    group: Set<Seq<char>>,
) -> bool {
    exists|dependency: Seq<char>| #[trigger]
        nodes[path].dependencies.dom().contains(dependency) && group.contains(dependency)
}

/// Every member of `group` is a node that depends on a member of `group`.
pub open spec fn self_dependent(
    nodes: Map<Seq<char>, NodeModel>,
    group: Set<Seq<char>>,
) -> bool {
    forall|path: Seq<char>| #[trigger]
        group.contains(path) ==> nodes.dom().contains(path) && depends_on(nodes, path, group)
}

/// `path` is part of a cycle or depends on one.
pub open spec fn cyclic(nodes: Map<Seq<char>, NodeModel>, path: Seq<char>) -> bool {
    exists|group: Set<Seq<char>>| #[trigger] self_dependent(nodes, group) && group.contains(path)
}

/// The nodes that are part of a cycle or depend on one.
pub open spec fn cyclic_nodes(nodes: Map<Seq<char>, NodeModel>) -> Set<Seq<char>> {
    Set::new(|path: Seq<char>| cyclic(nodes, path))
}

/// The first dependency defect of a node that has one.
pub open spec fn dependency_defect(
    nodes: Map<Seq<char>, NodeModel>,
    path: Seq<char>,
) -> Defect {
    let dependency = first(nodes[path].dependencies.dom(), unmet_by(nodes, path));
    if !nodes.dom().contains(dependency) {
        Defect::Reference { path, dependency }
    } else {
        Defect::Output {
            path,
            dependency,
            output: first(
                nodes[path].dependencies[dependency],
                lacking(nodes, path, dependency),
            ),
        }
    }
}

/// The defect that is reported of a set of nodes: limits come before identities, identities before
/// roots, roots before references and references before cycles, and among defects of one sort the
/// first in path order is reported.
pub open spec fn defect(
    nodes: Map<Seq<char>, NodeModel>,
    roots: Set<Seq<char>>,
    max_nodes: int,
) -> Option<Defect> {
    if nodes.dom().len() > max_nodes {
        Some(Defect::TooManyNodes)
    } else if any(nodes.dom(), misplaced(nodes)) {
        Some(Defect::Identity { path: first(nodes.dom(), misplaced(nodes)) })
    } else if any(roots, absent(nodes)) {
        Some(Defect::Root { root: first(roots, absent(nodes)) })
    } else if any(nodes.dom(), broken(nodes)) {
        Some(dependency_defect(nodes, first(nodes.dom(), broken(nodes))))
    } else if exists|path: Seq<char>| cyclic(nodes, path) {
        Some(Defect::Cycle)
    } else {
        None
    }
}

/// The error that reports a defect.
pub open spec fn reports(
    nodes: Map<Seq<char>, NodeModel>,
    max_nodes: int,
    defect: Defect,
    error: EngineError,
) -> bool {
    match defect {
        Defect::TooManyNodes => error.says(
            "graph_node_limit_exceeded"@,
            "derivation graph contains "@ + text::decimal_text(nodes.dom().len())
                + " nodes, exceeding the configured limit of "@ + text::decimal_text(
                max_nodes as nat,
            ),
        ),
        Defect::Identity { path } => error.says(
            "derivation_identity_mismatch"@,
            "graph key "@ + path + " does not match node "@ + nodes[path].drv_path,
        ),
        Defect::Root { root } => error.says(
            "missing_graph_root"@,
            "derivation graph omitted evaluated root "@ + root,
        ),
        Defect::Reference { path, dependency } => error.says(
            "missing_graph_reference"@,
            "derivation "@ + path + " references missing "@ + dependency,
        ),
        Defect::Output { path, dependency, output } => error.says(
            "missing_dependency_output"@,
            "derivation "@ + path + " references missing output "@ + output + " from "@
                + dependency,
        ),
        Defect::Cycle => error.says(
            "derivation_cycle"@,
            "derivation graph contains a cycle: "@ + text::joined(
                crate::ordered::listing(cyclic_nodes(nodes)),
                ", "@,
            ),
        ),
    }
}

/// `path` is a node outside `done` whose dependencies are all in `done`.
pub open spec fn available(
    nodes: Map<Seq<char>, NodeModel>,
    done: Seq<Seq<char>>,
    path: Seq<char>,
) -> bool {
    &&& nodes.dom().contains(path)
    &&& !done.contains(path)
    &&& forall|dependency: Seq<char>| #[trigger]
        nodes[path].dependencies.dom().contains(dependency) ==> done.contains(dependency)
}

/// `path` is the first node, in path order, whose dependencies are all in `done`.
pub open spec fn comes_next(
    nodes: Map<Seq<char>, NodeModel>,
    done: Seq<Seq<char>>,
    path: Seq<char>,
) -> bool {
    &&& available(nodes, done, path)
    &&& forall|other: Seq<char>| #[trigger]
        available(nodes, done, other) ==> other == path || text::precedes(path, other)
}

/// `order` lists every node after its dependencies, and the first path wherever several nodes
/// could come next.
pub open spec fn dependency_first(
    nodes: Map<Seq<char>, NodeModel>,
    order: Seq<Seq<char>>,
) -> bool {
    &&& forall|k: int|
        0 <= k < order.len() ==> comes_next(nodes, #[trigger] order.take(k), order[k])
    &&& forall|path: Seq<char>| #[trigger]
        nodes.dom().contains(path) ==> order.contains(path)
}

/// The nodes of a map are well-formed.
pub open spec fn nodes_wf(nodes: StringMap<DerivationNode>) -> bool {
    &&& nodes.wf()
    &&& forall|i: int| 0 <= i < nodes.values().len() ==> (#[trigger] nodes.values()[i]).wf()
}

/// The first listed path that is wanted is the first wanted path.
proof fn lemma_first(
    list: Seq<Seq<char>>,
    paths: Set<Seq<char>>,
    wanted: spec_fn(Seq<char>) -> bool,
    i: int,
)
    requires
        crate::ordered::is_listing(list, paths),
        0 <= i < list.len(),
        wanted(list[i]),
        forall|j: int| 0 <= j < i ==> !wanted(#[trigger] list[j]),
    ensures
        any(paths, wanted),
        first(paths, wanted) == list[i],
{
    let path = list[i];
    assert(list.contains(path));
    assert(is_first(paths, wanted, path)) by {
        assert forall|other: Seq<char>| #[trigger] paths.contains(other) && wanted(
            other,
        ) implies other == path || text::precedes(path, other) by {
            assert(list.contains(other));
            let j = list.index_of(other);
            assert(list[j] == other);
        }
    }
    let found = first(paths, wanted);
    assert(is_first(paths, wanted, found));
    if found != path {
        text::lemma_precedes_transitive(path, found, path);
        text::lemma_precedes_irreflexive(path);
    }
}

/// When no listed path is wanted, none is.
proof fn lemma_none(
    list: Seq<Seq<char>>,
    paths: Set<Seq<char>>,
    wanted: spec_fn(Seq<char>) -> bool,
)
    requires
        crate::ordered::is_listing(list, paths),
        forall|j: int| 0 <= j < list.len() ==> !wanted(#[trigger] list[j]),
    ensures
        !any(paths, wanted),
{
    if any(paths, wanted) {
        let path = choose|path: Seq<char>| #[trigger] paths.contains(path) && wanted(path);
        assert(list.contains(path));
        assert(list[list.index_of(path)] == path);
    }
}

/// What the node at a position says is what the map holds for its path.
proof fn lemma_node_at(nodes: StringMap<DerivationNode>, i: int)
    requires
        nodes.wf(),
        0 <= i < nodes.keys().len(),
    ensures
        nodes.deep_view().dom().contains(nodes.keys()[i]),
        nodes.deep_view()[nodes.keys()[i]] == nodes.values()[i].deep_view(),
{
    crate::ordered::lemma_map_at(nodes, i);
}

/// The keys of a node map list the domain of what it says.
proof fn lemma_node_keys(nodes: StringMap<DerivationNode>)
    requires
        nodes.wf(),
    ensures
        crate::ordered::is_listing(nodes.keys(), nodes.deep_view().dom()),
        nodes.deep_view().dom().finite(),
        nodes.deep_view().dom().len() == nodes.keys().len(),
{
    crate::ordered::lemma_keys(nodes);
    assert(nodes.deep_view().dom() =~= nodes@.dom());
}

/// Returns the error for the first node that is stored under a path that is not its own.
fn identity_error(nodes: &StringMap<DerivationNode>) -> (result: Option<EngineError>)
    requires
        nodes_wf(*nodes),
    ensures
        match result {
            Some(error) => {
                let model = nodes.deep_view();
                &&& any(model.dom(), misplaced(model))
                &&& reports(
                    model,
                    0,
                    Defect::Identity { path: first(model.dom(), misplaced(model)) },
                    error,
                )
            },
            None => !any(nodes.deep_view().dom(), misplaced(nodes.deep_view())),
        },
{
    let ghost model = nodes.deep_view();
    let ghost keys = nodes.keys();
    proof {
        lemma_node_keys(*nodes);
    }
    let count = nodes.len();
    let mut i: usize = 0;
    while i < count
        invariant
            nodes_wf(*nodes),
            model == nodes.deep_view(),
            keys == nodes.keys(),
            crate::ordered::is_listing(keys, model.dom()),
            count == keys.len(),
            i <= count,
            forall|j: int| 0 <= j < i ==> !misplaced(model)(#[trigger] keys[j]),
        decreases count - i,
    {
        let path = nodes.key_at(i);
        let node = nodes.value_at(i);
        proof {
            lemma_node_at(*nodes, i as int);
        }
        if !text::same(path.as_str(), node.drv_path.as_str()) {
            proof {
                lemma_first(keys, model.dom(), misplaced(model), i as int);
            }
            return Some(
                EngineError::new(
                    "derivation_identity_mismatch",
                    text::cat4(
                        "graph key ",
                        path.as_str(),
                        " does not match node ",
                        node.drv_path.as_str(),
                    ),
                ),
            );
        }
        i = i + 1;
    }
    proof {
        lemma_none(keys, model.dom(), misplaced(model));
    }
    None
}

/// Returns the error for the first root that is not among the nodes.
fn root_error(nodes: &StringMap<DerivationNode>, roots: &StringSet) -> (result: Option<
    EngineError,
>)
    requires
        nodes_wf(*nodes),
        roots.wf(),
    ensures
        match result {
            Some(error) => {
                let model = nodes.deep_view();
                &&& any(roots@, absent(model))
                &&& reports(model, 0, Defect::Root { root: first(roots@, absent(model)) }, error)
            },
            None => !any(roots@, absent(nodes.deep_view())),
        },
{
    let ghost model = nodes.deep_view();
    let ghost list = roots.members();
    proof {
        roots.lemma_members();
    }
    let count = roots.len();
    let mut i: usize = 0;
    while i < count
        invariant
            nodes_wf(*nodes),
            model == nodes.deep_view(),
            list == roots.members(),
            crate::ordered::is_listing(list, roots@),
            count == list.len(),
            i <= count,
            forall|j: int| 0 <= j < i ==> !absent(model)(#[trigger] list[j]),
        decreases count - i,
    {
        let root = roots.at(i);
        if !nodes.contains_key(root.as_str()) {
            proof {
                lemma_first(list, roots@, absent(model), i as int);
            }
            return Some(
                EngineError::new(
                    "missing_graph_root",
                    text::cat2("derivation graph omitted evaluated root ", root.as_str()),
                ),
            );
        }
        i = i + 1;
    }
    proof {
        lemma_none(list, roots@, absent(model));
    }
    None
}

/// Returns the position of the first wanted output that a node does not have.
fn missing_output(wanted: &StringSet, node: &DerivationNode) -> (result: Option<usize>)
    requires
        node.wf(),
    ensures
        match result {
            Some(k) => {
                &&& k < wanted.members().len()
                &&& !node.outputs@.dom().contains(wanted.members()[k as int])
                &&& forall|j: int|
                    0 <= j < k ==> node.outputs@.dom().contains(#[trigger] wanted.members()[j])
            },
            None => forall|j: int|
                0 <= j < wanted.members().len() ==> node.outputs@.dom().contains(
                    #[trigger] wanted.members()[j],
                ),
        },
{
    let count = wanted.len();
    let mut k: usize = 0;
    while k < count
        invariant
            node.wf(),
            count == wanted.members().len(),
            k <= count,
            forall|j: int|
                0 <= j < k ==> node.outputs@.dom().contains(#[trigger] wanted.members()[j]),
        decreases count - k,
    {
        if !node.outputs.contains_key(wanted.at(k).as_str()) {
            return Some(k);
        }
        k = k + 1;
    }
    None
}

/// Returns the error for the first dependency of a node that is missing or lacks an output.
fn node_error(nodes: &StringMap<DerivationNode>, index: usize) -> (result: Option<EngineError>)
    requires
        nodes_wf(*nodes),
        index < nodes.keys().len(),
    ensures
        match result {
            Some(error) => {
                let model = nodes.deep_view();
                let path = nodes.keys()[index as int];
                &&& has_unmet(model, path)
                &&& reports(model, 0, dependency_defect(model, path), error)
            },
            None => !has_unmet(nodes.deep_view(), nodes.keys()[index as int]),
        },
{
    let ghost model = nodes.deep_view();
    let path = nodes.key_at(index);
    let node = nodes.value_at(index);
    let dependencies = &node.dependencies;
    let ghost keys = dependencies.keys();
    let ghost domain = model[path@].dependencies.dom();
    let ghost wanted = unmet_by(model, path@);
    proof {
        lemma_node_at(*nodes, index as int);
        crate::ordered::lemma_keys(*dependencies);
        assert(domain =~= dependencies@.dom());
    }
    let count = dependencies.len();
    let mut i: usize = 0;
    while i < count
        invariant
            nodes_wf(*nodes),
            model == nodes.deep_view(),
            model.dom().contains(path@),
            index < nodes.keys().len(),
            path@ == nodes.keys()[index as int],
            *node == nodes.values()[index as int],
            *dependencies == node.dependencies,
            node.deep_view() == model[path@],
            keys == dependencies.keys(),
            domain == model[path@].dependencies.dom(),
            wanted == unmet_by(model, path@),
            crate::ordered::is_listing(keys, domain),
            count == keys.len(),
            i <= count,
            forall|j: int| 0 <= j < i ==> !wanted(#[trigger] keys[j]),
        decreases count - i,
    {
        let dependency = dependencies.key_at(i);
        let outputs = dependencies.value_at(i);
        let ghost consumed = model[path@].dependencies[dependency@];
        proof {
            crate::ordered::lemma_map_at(*dependencies, i as int);
            assert(dependencies.values()[i as int].wf());
            assert(consumed == outputs@);
        }
        match nodes.position(dependency.as_str()) {
            None => {
                proof {
                    lemma_first(keys, domain, wanted, i as int);
                    assert(keys.contains(keys[i as int]));
                    assert(domain.contains(keys[i as int]));
                }
                return Some(
                    EngineError::new(
                        "missing_graph_reference",
                        text::cat4(
                            "derivation ",
                            path.as_str(),
                            " references missing ",
                            dependency.as_str(),
                        ),
                    ),
                );
            },
            Some(at) => {
                let target = nodes.value_at(at);
                let ghost lacks = lacking(model, path@, dependency@);
                proof {
                    lemma_node_at(*nodes, at as int);
                    outputs.lemma_members();
                    assert(nodes.values()[at as int].wf());
                    assert(target.deep_view() == model[dependency@]);
                }
                if let Some(k) = missing_output(outputs, target) {
                    let output = outputs.at(k);
                    proof {
                        assert(lacks_output(model, path@, dependency@, output@));
                        lemma_first(outputs.members(), consumed, lacks, k as int);
                        lemma_first(keys, domain, wanted, i as int);
                        assert(keys.contains(keys[i as int]));
                        assert(domain.contains(keys[i as int]));
                    }
                    return Some(
                        EngineError::new(
                            "missing_dependency_output",
                            text::cat6(
                                "derivation ",
                                path.as_str(),
                                " references missing output ",
                                output.as_str(),
                                " from ",
                                dependency.as_str(),
                            ),
                        ),
                    );
                }
                proof {
                    lemma_none(outputs.members(), consumed, lacks);
                    if wanted(dependency@) {
                        let output = choose|output: Seq<char>|
                            lacks_output(model, path@, dependency@, output);
                        assert(consumed.contains(output) && lacks(output));
                    }
                }
            },
        }
        i = i + 1;
    }
    proof {
        lemma_none(keys, domain, wanted);
        if has_unmet(model, path@) {
            let dependency = choose|dependency: Seq<char>| #[trigger]
                model[path@].dependencies.dom().contains(dependency) && unmet(
                    model,
                    path@,
                    dependency,
                );
            assert(domain.contains(dependency) && wanted(dependency));
        }
    }
    None
}

/// Returns the error for the first node with a dependency that is missing or lacks an output.
fn reference_error(nodes: &StringMap<DerivationNode>) -> (result: Option<EngineError>)
    requires
        nodes_wf(*nodes),
    ensures
        match result {
            Some(error) => {
                let model = nodes.deep_view();
                &&& any(model.dom(), broken(model))
                &&& reports(
                    model,
                    0,
                    dependency_defect(model, first(model.dom(), broken(model))),
                    error,
                )
            },
            None => !any(nodes.deep_view().dom(), broken(nodes.deep_view())),
        },
{
    let ghost model = nodes.deep_view();
    let ghost keys = nodes.keys();
    proof {
        lemma_node_keys(*nodes);
    }
    let count = nodes.len();
    let mut i: usize = 0;
    while i < count
        invariant
            nodes_wf(*nodes),
            model == nodes.deep_view(),
            keys == nodes.keys(),
            crate::ordered::is_listing(keys, model.dom()),
            count == keys.len(),
            i <= count,
            forall|j: int| 0 <= j < i ==> !broken(model)(#[trigger] keys[j]),
        decreases count - i,
    {
        let found = node_error(nodes, i);
        if found.is_some() {
            proof {
                lemma_first(keys, model.dom(), broken(model), i as int);
            }
            return found;
        }
        i = i + 1;
    }
    proof {
        lemma_none(keys, model.dom(), broken(model));
    }
    None
}

/// `deps` holds, for each node by its position, the positions of its dependencies.
spec fn numbers(nodes: StringMap<DerivationNode>, deps: Seq<Vec<usize>>) -> bool {
    &&& deps.len() == nodes.keys().len()
    &&& forall|i: int|
        0 <= i < deps.len() ==> (#[trigger] deps[i])@.len()
            == nodes.values()[i].dependencies.keys().len()
    &&& forall|i: int, k: int|
        0 <= i < deps.len() && 0 <= k < deps[i]@.len() ==> #[trigger] deps[i]@[k] < deps.len()
            && nodes.keys()[deps[i]@[k] as int] == nodes.values()[i].dependencies.keys()[k]
}

/// The paths at the given positions.
spec fn names(nodes: StringMap<DerivationNode>, order: Seq<usize>) -> Seq<Seq<char>> {
    Seq::new(order.len(), |k: int| nodes.keys()[order[k] as int])
}

/// Numbering keeps dependencies apart.
proof fn lemma_well_numbered(nodes: StringMap<DerivationNode>, deps: Seq<Vec<usize>>)
    requires
        nodes_wf(nodes),
        numbers(nodes, deps),
    ensures
        topology::well_numbered(deps),
{
    assert forall|i: int| 0 <= i < deps.len() implies (#[trigger] deps[i])@.no_duplicates() by {
        let inner = nodes.values()[i].dependencies;
        assert(nodes.values()[i].wf());
        assert forall|a: int, b: int|
            0 <= a < deps[i]@.len() && 0 <= b < deps[i]@.len() && a != b implies deps[i]@[a]
            != deps[i]@[b] by {
            if deps[i]@[a] == deps[i]@[b] {
                crate::ordered::lemma_ascending_distinct(inner.keys(), a, b);
            }
        }
    }
}

/// A node depends on another exactly where the numbering says so.
proof fn lemma_edge(nodes: StringMap<DerivationNode>, deps: Seq<Vec<usize>>, i: int, j: usize)
    requires
        nodes_wf(nodes),
        numbers(nodes, deps),
        0 <= i < deps.len(),
        j < deps.len(),
    ensures
        nodes.deep_view()[nodes.keys()[i]].dependencies.dom().contains(nodes.keys()[j as int])
            <==> deps[i]@.contains(j),
{
    lemma_node_at(nodes, i);
    let inner = nodes.values()[i].dependencies;
    let target = nodes.keys()[j as int];
    assert(inner@.dom().contains(target) <==> inner.keys().contains(target));
    if deps[i]@.contains(j) {
        let k = deps[i]@.index_of(j);
        assert(deps[i]@[k] < deps.len());
        assert(inner.keys()[k] == target);
    }
    if inner.keys().contains(target) {
        let k = inner.keys().index_of(target);
        assert(deps[i]@[k] < deps.len());
        crate::ordered::lemma_ascending_distinct(nodes.keys(), deps[i]@[k] as int, j as int);
    }
}

/// A path is among the names exactly when its position is among the numbers.
proof fn lemma_named(nodes: StringMap<DerivationNode>, order: Seq<usize>, j: usize)
    requires
        nodes_wf(nodes),
        j < nodes.keys().len(),
        forall|k: int| 0 <= k < order.len() ==> #[trigger] order[k] < nodes.keys().len(),
    ensures
        names(nodes, order).contains(nodes.keys()[j as int]) <==> order.contains(j),
{
    let list = names(nodes, order);
    let path = nodes.keys()[j as int];
    if list.contains(path) {
        let k = list.index_of(path);
        assert(order[k] < nodes.keys().len());
        crate::ordered::lemma_ascending_distinct(nodes.keys(), order[k] as int, j as int);
    }
    if order.contains(j) {
        let k = order.index_of(j);
        assert(list[k] == path);
    }
}

/// A node is available exactly when its number is.
proof fn lemma_available(
    nodes: StringMap<DerivationNode>,
    deps: Seq<Vec<usize>>,
    order: Seq<usize>,
    j: usize,
)
    requires
        nodes_wf(nodes),
        numbers(nodes, deps),
        j < deps.len(),
        forall|k: int| 0 <= k < order.len() ==> #[trigger] order[k] < deps.len(),
    ensures
        available(nodes.deep_view(), names(nodes, order), nodes.keys()[j as int])
            <==> topology::available(deps, order, j),
{
    let model = nodes.deep_view();
    let path = nodes.keys()[j as int];
    let list = names(nodes, order);
    let inner = nodes.values()[j as int].dependencies;
    lemma_node_at(nodes, j as int);
    lemma_named(nodes, order, j);
    if available(model, list, path) {
        assert forall|k: int| 0 <= k < deps[j as int]@.len() implies order.contains(
            #[trigger] deps[j as int]@[k],
        ) by {
            let d = deps[j as int]@[k];
            assert(deps[j as int]@.contains(d));
            lemma_edge(nodes, deps, j as int, d);
            assert(model[path].dependencies.dom().contains(nodes.keys()[d as int]));
            lemma_named(nodes, order, d);
        }
    }
    if topology::available(deps, order, j) {
        assert forall|dependency: Seq<char>| #[trigger]
            model[path].dependencies.dom().contains(dependency) implies list.contains(
            dependency,
        ) by {
            assert(inner.keys().contains(dependency));
            let k = inner.keys().index_of(dependency);
            let d = deps[j as int]@[k];
            assert(order.contains(d));
            lemma_named(nodes, order, d);
        }
    }
}

/// A dependency-first order of the numbers names a dependency-first order of the paths.
proof fn lemma_order(
    nodes: StringMap<DerivationNode>,
    deps: Seq<Vec<usize>>,
    order: Seq<usize>,
)
    requires
        nodes_wf(nodes),
        numbers(nodes, deps),
        topology::dependency_first(deps, order),
        forall|x: usize| x < deps.len() ==> order.contains(x),
        deps.len() <= usize::MAX,
    ensures
        dependency_first(nodes.deep_view(), names(nodes, order)),
{
    let model = nodes.deep_view();
    let list = names(nodes, order);
    let keys = nodes.keys();
    lemma_node_keys(nodes);
    assert forall|k: int| 0 <= k < order.len() implies #[trigger] order[k] < deps.len() by {
        assert(topology::comes_next(deps, order.take(k), order[k]));
    }
    assert forall|k: int| 0 <= k < list.len() implies comes_next(
        model,
        #[trigger] list.take(k),
        list[k],
    ) by {
        let done = order.take(k);
        let chosen = order[k];
        assert(topology::comes_next(deps, done, chosen));
        assert(list.take(k) =~= names(nodes, done));
        lemma_available(nodes, deps, done, chosen);
        assert forall|other: Seq<char>| #[trigger] available(
            model,
            list.take(k),
            other,
        ) implies other == list[k] || text::precedes(list[k], other) by {
            assert(keys.contains(other));
            let j = keys.index_of(other) as usize;
            lemma_available(nodes, deps, done, j);
            assert(topology::available(deps, done, j));
            assert(chosen <= j);
        }
    }
    assert forall|path: Seq<char>| #[trigger] model.dom().contains(path) implies list.contains(
        path,
    ) by {
        assert(keys.contains(path));
        let j = keys.index_of(path) as usize;
        lemma_named(nodes, order, j);
    }
}

/// The positions of the paths in `group`.
spec fn numbered_group(keys: Seq<Seq<char>>, group: Set<Seq<char>>) -> Set<usize> {
    Set::new(|i: usize| i < keys.len() && group.contains(keys[i as int]))
}

/// The paths at the positions in `group`.
spec fn named_group(keys: Seq<Seq<char>>, group: Set<usize>) -> Set<Seq<char>> {
    Set::new(|p: Seq<char>| exists|i: usize| #[trigger] group.contains(i) && keys[i as int] == p)
}

/// The positions of a self-dependent group of paths depend on each other.
proof fn lemma_numbered_group(
    nodes: StringMap<DerivationNode>,
    deps: Seq<Vec<usize>>,
    group: Set<Seq<char>>,
    i: usize,
)
    requires
        nodes_wf(nodes),
        numbers(nodes, deps),
        deps.len() <= usize::MAX,
        self_dependent(nodes.deep_view(), group),
        i < deps.len(),
        group.contains(nodes.keys()[i as int]),
    ensures
        exists|k: int|
            0 <= k < deps[i as int]@.len() && numbered_group(nodes.keys(), group).contains(
                #[trigger] deps[i as int]@[k],
            ),
{
    let model = nodes.deep_view();
    let keys = nodes.keys();
    let member = keys[i as int];
    lemma_node_keys(nodes);
    reveal(depends_on);
    let dependency = choose|dependency: Seq<char>| #[trigger]
        model[member].dependencies.dom().contains(dependency) && group.contains(dependency);
    assert(group.contains(dependency));
    assert(keys.contains(dependency));
    let d = keys.index_of(dependency) as usize;
    lemma_edge(nodes, deps, i as int, d);
    let k = deps[i as int]@.index_of(d);
    assert(numbered_group(keys, group).contains(deps[i as int]@[k]));
}

/// The paths of a self-dependent group of positions depend on each other.
proof fn lemma_named_group(
    nodes: StringMap<DerivationNode>,
    deps: Seq<Vec<usize>>,
    group: Set<usize>,
    i: usize,
)
    requires
        nodes_wf(nodes),
        numbers(nodes, deps),
        topology::self_dependent(deps, group),
        group.contains(i),
    ensures
        nodes.deep_view().dom().contains(nodes.keys()[i as int]),
        depends_on(nodes.deep_view(), nodes.keys()[i as int], named_group(nodes.keys(), group)),
{
    reveal(depends_on);
    let keys = nodes.keys();
    lemma_node_at(nodes, i as int);
    let k = choose|k: int|
        0 <= k < deps[i as int]@.len() && group.contains(#[trigger] deps[i as int]@[k]);
    let d = deps[i as int]@[k];
    assert(deps[i as int]@.contains(d));
    lemma_edge(nodes, deps, i as int, d);
    assert(named_group(keys, group).contains(keys[d as int]));
}

/// A node is cyclic exactly when its number is.
proof fn lemma_cyclic(nodes: StringMap<DerivationNode>, deps: Seq<Vec<usize>>, j: usize)
    requires
        nodes_wf(nodes),
        numbers(nodes, deps),
        j < deps.len(),
        deps.len() <= usize::MAX,
    ensures
        cyclic(nodes.deep_view(), nodes.keys()[j as int]) <==> topology::cyclic(deps, j),
{
    let model = nodes.deep_view();
    let keys = nodes.keys();
    let path = keys[j as int];
    if cyclic(model, path) {
        let group = choose|group: Set<Seq<char>>| #[trigger]
            self_dependent(model, group) && group.contains(path);
        let numbered = numbered_group(keys, group);
        assert(topology::self_dependent(deps, numbered)) by {
            assert forall|i: usize| #[trigger] numbered.contains(i) implies i < deps.len()
                && exists|k: int|
                0 <= k < deps[i as int]@.len() && numbered.contains(
                    #[trigger] deps[i as int]@[k],
                ) by {
                lemma_numbered_group(nodes, deps, group, i);
            }
        }
        assert(numbered.contains(j));
    }
    if topology::cyclic(deps, j) {
        let numbered = choose|group: Set<usize>| #[trigger]
            topology::self_dependent(deps, group) && group.contains(j);
        let group = named_group(keys, numbered);
        assert(self_dependent(model, group)) by {
            assert forall|p: Seq<char>| #[trigger] group.contains(p) implies model.dom().contains(
                p,
            ) && depends_on(model, p, group) by {
                let i = choose|i: usize| #[trigger]
                    numbered.contains(i) && keys[i as int] == p;
                lemma_named_group(nodes, deps, numbered, i);
            }
        }
        assert(group.contains(path));
    }
}

/// Numbers the dependencies of every node.
fn numbered_dependencies(nodes: &StringMap<DerivationNode>) -> (result: Vec<Vec<usize>>)
    requires
        nodes_wf(*nodes),
        !any(nodes.deep_view().dom(), broken(nodes.deep_view())),
    ensures
        numbers(*nodes, result@),
{
    let ghost model = nodes.deep_view();
    let mut result: Vec<Vec<usize>> = Vec::new();
    let count = nodes.len();
    let mut i: usize = 0;
    while i < count
        invariant
            nodes_wf(*nodes),
            model == nodes.deep_view(),
            !any(model.dom(), broken(model)),
            count == nodes.keys().len(),
            i <= count,
            result@.len() == i,
            forall|a: int|
                0 <= a < i ==> (#[trigger] result@[a])@.len()
                    == nodes.values()[a].dependencies.keys().len(),
            forall|a: int, k: int|
                0 <= a < i && 0 <= k < result@[a]@.len() ==> #[trigger] result@[a]@[k] < count
                    && nodes.keys()[result@[a]@[k] as int]
                    == nodes.values()[a].dependencies.keys()[k],
        decreases count - i,
    {
        let dependencies = &nodes.value_at(i).dependencies;
        let ghost path = nodes.keys()[i as int];
        proof {
            lemma_node_at(*nodes, i as int);
            assert(nodes.values()[i as int].wf());
            assert(!has_unmet(model, path)) by {
                if has_unmet(model, path) {
                    assert(model.dom().contains(path) && broken(model)(path));
                }
            }
        }
        let mut list: Vec<usize> = Vec::new();
        let size = dependencies.len();
        let mut k: usize = 0;
        while k < size
            invariant
                nodes_wf(*nodes),
                model == nodes.deep_view(),
                count == nodes.keys().len(),
                i < count,
                path == nodes.keys()[i as int],
                *dependencies == nodes.values()[i as int].dependencies,
                nodes.values()[i as int].deep_view() == model[path],
                dependencies.wf(),
                !has_unmet(model, path),
                size == dependencies.keys().len(),
                k <= size,
                list@.len() == k,
                forall|a: int|
                    0 <= a < k ==> #[trigger] list@[a] < count && nodes.keys()[list@[a] as int]
                        == dependencies.keys()[a],
            decreases size - k,
        {
            let dependency = dependencies.key_at(k);
            proof {
                crate::ordered::lemma_map_at(*dependencies, k as int);
                assert(model[path].dependencies.dom().contains(dependency@));
                assert(!unmet(model, path, dependency@));
                assert(nodes@.dom().contains(dependency@));
            }
            match nodes.position(dependency.as_str()) {
                Some(at) => {
                    list.push(at);
                },
                None => {},
            }
            k = k + 1;
        }
        result.push(list);
        i = i + 1;
    }
    result
}

/// Returns the paths at the given positions.
fn paths_at(nodes: &StringMap<DerivationNode>, order: &Vec<usize>) -> (result: Vec<String>)
    requires
        forall|k: int| 0 <= k < order@.len() ==> #[trigger] order@[k] < nodes.keys().len(),
    ensures
        result.deep_view() == names(*nodes, order@),
{
    let mut result: Vec<String> = Vec::new();
    let mut k: usize = 0;
    while k < order.len()
        invariant
            forall|k: int| 0 <= k < order@.len() ==> #[trigger] order@[k] < nodes.keys().len(),
            k <= order@.len(),
            result@.len() == k,
            forall|a: int|
                0 <= a < k ==> (#[trigger] result@[a])@ == nodes.keys()[order@[a] as int],
        decreases order@.len() - k,
    {
        result.push(nodes.key_at(order[k]).clone());
        k = k + 1;
    }
    assert(result.deep_view() =~= names(*nodes, order@));
    result
}

/// Returns the dependency-first order of the nodes, or the error that lists the nodes on and
/// behind cycles.
fn topological_order(nodes: &StringMap<DerivationNode>) -> (result: Result<
    Vec<String>,
    EngineError,
>)
    requires
        nodes_wf(*nodes),
        !any(nodes.deep_view().dom(), broken(nodes.deep_view())),
    ensures
        match result {
            Ok(order) => {
                &&& dependency_first(nodes.deep_view(), order.deep_view())
                &&& forall|path: Seq<char>| !#[trigger] cyclic(nodes.deep_view(), path)
            },
            Err(error) => {
                &&& exists|path: Seq<char>| #[trigger] cyclic(nodes.deep_view(), path)
                &&& reports(nodes.deep_view(), 0, Defect::Cycle, error)
            },
        },
{
    let ghost model = nodes.deep_view();
    let deps = numbered_dependencies(nodes);
    let count = deps.len();
    proof {
        lemma_well_numbered(*nodes, deps@);
        lemma_node_keys(*nodes);
        assert forall|path: Seq<char>| #[trigger] cyclic(model, path) implies nodes.keys().contains(
            path,
        ) by {
            let group = choose|group: Set<Seq<char>>| #[trigger]
                self_dependent(model, group) && group.contains(path);
            assert(model.dom().contains(path));
        }
    }
    match topology::dependency_order(&deps) {
        Ok(order) => {
            proof {
                topology::lemma_complete(deps@, order@);
                assert forall|k: int| 0 <= k < order@.len() implies #[trigger] order@[k]
                    < nodes.keys().len() by {
                    assert(topology::comes_next(deps@, order@.take(k), order@[k]));
                }
                lemma_order(*nodes, deps@, order@);
                assert forall|path: Seq<char>| !#[trigger] cyclic(model, path) by {
                    if cyclic(model, path) {
                        let j = nodes.keys().index_of(path) as usize;
                        lemma_cyclic(*nodes, deps@, j);
                    }
                }
            }
            Ok(paths_at(nodes, &order))
        },
        Err(stuck) => {
            proof {
                assert forall|k: int| 0 <= k < stuck@.len() implies #[trigger] stuck@[k]
                    < nodes.keys().len() by {
                    assert(stuck@.contains(stuck@[k]));
                    assert(topology::cyclic(deps@, stuck@[k]));
                    let group = choose|group: Set<usize>| #[trigger]
                        topology::self_dependent(deps@, group) && group.contains(stuck@[k]);
                    assert(group.contains(stuck@[k]));
                }
            }
            let cycle = paths_at(nodes, &stuck);
            proof {
                let list = names(*nodes, stuck@);
                assert(crate::ordered::is_listing(list, cyclic_nodes(model))) by {
                    assert forall|path: Seq<char>| #[trigger] list.contains(path) <==> cyclic_nodes(
                        model,
                    ).contains(path) by {
                        if list.contains(path) {
                            let k = list.index_of(path);
                            assert(stuck@.contains(stuck@[k]));
                            lemma_cyclic(*nodes, deps@, stuck@[k]);
                        }
                        if cyclic(model, path) {
                            let j = nodes.keys().index_of(path) as usize;
                            lemma_cyclic(*nodes, deps@, j);
                            assert(stuck@.contains(j));
                            lemma_named(*nodes, stuck@, j);
                        }
                    }
                }
                crate::ordered::lemma_listing(list, cyclic_nodes(model));
                assert(list.contains(list[0]));
                assert(cyclic_nodes(model).contains(list[0]));
            }
            Err(
                EngineError::new(
                    "derivation_cycle",
                    text::cat2(
                        "derivation graph contains a cycle: ",
                        text::join(&cycle, ", ").as_str(),
                    ),
                ),
            )
        },
    }
}

/// Validated, deduplicated derivation dependency graph.
#[derive(Debug, PartialEq, Eq)]
pub struct DependencyGraph {
    nodes: StringMap<Arc<DerivationNode>>,
    order: Vec<String>,
}

impl DependencyGraph {
    /// What the graph's nodes say, by derivation path.
    pub closed spec fn model(&self) -> Map<Seq<char>, NodeModel> {
        self.nodes.deep_view()
    }

    /// The graph's dependency-first order.
    pub closed spec fn order_text(&self) -> Seq<Seq<char>> {
        self.order.deep_view()
    }

    /// The graph's handles by path.
    pub closed spec fn handles(&self) -> StringMap<Arc<DerivationNode>> {
        self.nodes
    }

    /// Every node is stored under its own path, every dependency is a node that has the outputs
    /// consumed from it, and the order is complete and dependency first.
    pub open spec fn wf(&self) -> bool {
        &&& self.handles().wf()
        &&& self.handles().deep_view() == self.model()
        &&& forall|i: int|
            0 <= i < self.handles().values().len() ==> (#[trigger] self.handles().values()[i]).wf()
        &&& !any(self.model().dom(), misplaced(self.model()))
        &&& !any(self.model().dom(), broken(self.model()))
        &&& forall|path: Seq<char>| !#[trigger] cyclic(self.model(), path)
        &&& dependency_first(self.model(), self.order_text())
    }

    /// Validates caller-supplied nodes, required roots, referenced outputs, and acyclicity.
    ///
    /// Fails with a stable protocol error for a node limit, mismatched identity, missing root,
    /// missing reference, missing output, or dependency cycle.
    pub fn new(
        nodes: StringMap<DerivationNode>,
        roots: &StringSet,
        max_nodes: usize,
    ) -> (result: Result<Self, EngineError>)
        requires
            nodes_wf(nodes),
            roots.wf(),
        ensures
            match defect(nodes.deep_view(), roots@, max_nodes as int) {
                Some(found) => {
                    &&& result matches Err(error)
                    &&& reports(nodes.deep_view(), max_nodes as int, found, error)
                },
                None => {
                    &&& result matches Ok(graph)
                    &&& graph.wf()
                    &&& graph.model() == nodes.deep_view()
                },
            },
    {
        proof {
            lemma_node_keys(nodes);
        }
        if nodes.len() > max_nodes {
            return Err(
                EngineError::new(
                    "graph_node_limit_exceeded",
                    text::cat4(
                        "derivation graph contains ",
                        text::decimal(nodes.len() as u128).as_str(),
                        " nodes, exceeding the configured limit of ",
                        text::decimal(max_nodes as u128).as_str(),
                    ),
                ),
            );
        }
        if let Some(error) = identity_error(&nodes) {
            return Err(error);
        }
        if let Some(error) = root_error(&nodes, roots) {
            return Err(error);
        }
        if let Some(error) = reference_error(&nodes) {
            return Err(error);
        }
        match topological_order(&nodes) {
            Err(error) => Err(error),
            Ok(order) => {
                let ghost before = nodes;
                let graph = DependencyGraph { nodes: nodes.into_shared(), order };
                proof {
                    lemma_shared(before, graph.nodes);
                }
                Ok(graph)
            },
        }
    }

    /// Returns graph nodes in derivation-path order; cloning a handle shares its immutable payload.
    pub fn nodes(&self) -> (result: &StringMap<Arc<DerivationNode>>)
        ensures
            *result == self.handles(),
    {
        &self.nodes
    }

    /// Returns the deterministic dependency-first order.
    pub fn topological_order(&self) -> (result: &Vec<String>)
        ensures
            result.deep_view() == self.order_text(),
    {
        &self.order
    }

    /// Returns the node for a derivation path.
    pub fn get(&self, drv_path: &str) -> (result: Option<&DerivationNode>)
        requires
            self.wf(),
        ensures
            match result {
                Some(node) => {
                    &&& self.model().dom().contains(drv_path@)
                    &&& node.deep_view() == self.model()[drv_path@]
                    &&& node.wf()
                },
                None => !self.model().dom().contains(drv_path@),
            },
    {
        match self.nodes.position(drv_path) {
            Some(i) => Some(&**self.nodes.value_at(i)),
            None => None,
        }
    }

    /// Returns whether the graph contains no nodes.
    pub fn is_empty(&self) -> (result: bool)
        requires
            self.wf(),
        ensures
            result == (self.model() == Map::<Seq<char>, NodeModel>::empty()),
    {
        proof {
            if self.nodes.keys().len() > 0 {
                crate::ordered::lemma_map_at(self.nodes, 0);
                assert(self.model().dom().contains(self.nodes.keys()[0]));
            } else {
                assert(self.model() =~= Map::<Seq<char>, NodeModel>::empty());
            }
        }
        self.nodes.is_empty()
    }
}

/// Sharing the nodes of a map keeps what they say.
proof fn lemma_shared(before: StringMap<DerivationNode>, after: StringMap<Arc<DerivationNode>>)
    requires
        nodes_wf(before),
        after.keys() == before.keys(),
        after.values().len() == before.values().len(),
        forall|i: int|
            0 <= i < before.values().len() ==> *#[trigger] after.values()[i] == before.values()[i],
    ensures
        after.wf(),
        after.deep_view() == before.deep_view(),
        forall|i: int| 0 <= i < after.values().len() ==> (#[trigger] after.values()[i]).wf(),
{
    assert forall|path: Seq<char>| #[trigger] after@.dom().contains(path) implies after@[path]
        == before@[path] by {
        let i = crate::ordered::lemma_map_position(after, path);
        crate::ordered::lemma_map_at(before, i);
    }
    assert(after.deep_view() =~= before.deep_view());
    assert forall|i: int| 0 <= i < after.values().len() implies (
    #[trigger] after.values()[i]).wf() by {
        assert(before.values()[i].wf());
    }
}

/// Every dependency of a node comes before it in a dependency-first order, and no node comes twice.
pub proof fn law_dependencies_come_first(
    nodes: Map<Seq<char>, NodeModel>,
    order: Seq<Seq<char>>,
    k: int,
    dependency: Seq<char>,
)
    requires
        dependency_first(nodes, order),
        0 <= k < order.len(),
        nodes[order[k]].dependencies.dom().contains(dependency),
    ensures
        order.take(k).contains(dependency),
        !order.take(k).contains(order[k]),
        nodes.dom().contains(order[k]),
{
    assert(comes_next(nodes, order.take(k), order[k]));
}

/// A set of nodes has one dependency-first order.
pub proof fn law_the_order_is_unique(
    nodes: Map<Seq<char>, NodeModel>,
    a: Seq<Seq<char>>,
    b: Seq<Seq<char>>,
)
    requires
        dependency_first(nodes, a),
        dependency_first(nodes, b),
    ensures
        a == b,
{
    let common = if a.len() < b.len() {
        a.len()
    } else {
        b.len()
    };
    lemma_same_prefix(nodes, a, b, common);
    if a.len() < b.len() {
        assert(comes_next(nodes, b.take(common as int), b[common as int]));
        assert(a.take(common as int) =~= a);
    } else if b.len() < a.len() {
        assert(comes_next(nodes, a.take(common as int), a[common as int]));
        assert(b.take(common as int) =~= b);
    } else {
        assert(a.take(common as int) =~= a);
        assert(b.take(common as int) =~= b);
    }
}

proof fn lemma_same_prefix(
    nodes: Map<Seq<char>, NodeModel>,
    a: Seq<Seq<char>>,
    b: Seq<Seq<char>>,
    size: nat,
)
    requires
        dependency_first(nodes, a),
        dependency_first(nodes, b),
        size <= a.len(),
        size <= b.len(),
    ensures
        a.take(size as int) == b.take(size as int),
    decreases size,
{
    if size > 0 {
        let k = size - 1;
        lemma_same_prefix(nodes, a, b, k as nat);
        assert(comes_next(nodes, a.take(k), a[k]));
        assert(comes_next(nodes, b.take(k), b[k]));
        if a[k] != b[k] {
            text::lemma_precedes_transitive(a[k], b[k], a[k]);
            text::lemma_precedes_irreflexive(a[k]);
        }
        assert(a.take(size as int) =~= a.take(k).push(a[k]));
        assert(b.take(size as int) =~= b.take(k).push(b[k]));
    } else {
        assert(a.take(0) =~= b.take(0));
    }
}

/// A dependency-first order lists every node, and nothing else, once.
pub proof fn law_the_order_lists_each_node_once(
    nodes: Map<Seq<char>, NodeModel>,
    order: Seq<Seq<char>>,
    path: Seq<char>,
)
    requires
        dependency_first(nodes, order),
    ensures
        order.contains(path) <==> nodes.dom().contains(path),
        forall|i: int, j: int|
            0 <= i < j < order.len() ==> #[trigger] order[i] != #[trigger] order[j],
{
    if order.contains(path) {
        let k = order.index_of(path);
        assert(comes_next(nodes, order.take(k), order[k]));
    }
    assert forall|i: int, j: int| 0 <= i < j < order.len() implies #[trigger] order[i]
        != #[trigger] order[j] by {
        assert(comes_next(nodes, order.take(j), order[j]));
        assert(order.take(j)[i] == order[i]);
        assert(order.take(j).contains(order[i]));
    }
}

proof fn lemma_no_group(
    nodes: Map<Seq<char>, NodeModel>,
    ranks: Map<Seq<char>, nat>,
    group: Set<Seq<char>>,
    path: Seq<char>,
)
    requires
        forall|p: Seq<char>, d: Seq<char>|
            nodes.dom().contains(p) && #[trigger] nodes[p].dependencies.dom().contains(d)
                ==> ranks[d] < ranks[p],
    ensures
        !(self_dependent(nodes, group) && group.contains(path)),
    decreases ranks[path],
{
    if self_dependent(nodes, group) && group.contains(path) {
        reveal(depends_on);
        let next = choose|next: Seq<char>| #[trigger]
            nodes[path].dependencies.dom().contains(next) && group.contains(next);
        lemma_no_group(nodes, ranks, group, next);
    }
}

/// Nodes within the limit, each under its own path, that hold every root and every dependency with
/// the outputs consumed of it, and that can be ranked so that dependencies come below, make a graph.
pub proof fn law_sound_nodes_make_a_graph(
    nodes: Map<Seq<char>, NodeModel>,
    roots: Set<Seq<char>>,
    max_nodes: int,
    ranks: Map<Seq<char>, nat>,
)
    requires
        nodes.dom().len() <= max_nodes,
        forall|path: Seq<char>| #[trigger]
            nodes.dom().contains(path) ==> nodes[path].drv_path == path,
        forall|root: Seq<char>| #[trigger] roots.contains(root) ==> nodes.dom().contains(root),
        forall|path: Seq<char>, dependency: Seq<char>|
            nodes.dom().contains(path) && #[trigger] nodes[path].dependencies.dom().contains(
                dependency,
            ) ==> nodes.dom().contains(dependency) && ranks[dependency] < ranks[path] && (forall|
                output: Seq<char>,
            |
                nodes[path].dependencies[dependency].contains(output) ==> #[trigger]
                nodes[dependency].outputs.dom().contains(output)),
    ensures
        defect(nodes, roots, max_nodes) is None,
{
    assert(!any(nodes.dom(), misplaced(nodes)));
    assert(!any(roots, absent(nodes)));
    assert forall|path: Seq<char>| #[trigger] nodes.dom().contains(path) implies !has_unmet(
        nodes,
        path,
    ) by {
        assert forall|dependency: Seq<char>| #[trigger]
            nodes[path].dependencies.dom().contains(dependency) implies !unmet(
            nodes,
            path,
            dependency,
        ) by {
            assert forall|output: Seq<char>| !lacks_output(nodes, path, dependency, output) by {
                if nodes[path].dependencies[dependency].contains(output) {
                    assert(nodes[dependency].outputs.dom().contains(output));
                }
            }
        }
    }
    assert(!any(nodes.dom(), broken(nodes)));
    assert forall|path: Seq<char>| !cyclic(nodes, path) by {
        if cyclic(nodes, path) {
            let group = choose|group: Set<Seq<char>>| #[trigger]
                self_dependent(nodes, group) && group.contains(path);
            lemma_no_group(nodes, ranks, group, path);
        }
    }
}

/// Where nothing is reported, nothing is wrong: the nodes are within the limit, each under its own
/// path, hold every root and every dependency with the outputs consumed of it, and no walk along
/// dependencies comes back to where it began.
pub proof fn law_graphs_are_sound(
    nodes: Map<Seq<char>, NodeModel>,
    roots: Set<Seq<char>>,
    max_nodes: int,
    path: Seq<char>,
    dependency: Seq<char>,
    output: Seq<char>,
    walk: Seq<Seq<char>>,
)
    requires
        defect(nodes, roots, max_nodes) is None,
    ensures
        nodes.dom().len() <= max_nodes,
        nodes.dom().contains(path) ==> nodes[path].drv_path == path,
        roots.contains(path) ==> nodes.dom().contains(path),
        nodes.dom().contains(path) && nodes[path].dependencies.dom().contains(dependency)
            ==> nodes.dom().contains(dependency),
        nodes.dom().contains(path) && nodes[path].dependencies.dom().contains(dependency)
            && nodes[path].dependencies[dependency].contains(output)
            ==> nodes[dependency].outputs.dom().contains(output),
        !(walk.len() > 1 && walk[0] == walk.last() && forall|i: int|
            0 <= i < walk.len() - 1 ==> nodes.dom().contains(#[trigger] walk[i])
                && nodes[walk[i]].dependencies.dom().contains(walk[i + 1])),
{
    if nodes.dom().contains(path) {
        assert(!misplaced(nodes)(path));
        assert(!broken(nodes)(path));
        if nodes[path].dependencies.dom().contains(dependency) {
            assert(!unmet(nodes, path, dependency));
            assert(!lacks_output(nodes, path, dependency, output));
        }
    }
    if roots.contains(path) {
        assert(!absent(nodes)(path));
    }
    if walk.len() > 1 && walk[0] == walk.last() && forall|i: int|
        0 <= i < walk.len() - 1 ==> nodes.dom().contains(#[trigger] walk[i])
            && nodes[walk[i]].dependencies.dom().contains(walk[i + 1]) {
        lemma_walk_is_cyclic(nodes, walk);
    }
}

proof fn lemma_walk_is_cyclic(nodes: Map<Seq<char>, NodeModel>, walk: Seq<Seq<char>>)
    requires
        walk.len() > 1,
        walk[0] == walk.last(),
        forall|i: int|
            0 <= i < walk.len() - 1 ==> nodes.dom().contains(#[trigger] walk[i])
                && nodes[walk[i]].dependencies.dom().contains(walk[i + 1]),
    ensures
        cyclic(nodes, walk[0]),
{
    reveal(depends_on);
    let group = Set::new(|path: Seq<char>| walk.contains(path));
    assert forall|path: Seq<char>| #[trigger] group.contains(path) implies nodes.dom().contains(
        path,
    ) && depends_on(nodes, path, group) by {
        let at = walk.index_of(path);
        let i = if at == walk.len() - 1 {
            0
        } else {
            at
        };
        assert(walk[i] == path);
        assert(nodes[walk[i]].dependencies.dom().contains(walk[i + 1]));
        assert(walk.contains(walk[i + 1]));
        assert(group.contains(walk[i + 1]));
    }
    assert(self_dependent(nodes, group));
    assert(walk.contains(walk[0]));
    assert(group.contains(walk[0]));
}

proof fn lemma_first_exists(
    paths: Set<Seq<char>>,
    wanted: spec_fn(Seq<char>) -> bool,
    list: Seq<Seq<char>>,
    k: int,
)
    requires
        crate::ordered::is_listing(list, paths),
        0 <= k <= list.len(),
        forall|j: int| 0 <= j < k ==> !wanted(#[trigger] list[j]),
        any(paths, wanted),
    ensures
        is_first(paths, wanted, first(paths, wanted)),
    decreases list.len() - k,
{
    if k == list.len() {
        lemma_none(list, paths, wanted);
    } else if wanted(list[k]) {
        lemma_first(list, paths, wanted, k);
        assert(list.contains(list[k]));
        assert forall|other: Seq<char>| #[trigger] paths.contains(other) && wanted(
            other,
        ) implies other == list[k] || text::precedes(list[k], other) by {
            assert(list.contains(other));
            let j = list.index_of(other);
            assert(list[j] == other);
        }
        assert(is_first(paths, wanted, list[k]));
    } else {
        lemma_first_exists(paths, wanted, list, k + 1);
    }
}

proof fn lemma_first_is_first(paths: Set<Seq<char>>, wanted: spec_fn(Seq<char>) -> bool)
    requires
        paths.finite(),
        any(paths, wanted),
    ensures
        is_first(paths, wanted, first(paths, wanted)),
{
    crate::ordered::lemma_finite_listing(paths);
    lemma_first_exists(paths, wanted, crate::ordered::listing(paths), 0);
}

/// What is reported of a set of nodes is true of them, and among defects of its sort it is the
/// first in path order.
pub proof fn law_reported_defects_are_real(
    nodes: Map<Seq<char>, NodeModel>,
    roots: Set<Seq<char>>,
    max_nodes: int,
    other: Seq<char>,
)
    requires
        nodes.dom().finite(),
        roots.finite(),
        forall|path: Seq<char>| #[trigger]
            nodes.dom().contains(path) ==> nodes[path].dependencies.dom().finite(),
        forall|path: Seq<char>, dependency: Seq<char>|
            nodes.dom().contains(path) && nodes[path].dependencies.dom().contains(dependency)
                ==> (#[trigger] nodes[path].dependencies[dependency]).finite(),
    ensures
        match defect(nodes, roots, max_nodes) {
            None => true,
            Some(Defect::TooManyNodes) => nodes.dom().len() > max_nodes,
            Some(Defect::Identity { path }) => {
                &&& nodes.dom().contains(path)
                &&& nodes[path].drv_path != path
                &&& nodes.dom().contains(other) && nodes[other].drv_path != other ==> other == path
                    || text::precedes(path, other)
            },
            Some(Defect::Root { root }) => {
                &&& roots.contains(root)
                &&& !nodes.dom().contains(root)
                &&& roots.contains(other) && !nodes.dom().contains(other) ==> other == root
                    || text::precedes(root, other)
            },
            Some(Defect::Reference { path, dependency }) => {
                &&& nodes.dom().contains(path)
                &&& nodes[path].dependencies.dom().contains(dependency)
                &&& !nodes.dom().contains(dependency)
            },
            Some(Defect::Output { path, dependency, output }) => {
                &&& nodes.dom().contains(path)
                &&& nodes[path].dependencies.dom().contains(dependency)
                &&& nodes.dom().contains(dependency)
                &&& nodes[path].dependencies[dependency].contains(output)
                &&& !nodes[dependency].outputs.dom().contains(output)
            },
            Some(Defect::Cycle) => exists|path: Seq<char>| cyclic(nodes, path),
        },
{
    if nodes.dom().len() > max_nodes {
    } else if any(nodes.dom(), misplaced(nodes)) {
        lemma_first_is_first(nodes.dom(), misplaced(nodes));
        assert(misplaced(nodes)(other) == (nodes[other].drv_path != other));
    } else if any(roots, absent(nodes)) {
        lemma_first_is_first(roots, absent(nodes));
        assert(absent(nodes)(other) == !nodes.dom().contains(other));
    } else if any(nodes.dom(), broken(nodes)) {
        lemma_first_is_first(nodes.dom(), broken(nodes));
        let path = first(nodes.dom(), broken(nodes));
        assert(has_unmet(nodes, path));
        let unmet_one = choose|dependency: Seq<char>| #[trigger]
            nodes[path].dependencies.dom().contains(dependency) && unmet(nodes, path, dependency);
        let inputs = nodes[path].dependencies.dom();
        assert(inputs.contains(unmet_one) && unmet_by(nodes, path)(unmet_one));
        lemma_first_is_first(inputs, unmet_by(nodes, path));
        let dependency = first(inputs, unmet_by(nodes, path));
        assert(unmet(nodes, path, dependency));
        if nodes.dom().contains(dependency) {
            let outputs = nodes[path].dependencies[dependency];
            let missing = choose|output: Seq<char>| lacks_output(nodes, path, dependency, output);
            assert(outputs.contains(missing) && lacking(nodes, path, dependency)(missing));
            lemma_first_is_first(outputs, lacking(nodes, path, dependency));
        }
    }
}

/// A node is part of a cycle or depends on one exactly where one of its dependencies is or does;
/// every node of a walk along dependencies that comes back to where it began is.
pub proof fn law_cyclic_nodes_depend_on_cyclic_nodes(
    nodes: Map<Seq<char>, NodeModel>,
    path: Seq<char>,
    walk: Seq<Seq<char>>,
)
    ensures
        cyclic(nodes, path) <==> nodes.dom().contains(path) && exists|dependency: Seq<char>|
            #[trigger] nodes[path].dependencies.dom().contains(dependency) && cyclic(
                nodes,
                dependency,
            ),
        walk.len() > 1 && walk[0] == walk.last() && (forall|i: int|
            0 <= i < walk.len() - 1 ==> nodes.dom().contains(#[trigger] walk[i])
                && nodes[walk[i]].dependencies.dom().contains(walk[i + 1])) ==> cyclic(
            nodes,
            walk[0],
        ),
{
    reveal(depends_on);
    if cyclic(nodes, path) {
        let group = choose|group: Set<Seq<char>>| #[trigger]
            self_dependent(nodes, group) && group.contains(path);
        let next = choose|next: Seq<char>| #[trigger]
            nodes[path].dependencies.dom().contains(next) && group.contains(next);
        assert(cyclic(nodes, next));
    }
    if nodes.dom().contains(path) && exists|dependency: Seq<char>| #[trigger]
        nodes[path].dependencies.dom().contains(dependency) && cyclic(nodes, dependency) {
        let dependency = choose|dependency: Seq<char>| #[trigger]
            nodes[path].dependencies.dom().contains(dependency) && cyclic(nodes, dependency);
        let group = choose|group: Set<Seq<char>>| #[trigger]
            self_dependent(nodes, group) && group.contains(dependency);
        let larger = group.insert(path);
        assert forall|member: Seq<char>| #[trigger] larger.contains(member) implies
            nodes.dom().contains(member) && depends_on(nodes, member, larger) by {
            if member == path {
                assert(larger.contains(dependency));
            } else {
                assert(group.contains(member));
                let next = choose|next: Seq<char>| #[trigger]
                    nodes[member].dependencies.dom().contains(next) && group.contains(next);
                assert(larger.contains(next));
            }
        }
        assert(self_dependent(nodes, larger));
        assert(larger.contains(path));
    }
    if walk.len() > 1 && walk[0] == walk.last() && (forall|i: int|
        0 <= i < walk.len() - 1 ==> nodes.dom().contains(#[trigger] walk[i])
            && nodes[walk[i]].dependencies.dom().contains(walk[i + 1])) {
        lemma_walk_is_cyclic(nodes, walk);
    }
}

/// The error for a defect has the code of its sort and names what is at fault.
pub proof fn law_errors_name_the_fault(
    nodes: Map<Seq<char>, NodeModel>,
    max_nodes: int,
    found: Defect,
    error: EngineError,
)
    requires
        max_nodes >= 0,
        reports(nodes, max_nodes, found, error),
    ensures
        match found {
            Defect::TooManyNodes => error.code_text() == "graph_node_limit_exceeded"@
                && text::occurs(error.message_text(), text::decimal_text(nodes.dom().len()))
                && text::ends(error.message_text(), text::decimal_text(max_nodes as nat)),
            Defect::Identity { path } => error.code_text() == "derivation_identity_mismatch"@
                && text::occurs(error.message_text(), path) && text::ends(
                error.message_text(),
                nodes[path].drv_path,
            ),
            Defect::Root { root } => error.code_text() == "missing_graph_root"@ && text::ends(
                error.message_text(),
                root,
            ),
            Defect::Reference { path, dependency } => error.code_text()
                == "missing_graph_reference"@ && text::occurs(error.message_text(), path)
                && text::ends(error.message_text(), dependency),
            Defect::Output { path, dependency, output } => error.code_text()
                == "missing_dependency_output"@ && text::occurs(error.message_text(), path)
                && text::occurs(error.message_text(), output) && text::ends(
                error.message_text(),
                dependency,
            ),
            Defect::Cycle => error.code_text() == "derivation_cycle"@ && text::ends(
                error.message_text(),
                text::joined(crate::ordered::listing(cyclic_nodes(nodes)), ", "@),
            ),
        },
{
    let none = Seq::<char>::empty();
    match found {
        Defect::TooManyNodes => {
            lemma_message(
                "derivation graph contains "@,
                text::decimal_text(nodes.dom().len()),
                " nodes, exceeding the configured limit of "@,
                text::decimal_text(max_nodes as nat),
            );
        },
        Defect::Identity { path } => {
            lemma_message("graph key "@, path, " does not match node "@, nodes[path].drv_path);
        },
        Defect::Root { root } => {
            text::law_texts_hold_their_parts(
                none,
                "derivation graph omitted evaluated root "@,
                root,
                none,
            );
        },
        Defect::Reference { path, dependency } => {
            lemma_message("derivation "@, path, " references missing "@, dependency);
        },
        Defect::Output { path, dependency, output } => {
            let head = "derivation "@ + path + " references missing output "@;
            let rest = output + " from "@ + dependency;
            lemma_message("derivation "@, path, " references missing output "@, rest);
            lemma_message(head, output, " from "@, dependency);
            assert("derivation "@ + path + " references missing output "@ + rest =~= head + output
                + " from "@ + dependency);
        },
        Defect::Cycle => {
            text::law_texts_hold_their_parts(
                none,
                "derivation graph contains a cycle: "@,
                text::joined(crate::ordered::listing(cyclic_nodes(nodes)), ", "@),
                none,
            );
        },
    }
}

proof fn lemma_message(a: Seq<char>, b: Seq<char>, c: Seq<char>, d: Seq<char>)
    ensures
        text::occurs(a + b + c + d, b),
        text::ends(a + b + c + d, d),
{
    text::law_texts_hold_their_parts(a, a, b, c + d);
    assert(a + b + (c + d) =~= a + b + c + d);
    text::law_texts_hold_their_parts(a, a + b + c, d, Seq::empty());
}

} // verus!
