//! Which outputs of which derivations a set of requested roots needs.

use vstd::prelude::*;

use crate::graph::DependencyGraph;
use crate::model::{EngineError, NodeModel};
use crate::ordered::{StringMap, StringSet};

verus! {

/// `walk` goes from node to node along dependencies.
pub open spec fn is_walk(nodes: Map<Seq<char>, NodeModel>, walk: Seq<Seq<char>>) -> bool {
    &&& walk.len() > 0
    &&& forall|i: int|
        0 <= i < walk.len() - 1 ==> nodes.dom().contains(#[trigger] walk[i])
            && nodes[walk[i]].dependencies.dom().contains(walk[i + 1])
}

/// A walk leads from one of `roots` to `path`.
pub open spec fn reachable(
    nodes: Map<Seq<char>, NodeModel>,
    roots: Set<Seq<char>>,
    path: Seq<char>,
) -> bool {
    exists|walk: Seq<Seq<char>>| #[trigger]
        is_walk(nodes, walk) && roots.contains(walk[0]) && walk.last() == path
}

/// `output` of `path` is selected by a root, or consumed by a reachable node.
pub open spec fn requires_output(
    nodes: Map<Seq<char>, NodeModel>,
    roots: Map<Seq<char>, Set<Seq<char>>>,
    path: Seq<char>,
    output: Seq<char>,
) -> bool {
    ||| roots.dom().contains(path) && roots[path].contains(output)
    ||| exists|dependent: Seq<char>| #[trigger]
        consumes(nodes, roots.dom(), dependent, path, output)
}

/// `dependent` is a reachable node that consumes `output` of `path`.
pub open spec fn consumes(
    nodes: Map<Seq<char>, NodeModel>,
    roots: Set<Seq<char>>,
    dependent: Seq<char>,
    path: Seq<char>,
    output: Seq<char>,
) -> bool {
    &&& reachable(nodes, roots, dependent)
    &&& nodes.dom().contains(dependent)
    &&& nodes[dependent].dependencies.dom().contains(path)
    &&& nodes[dependent].dependencies[path].contains(output)
}

/// The outputs of `path` that the roots need.
pub open spec fn needed(
    nodes: Map<Seq<char>, NodeModel>,
    roots: Map<Seq<char>, Set<Seq<char>>>,
    path: Seq<char>,
) -> Set<Seq<char>> {
    Set::new(|output: Seq<char>| requires_output(nodes, roots, path, output))
}

/// Every node of which the roots need an output, with the outputs they need.
pub open spec fn requirements(
    nodes: Map<Seq<char>, NodeModel>,
    roots: Map<Seq<char>, Set<Seq<char>>>,
) -> Map<Seq<char>, Set<Seq<char>>> {
    Map::new(
        |path: Seq<char>|
            nodes.dom().contains(path) && needed(nodes, roots, path) != Set::<Seq<char>>::empty(),
        |path: Seq<char>| needed(nodes, roots, path),
    )
}

/// A root is reachable.
proof fn lemma_root_reachable(
    nodes: Map<Seq<char>, NodeModel>,
    roots: Set<Seq<char>>,
    root: Seq<char>,
)
    requires
        roots.contains(root),
    ensures
        reachable(nodes, roots, root),
{
    let walk = seq![root];
    assert(is_walk(nodes, walk));
    assert(walk.last() == root);
}

/// A dependency of a reachable node is reachable.
proof fn lemma_step_reachable(
    nodes: Map<Seq<char>, NodeModel>,
    roots: Set<Seq<char>>,
    path: Seq<char>,
    dependency: Seq<char>,
)
    requires
        reachable(nodes, roots, path),
        nodes.dom().contains(path),
        nodes[path].dependencies.dom().contains(dependency),
    ensures
        reachable(nodes, roots, dependency),
{
    let walk = choose|walk: Seq<Seq<char>>| #[trigger]
        is_walk(nodes, walk) && roots.contains(walk[0]) && walk.last() == path;
    let longer = walk.push(dependency);
    assert forall|i: int| 0 <= i < longer.len() - 1 implies nodes.dom().contains(
        #[trigger] longer[i],
    ) && nodes[longer[i]].dependencies.dom().contains(longer[i + 1]) by {
        assert(longer[i] == walk[i]);
        if i < walk.len() - 1 {
            assert(longer[i + 1] == walk[i + 1]);
        }
    }
    assert(is_walk(nodes, longer));
    assert(longer[0] == walk[0]);
    assert(longer.last() == dependency);
}

/// A set that holds the roots and the dependencies of its nodes holds every reachable path.
proof fn lemma_closed(
    nodes: Map<Seq<char>, NodeModel>,
    roots: Set<Seq<char>>,
    seen: Set<Seq<char>>,
    walk: Seq<Seq<char>>,
    k: int,
)
    requires
        forall|root: Seq<char>| #[trigger] roots.contains(root) ==> seen.contains(root),
        forall|path: Seq<char>, dependency: Seq<char>|
            #![trigger seen.contains(path), nodes[path].dependencies.dom().contains(dependency)]
            seen.contains(path) && nodes.dom().contains(path)
                && nodes[path].dependencies.dom().contains(dependency) ==> seen.contains(
                dependency,
            ),
        is_walk(nodes, walk),
        roots.contains(walk[0]),
        0 <= k < walk.len(),
    ensures
        seen.contains(walk[k]),
    decreases k,
{
    if k > 0 {
        lemma_closed(nodes, roots, seen, walk, k - 1);
        assert(nodes[walk[k - 1]].dependencies.dom().contains(walk[k]));
    }
}

/// `required` selects `output` of `path`.
spec fn held(required: StringMap<StringSet>, path: Seq<char>, output: Seq<char>) -> bool {
    required@.dom().contains(path) && required@[path]@.contains(output)
}

/// The selections are well-formed, and none is empty.
spec fn lean(required: StringMap<StringSet>) -> bool {
    &&& crate::model::selections_wf(required)
    &&& forall|path: Seq<char>| #[trigger]
        required@.dom().contains(path) ==> required@[path]@ != Set::<Seq<char>>::empty()
}

/// Adds `outputs` to the selection for `path`.
fn select(required: &mut StringMap<StringSet>, path: &String, outputs: &StringSet)
    requires
        lean(*old(required)),
        outputs.wf(),
    ensures
        lean(*final(required)),
        forall|p: Seq<char>, o: Seq<char>|
            #![trigger held(*final(required), p, o)]
            held(*final(required), p, o) <==> (held(*old(required), p, o) || (p == path@
                && outputs@.contains(o))),
{
    if outputs.is_empty() {
        return;
    }
    let ghost before = *required;
    let ghost extra = outputs@;
    proof {
        assert(exists|o: Seq<char>| extra.contains(o)) by {
            if forall|o: Seq<char>| !extra.contains(o) {
                assert(extra =~= Set::<Seq<char>>::empty());
            }
        }
    }
    match required.position(path.as_str()) {
        Some(i) => {
            proof {
                assert(before.values()[i as int].wf());
            }
            let selected = required.value_at_mut(i);
            selected.extend(outputs);
            proof {
                let o = choose|o: Seq<char>| extra.contains(o);
                assert(required@[path@]@.contains(o));
            }
        },
        None => {
            required.insert(path.clone(), outputs.clone());
            proof {
                let after = *required;
                assert forall|i: int| 0 <= i < after.values().len() implies (
                #[trigger] after.values()[i]).wf() by {
                    crate::ordered::lemma_map_at(after, i);
                    let key = after.keys()[i];
                    if key != path@ {
                        assert(before@.dom().contains(key));
                        let j = crate::ordered::lemma_map_position(before, key);
                        assert(before.values()[j].wf());
                    }
                }
                let o = choose|o: Seq<char>| extra.contains(o);
                assert(after@[path@]@.contains(o));
            }
        },
    }
}

/// A root selects `output` of `path`, or a node in `seen` consumes it.
spec fn gathered(
    nodes: Map<Seq<char>, NodeModel>,
    roots: Map<Seq<char>, Set<Seq<char>>>,
    seen: Set<Seq<char>>,
    path: Seq<char>,
    output: Seq<char>,
) -> bool {
    ||| roots.dom().contains(path) && roots[path].contains(output)
    ||| exists|dependent: Seq<char>| #[trigger]
        edge(nodes, dependent, path, output) && seen.contains(dependent)
}

/// `dependent` is a node that consumes `output` of `path`.
spec fn edge(
    nodes: Map<Seq<char>, NodeModel>,
    dependent: Seq<char>,
    path: Seq<char>,
    output: Seq<char>,
) -> bool {
    &&& nodes.dom().contains(dependent)
    &&& nodes[dependent].dependencies.dom().contains(path)
    &&& nodes[dependent].dependencies[path].contains(output)
}

/// What holds while the graph is walked.
spec fn walking(
    nodes: Map<Seq<char>, NodeModel>,
    roots: Map<Seq<char>, Set<Seq<char>>>,
    required: StringMap<StringSet>,
    pending: Seq<Seq<char>>,
    seen: Set<Seq<char>>,
) -> bool {
    &&& lean(required)
    &&& forall|p: Seq<char>, o: Seq<char>|
        #![trigger held(required, p, o)]
        held(required, p, o) <==> nodes.dom().contains(p) && gathered(nodes, roots, seen, p, o)
    &&& forall|p: Seq<char>| #[trigger] seen.contains(p) ==> reachable(nodes, roots.dom(), p)
    &&& forall|p: Seq<char>| #[trigger] pending.contains(p) ==> reachable(nodes, roots.dom(), p)
    &&& forall|p: Seq<char>| #[trigger]
        seen.contains(p) ==> nodes.dom().contains(p) || roots.dom().contains(p)
    &&& forall|p: Seq<char>| #[trigger]
        pending.contains(p) ==> nodes.dom().contains(p) || roots.dom().contains(p)
    &&& forall|p: Seq<char>| #[trigger]
        roots.dom().contains(p) ==> seen.contains(p) || pending.contains(p)
    &&& forall|p: Seq<char>, d: Seq<char>|
        #![trigger seen.contains(p), nodes[p].dependencies.dom().contains(d)]
        seen.contains(p) && nodes.dom().contains(p) && nodes[p].dependencies.dom().contains(d)
            ==> seen.contains(d) || pending.contains(d)
}

/// When the walk is over, what was gathered is what the roots need.
proof fn lemma_walked(
    nodes: Map<Seq<char>, NodeModel>,
    roots: Map<Seq<char>, Set<Seq<char>>>,
    required: StringMap<StringSet>,
    seen: Set<Seq<char>>,
)
    requires
        walking(nodes, roots, required, Seq::empty(), seen),
    ensures
        required.deep_view() == requirements(nodes, roots),
{
    let none = Seq::<Seq<char>>::empty();
    assert forall|p: Seq<char>| reachable(nodes, roots.dom(), p) implies seen.contains(p) by {
        let walk = choose|walk: Seq<Seq<char>>| #[trigger]
            is_walk(nodes, walk) && roots.dom().contains(walk[0]) && walk.last() == p;
        assert forall|r: Seq<char>| #[trigger] roots.dom().contains(r) implies seen.contains(r) by {
            assert(!none.contains(r));
        }
        assert forall|q: Seq<char>, d: Seq<char>|
            #![trigger seen.contains(q), nodes[q].dependencies.dom().contains(d)]
            seen.contains(q) && nodes.dom().contains(q) && nodes[q].dependencies.dom().contains(
                d,
            ) implies seen.contains(d) by {
            assert(!none.contains(d));
        }
        lemma_closed(nodes, roots.dom(), seen, walk, walk.len() - 1);
    }
    let target = requirements(nodes, roots);
    assert forall|p: Seq<char>, o: Seq<char>| nodes.dom().contains(p) implies (held(
        required,
        p,
        o,
    ) <==> #[trigger] needed(nodes, roots, p).contains(o)) by {
        if held(required, p, o) && !(roots.dom().contains(p) && roots[p].contains(o)) {
            let dependent = choose|dependent: Seq<char>| #[trigger]
                edge(nodes, dependent, p, o) && seen.contains(dependent);
            assert(consumes(nodes, roots.dom(), dependent, p, o));
        }
        if needed(nodes, roots, p).contains(o) && !(roots.dom().contains(p)
            && roots[p].contains(o)) {
            let dependent = choose|dependent: Seq<char>| #[trigger]
                consumes(nodes, roots.dom(), dependent, p, o);
            assert(edge(nodes, dependent, p, o) && seen.contains(dependent));
        }
    }
    assert forall|p: Seq<char>| required@.dom().contains(p) <==> target.dom().contains(p) by {
        if required@.dom().contains(p) {
            let set = required@[p]@;
            if forall|o: Seq<char>| !set.contains(o) {
                assert(set =~= Set::<Seq<char>>::empty());
            }
            let o = choose|o: Seq<char>| set.contains(o);
            assert(held(required, p, o));
            assert(needed(nodes, roots, p).contains(o));
        }
        if target.dom().contains(p) {
            let set = needed(nodes, roots, p);
            if forall|o: Seq<char>| !set.contains(o) {
                assert(set =~= Set::<Seq<char>>::empty());
            }
            let o = choose|o: Seq<char>| set.contains(o);
            assert(held(required, p, o));
        }
    }
    assert forall|p: Seq<char>| #[trigger] required@.dom().contains(p) implies required@[p]@
        == target[p] by {
        assert(target.dom().contains(p));
        assert forall|o: Seq<char>| required@[p]@.contains(o) <==> target[p].contains(o) by {
            assert(held(required, p, o) <==> needed(nodes, roots, p).contains(o));
        }
        assert(required@[p]@ =~= target[p]);
    }
    assert(required.deep_view() =~= target);
}

/// Pops the last path of a list.
proof fn lemma_popped(before: Seq<Seq<char>>, p: Seq<char>)
    requires
        before.len() > 0,
    ensures
        before.contains(p) <==> (before.drop_last().contains(p) || p == before.last()),
{
    let after = before.drop_last();
    if before.contains(p) && p != before.last() {
        assert(after[before.index_of(p)] == p);
    }
    if after.contains(p) {
        assert(before[after.index_of(p)] == p);
    }
}

proof fn lemma_pushed(before: Seq<Seq<char>>, x: Seq<char>, p: Seq<char>)
    ensures
        before.push(x).contains(p) <==> (before.contains(p) || p == x),
{
    let after = before.push(x);
    assert(after.drop_last() =~= before);
    lemma_popped(after, p);
}

/// Adds what one node consumes to `required`, and its dependencies to `pending`.
fn visit(
    graph: &DependencyGraph,
    index: usize,
    required: &mut StringMap<StringSet>,
    pending: &mut Vec<String>,
)
    requires
        graph.wf(),
        index < graph.handles().keys().len(),
        lean(*old(required)),
    ensures
        lean(*final(required)),
        forall|p: Seq<char>, o: Seq<char>|
            #![trigger held(*final(required), p, o)]
            held(*final(required), p, o) <==> (held(*old(required), p, o) || edge(
                graph.model(),
                graph.handles().keys()[index as int],
                p,
                o,
            )),
        forall|p: Seq<char>| #[trigger]
            final(pending).deep_view().contains(p) <==> (old(pending).deep_view().contains(p)
                || graph.model()[graph.handles().keys()[index as int]].dependencies.dom().contains(
                p,
            )),
{
    let ghost nodes = graph.model();
    let ghost path = graph.handles().keys()[index as int];
    let node = graph.nodes().value_at(index);
    let dependencies = &node.dependencies;
    proof {
        crate::ordered::lemma_map_at(graph.handles(), index as int);
        assert(graph.handles().values()[index as int].wf());
        assert(nodes[path] == node.deep_view());
        assert(nodes.dom().contains(path));
    }
    let ghost keys = dependencies.keys();
    let count = dependencies.len();
    let mut k: usize = 0;
    while k < count
        invariant
            nodes.dom().contains(path),
            nodes[path].dependencies == dependencies.deep_view(),
            crate::model::selections_wf(*dependencies),
            keys == dependencies.keys(),
            count == keys.len(),
            k <= count,
            lean(*required),
            forall|p: Seq<char>, o: Seq<char>|
                #![trigger held(*required, p, o)]
                held(*required, p, o) <==> (held(*old(required), p, o) || (keys.take(
                    k as int,
                ).contains(p) && edge(nodes, path, p, o))),
            forall|p: Seq<char>| #[trigger]
                pending.deep_view().contains(p) <==> (old(pending).deep_view().contains(p)
                    || keys.take(k as int).contains(p)),
        decreases count - k,
    {
        let dependency = dependencies.key_at(k);
        let outputs = dependencies.value_at(k);
        let ghost before = *required;
        let ghost waiting = pending.deep_view();
        let ghost done = keys.take(k as int);
        proof {
            crate::ordered::lemma_map_at(*dependencies, k as int);
            assert(dependencies.values()[k as int].wf());
            assert(keys.take(k + 1) =~= done.push(dependency@));
        }
        select(required, dependency, outputs);
        pending.push(dependency.clone());
        proof {
            assert(pending.deep_view() =~= waiting.push(dependency@));
            assert forall|p: Seq<char>, o: Seq<char>|
                #![trigger held(*required, p, o)]
                held(*required, p, o) <==> (held(*old(required), p, o) || (keys.take(
                    k + 1,
                ).contains(p) && edge(nodes, path, p, o))) by {
                lemma_pushed(done, dependency@, p);
                assert(held(before, p, o) <==> (held(*old(required), p, o) || (done.contains(p)
                    && edge(nodes, path, p, o))));
            }
            assert forall|p: Seq<char>| #[trigger]
                pending.deep_view().contains(p) <==> (old(pending).deep_view().contains(p)
                    || keys.take(k + 1).contains(p)) by {
                lemma_pushed(done, dependency@, p);
                lemma_pushed(waiting, dependency@, p);
                assert(waiting.contains(p) <==> (old(pending).deep_view().contains(p)
                    || done.contains(p)));
            }
        }
        k = k + 1;
    }
    assert(keys.take(count as int) =~= keys);
}

impl DependencyGraph {
    /// Returns, for every derivation that the roots need an output of, the outputs they need.
    pub fn required_outputs(&self, roots: &StringMap<StringSet>) -> (result: Result<
        StringMap<StringSet>,
        EngineError,
    >)
        requires
            self.wf(),
            crate::model::selections_wf(*roots),
        ensures
            result matches Ok(required) && crate::model::selections_wf(required)
                && required.deep_view() == requirements(self.model(), roots.deep_view()),
    {
        let ghost nodes = self.model();
        let ghost wanted = roots.deep_view();
        let mut required: StringMap<StringSet> = StringMap::new();
        let mut pending: Vec<String> = Vec::new();
        let mut seen = StringSet::new();
        proof {
            assert(pending.deep_view() =~= roots.keys().take(0));
        }
        let count = roots.len();
        let mut i: usize = 0;
        while i < count
            invariant
                self.wf(),
                nodes == self.model(),
                wanted == roots.deep_view(),
                crate::model::selections_wf(*roots),
                count == roots.keys().len(),
                i <= count,
                pending.deep_view() == roots.keys().take(i as int),
                lean(required),
                forall|p: Seq<char>, o: Seq<char>|
                    #![trigger held(required, p, o)]
                    held(required, p, o) <==> (roots.keys().take(i as int).contains(p)
                        && nodes.dom().contains(p) && wanted[p].contains(o)),
            decreases count - i,
        {
            let root = roots.key_at(i);
            let ghost before = required;
            let ghost done = roots.keys().take(i as int);
            proof {
                crate::ordered::lemma_map_at(*roots, i as int);
                assert(roots.values()[i as int].wf());
                assert(roots.keys().take(i + 1) =~= done.push(root@));
            }
            if self.nodes().contains_key(root.as_str()) {
                select(&mut required, root, roots.value_at(i));
            }
            pending.push(root.clone());
            proof {
                assert(pending.deep_view() =~= done.push(root@));
                assert forall|p: Seq<char>, o: Seq<char>|
                    #![trigger held(required, p, o)]
                    held(required, p, o) <==> (roots.keys().take(i + 1).contains(p)
                        && nodes.dom().contains(p) && wanted[p].contains(o)) by {
                    lemma_pushed(done, root@, p);
                    assert(held(before, p, o) <==> (done.contains(p) && nodes.dom().contains(p)
                        && wanted[p].contains(o)));
                }
            }
            i = i + 1;
        }
        let ghost universe = nodes.dom().union(wanted.dom());
        proof {
            assert(roots.keys().take(count as int) =~= roots.keys());
            crate::ordered::lemma_keys(*roots);
            crate::ordered::lemma_keys(self.handles());
            assert(nodes.dom() =~= self.handles()@.dom());
            assert(wanted.dom() =~= roots@.dom());
            vstd::set_lib::lemma_len_union(nodes.dom(), wanted.dom());
            assert forall|p: Seq<char>| #[trigger] pending.deep_view().contains(p) implies reachable(
                nodes,
                wanted.dom(),
                p,
            ) by {
                lemma_root_reachable(nodes, wanted.dom(), p);
            }
        }
        while pending.len() > 0
            invariant
                self.wf(),
                nodes == self.model(),
                wanted == roots.deep_view(),
                walking(nodes, wanted, required, pending.deep_view(), seen@),
                seen.wf(),
                universe == nodes.dom().union(wanted.dom()),
                universe.finite(),
                nodes.dom() == self.handles()@.dom(),
            decreases universe.len() - seen.members().len(), pending@.len(),
        {
            let ghost waiting = pending.deep_view();
            let ghost known = seen@;
            let last = pending.len() - 1;
            let path = pending[last].clone();
            pending.truncate(last);
            proof {
                assert(pending.deep_view() =~= waiting.drop_last());
                assert(waiting.last() == path@);
                assert(waiting.contains(path@));
                assert forall|p: Seq<char>| #[trigger] waiting.contains(p) <==> (
                pending.deep_view().contains(p) || p == path@) by {
                    lemma_popped(waiting, p);
                }
            }
            let ghost name = path@;
            let ghost rest = pending.deep_view();
            let ghost before = required;
            let fresh = seen.insert(path.clone());
            proof {
                seen.lemma_len();
                assert(seen@.subset_of(universe));
                vstd::set_lib::lemma_len_subset(seen@, universe);
            }
            if fresh {
                match self.nodes().position(path.as_str()) {
                    None => {
                        proof {
                            lemma_visited(nodes, wanted, before, required, waiting, rest, known, name);
                        }
                    },
                    Some(at) => {
                        visit(self, at, &mut required, &mut pending);
                        proof {
                            lemma_visited(
                                nodes,
                                wanted,
                                before,
                                required,
                                waiting,
                                pending.deep_view(),
                                known,
                                name,
                            );
                        }
                    },
                }
            } else {
                proof {
                    assert(seen@ =~= known);
                    assert forall|p: Seq<char>, d: Seq<char>|
                        #![trigger seen@.contains(p), nodes[p].dependencies.dom().contains(d)]
                        seen@.contains(p) && nodes.dom().contains(p)
                            && nodes[p].dependencies.dom().contains(d) implies seen@.contains(d)
                        || rest.contains(d) by {
                        assert(known.contains(d) || waiting.contains(d));
                    }
                    assert forall|p: Seq<char>| #[trigger]
                        wanted.dom().contains(p) implies seen@.contains(p) || rest.contains(p) by {
                        assert(known.contains(p) || waiting.contains(p));
                    }
                    assert forall|p: Seq<char>| #[trigger] rest.contains(p) implies waiting.contains(
                        p,
                    ) by {
                        assert(rest.contains(p) || p == name);
                    }
                }
            }
        }
        proof {
            assert(pending.deep_view() =~= Seq::<Seq<char>>::empty());
            lemma_walked(nodes, wanted, required, seen@);
        }
        Ok(required)
    }
}

/// Visiting a path keeps the walk going.
proof fn lemma_visited(
    nodes: Map<Seq<char>, NodeModel>,
    roots: Map<Seq<char>, Set<Seq<char>>>,
    before: StringMap<StringSet>,
    after: StringMap<StringSet>,
    waiting: Seq<Seq<char>>,
    pending: Seq<Seq<char>>,
    seen: Set<Seq<char>>,
    path: Seq<char>,
)
    requires
        walking(nodes, roots, before, waiting, seen),
        waiting.contains(path),
        lean(after),
        forall|path: Seq<char>, d: Seq<char>|
            nodes.dom().contains(path) && #[trigger] nodes[path].dependencies.dom().contains(d)
                ==> nodes.dom().contains(d),
        forall|p: Seq<char>, o: Seq<char>|
            #![trigger held(after, p, o)]
            held(after, p, o) <==> (held(before, p, o) || edge(nodes, path, p, o)),
        forall|p: Seq<char>| #[trigger]
            pending.contains(p) || p == path <==> (waiting.contains(p) || (nodes.dom().contains(
                path,
            ) && nodes[path].dependencies.dom().contains(p))),
    ensures
        walking(nodes, roots, after, pending, seen.insert(path)),
{
    let known = seen.insert(path);
    assert(reachable(nodes, roots.dom(), path));
    assert forall|p: Seq<char>, o: Seq<char>|
        #![trigger held(after, p, o)]
        held(after, p, o) <==> nodes.dom().contains(p) && gathered(nodes, roots, known, p, o) by {
        assert(held(before, p, o) <==> nodes.dom().contains(p) && gathered(
            nodes,
            roots,
            seen,
            p,
            o,
        ));
        if gathered(nodes, roots, known, p, o) && !(roots.dom().contains(p) && roots[p].contains(
            o,
        )) {
            let dependent = choose|dependent: Seq<char>| #[trigger]
                edge(nodes, dependent, p, o) && known.contains(dependent);
            if dependent != path {
                assert(seen.contains(dependent));
            }
        }
        if edge(nodes, path, p, o) {
            assert(known.contains(path));
        }
        if gathered(nodes, roots, seen, p, o) && !(roots.dom().contains(p) && roots[p].contains(
            o,
        )) {
            let dependent = choose|dependent: Seq<char>| #[trigger]
                edge(nodes, dependent, p, o) && seen.contains(dependent);
            assert(known.contains(dependent));
        }
    }
    assert forall|p: Seq<char>| #[trigger] pending.contains(p) implies reachable(
        nodes,
        roots.dom(),
        p,
    ) && (nodes.dom().contains(p) || roots.dom().contains(p)) by {
        if !waiting.contains(p) {
            lemma_step_reachable(nodes, roots.dom(), path, p);
        }
    }
    assert forall|p: Seq<char>, d: Seq<char>|
        #![trigger known.contains(p), nodes[p].dependencies.dom().contains(d)]
        known.contains(p) && nodes.dom().contains(p) && nodes[p].dependencies.dom().contains(
            d,
        ) implies known.contains(d) || pending.contains(d) by {
        if p != path {
            assert(seen.contains(p));
            assert(seen.contains(d) || waiting.contains(d));
        }
        assert(pending.contains(d) || d == path <==> (waiting.contains(d) || (
        nodes.dom().contains(path) && nodes[path].dependencies.dom().contains(d))));
    }
    assert forall|p: Seq<char>| #[trigger] roots.dom().contains(p) implies known.contains(p)
        || pending.contains(p) by {
        assert(seen.contains(p) || waiting.contains(p));
        assert(pending.contains(p) || p == path <==> (waiting.contains(p) || (
        nodes.dom().contains(path) && nodes[path].dependencies.dom().contains(p))));
    }
}

/// Nothing is required of a derivation that no walk from a root leads to.
pub proof fn law_unreachable_derivations_are_not_required(
    nodes: Map<Seq<char>, NodeModel>,
    roots: Map<Seq<char>, Set<Seq<char>>>,
    path: Seq<char>,
)
    requires
        !reachable(nodes, roots.dom(), path),
    ensures
        !requirements(nodes, roots).dom().contains(path),
{
    assert forall|output: Seq<char>| !needed(nodes, roots, path).contains(output) by {
        if needed(nodes, roots, path).contains(output) {
            if roots.dom().contains(path) {
                lemma_root_reachable(nodes, roots.dom(), path);
            } else {
                let dependent = choose|dependent: Seq<char>| #[trigger]
                    consumes(nodes, roots.dom(), dependent, path, output);
                lemma_step_reachable(nodes, roots.dom(), dependent, path);
            }
        }
    }
    assert(needed(nodes, roots, path) =~= Set::<Seq<char>>::empty());
}

/// What a required derivation consumes of a dependency is required too.
pub proof fn law_requirements_are_closed(
    nodes: Map<Seq<char>, NodeModel>,
    roots: Map<Seq<char>, Set<Seq<char>>>,
    path: Seq<char>,
    dependency: Seq<char>,
    output: Seq<char>,
)
    requires
        requirements(nodes, roots).dom().contains(path),
        nodes.dom().contains(dependency),
        nodes[path].dependencies.dom().contains(dependency),
        nodes[path].dependencies[dependency].contains(output),
    ensures
        requirements(nodes, roots).dom().contains(dependency),
        requirements(nodes, roots)[dependency].contains(output),
{
    if !reachable(nodes, roots.dom(), path) {
        law_unreachable_derivations_are_not_required(nodes, roots, path);
    }
    assert(consumes(nodes, roots.dom(), path, dependency, output));
    assert(needed(nodes, roots, dependency).contains(output));
}

/// What a root selects of a derivation is required of it.
pub proof fn law_roots_require_what_they_select(
    nodes: Map<Seq<char>, NodeModel>,
    roots: Map<Seq<char>, Set<Seq<char>>>,
    path: Seq<char>,
    output: Seq<char>,
)
    requires
        nodes.dom().contains(path),
        roots.dom().contains(path),
        roots[path].contains(output),
    ensures
        requirements(nodes, roots).dom().contains(path),
        requirements(nodes, roots)[path].contains(output),
{
    assert(needed(nodes, roots, path).contains(output));
}

/// Along every walk from a root, what each derivation consumes of the next is required of it,
/// whether or not anything is selected of the root itself.
pub proof fn law_walks_require_what_they_consume(
    nodes: Map<Seq<char>, NodeModel>,
    roots: Map<Seq<char>, Set<Seq<char>>>,
    walk: Seq<Seq<char>>,
    k: int,
    output: Seq<char>,
)
    requires
        walk.len() > 1,
        roots.dom().contains(walk[0]),
        forall|i: int|
            0 <= i < walk.len() - 1 ==> nodes.dom().contains(#[trigger] walk[i])
                && nodes[walk[i]].dependencies.dom().contains(walk[i + 1]),
        0 <= k < walk.len() - 1,
        nodes.dom().contains(walk[k + 1]),
        nodes[walk[k]].dependencies[walk[k + 1]].contains(output),
    ensures
        requirements(nodes, roots).dom().contains(walk[k + 1]),
        requirements(nodes, roots)[walk[k + 1]].contains(output),
{
    let start = walk.take(k + 1);
    assert forall|i: int| 0 <= i < start.len() - 1 implies nodes.dom().contains(#[trigger] start[i])
        && nodes[start[i]].dependencies.dom().contains(start[i + 1]) by {
        assert(start[i] == walk[i] && start[i + 1] == walk[i + 1]);
    }
    assert(is_walk(nodes, start));
    assert(start[0] == walk[0] && start.last() == walk[k]);
    assert(reachable(nodes, roots.dom(), walk[k]));
    assert(consumes(nodes, roots.dom(), walk[k], walk[k + 1], output));
    assert(needed(nodes, roots, walk[k + 1]).contains(output));
}

/// Nothing else is required: a required output is selected by a root, or consumed by a derivation
/// at the end of a walk from a root.
pub proof fn law_requirements_have_a_reason(
    nodes: Map<Seq<char>, NodeModel>,
    roots: Map<Seq<char>, Set<Seq<char>>>,
    path: Seq<char>,
    output: Seq<char>,
)
    requires
        requirements(nodes, roots).dom().contains(path),
        requirements(nodes, roots)[path].contains(output),
    ensures
        nodes.dom().contains(path),
        (roots.dom().contains(path) && roots[path].contains(output)) || exists|walk: Seq<Seq<char>>|
            {
                &&& #[trigger] is_walk(nodes, walk)
                &&& roots.dom().contains(walk[0])
                &&& nodes.dom().contains(walk.last())
                &&& nodes[walk.last()].dependencies.dom().contains(path)
                &&& nodes[walk.last()].dependencies[path].contains(output)
            },
{
    assert(needed(nodes, roots, path).contains(output));
    if !(roots.dom().contains(path) && roots[path].contains(output)) {
        let dependent = choose|dependent: Seq<char>| #[trigger]
            consumes(nodes, roots.dom(), dependent, path, output);
        let walk = choose|walk: Seq<Seq<char>>| #[trigger]
            is_walk(nodes, walk) && roots.dom().contains(walk[0]) && walk.last() == dependent;
        assert(is_walk(nodes, walk));
    }
}

/// Every derivation that is listed has something required of it.
pub proof fn law_listed_derivations_are_needed(
    nodes: Map<Seq<char>, NodeModel>,
    roots: Map<Seq<char>, Set<Seq<char>>>,
    path: Seq<char>,
)
    requires
        requirements(nodes, roots).dom().contains(path),
    ensures
        exists|output: Seq<char>| #[trigger] requirements(nodes, roots)[path].contains(output),
{
    if forall|output: Seq<char>| !#[trigger] needed(nodes, roots, path).contains(output) {
        assert(needed(nodes, roots, path) =~= Set::<Seq<char>>::empty());
    }
    let output = choose|output: Seq<char>| #[trigger] needed(nodes, roots, path).contains(output);
    assert(requirements(nodes, roots)[path].contains(output));
}

/// What is returned for a graph and its roots holds just what the roots need of the graph.
pub proof fn law_required_outputs_are_what_the_roots_need(
    graph: DependencyGraph,
    roots: StringMap<StringSet>,
    result: Result<StringMap<StringSet>, EngineError>,
    path: Seq<char>,
    output: Seq<char>,
)
    requires
        graph.wf(),
        crate::model::selections_wf(roots),
        call_ensures(DependencyGraph::required_outputs, (&graph, &roots), result),
    ensures
        result is Ok,
        ({
            let needed = result->Ok_0.deep_view();
            let nodes = graph.model();
            &&& needed.dom().contains(path) && needed[path].contains(output) ==> {
                ||| roots.deep_view().dom().contains(path) && roots.deep_view()[path].contains(
                    output,
                )
                ||| exists|walk: Seq<Seq<char>>|
                    {
                        &&& #[trigger] is_walk(nodes, walk)
                        &&& roots.deep_view().dom().contains(walk[0])
                        &&& nodes.dom().contains(walk.last())
                        &&& nodes[walk.last()].dependencies.dom().contains(path)
                        &&& nodes[walk.last()].dependencies[path].contains(output)
                    }
            }
            &&& nodes.dom().contains(path) && roots.deep_view().dom().contains(path)
                && roots.deep_view()[path].contains(output) ==> needed.dom().contains(path)
                && needed[path].contains(output)
        }),
{
    let nodes = graph.model();
    let wanted = roots.deep_view();
    let needed = requirements(nodes, wanted);
    if needed.dom().contains(path) && needed[path].contains(output) {
        law_requirements_have_a_reason(nodes, wanted, path, output);
    }
    if nodes.dom().contains(path) && wanted.dom().contains(path) && wanted[path].contains(output) {
        law_roots_require_what_they_select(nodes, wanted, path, output);
    }
}

} // verus!
