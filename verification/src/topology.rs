//! Dependency-first ordering of a numbered graph.

use vstd::prelude::*;

verus! {

/// Every dependency is a node, and no node lists one twice.
pub open spec fn well_numbered(deps: Seq<Vec<usize>>) -> bool {
    &&& forall|i: int, k: int|
        0 <= i < deps.len() && 0 <= k < deps[i]@.len() ==> #[trigger] deps[i]@[k] < deps.len()
    &&& forall|i: int| 0 <= i < deps.len() ==> (#[trigger] deps[i])@.no_duplicates()
}

/// `node` is not in `done`, and everything that it depends on is.
pub open spec fn available(deps: Seq<Vec<usize>>, done: Seq<usize>, node: usize) -> bool {
    &&& node < deps.len()
    &&& !done.contains(node)
    &&& forall|k: int|
        0 <= k < deps[node as int]@.len() ==> done.contains(#[trigger] deps[node as int]@[k])
}

/// `node` is the lowest-numbered node whose dependencies are all in `done`.
pub open spec fn comes_next(deps: Seq<Vec<usize>>, done: Seq<usize>, node: usize) -> bool {
    &&& available(deps, done, node)
    &&& forall|other: usize| #[trigger] available(deps, done, other) ==> node <= other
}

/// Each node of `order` comes after its dependencies and is the lowest-numbered node that could
/// come next.
pub open spec fn dependency_first(deps: Seq<Vec<usize>>, order: Seq<usize>) -> bool {
    forall|k: int| 0 <= k < order.len() ==> comes_next(deps, #[trigger] order.take(k), order[k])
}

/// Every member of `group` depends on a member of `group`.
pub open spec fn self_dependent(deps: Seq<Vec<usize>>, group: Set<usize>) -> bool {
    forall|node: usize| #[trigger]
        group.contains(node) ==> node < deps.len() && exists|k: int|
            0 <= k < deps[node as int]@.len() && group.contains(
                #[trigger] deps[node as int]@[k],
            )
}

/// `node` is part of a cycle or depends on one.
pub open spec fn cyclic(deps: Seq<Vec<usize>>, node: usize) -> bool {
    exists|group: Set<usize>| #[trigger] self_dependent(deps, group) && group.contains(node)
}

/// How many of a node's dependencies are not in `done`.
spec fn pending(list: Seq<usize>, done: Seq<usize>) -> nat
    decreases list.len(),
{
    if list.len() == 0 {
        0
    } else {
        let rest = pending(list.drop_last(), done);
        if done.contains(list.last()) {
            rest
        } else {
            rest + 1
        }
    }
}

proof fn lemma_contains_push(done: Seq<usize>, node: usize, x: usize)
    ensures
        done.push(node).contains(x) == (done.contains(x) || x == node),
{
    let after = done.push(node);
    if done.contains(x) {
        let i = done.index_of(x);
        assert(after[i] == x);
    }
    if x == node {
        assert(after[done.len() as int] == x);
    }
    if after.contains(x) {
        let i = after.index_of(x);
        if i < done.len() {
            assert(done[i] == x);
        }
    }
}

proof fn lemma_pending_empty(list: Seq<usize>)
    ensures
        pending(list, Seq::<usize>::empty()) == list.len(),
    decreases list.len(),
{
    if list.len() > 0 {
        lemma_pending_empty(list.drop_last());
    }
}

proof fn lemma_pending_zero(list: Seq<usize>, done: Seq<usize>)
    ensures
        pending(list, done) == 0 <==> forall|k: int|
            0 <= k < list.len() ==> done.contains(#[trigger] list[k]),
    decreases list.len(),
{
    if list.len() > 0 {
        let front = list.drop_last();
        lemma_pending_zero(front, done);
        if pending(list, done) == 0 {
            assert forall|k: int| 0 <= k < list.len() implies done.contains(#[trigger] list[k]) by {
                if k < front.len() {
                    assert(front[k] == list[k]);
                }
            }
        }
        if forall|k: int| 0 <= k < list.len() ==> done.contains(#[trigger] list[k]) {
            assert forall|k: int| 0 <= k < front.len() implies done.contains(
                #[trigger] front[k],
            ) by {
                assert(front[k] == list[k]);
            }
            assert(done.contains(list[list.len() - 1]));
        }
    }
}

proof fn lemma_pending_push(list: Seq<usize>, done: Seq<usize>, node: usize)
    requires
        list.no_duplicates(),
        !done.contains(node),
    ensures
        list.contains(node) ==> pending(list, done.push(node)) + 1 == pending(list, done),
        !list.contains(node) ==> pending(list, done.push(node)) == pending(list, done),
    decreases list.len(),
{
    if list.len() > 0 {
        let front = list.drop_last();
        let last = list.last();
        assert(front.no_duplicates());
        lemma_pending_push(front, done, node);
        lemma_contains_push(done, node, last);
        if front.contains(node) {
            let i = front.index_of(node);
            assert(list[i] == node);
            assert(last != node);
        }
        if list.contains(node) && last != node {
            let i = list.index_of(node);
            assert(front[i] == node);
        }
        if last == node {
            assert(list[list.len() - 1] == node);
        }
    }
}

/// Inserts `node` into a list kept in descending order.
fn insert_descending(list: &mut Vec<usize>, node: usize)
    requires
        forall|i: int, j: int| 0 <= i < j < old(list)@.len() ==> old(list)@[i] > old(list)@[j],
        !old(list)@.contains(node),
    ensures
        forall|i: int, j: int|
            0 <= i < j < final(list)@.len() ==> final(list)@[i] > final(list)@[j],
        forall|x: usize|
            #![trigger final(list)@.contains(x)]
            final(list)@.contains(x) <==> (old(list)@.contains(x) || x == node),
{
    let mut at: usize = list.len();
    while at > 0 && list[at - 1] < node
        invariant
            at <= list@.len(),
            list@ == old(list)@,
            forall|i: int, j: int| 0 <= i < j < list@.len() ==> list@[i] > list@[j],
            forall|j: int| at <= j < list@.len() ==> list@[j] < node,
        decreases at,
    {
        at = at - 1;
    }
    let ghost before = list@;
    assert(at > 0 ==> before[at - 1] != node) by {
        if at > 0 && before[at - 1] == node {
            assert(before.contains(node));
        }
    }
    list.insert(at, node);
    proof {
        let after = list@;
        assert forall|x: usize| after.contains(x) <==> (before.contains(x) || x == node) by {
            if before.contains(x) {
                let i = before.index_of(x);
                if i < at {
                    assert(after[i] == x);
                } else {
                    assert(after[i + 1] == x);
                }
            }
            if x == node {
                assert(after[at as int] == x);
            }
            if after.contains(x) {
                let i = after.index_of(x);
                if i < at {
                    assert(before[i] == x);
                } else if i > at {
                    assert(before[i - 1] == x);
                }
            }
        }
    }
}

/// Lists, for every node, the nodes that depend on it.
fn dependents_of(deps: &Vec<Vec<usize>>) -> (result: Vec<Vec<usize>>)
    requires
        well_numbered(deps@),
    ensures
        result@.len() == deps@.len(),
        forall|d: int| 0 <= d < deps@.len() ==> (#[trigger] result@[d])@.no_duplicates(),
        forall|d: int, i: usize|
            #![trigger result@[d]@.contains(i)]
            0 <= d < deps@.len() ==> (result@[d]@.contains(i) <==> (i < deps@.len()
                && deps@[i as int]@.contains(d as usize))),
{
    let mut result: Vec<Vec<usize>> = Vec::new();
    let count = deps.len();
    let mut i: usize = 0;
    while i < count
        invariant
            i <= count,
            result@.len() == i,
            forall|d: int| 0 <= d < i ==> (#[trigger] result@[d])@ == Seq::<usize>::empty(),
        decreases count - i,
    {
        result.push(Vec::new());
        i = i + 1;
    }
    let mut i: usize = 0;
    while i < count
        invariant
            well_numbered(deps@),
            count == deps@.len(),
            i <= count,
            result@.len() == count,
            forall|d: int| 0 <= d < count ==> (#[trigger] result@[d])@.no_duplicates(),
            forall|d: int, x: usize|
                #![trigger result@[d]@.contains(x)]
                0 <= d < count ==> (result@[d]@.contains(x) <==> (x < i
                    && deps@[x as int]@.contains(d as usize))),
        decreases count - i,
    {
        let list = &deps[i];
        let mut k: usize = 0;
        while k < list.len()
            invariant
                well_numbered(deps@),
                count == deps@.len(),
                i < count,
                *list == deps@[i as int],
                k <= list@.len(),
                result@.len() == count,
                forall|d: int| 0 <= d < count ==> (#[trigger] result@[d])@.no_duplicates(),
                forall|d: int, x: usize|
                    #![trigger result@[d]@.contains(x)]
                    0 <= d < count ==> (result@[d]@.contains(x) <==> ((x < i
                        && deps@[x as int]@.contains(d as usize)) || (x == i && list@.take(
                        k as int,
                    ).contains(d as usize)))),
            decreases list@.len() - k,
        {
            let dependency: usize = list[k];
            assert(deps@[i as int]@[k as int] < deps@.len());
            let ghost before = result@;
            let ghost seen = list@.take(k as int);
            proof {
                assert(!seen.contains(dependency)) by {
                    if seen.contains(dependency) {
                        let j = seen.index_of(dependency);
                        assert(list@[j] == list@[k as int]);
                    }
                }
                assert(!before[dependency as int]@.contains(i));
                assert(list@.take(k + 1) =~= seen.push(dependency));
            }
            result[dependency].push(i);
            proof {
                assert(result@[dependency as int]@ == before[dependency as int]@.push(i));
                assert forall|d: int| 0 <= d < count && d != dependency implies #[trigger] result@[d]
                    == before[d] by {}
                assert forall|d: int| 0 <= d < count implies (
                #[trigger] result@[d])@.no_duplicates() by {
                    assert(before[d]@.no_duplicates());
                    if d == dependency {
                        assert forall|a: int, b: int|
                            0 <= a < result@[d]@.len() && 0 <= b < result@[d]@.len() && a
                                != b implies result@[d]@[a] != result@[d]@[b] by {
                            if a == before[d]@.len() {
                                assert(before[d]@[b] != i) by {
                                    if before[d]@[b] == i {
                                        assert(before[d]@.contains(i));
                                    }
                                }
                            } else if b == before[d]@.len() {
                                assert(before[d]@[a] != i) by {
                                    if before[d]@[a] == i {
                                        assert(before[d]@.contains(i));
                                    }
                                }
                            }
                        }
                    }
                }
                assert forall|d: int, x: usize|
                    #![trigger result@[d]@.contains(x)]
                    0 <= d < count implies (result@[d]@.contains(x) <==> ((x < i
                    && deps@[x as int]@.contains(d as usize)) || (x == i && list@.take(
                    k + 1,
                ).contains(d as usize)))) by {
                    lemma_contains_push(before[d]@, i, x);
                    lemma_contains_push(seen, dependency, d as usize);
                    assert(before[d]@.contains(x) <==> ((x < i && deps@[x as int]@.contains(
                        d as usize,
                    )) || (x == i && seen.contains(d as usize))));
                }
            }
            k = k + 1;
        }
        assert(list@.take(list@.len() as int) =~= list@);
        i = i + 1;
    }
    result
}

/// What holds between two steps of the ordering.
spec fn in_progress(
    deps: Seq<Vec<usize>>,
    order: Seq<usize>,
    remaining: Seq<usize>,
    ready: Seq<usize>,
) -> bool {
    &&& remaining.len() == deps.len()
    &&& order.no_duplicates()
    &&& dependency_first(deps, order)
    &&& forall|i: int, j: int| 0 <= i < j < ready.len() ==> ready[i] > ready[j]
    &&& forall|i: int|
        0 <= i < deps.len() ==> #[trigger] remaining[i] == pending(deps[i]@, order)
    &&& forall|x: usize|
        #![trigger ready.contains(x)]
        ready.contains(x) <==> available(deps, order, x)
}

/// The next node is the last of the ready ones, and it keeps the order dependency first.
proof fn lemma_next(
    deps: Seq<Vec<usize>>,
    order: Seq<usize>,
    remaining: Seq<usize>,
    ready: Seq<usize>,
)
    requires
        in_progress(deps, order, remaining, ready),
        ready.len() > 0,
    ensures
        ready.last() < deps.len(),
        !order.contains(ready.last()),
        order.push(ready.last()).no_duplicates(),
        dependency_first(deps, order.push(ready.last())),
{
    let node = ready.last();
    assert(ready.contains(node));
    let after = order.push(node);
    assert forall|k: int| 0 <= k < after.len() implies comes_next(
        deps,
        #[trigger] after.take(k),
        after[k],
    ) by {
        assert(after.take(k) =~= order.take(k));
        if k < order.len() {
            assert(after[k] == order[k]);
        } else {
            assert(order.take(k) =~= order);
            assert forall|other: usize| #[trigger] available(
                deps,
                order,
                other,
            ) implies node <= other by {
                assert(ready.contains(other));
                let j = ready.index_of(other);
                assert(ready[j] >= ready[ready.len() - 1]);
            }
        }
    }
    assert forall|a: int, b: int|
        0 <= a < after.len() && 0 <= b < after.len() && a != b implies after[a] != after[b] by {
        if a == order.len() {
            if order[b] == node {
                assert(order.contains(node));
            }
        } else if b == order.len() {
            if order[a] == node {
                assert(order.contains(node));
            }
        }
    }
}

/// No node of a dependency-first order is cyclic.
proof fn lemma_ordered_not_cyclic(
    deps: Seq<Vec<usize>>,
    order: Seq<usize>,
    group: Set<usize>,
    k: int,
)
    requires
        dependency_first(deps, order),
        self_dependent(deps, group),
        0 <= k < order.len(),
    ensures
        !group.contains(order[k]),
    decreases k,
{
    let node = order[k];
    if group.contains(node) {
        let d = choose|d: int|
            0 <= d < deps[node as int]@.len() && group.contains(
                #[trigger] deps[node as int]@[d],
            );
        let dependency = deps[node as int]@[d];
        assert(comes_next(deps, order.take(k), node));
        assert(order.take(k).contains(dependency));
        let j = order.take(k).index_of(dependency);
        assert(order[j] == dependency);
        lemma_ordered_not_cyclic(deps, order, group, j);
    }
}

/// When nothing is ready, exactly the nodes that were not ordered are cyclic.
proof fn lemma_stuck(
    deps: Seq<Vec<usize>>,
    order: Seq<usize>,
    remaining: Seq<usize>,
)
    requires
        well_numbered(deps),
        in_progress(deps, order, remaining, Seq::empty()),
        deps.len() <= usize::MAX,
    ensures
        forall|node: usize|
            #![trigger cyclic(deps, node)]
            cyclic(deps, node) <==> node < deps.len() && !order.contains(node),
{
    let ready = Seq::<usize>::empty();
    let left = Set::new(|node: usize| node < deps.len() && !order.contains(node));
    assert(self_dependent(deps, left)) by {
        assert forall|node: usize| #[trigger] left.contains(node) implies node < deps.len()
            && exists|k: int|
            0 <= k < deps[node as int]@.len() && left.contains(
                #[trigger] deps[node as int]@[k],
            ) by {
            assert(!ready.contains(node));
            assert(!available(deps, order, node));
            let k = choose|k: int|
                0 <= k < deps[node as int]@.len() && !order.contains(
                    #[trigger] deps[node as int]@[k],
                );
            assert(left.contains(deps[node as int]@[k]));
        }
    }
    assert forall|node: usize| #![trigger cyclic(deps, node)]
        cyclic(deps, node) <==> node < deps.len() && !order.contains(node) by {
        if cyclic(deps, node) {
            let group = choose|group: Set<usize>| #[trigger]
                self_dependent(deps, group) && group.contains(node);
            if order.contains(node) {
                lemma_ordered_not_cyclic(deps, order, group, order.index_of(node));
            }
        }
        if node < deps.len() && !order.contains(node) {
            assert(left.contains(node));
        }
    }
}

/// A list of distinct numbers below `n` holds at most `n`, and all of them when it holds `n`.
proof fn lemma_pigeonhole(list: Seq<usize>, n: nat)
    requires
        list.no_duplicates(),
        forall|i: int| 0 <= i < list.len() ==> #[trigger] list[i] < n,
    ensures
        list.len() <= n,
        list.len() == n ==> forall|x: usize| x < n ==> list.contains(x),
    decreases n,
{
    if n == 0 {
        if list.len() > 0 {
            assert(list[0] < n);
        }
    } else {
        let top = (n - 1) as usize;
        if list.contains(top) {
            let at = list.index_of(top);
            let rest = list.remove(at);
            assert forall|i: int| 0 <= i < rest.len() implies #[trigger] rest[i] < n - 1 by {
                let j = if i < at { i } else { i + 1 };
                assert(rest[i] == list[j]);
                assert(list[j] != list[at]);
            }
            assert(rest.no_duplicates());
            lemma_pigeonhole(rest, (n - 1) as nat);
            if list.len() == n {
                assert forall|x: usize| x < n implies list.contains(x) by {
                    if x != top {
                        assert(rest.contains(x));
                        let i = rest.index_of(x);
                        let j = if i < at { i } else { i + 1 };
                        assert(list[j] == x);
                    }
                }
            }
        } else {
            assert forall|i: int| 0 <= i < list.len() implies #[trigger] list[i] < n - 1 by {
                if list[i] == top {
                    assert(list.contains(top));
                }
            }
            lemma_pigeonhole(list, (n - 1) as nat);
        }
    }
}

/// A dependency-first order holds every node at most once.
proof fn lemma_ordered_bound(deps: Seq<Vec<usize>>, order: Seq<usize>)
    requires
        dependency_first(deps, order),
        order.no_duplicates(),
    ensures
        order.len() <= deps.len(),
        order.len() == deps.len() ==> forall|x: usize| x < deps.len() ==> order.contains(x),
{
    assert forall|i: int| 0 <= i < order.len() implies #[trigger] order[i] < deps.len() by {
        assert(comes_next(deps, order.take(i), order[i]));
    }
    lemma_pigeonhole(order, deps.len());
}

/// A dependency-first order as long as the graph holds every node.
pub proof fn lemma_complete(deps: Seq<Vec<usize>>, order: Seq<usize>)
    requires
        dependency_first(deps, order),
        order.len() == deps.len(),
    ensures
        forall|x: usize| x < deps.len() ==> order.contains(x),
{
    assert forall|a: int, b: int|
        0 <= a < order.len() && 0 <= b < order.len() && a != b implies order[a] != order[b] by {
        if a < b {
            assert(comes_next(deps, order.take(b), order[b]));
            assert(order.take(b)[a] == order[a]);
            assert(order.take(b).contains(order[a]));
        } else {
            assert(comes_next(deps, order.take(a), order[a]));
            assert(order.take(a)[b] == order[b]);
            assert(order.take(a).contains(order[b]));
        }
    }
    lemma_ordered_bound(deps, order);
}

/// A list that holds every number below `n` is at least `n` long.
proof fn lemma_covering_length(list: Seq<usize>, n: nat)
    requires
        n <= usize::MAX,
        forall|x: usize| x < n ==> list.contains(x),
    ensures
        list.len() >= n,
{
    let numbers = Seq::new(n, |i: int| i as usize);
    assert(numbers.no_duplicates());
    assert(numbers.to_set().subset_of(list.to_set())) by {
        assert forall|x: usize| numbers.to_set().contains(x) implies list.to_set().contains(x) by {
            let i = numbers.index_of(x);
            assert(numbers[i] == x);
        }
    }
    vstd::seq_lib::seq_to_set_is_finite(list);
    numbers.unique_seq_to_set();
    list.lemma_cardinality_of_set();
    vstd::set_lib::lemma_len_subset(numbers.to_set(), list.to_set());
}

/// Takes `node` off the counts of its dependents and adds those that become available to `ready`.
fn settle(
    deps: &Vec<Vec<usize>>,
    dependents: &Vec<usize>,
    remaining: &mut Vec<usize>,
    ready: &mut Vec<usize>,
    node: usize,
    order: &Vec<usize>,
)
    requires
        well_numbered(deps@),
        available(deps@, order@, node),
        dependency_first(deps@, order@),
        old(remaining)@.len() == deps@.len(),
        forall|i: int|
            0 <= i < deps@.len() ==> #[trigger] old(remaining)@[i] == pending(deps@[i]@, order@),
        dependents@.no_duplicates(),
        forall|x: usize|
            #![trigger dependents@.contains(x)]
            dependents@.contains(x) <==> (x < deps@.len() && deps@[x as int]@.contains(node)),
        forall|i: int, j: int| 0 <= i < j < old(ready)@.len() ==> old(ready)@[i] > old(ready)@[j],
        forall|x: usize|
            #![trigger old(ready)@.contains(x)]
            old(ready)@.contains(x) <==> (available(deps@, order@, x) && x != node),
    ensures
        final(remaining)@.len() == deps@.len(),
        forall|i: int|
            0 <= i < deps@.len() ==> #[trigger] final(remaining)@[i] == pending(
                deps@[i]@,
                order@.push(node),
            ),
        forall|i: int, j: int|
            0 <= i < j < final(ready)@.len() ==> final(ready)@[i] > final(ready)@[j],
        forall|x: usize|
            #![trigger final(ready)@.contains(x)]
            final(ready)@.contains(x) <==> available(deps@, order@.push(node), x),
{
    let ghost after = order@.push(node);
    let ghost before_ready = ready@;
    let count = deps.len();
    let mut k: usize = 0;
    assert(dependents@.take(0) =~= Seq::<usize>::empty());
    while k < dependents.len()
        invariant
            well_numbered(deps@),
            count == deps@.len(),
            available(deps@, order@, node),
            after == order@.push(node),
            dependents@.no_duplicates(),
            forall|x: usize|
                #![trigger dependents@.contains(x)]
                dependents@.contains(x) <==> (x < deps@.len() && deps@[x as int]@.contains(node)),
            k <= dependents@.len(),
            remaining@.len() == deps@.len(),
            forall|i: int|
                0 <= i < deps@.len() ==> #[trigger] remaining@[i] == (if dependents@.take(
                    k as int,
                ).contains(i as usize) {
                    pending(deps@[i]@, after)
                } else {
                    pending(deps@[i]@, order@)
                }),
            forall|i: int, j: int| 0 <= i < j < ready@.len() ==> ready@[i] > ready@[j],
            forall|x: usize|
                #![trigger before_ready.contains(x)]
                before_ready.contains(x) <==> (available(deps@, order@, x) && x != node),
            forall|x: usize|
                #![trigger ready@.contains(x)]
                ready@.contains(x) <==> (before_ready.contains(x) || (dependents@.take(
                    k as int,
                ).contains(x) && pending(deps@[x as int]@, after) == 0)),
        decreases dependents@.len() - k,
    {
        let dependent: usize = dependents[k];
        let ghost seen = dependents@.take(k as int);
        let ghost list = deps@[dependent as int]@;
        proof {
            assert(dependents@.contains(dependent));
            assert(!seen.contains(dependent)) by {
                if seen.contains(dependent) {
                    let j = seen.index_of(dependent);
                    assert(dependents@[j] == dependents@[k as int]);
                }
            }
            assert(dependents@.take(k + 1) =~= seen.push(dependent));
            assert forall|x: usize| #[trigger]
                seen.push(dependent).contains(x) == (seen.contains(x) || x == dependent) by {
                lemma_contains_push(seen, dependent, x);
            }
            lemma_pending_push(list, order@, node);
            assert(remaining@[dependent as int] == pending(list, order@));
            assert(!before_ready.contains(dependent)) by {
                if before_ready.contains(dependent) {
                    assert(available(deps@, order@, dependent));
                    let j = list.index_of(node);
                    assert(order@.contains(list[j]));
                }
            }
            assert(!ready@.contains(dependent));
        }
        let left: usize = remaining[dependent] - 1;
        remaining.set(dependent, left);
        if left == 0 {
            insert_descending(ready, dependent);
        }
        k = k + 1;
    }
    proof {
        assert(dependents@.take(dependents@.len() as int) =~= dependents@);
        assert forall|i: int| 0 <= i < deps@.len() implies #[trigger] remaining@[i] == pending(
            deps@[i]@,
            after,
        ) by {
            lemma_pending_push(deps@[i]@, order@, node);
            assert(dependents@.contains(i as usize) <==> deps@[i]@.contains(node));
        }
        assert forall|x: usize| #![trigger ready@.contains(x)]
            ready@.contains(x) <==> available(deps@, after, x) by {
            lemma_contains_push(order@, node, x);
            if x < deps@.len() {
                let list = deps@[x as int]@;
                lemma_pending_zero(list, after);
                lemma_pending_zero(list, order@);
                lemma_pending_push(list, order@, node);
                assert(dependents@.contains(x) <==> list.contains(node));
                if list.contains(node) {
                    assert(list[list.index_of(node)] == node);
                    if order@.contains(x) {
                        let k = order@.index_of(x);
                        assert(comes_next(deps@, order@.take(k), order@[k]));
                        assert(order@.take(k).contains(list[list.index_of(node)]));
                        let j = order@.take(k).index_of(node);
                        assert(order@[j] == node);
                    }
                }
            }
            assert(before_ready.contains(x) <==> (available(deps@, order@, x) && x != node));
            assert(dependents@.contains(x) ==> x < deps@.len());
        }
    }
}

/// Orders the nodes so that each comes after its dependencies, the lowest number first wherever
/// several could come next. Where a cycle prevents that, returns the nodes that are part of a
/// cycle or depend on one, in ascending order.
pub fn dependency_order(deps: &Vec<Vec<usize>>) -> (result: Result<Vec<usize>, Vec<usize>>)
    requires
        well_numbered(deps@),
    ensures
        match result {
            Ok(order) => {
                &&& order@.len() == deps@.len()
                &&& dependency_first(deps@, order@)
                &&& forall|node: usize| !#[trigger] cyclic(deps@, node)
            },
            Err(stuck) => {
                &&& stuck@.len() > 0
                &&& forall|i: int, j: int| 0 <= i < j < stuck@.len() ==> stuck@[i] < stuck@[j]
                &&& forall|node: usize| #[trigger]
                    stuck@.contains(node) <==> cyclic(deps@, node)
            },
        },
{
    let dependents = dependents_of(deps);
    let count = deps.len();
    let mut remaining: Vec<usize> = Vec::new();
    let mut ready: Vec<usize> = Vec::new();
    let mut order: Vec<usize> = Vec::new();
    let mut i: usize = 0;
    while i < count
        invariant
            count == deps@.len(),
            i <= count,
            remaining@.len() == i,
            forall|j: int| 0 <= j < i ==> #[trigger] remaining@[j] == deps@[j]@.len(),
        decreases count - i,
    {
        remaining.push(deps[i].len());
        i = i + 1;
    }
    while i > 0
        invariant
            count == deps@.len(),
            i <= count,
            forall|a: int, b: int| 0 <= a < b < ready@.len() ==> ready@[a] > ready@[b],
            forall|a: int| 0 <= a < ready@.len() ==> #[trigger] ready@[a] >= i,
            forall|x: usize|
                #![trigger ready@.contains(x)]
                ready@.contains(x) <==> (i <= x < count && deps@[x as int]@.len() == 0),
        decreases i,
    {
        i = i - 1;
        if deps[i].len() == 0 {
            let ghost before = ready@;
            ready.push(i);
            proof {
                assert forall|x: usize| #![trigger ready@.contains(x)]
                    ready@.contains(x) <==> (i <= x < count && deps@[x as int]@.len() == 0) by {
                    lemma_contains_push(before, i, x);
                    assert(before.contains(x) <==> (i + 1 <= x < count && deps@[x as int]@.len()
                        == 0));
                }
            }
        }
    }
    proof {
        assert forall|j: int| 0 <= j < deps@.len() implies #[trigger] remaining@[j] == pending(
            deps@[j]@,
            order@,
        ) by {
            lemma_pending_empty(deps@[j]@);
        }
        assert forall|x: usize| #![trigger ready@.contains(x)]
            ready@.contains(x) <==> available(deps@, order@, x) by {
            if x < deps@.len() {
                lemma_pending_empty(deps@[x as int]@);
                lemma_pending_zero(deps@[x as int]@, order@);
            }
        }
    }
    while ready.len() > 0
        invariant
            well_numbered(deps@),
            dependents@.len() == deps@.len(),
            forall|d: int| 0 <= d < deps@.len() ==> (#[trigger] dependents@[d])@.no_duplicates(),
            forall|d: int, i: usize|
                #![trigger dependents@[d]@.contains(i)]
                0 <= d < deps@.len() ==> (dependents@[d]@.contains(i) <==> (i < deps@.len()
                    && deps@[i as int]@.contains(d as usize))),
            in_progress(deps@, order@, remaining@, ready@),
        decreases deps@.len() - order@.len(),
    {
        proof {
            lemma_next(deps@, order@, remaining@, ready@);
            assert(ready@.contains(ready@.last()));
            lemma_ordered_bound(deps@, order@.push(ready@.last()));
        }
        let ghost before = ready@;
        let node: usize = ready[ready.len() - 1];
        ready.truncate(ready.len() - 1);
        proof {
            assert(ready@ =~= before.drop_last());
            assert(before =~= ready@.push(node));
            assert forall|x: usize| #![trigger ready@.contains(x)]
                ready@.contains(x) <==> (available(deps@, order@, x) && x != node) by {
                lemma_contains_push(ready@, node, x);
                assert(before.contains(x) <==> available(deps@, order@, x));
                if ready@.contains(node) {
                    let j = ready@.index_of(node);
                    assert(before[j] > before[before.len() - 1]);
                }
            }
        }
        settle(deps, &dependents[node], &mut remaining, &mut ready, node, &order);
        order.push(node);
    }
    proof {
        assert(ready@ =~= Seq::<usize>::empty());
        lemma_stuck(deps@, order@, remaining@);
        lemma_ordered_bound(deps@, order@);
    }
    if order.len() == count {
        return Ok(order);
    }
    let mut stuck: Vec<usize> = Vec::new();
    let mut i: usize = 0;
    while i < count
        invariant
            count == deps@.len(),
            count == remaining@.len(),
            i <= count,
            forall|j: int|
                0 <= j < count ==> #[trigger] remaining@[j] == pending(deps@[j]@, order@),
            forall|a: int, b: int| 0 <= a < b < stuck@.len() ==> stuck@[a] < stuck@[b],
            forall|a: int| 0 <= a < stuck@.len() ==> #[trigger] stuck@[a] < i,
            forall|x: usize|
                #![trigger stuck@.contains(x)]
                stuck@.contains(x) <==> (x < i && pending(deps@[x as int]@, order@) > 0),
        decreases count - i,
    {
        if remaining[i] > 0 {
            let ghost before = stuck@;
            stuck.push(i);
            proof {
                assert forall|x: usize| #![trigger stuck@.contains(x)]
                    stuck@.contains(x) <==> (x < i + 1 && pending(deps@[x as int]@, order@)
                        > 0) by {
                    lemma_contains_push(before, i, x);
                    assert(before.contains(x) <==> (x < i && pending(deps@[x as int]@, order@)
                        > 0));
                }
            }
        }
        i = i + 1;
    }
    proof {
        assert forall|node: usize| #[trigger] stuck@.contains(node) <==> cyclic(deps@, node) by {
            if node < deps@.len() {
                let list = deps@[node as int]@;
                lemma_pending_zero(list, order@);
                if order@.contains(node) {
                    let k = order@.index_of(node);
                    assert(comes_next(deps@, order@.take(k), order@[k]));
                    assert forall|d: int| 0 <= d < list.len() implies order@.contains(
                        #[trigger] list[d],
                    ) by {
                        let j = order@.take(k).index_of(list[d]);
                        assert(order@[j] == list[d]);
                    }
                } else {
                    assert(!ready@.contains(node));
                }
            }
            assert(cyclic(deps@, node) <==> node < deps@.len() && !order@.contains(node));
        }
        if stuck@.len() == 0 {
            assert forall|x: usize| x < count implies order@.contains(x) by {
                assert(!stuck@.contains(x));
                assert(!cyclic(deps@, x));
            }
            lemma_covering_length(order@, count as nat);
        }
    }
    Err(stuck)
}

} // verus!
