//! Depth-first traversal of the dependency graph, in preorder.

use crate::graph::{graph_edges, graph_node_count, successors, SystemGraph, Traversal};
use petgraph::graph::NodeIndex;
use petgraph::visit::Dfs;
use vstd::prelude::*;

verus! {

/// The stack of a traversal: the nodes still to visit, the next one last.
pub uninterp spec fn dfs_stack(dfs: Traversal) -> Seq<usize>;

/// The nodes that a traversal has discovered.
pub uninterp spec fn dfs_discovered(dfs: Traversal) -> Set<usize>;

/// The number of nodes that the visit map of a traversal was made for.
pub uninterp spec fn dfs_capacity(dfs: Traversal) -> nat;

/// `stack` without the discovered nodes at its top: what `Dfs::next` pops
/// before it finds a node to visit.
pub open spec fn pending(stack: Seq<usize>, discovered: Set<usize>) -> Seq<usize>
    decreases stack.len(),
{
    if stack.len() > 0 && discovered.contains(stack.last()) {
        pending(stack.drop_last(), discovered)
    } else {
        stack
    }
}

/// Those of `nodes` that are not discovered, in their order.
pub open spec fn fresh(nodes: Seq<usize>, discovered: Set<usize>) -> Seq<usize> {
    nodes.filter(|node: usize| !discovered.contains(node))
}

/// The node that the traversal visits next: the topmost node of the stack
/// that is not discovered.
pub open spec fn next_node(stack: Seq<usize>, discovered: Set<usize>) -> Option<usize> {
    let rest = pending(stack, discovered);
    if rest.len() == 0 {
        None
    } else {
        Some(rest.last())
    }
}

/// The discovered nodes after one step.
pub open spec fn discovered_after(stack: Seq<usize>, discovered: Set<usize>) -> Set<usize> {
    match next_node(stack, discovered) {
        Some(node) => discovered.insert(node),
        None => discovered,
    }
}

/// The stack after one step: the visited node is popped with what lay above
/// it, and its successors that are not discovered are pushed in the order of
/// `Graph::neighbors`, so that the one whose edge is oldest is on top.
pub open spec fn stack_after(edges: Seq<(usize, usize)>, stack: Seq<usize>, discovered: Set<usize>) -> Seq<usize> {
    let rest = pending(stack, discovered);
    if rest.len() == 0 {
        rest
    } else {
        rest.drop_last() + fresh(successors(edges, rest.last()), discovered.insert(rest.last()))
    }
}

/// The nodes that a traversal in the given state visits from now on, at most
/// `limit` of them. A traversal visits no node twice, so the number of nodes
/// that are not discovered is limit enough.
pub open spec fn visit(edges: Seq<(usize, usize)>, stack: Seq<usize>, discovered: Set<usize>, limit: nat) -> Seq<usize>
    decreases limit,
{
    if limit == 0 {
        Seq::empty()
    } else {
        match next_node(stack, discovered) {
            None => Seq::empty(),
            Some(node) => seq![node] + visit(
                edges,
                stack_after(edges, stack, discovered),
                discovered_after(stack, discovered),
                (limit - 1) as nat,
            ),
        }
    }
}

/// The preorder of the nodes of a graph with `count` nodes that the root
/// reaches, the root first.
pub open spec fn preorder(edges: Seq<(usize, usize)>, count: nat) -> Seq<usize> {
    visit(edges, seq![0usize], Set::empty(), count)
}

/// How many of the nodes `0 .. count` are not discovered.
pub open spec fn undiscovered(count: nat, discovered: Set<usize>) -> nat
    decreases count,
{
    if count == 0 {
        0
    } else if discovered.contains((count - 1) as usize) {
        undiscovered((count - 1) as nat, discovered)
    } else {
        undiscovered((count - 1) as nat, discovered) + 1
    }
}

/// `Dfs::new`: a traversal that has `start` on its stack and has discovered
/// nothing, with a visit map for the nodes of `graph`.
#[verifier::external_body]
pub(crate) fn dfs_new(graph: &SystemGraph, start: usize) -> (dfs: Traversal)
    ensures
        dfs_stack(dfs) == seq![start],
        dfs_discovered(dfs) == Set::<usize>::empty(),
        dfs_capacity(dfs) == graph_node_count(*graph),
{
    Dfs::new(graph, NodeIndex::new(start))
}

/// `Dfs::next`: pops the stack down to a node that is not discovered, marks
/// it, pushes those of its neighbors that are not discovered, in the order in
/// which `Graph::neighbors` lists them, and returns it; or returns `None` once
/// the stack is used up. Marking a node panics where the visit map has no
/// place for it: every node on the stack, and every node that an edge leads
/// to, has to be within the map.
#[verifier::external_body]
pub(crate) fn dfs_next(dfs: &mut Traversal, graph: &SystemGraph) -> (next: Option<usize>)
    requires
        dfs_capacity(*old(dfs)) == graph_node_count(*graph),
        forall|i: int| 0 <= i < dfs_stack(*old(dfs)).len() ==> dfs_stack(*old(dfs))[i] < dfs_capacity(*old(dfs)),
        forall|i: int| 0 <= i < graph_edges(*graph).len() ==> graph_edges(*graph)[i].1 < dfs_capacity(*old(dfs)),
    ensures
        next == next_node(dfs_stack(*old(dfs)), dfs_discovered(*old(dfs))),
        dfs_stack(*final(dfs)) == stack_after(graph_edges(*graph), dfs_stack(*old(dfs)), dfs_discovered(*old(dfs))),
        dfs_discovered(*final(dfs)) == discovered_after(dfs_stack(*old(dfs)), dfs_discovered(*old(dfs))),
        dfs_capacity(*final(dfs)) == dfs_capacity(*old(dfs)),
{
    match dfs.next(graph) {
        Some(node) => Some(node.index()),
        None => None,
    }
}

/// What `pending` leaves: a prefix of the stack whose last node is not
/// discovered, after dropping discovered nodes alone.
pub proof fn lemma_pending(stack: Seq<usize>, discovered: Set<usize>)
    ensures
        pending(stack, discovered).len() <= stack.len(),
        pending(stack, discovered) == stack.subrange(0, pending(stack, discovered).len() as int),
        forall|i: int| pending(stack, discovered).len() <= i < stack.len() ==> discovered.contains(#[trigger] stack[i]),
        pending(stack, discovered).len() > 0 ==> !discovered.contains(pending(stack, discovered).last()),
    decreases stack.len(),
{
    if stack.len() > 0 && discovered.contains(stack.last()) {
        lemma_pending(stack.drop_last(), discovered);
        let rest = pending(stack, discovered);
        assert(rest =~= stack.subrange(0, rest.len() as int));
        assert forall|i: int| rest.len() <= i < stack.len() implies discovered.contains(#[trigger] stack[i]) by {
            if i < stack.len() - 1 {
                assert(stack[i] == stack.drop_last()[i]);
            }
        }
    } else {
        assert(stack =~= stack.subrange(0, stack.len() as int));
    }
}

/// The fresh ones among `nodes` are those that are not discovered.
pub proof fn lemma_fresh(nodes: Seq<usize>, discovered: Set<usize>)
    ensures
        forall|i: int| 0 <= i < fresh(nodes, discovered).len() ==> !discovered.contains(#[trigger] fresh(nodes, discovered)[i]),
        forall|i: int| 0 <= i < fresh(nodes, discovered).len() ==> nodes.contains(#[trigger] fresh(nodes, discovered)[i]),
        forall|i: int| 0 <= i < nodes.len() && !discovered.contains(nodes[i]) ==> fresh(nodes, discovered).contains(#[trigger] nodes[i]),
{
    let kept = |node: usize| !discovered.contains(node);
    assert forall|i: int| 0 <= i < fresh(nodes, discovered).len() implies !discovered.contains(
        #[trigger] fresh(nodes, discovered)[i],
    ) && nodes.contains(fresh(nodes, discovered)[i]) by {
        nodes.lemma_filter_pred(kept, i);
        assert(nodes.filter(kept).contains(nodes.filter(kept)[i]));
        nodes.lemma_filter_contains_rev(kept, nodes.filter(kept)[i]);
    }
    assert forall|i: int| 0 <= i < nodes.len() && !discovered.contains(nodes[i]) implies fresh(nodes, discovered).contains(
        #[trigger] nodes[i],
    ) by {
        nodes.lemma_filter_contains(kept, i);
    }
}

/// Where none of `nodes` is discovered, all of them are fresh.
pub proof fn lemma_fresh_all(nodes: Seq<usize>, discovered: Set<usize>)
    requires
        forall|i: int| 0 <= i < nodes.len() ==> !discovered.contains(#[trigger] nodes[i]),
    ensures
        fresh(nodes, discovered) == nodes,
    decreases nodes.len(),
{
    reveal(Seq::filter);
    if nodes.len() > 0 {
        lemma_fresh_all(nodes.drop_last(), discovered);
        assert(nodes.drop_last().push(nodes.last()) =~= nodes);
    }
}

/// The successors of a node are the heads of its edges.
pub proof fn lemma_successors(edges: Seq<(usize, usize)>, node: usize)
    ensures
        forall|i: int| 0 <= i < successors(edges, node).len() ==> edges.contains((node, #[trigger] successors(edges, node)[i])),
        forall|i: int| 0 <= i < edges.len() && edges[i].0 == node ==> successors(edges, node).contains((#[trigger] edges[i]).1),
    decreases edges.len(),
{
    if edges.len() > 0 {
        let shorter = edges.drop_last();
        lemma_successors(shorter, node);
        let all = successors(edges, node);
        let rest = successors(shorter, node);
        let offset: int = if edges.last().0 == node { 1 } else { 0 };
        assert forall|i: int| 0 <= i < all.len() implies edges.contains((node, #[trigger] all[i])) by {
            if i < offset {
                assert(edges[edges.len() - 1] == (node, all[i]));
            } else {
                assert(all[i] == rest[i - offset]);
                assert(shorter.contains((node, rest[i - offset])));
                let j = choose|j: int| 0 <= j < shorter.len() && shorter[j] == (node, rest[i - offset]);
                assert(edges[j] == (node, all[i]));
            }
        }
        assert forall|i: int| 0 <= i < edges.len() && edges[i].0 == node implies all.contains((#[trigger] edges[i]).1) by {
            if i == edges.len() - 1 {
                assert(all[0] == edges[i].1);
            } else {
                assert(shorter[i] == edges[i]);
                assert(rest.contains(shorter[i].1));
                let j = choose|j: int| 0 <= j < rest.len() && rest[j] == edges[i].1;
                assert(all[j + offset] == edges[i].1);
            }
        }
    }
}

/// Discovering one more of the nodes `0 .. count` leaves one fewer.
pub proof fn lemma_undiscovered_insert(count: nat, discovered: Set<usize>, node: usize)
    requires
        count <= usize::MAX + 1,
        !discovered.contains(node),
    ensures
        undiscovered(count, discovered.insert(node)) == if node < count {
            undiscovered(count, discovered) - 1
        } else {
            undiscovered(count, discovered) as int
        },
    decreases count,
{
    if count > 0 {
        lemma_undiscovered_insert((count - 1) as nat, discovered, node);
    }
}

/// With every node discovered, none is left.
pub proof fn lemma_undiscovered_none(count: nat, discovered: Set<usize>)
    requires
        count <= usize::MAX + 1,
        forall|node: usize| node < count ==> discovered.contains(node),
    ensures
        undiscovered(count, discovered) == 0,
    decreases count,
{
    if count > 0 {
        lemma_undiscovered_none((count - 1) as nat, discovered);
    }
}

/// With nothing discovered, every node is left.
pub proof fn lemma_undiscovered_empty(count: nat)
    ensures
        undiscovered(count, Set::<usize>::empty()) == count,
    decreases count,
{
    if count > 0 {
        lemma_undiscovered_empty((count - 1) as nat);
    }
}

/// A state in which a traversal of a graph with `count` nodes can take a
/// step: everything it refers to is a node, and `limit` counts the nodes that
/// are not discovered.
pub open spec fn traversing(
    edges: Seq<(usize, usize)>,
    count: nat,
    stack: Seq<usize>,
    discovered: Set<usize>,
    limit: nat,
) -> bool {
    &&& count <= usize::MAX + 1
    &&& forall|i: int| 0 <= i < edges.len() ==> (#[trigger] edges[i]).1 < count
    &&& forall|i: int| 0 <= i < stack.len() ==> #[trigger] stack[i] < count
    &&& forall|node: usize| discovered.contains(node) ==> node < count
    &&& limit == undiscovered(count, discovered)
}

/// One step of a traversal leads from a state to a state, and visits a node
/// that was not discovered.
pub proof fn lemma_step(edges: Seq<(usize, usize)>, count: nat, stack: Seq<usize>, discovered: Set<usize>, limit: nat)
    requires
        traversing(edges, count, stack, discovered, limit),
        next_node(stack, discovered) is Some,
    ensures
        limit > 0,
        next_node(stack, discovered)->0 < count,
        !discovered.contains(next_node(stack, discovered)->0),
        traversing(
            edges,
            count,
            stack_after(edges, stack, discovered),
            discovered_after(stack, discovered),
            (limit - 1) as nat,
        ),
        forall|node: usize|
            stack.contains(node) && !discovered.contains(node) ==> node == next_node(stack, discovered)->0
                || #[trigger] stack_after(edges, stack, discovered).contains(node),
{
    let rest = pending(stack, discovered);
    let node = rest.last();
    let marked = discovered.insert(node);
    let pushed = fresh(successors(edges, node), marked);
    let after = stack_after(edges, stack, discovered);
    lemma_pending(stack, discovered);
    assert(node == stack[rest.len() - 1]);
    lemma_undiscovered_insert(count, discovered, node);
    lemma_fresh(successors(edges, node), marked);
    lemma_successors(edges, node);
    assert forall|i: int| 0 <= i < after.len() implies #[trigger] after[i] < count by {
        if i < rest.len() - 1 {
            assert(after[i] == stack[i]);
        } else {
            let j = i - (rest.len() - 1);
            assert(after[i] == pushed[j]);
            assert(successors(edges, node).contains(pushed[j]));
            let k = choose|k: int| 0 <= k < successors(edges, node).len() && successors(edges, node)[k] == pushed[j];
            assert(edges.contains((node, successors(edges, node)[k])));
        }
    }
    assert forall|other: usize| stack.contains(other) && !discovered.contains(other) implies other == node
        || #[trigger] after.contains(other) by {
        let i = choose|i: int| 0 <= i < stack.len() && stack[i] == other;
        if i < rest.len() - 1 {
            assert(after[i] == other);
        }
    }
}

/// A traversal visits nodes that were not discovered, each once. Where every
/// node is discovered or on the stack, it visits every node that was not
/// discovered, which takes all of its limit.
pub proof fn lemma_visit(edges: Seq<(usize, usize)>, count: nat, stack: Seq<usize>, discovered: Set<usize>, limit: nat)
    requires
        traversing(edges, count, stack, discovered, limit),
    ensures
        visit(edges, stack, discovered, limit).no_duplicates(),
        forall|i: int|
            0 <= i < visit(edges, stack, discovered, limit).len() ==> {
                &&& #[trigger] visit(edges, stack, discovered, limit)[i] < count
                &&& !discovered.contains(visit(edges, stack, discovered, limit)[i])
            },
        (forall|node: usize| node < count ==> discovered.contains(node) || stack.contains(node)) ==> forall|node: usize|
            node < count && !discovered.contains(node) ==> #[trigger] visit(edges, stack, discovered, limit).contains(
                node,
            ),
        (forall|node: usize| node < count ==> discovered.contains(node) || stack.contains(node)) ==> visit(
            edges,
            stack,
            discovered,
            limit,
        ).len() == limit,
    decreases limit,
{
    let order = visit(edges, stack, discovered, limit);
    let covered = forall|node: usize| node < count ==> discovered.contains(node) || stack.contains(node);
    match next_node(stack, discovered) {
        None => {
            lemma_pending(stack, discovered);
            if covered {
                assert forall|node: usize| node < count && !discovered.contains(node) implies #[trigger] order.contains(
                    node,
                ) by {
                    let i = choose|i: int| 0 <= i < stack.len() && stack[i] == node;
                }
                assert forall|node: usize| node < count implies discovered.contains(node) by {
                    if stack.contains(node) {
                        let i = choose|i: int| 0 <= i < stack.len() && stack[i] == node;
                    }
                }
                lemma_undiscovered_none(count, discovered);
            }
        },
        Some(node) => {
            let after = stack_after(edges, stack, discovered);
            let marked = discovered_after(stack, discovered);
            lemma_step(edges, count, stack, discovered, limit);
            lemma_visit(edges, count, after, marked, (limit - 1) as nat);
            let rest = visit(edges, after, marked, (limit - 1) as nat);
            assert(order == seq![node] + rest);
            assert forall|i: int| 0 <= i < order.len() implies #[trigger] order[i] < count && !discovered.contains(
                order[i],
            ) by {
                if i > 0 {
                    assert(order[i] == rest[i - 1]);
                }
            }
            assert forall|i: int, j: int| 0 <= i < order.len() && 0 <= j < order.len() && i != j implies order[i]
                != order[j] by {
                if i > 0 {
                    assert(order[i] == rest[i - 1]);
                }
                if j > 0 {
                    assert(order[j] == rest[j - 1]);
                }
            }
            if covered {
                assert forall|other: usize| other < count implies marked.contains(other) || after.contains(other) by {
                    if !marked.contains(other) {
                        assert(stack.contains(other));
                    }
                }
                assert forall|other: usize| other < count && !discovered.contains(other) implies #[trigger] order.contains(
                    other,
                ) by {
                    if other == node {
                        assert(order[0] == other);
                    } else {
                        assert(rest.contains(other));
                        let i = choose|i: int| 0 <= i < rest.len() && rest[i] == other;
                        assert(order[i + 1] == other);
                    }
                }
            }
        },
    }
}

/// No node has two different dependencies: the edges into a node that do not
/// come from the root all come from one node.
pub open spec fn single_dependencies(edges: Seq<(usize, usize)>) -> bool {
    forall|e: int, f: int|
        0 <= e < edges.len() && 0 <= f < edges.len() && (#[trigger] edges[e]).1 == (#[trigger] edges[f]).1
            && edges[e].0 != 0 && edges[f].0 != 0 ==> edges[e].0 == edges[f].0
}

/// Every edge leads from an older node to a younger one.
pub open spec fn older_dependencies(edges: Seq<(usize, usize)>) -> bool {
    forall|e: int| 0 <= e < edges.len() ==> (#[trigger] edges[e]).0 < edges[e].1
}

/// Where edge `e` makes the node at place `p` of the stack depend on a node
/// and neither is discovered, that node lies higher on the stack.
pub open spec fn waits_above(edges: Seq<(usize, usize)>, stack: Seq<usize>, discovered: Set<usize>, p: int, e: int) -> bool {
    0 <= p < stack.len() && 0 <= e < edges.len() && edges[e].1 == stack[p] && edges[e].0 != 0
        && !discovered.contains(stack[p]) && !discovered.contains(edges[e].0) ==> exists|q: int|
        p < q < stack.len() && #[trigger] stack[q] == edges[e].0
}

/// Every node on the stack has its dependencies above it, as far as they are
/// not discovered: they are visited before it.
pub open spec fn dependencies_above(edges: Seq<(usize, usize)>, stack: Seq<usize>, discovered: Set<usize>) -> bool {
    forall|p: int, e: int| #[trigger] waits_above(edges, stack, discovered, p, e)
}

/// Where edge `e` makes the node at place `i` of `order` depend on a node,
/// that node was discovered before or has an earlier place.
pub open spec fn follows_dependency(edges: Seq<(usize, usize)>, order: Seq<usize>, discovered: Set<usize>, i: int, e: int) -> bool {
    0 <= i < order.len() && 0 <= e < edges.len() && edges[e].1 == order[i] && edges[e].0 != 0 ==> discovered.contains(
        edges[e].0,
    ) || exists|j: int| 0 <= j < i && #[trigger] order[j] == edges[e].0
}

/// A traversal of a graph in which no node has two dependencies, begun with
/// the dependencies of every node above it, visits every node after its
/// dependency.
pub proof fn lemma_visit_follows_dependencies(
    edges: Seq<(usize, usize)>,
    count: nat,
    stack: Seq<usize>,
    discovered: Set<usize>,
    limit: nat,
)
    requires
        traversing(edges, count, stack, discovered, limit),
        single_dependencies(edges),
        dependencies_above(edges, stack, discovered),
        discovered.contains(0),
    ensures
        forall|i: int, e: int| #[trigger] follows_dependency(edges, visit(edges, stack, discovered, limit), discovered, i, e),
    decreases limit,
{
    let order = visit(edges, stack, discovered, limit);
    match next_node(stack, discovered) {
        None => {},
        Some(node) => {
            let top = pending(stack, discovered).len() - 1;
            let after = stack_after(edges, stack, discovered);
            let marked = discovered_after(stack, discovered);
            let pushed = fresh(successors(edges, node), marked);
            lemma_pending(stack, discovered);
            lemma_step(edges, count, stack, discovered, limit);
            lemma_fresh(successors(edges, node), marked);
            lemma_successors(edges, node);
            assert(node == stack[top]);
            assert forall|p: int, e: int| #[trigger] waits_above(edges, after, marked, p, e) by {
                if 0 <= p < after.len() && 0 <= e < edges.len() && edges[e].1 == after[p] && edges[e].0 != 0
                    && !marked.contains(after[p]) && !marked.contains(edges[e].0) {
                    if p < top {
                        assert(after[p] == stack[p]);
                        assert(waits_above(edges, stack, discovered, p, e));
                        let q = choose|q: int| p < q < stack.len() && #[trigger] stack[q] == edges[e].0;
                        if q < top {
                            assert(after[q] == edges[e].0);
                        }
                    } else {
                        assert(after[p] == pushed[p - top]);
                        assert(successors(edges, node).contains(pushed[p - top]));
                        let k = choose|k: int|
                            0 <= k < successors(edges, node).len() && successors(edges, node)[k] == pushed[p - top];
                        assert(edges.contains((node, successors(edges, node)[k])));
                        let f = choose|f: int| 0 <= f < edges.len() && edges[f] == (node, after[p]);
                        assert(edges[e].0 == edges[f].0);
                    }
                }
            }
            lemma_visit_follows_dependencies(edges, count, after, marked, (limit - 1) as nat);
            let rest = visit(edges, after, marked, (limit - 1) as nat);
            assert(order == seq![node] + rest);
            assert forall|i: int, e: int| #[trigger] follows_dependency(edges, order, discovered, i, e) by {
                if 0 <= i < order.len() && 0 <= e < edges.len() && edges[e].1 == order[i] && edges[e].0 != 0
                    && !discovered.contains(edges[e].0) {
                    if i == 0 {
                        assert(waits_above(edges, stack, discovered, top, e));
                    } else {
                        assert(order[i] == rest[i - 1]);
                        assert(follows_dependency(edges, rest, marked, i - 1, e));
                        if marked.contains(edges[e].0) {
                            assert(order[0] == edges[e].0);
                        } else {
                            let j = choose|j: int| 0 <= j < i - 1 && #[trigger] rest[j] == edges[e].0;
                            assert(order[j + 1] == edges[e].0);
                        }
                    }
                }
            }
        },
    }
}

} // verus!
