//! The dependency graph: an append-only directed graph over node indices.

use fixedbitset::FixedBitSet;
use petgraph::algo::has_path_connecting;
use petgraph::algo::DfsSpace;
use petgraph::graph::Graph;
use petgraph::graph::NodeIndex;
use petgraph::visit::Dfs;
use petgraph::Directed;
use vstd::prelude::*;

verus! {

/// `petgraph::graph::Graph`, carried through opaquely.
#[verifier::external_type_specification]
#[verifier::external_body]
#[verifier::reject_recursive_types(N)]
#[verifier::reject_recursive_types(E)]
#[verifier::reject_recursive_types(Ty)]
#[verifier::reject_recursive_types(Ix)]
pub struct ExGraph<N, E, Ty, Ix>(Graph<N, E, Ty, Ix>);

/// `petgraph::graph::NodeIndex`, carried through opaquely.
#[verifier::external_type_specification]
#[verifier::external_body]
#[verifier::reject_recursive_types(Ix)]
pub struct ExNodeIndex<Ix>(NodeIndex<Ix>);

/// `petgraph::Directed`, the marker of directed edges.
#[verifier::external_type_specification]
#[verifier::external_body]
pub struct ExDirected(Directed);

/// `fixedbitset::FixedBitSet`, the visit map of a traversal.
#[verifier::external_type_specification]
#[verifier::external_body]
pub struct ExFixedBitSet(FixedBitSet);

/// `petgraph::visit::Dfs`, carried through opaquely.
#[verifier::external_type_specification]
#[verifier::external_body]
#[verifier::reject_recursive_types(N)]
#[verifier::reject_recursive_types(VM)]
pub struct ExDfs<N, VM>(Dfs<N, VM>);

/// `petgraph::algo::DfsSpace`, carried through opaquely.
#[verifier::external_type_specification]
#[verifier::external_body]
#[verifier::reject_recursive_types(N)]
#[verifier::reject_recursive_types(VM)]
pub struct ExDfsSpace<N, VM>(DfsSpace<N, VM>);

/// The graph of systems: nodes and edges carry no weight.
pub type SystemGraph = Graph<(), (), Directed, usize>;

/// The reusable workspace of reachability queries.
pub type CycleSpace = DfsSpace<NodeIndex<usize>, FixedBitSet>;

/// A depth-first traversal in progress.
pub type Traversal = Dfs<NodeIndex<usize>, FixedBitSet>;

/// The number of nodes of a graph; its nodes are `0 .. count`.
pub uninterp spec fn graph_node_count(graph: SystemGraph) -> nat;

/// The edges of a graph as `(from, to)`, in the order they were added.
pub uninterp spec fn graph_edges(graph: SystemGraph) -> Seq<(usize, usize)>;

/// `Graph::default`: a graph without nodes or edges.
#[verifier::external_body]
pub(crate) fn graph_new() -> (graph: SystemGraph)
    ensures
        graph_node_count(graph) == 0,
        graph_edges(graph).len() == 0,
{
    Graph::default()
}

/// `Graph::add_node`: appends one node and returns its index, which is the
/// number of nodes there were. With `usize` indices it has no node limit.
#[verifier::external_body]
pub(crate) fn graph_add_node(graph: &mut SystemGraph) -> (node: usize)
    ensures
        node == graph_node_count(*old(graph)),
        graph_node_count(*final(graph)) == graph_node_count(*old(graph)) + 1,
        graph_edges(*final(graph)) == graph_edges(*old(graph)),
{
    graph.add_node(()).index()
}

/// `Graph::add_edge`: appends the edge `from -> to`; parallel edges are kept.
/// It panics where an end is no node, which `requires` rules out.
#[verifier::external_body]
pub(crate) fn graph_add_edge(graph: &mut SystemGraph, from: usize, to: usize)
    requires
        from < graph_node_count(*old(graph)),
        to < graph_node_count(*old(graph)),
    ensures
        graph_node_count(*final(graph)) == graph_node_count(*old(graph)),
        graph_edges(*final(graph)) == graph_edges(*old(graph)).push((from, to)),
{
    graph.add_edge(NodeIndex::new(from), NodeIndex::new(to), ());
}

/// `DfsSpace::default`: an empty workspace; each query resets it to the graph
/// it is asked about, so nothing is stated of what it holds.
#[verifier::external_body]
pub(crate) fn space_new() -> CycleSpace {
    DfsSpace::default()
}

/// `petgraph::algo::has_path_connecting`: whether a path along the edges of
/// `graph` leads from `from` to `to`; where the two are equal it returns
/// `true`. It resets `space` to the graph first and then marks `from` in a
/// visit map sized to the graph, which panics unless `from` is a node.
#[verifier::external_body]
pub(crate) fn graph_has_path(graph: &SystemGraph, space: &mut CycleSpace, from: usize, to: usize) -> (found: bool)
    requires
        from < graph_node_count(*graph),
    ensures
        found == path_exists(graph_edges(*graph), from, to),
{
    has_path_connecting(graph, NodeIndex::new(from), NodeIndex::new(to), Some(space))
}

/// An edge leads from node `i` of `walk` to the next.
pub open spec fn steps_along(edges: Seq<(usize, usize)>, walk: Seq<usize>, i: int) -> bool {
    edges.contains((walk[i], walk[i + 1]))
}

/// `walk` runs along `edges`: it names at least one node, and every node
/// after the first is reached from the one before it by an edge.
pub open spec fn is_walk(edges: Seq<(usize, usize)>, walk: Seq<usize>) -> bool {
    &&& walk.len() >= 1
    &&& forall|i: int| 0 <= i < walk.len() - 1 ==> #[trigger] steps_along(edges, walk, i)
}

/// A path leads from `from` to `to`. Every node has the empty path to itself.
pub open spec fn path_exists(edges: Seq<(usize, usize)>, from: usize, to: usize) -> bool {
    exists|walk: Seq<usize>| #[trigger] is_walk(edges, walk) && walk[0] == from && walk.last() == to
}

/// No edge is closed into a cycle: from the head of an edge no path leads
/// back to its tail.
pub open spec fn acyclic(edges: Seq<(usize, usize)>) -> bool {
    forall|i: int| 0 <= i < edges.len() ==> !path_exists(edges, (#[trigger] edges[i]).1, edges[i].0)
}

/// The nodes that `node` has an edge to, the most recently added edge first:
/// the order in which `Graph::neighbors` lists them.
pub open spec fn successors(edges: Seq<(usize, usize)>, node: usize) -> Seq<usize>
    decreases edges.len(),
{
    if edges.len() == 0 {
        Seq::empty()
    } else if edges.last().0 == node {
        seq![edges.last().1] + successors(edges.drop_last(), node)
    } else {
        successors(edges.drop_last(), node)
    }
}

/// The successors of a node once one more edge is added.
pub proof fn lemma_successors_push(edges: Seq<(usize, usize)>, edge: (usize, usize), node: usize)
    ensures
        successors(edges.push(edge), node) == if edge.0 == node {
            seq![edge.1] + successors(edges, node)
        } else {
            successors(edges, node)
        },
{
    assert(edges.push(edge).drop_last() =~= edges);
}

/// What `edges.push(edge)` contains.
pub proof fn lemma_push_contains(edges: Seq<(usize, usize)>, edge: (usize, usize), other: (usize, usize))
    ensures
        edges.push(edge).contains(other) <==> (edges.contains(other) || other == edge),
{
    let pushed = edges.push(edge);
    if edges.contains(other) {
        let i = choose|i: int| 0 <= i < edges.len() && edges[i] == other;
        assert(pushed[i] == other);
    }
    if other == edge {
        assert(pushed[edges.len() as int] == other);
    }
    if pushed.contains(other) {
        let i = choose|i: int| 0 <= i < pushed.len() && pushed[i] == other;
        if i < edges.len() {
            assert(edges[i] == other);
        }
    }
}

/// Every node reaches itself.
pub proof fn lemma_path_reflexive(edges: Seq<(usize, usize)>, node: usize)
    ensures
        path_exists(edges, node, node),
{
    let walk = seq![node];
    assert(is_walk(edges, walk));
    assert(walk[0] == node && walk.last() == node);
}

/// A path followed by an edge is a path.
pub proof fn lemma_path_step(edges: Seq<(usize, usize)>, from: usize, mid: usize, to: usize)
    requires
        path_exists(edges, from, mid),
        edges.contains((mid, to)),
    ensures
        path_exists(edges, from, to),
{
    let walk = choose|walk: Seq<usize>| #[trigger] is_walk(edges, walk) && walk[0] == from && walk.last() == mid;
    let longer = walk.push(to);
    assert forall|i: int| 0 <= i < longer.len() - 1 implies #[trigger] steps_along(edges, longer, i) by {
        if i < walk.len() - 1 {
            assert(steps_along(edges, walk, i));
        }
    }
    assert(is_walk(edges, longer));
    assert(longer[0] == from && longer.last() == to);
}

/// Whoever reaches the start of a walk reaches each node on it.
pub proof fn lemma_path_along(edges: Seq<(usize, usize)>, from: usize, walk: Seq<usize>, k: int)
    requires
        is_walk(edges, walk),
        path_exists(edges, from, walk[0]),
        0 <= k < walk.len(),
    ensures
        path_exists(edges, from, walk[k]),
    decreases k,
{
    if k > 0 {
        lemma_path_along(edges, from, walk, k - 1);
        assert(steps_along(edges, walk, k - 1));
        lemma_path_step(edges, from, walk[k - 1], walk[k]);
    }
}

/// Paths compose.
pub proof fn lemma_path_transitive(edges: Seq<(usize, usize)>, from: usize, mid: usize, to: usize)
    requires
        path_exists(edges, from, mid),
        path_exists(edges, mid, to),
    ensures
        path_exists(edges, from, to),
{
    let walk = choose|walk: Seq<usize>| #[trigger] is_walk(edges, walk) && walk[0] == mid && walk.last() == to;
    lemma_path_along(edges, from, walk, walk.len() - 1);
}

/// A walk stays a walk when an edge is added.
pub proof fn lemma_walk_monotonic(edges: Seq<(usize, usize)>, edge: (usize, usize), walk: Seq<usize>)
    requires
        is_walk(edges, walk),
    ensures
        is_walk(edges.push(edge), walk),
{
    assert forall|i: int| 0 <= i < walk.len() - 1 implies #[trigger] steps_along(edges.push(edge), walk, i) by {
        assert(steps_along(edges, walk, i));
        lemma_push_contains(edges, edge, (walk[i], walk[i + 1]));
    }
}

/// A path stays a path when an edge is added.
pub proof fn lemma_path_monotonic(edges: Seq<(usize, usize)>, edge: (usize, usize), from: usize, to: usize)
    requires
        path_exists(edges, from, to),
    ensures
        path_exists(edges.push(edge), from, to),
{
    let walk = choose|walk: Seq<usize>| #[trigger] is_walk(edges, walk) && walk[0] == from && walk.last() == to;
    lemma_walk_monotonic(edges, edge, walk);
}

/// A walk that may use one more edge `tail -> head` either does without it,
/// or reaches `tail` and goes on from `head`, both without it.
pub proof fn lemma_walk_split(edges: Seq<(usize, usize)>, tail: usize, head: usize, walk: Seq<usize>)
    requires
        is_walk(edges.push((tail, head)), walk),
    ensures
        path_exists(edges, walk[0], walk.last()) || (path_exists(edges, walk[0], tail) && path_exists(
            edges,
            head,
            walk.last(),
        )),
    decreases walk.len(),
{
    if walk.len() == 1 {
        assert(is_walk(edges, walk));
        assert(walk[0] == walk.last());
    } else {
        let shorter = walk.drop_last();
        let before = walk[walk.len() - 2];
        let last = walk.last();
        assert forall|i: int| 0 <= i < shorter.len() - 1 implies #[trigger] steps_along(
            edges.push((tail, head)),
            shorter,
            i,
        ) by {
            assert(steps_along(edges.push((tail, head)), walk, i));
        }
        assert(is_walk(edges.push((tail, head)), shorter));
        lemma_walk_split(edges, tail, head, shorter);
        assert(shorter[0] == walk[0] && shorter.last() == before);
        assert(steps_along(edges.push((tail, head)), walk, walk.len() - 2));
        lemma_push_contains(edges, (tail, head), (before, last));
        if edges.contains((before, last)) {
            if path_exists(edges, walk[0], before) {
                lemma_path_step(edges, walk[0], before, last);
            } else {
                lemma_path_step(edges, head, before, last);
            }
        } else {
            lemma_path_reflexive(edges, head);
        }
    }
}

/// Paths over `edges` and the edge `tail -> head`, in terms of paths over
/// `edges` alone.
pub proof fn lemma_path_split(edges: Seq<(usize, usize)>, tail: usize, head: usize, from: usize, to: usize)
    requires
        path_exists(edges.push((tail, head)), from, to),
    ensures
        path_exists(edges, from, to) || (path_exists(edges, from, tail) && path_exists(edges, head, to)),
{
    let walk = choose|walk: Seq<usize>| #[trigger]
        is_walk(edges.push((tail, head)), walk) && walk[0] == from && walk.last() == to;
    lemma_walk_split(edges, tail, head, walk);
}

/// A path between two different nodes ends with an edge into the second.
pub proof fn lemma_path_enters(edges: Seq<(usize, usize)>, from: usize, to: usize)
    requires
        path_exists(edges, from, to),
        from != to,
    ensures
        exists|i: int| 0 <= i < edges.len() && (#[trigger] edges[i]).1 == to && path_exists(edges, from, edges[i].0),
{
    let walk = choose|walk: Seq<usize>| #[trigger] is_walk(edges, walk) && walk[0] == from && walk.last() == to;
    let before = walk[walk.len() - 2];
    assert(steps_along(edges, walk, walk.len() - 2));
    let i = choose|i: int| 0 <= i < edges.len() && edges[i] == (before, to);
    lemma_path_reflexive(edges, from);
    lemma_path_along(edges, from, walk, walk.len() - 2);
    assert(edges[i].1 == to && path_exists(edges, from, edges[i].0));
}

/// In an acyclic graph no edge runs against a path.
pub proof fn lemma_acyclic_no_back_edge(edges: Seq<(usize, usize)>, from: usize, to: usize)
    requires
        acyclic(edges),
        path_exists(edges, from, to),
    ensures
        !edges.contains((to, from)),
{
    if edges.contains((to, from)) {
        let at = choose|at: int| 0 <= at < edges.len() && edges[at] == (to, from);
        assert(!path_exists(edges, edges[at].1, edges[at].0));
    }
}

/// An acyclic graph stays acyclic when it gains an edge `tail -> head` and no
/// path led from `head` to `tail`.
pub proof fn lemma_acyclic_push(edges: Seq<(usize, usize)>, tail: usize, head: usize)
    requires
        acyclic(edges),
        !path_exists(edges, head, tail),
    ensures
        acyclic(edges.push((tail, head))),
{
    let grown = edges.push((tail, head));
    assert forall|i: int| 0 <= i < grown.len() implies !path_exists(grown, (#[trigger] grown[i]).1, grown[i].0) by {
        let a = grown[i].0;
        let b = grown[i].1;
        if path_exists(grown, b, a) {
            lemma_path_split(edges, tail, head, b, a);
            if i < edges.len() {
                assert(edges[i] == (a, b));
                assert(edges.contains((a, b)));
                if !path_exists(edges, b, a) {
                    lemma_path_step(edges, head, a, b);
                    lemma_path_transitive(edges, head, b, tail);
                }
            }
        }
    }
}

} // verus!
