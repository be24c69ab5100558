//! The mathematical model of a system builder, and what registration does
//! to it.

use crate::graph::{
    acyclic, is_walk, steps_along, lemma_acyclic_push, lemma_path_enters, lemma_path_monotonic, lemma_successors_push,
    path_exists, successors,
};
use crate::traversal::{
    follows_dependency, fresh, lemma_fresh, lemma_fresh_all, lemma_undiscovered_empty, lemma_undiscovered_insert, lemma_visit,
    lemma_visit_follows_dependencies, next_node, older_dependencies, pending, preorder, single_dependencies,
    stack_after, traversing, visit, waits_above,
};
use vstd::prelude::*;

verus! {

/// What a node of the dependency graph carries.
pub enum Payload<S> {
    /// Nothing: the root, which anchors every other node.
    Root,
    /// A dependency that was named before any system registered under that
    /// name. Building it fails with `MissingDependentSystem`.
    Placeholder(String),
    /// A registered system.
    System(S),
}

/// The state of a builder: its node table, the payload of each node, and the
/// edges of its graph in the order they were added. An edge `(a, b)` says that
/// `a` is visited before `b`.
pub struct Registry<S> {
    pub names: Map<Seq<char>, usize>,
    pub payloads: Seq<Payload<S>>,
    pub edges: Seq<(usize, usize)>,
}

/// The nodes `count - 1, .., 1`: the successors of the root of a registry with
/// `count` nodes, the youngest first.
pub open spec fn countdown(count: nat) -> Seq<usize> {
    Seq::new((count - 1) as nat, |i: int| (count - 1 - i) as usize)
}

/// What a traversal has discovered once it has visited the root.
pub open spec fn root_discovered() -> Set<usize> {
    Set::<usize>::empty().insert(0usize)
}

impl<S> Registry<S> {
    /// The registry of a new builder: the root alone.
    pub open spec fn empty() -> Self {
        Registry { names: Map::empty(), payloads: seq![Payload::Root], edges: Seq::empty() }
    }

    /// Whether `name` has been mentioned, as a system or as a dependency.
    pub open spec fn knows(self, name: Seq<char>) -> bool {
        self.names.contains_key(name)
    }

    /// Whether `node` is one of the nodes that stand for a name.
    pub open spec fn is_system_node(self, node: usize) -> bool {
        1 <= node < self.payloads.len()
    }

    /// The invariant of a registry.
    pub open spec fn wf(self) -> bool {
        // The root is node 0, and it alone carries nothing.
        &&& 1 <= self.payloads.len() <= usize::MAX
        &&& self.payloads[0] is Root
        &&& forall|k: int| 1 <= k < self.payloads.len() ==> !(#[trigger] self.payloads[k] is Root)
        // Every name has a node of its own, which is not the root.
        &&& forall|name: Seq<char>|
            self.names.contains_key(name) ==> 1 <= #[trigger] self.names[name] < self.payloads.len()
        &&& forall|a: Seq<char>, b: Seq<char>|
            self.names.contains_key(a) && self.names.contains_key(b) && #[trigger] self.names[a]
                == #[trigger] self.names[b] ==> a == b
        // A placeholder carries the name that leads to it.
        &&& forall|k: int|
            1 <= k < self.payloads.len() ==> (#[trigger] self.payloads[k] matches Payload::Placeholder(name)
                ==> self.names.contains_key(name@) && self.names[name@] == k)
        // Edges join nodes, and none leads into the root.
        &&& forall|i: int|
            0 <= i < self.edges.len() ==> (#[trigger] self.edges[i]).0 < self.payloads.len() && 1
                <= self.edges[i].1 < self.payloads.len()
        // Every other node has one edge from the root, added when the node
        // was made.
        &&& successors(self.edges, 0) == countdown(self.payloads.len())
        // No edge closes a cycle.
        &&& acyclic(self.edges)
    }

    /// Whether this registry has grown out of `earlier`: no name has lost or
    /// changed its node, and every edge is where it was.
    pub open spec fn extends(self, earlier: Self) -> bool {
        &&& earlier.payloads.len() <= self.payloads.len()
        &&& forall|name: Seq<char>| #[trigger]
            earlier.names.contains_key(name) ==> self.names.contains_key(name) && self.names[name] == earlier.names[name]
        &&& earlier.edges.len() <= self.edges.len()
        &&& forall|i: int| 0 <= i < earlier.edges.len() ==> #[trigger] self.edges[i] == earlier.edges[i]
    }

    /// A new node for the unknown `name`, anchored to the root.
    pub open spec fn with_node(self, name: Seq<char>, payload: Payload<S>) -> Self {
        let node = self.payloads.len() as usize;
        Registry {
            names: self.names.insert(name, node),
            payloads: self.payloads.push(payload),
            edges: self.edges.push((0usize, node)),
        }
    }

    /// `constructor` registered under `name`: it takes the place of whatever
    /// the node of a known name carried, and an unknown name gets a node.
    pub open spec fn upserted(self, name: Seq<char>, constructor: S) -> Self {
        if self.knows(name) {
            Registry { payloads: self.payloads.update(self.names[name] as int, Payload::System(constructor)), ..self }
        } else {
            self.with_node(name, Payload::System(constructor))
        }
    }

    /// `name` mentioned as a dependency: an unknown name gets a placeholder.
    pub open spec fn with_placeholder(self, name: String) -> Self {
        if self.knows(name@) {
            self
        } else {
            self.with_node(name@, Payload::Placeholder(name))
        }
    }

    /// Whether making `node` depend on `dependency` would close a cycle: the
    /// dependency is known and a path leads from `node` to it.
    pub open spec fn closes_cycle(self, node: usize, dependency: Seq<char>) -> bool {
        self.knows(dependency) && path_exists(self.edges, node, self.names[dependency])
    }

    /// `node` made to depend on `dependency`.
    pub open spec fn with_dependency(self, node: usize, dependency: String) -> Self {
        let mentioned = self.with_placeholder(dependency);
        Registry { edges: mentioned.edges.push((mentioned.names[dependency@], node)), ..mentioned }
    }

    /// `node` made to depend on each of `dependencies` in turn, up to the
    /// first that would close a cycle. The flag says whether all were added;
    /// what was added before a refusal stays.
    pub open spec fn with_dependencies(self, node: usize, dependencies: Seq<String>) -> (Self, bool)
        decreases dependencies.len(),
    {
        if dependencies.len() == 0 {
            (self, true)
        } else if self.closes_cycle(node, dependencies[0]@) {
            (self, false)
        } else {
            self.with_dependency(node, dependencies[0]).with_dependencies(node, dependencies.skip(1))
        }
    }

    /// `constructor` registered under `name` with `dependencies`: the
    /// registry that the call leaves, and whether every dependency was added.
    pub open spec fn registered(self, name: Seq<char>, constructor: S, dependencies: Seq<String>) -> (Self, bool) {
        let start = self.upserted(name, constructor);
        start.with_dependencies(start.names[name], dependencies)
    }

    /// The order in which the nodes are visited: depth first from the root,
    /// each node when it is first discovered, the successors of a node in the
    /// order in which their edges were added.
    pub open spec fn order(self) -> Seq<usize> {
        preorder(self.edges, self.payloads.len())
    }

    /// What building delivers: the nodes after the root in the order of the
    /// traversal, each with its priority. The first gets the highest
    /// priority there is and each later one the next lower.
    pub open spec fn plan(self) -> Seq<(usize, i32)> {
        Seq::new((self.order().len() - 1) as nat, |i: int| (self.order()[i + 1], (i32::MAX - i) as i32))
    }

    /// The traversal visits the root first. That discovers the root and
    /// leaves every other node on the stack, the oldest on top.
    pub proof fn lemma_order_from_root(self)
        requires
            self.wf(),
        ensures
            self.order() == seq![0usize] + visit(
                self.edges,
                countdown(self.payloads.len()),
                root_discovered(),
                (self.payloads.len() - 1) as nat,
            ),
            traversing(
                self.edges,
                self.payloads.len(),
                countdown(self.payloads.len()),
                root_discovered(),
                (self.payloads.len() - 1) as nat,
            ),
    {
        let count = self.payloads.len();
        let none = Set::<usize>::empty();
        let start = seq![0usize];
        lemma_undiscovered_empty(count);
        assert(pending(start, none) == start);
        assert(next_node(start, none) == Some(0usize));
        let after = stack_after(self.edges, start, none);
        assert(start.drop_last() =~= Seq::<usize>::empty());
        assert(after =~= fresh(countdown(count), root_discovered()));
        lemma_fresh(countdown(count), root_discovered());
        assert(after =~= countdown(count)) by {
            lemma_fresh_all(countdown(count), root_discovered());
        }
        lemma_undiscovered_insert(count, none, 0);
    }

    /// The traversal starts at the root and visits every node exactly once.
    pub proof fn lemma_order(self)
        requires
            self.wf(),
        ensures
            self.order().len() == self.payloads.len(),
            self.order()[0] == 0,
            self.order().no_duplicates(),
            forall|i: int| 0 <= i < self.order().len() ==> #[trigger] self.order()[i] < self.payloads.len(),
            forall|node: usize| node < self.payloads.len() ==> #[trigger] self.order().contains(node),
    {
        let count = self.payloads.len();
        let marked = root_discovered();
        let after = countdown(count);
        let order = self.order();
        self.lemma_order_from_root();
        assert forall|node: usize| node < count implies marked.contains(node) || after.contains(node) by {
            if node != 0 {
                assert(after[count - 1 - node] == node);
            }
        }
        lemma_visit(self.edges, count, after, marked, (count - 1) as nat);
        let rest = visit(self.edges, after, marked, (count - 1) as nat);
        assert forall|i: int| 0 <= i < order.len() implies #[trigger] order[i] < count by {
            if i > 0 {
                assert(order[i] == rest[i - 1]);
            }
        }
        assert forall|i: int, j: int| 0 <= i < order.len() && 0 <= j < order.len() && i != j implies order[i]
            != order[j] by {
            if i > 0 {
                assert(order[i] == rest[i - 1]);
            }
            if j > 0 {
                assert(order[j] == rest[j - 1]);
            }
        }
        assert forall|node: usize| node < count implies #[trigger] order.contains(node) by {
            if node == 0 {
                assert(order[0] == node);
            } else {
                assert(rest.contains(node));
                let i = choose|i: int| 0 <= i < rest.len() && rest[i] == node;
                assert(order[i + 1] == node);
            }
        }
    }

    /// Where every edge leads from an older node to a younger one and no node
    /// has two different dependencies, the traversal visits the tail of every
    /// edge before its head.
    pub proof fn lemma_edge_in_order(self, e: int, i: int, j: int)
        requires
            self.wf(),
            older_dependencies(self.edges),
            single_dependencies(self.edges),
            0 <= e < self.edges.len(),
            0 <= i < self.order().len(),
            0 <= j < self.order().len(),
            self.order()[i] == self.edges[e].0,
            self.order()[j] == self.edges[e].1,
        ensures
            i < j,
    {
        let count = self.payloads.len();
        let marked = root_discovered();
        let stack = countdown(count);
        let order = self.order();
        self.lemma_order_from_root();
        self.lemma_order();
        let rest = visit(self.edges, stack, marked, (count - 1) as nat);
        if self.edges[e].0 == 0 {
            assert(order[j] != order[0]);
        } else {
            assert forall|p: int, f: int| #[trigger] waits_above(self.edges, stack, marked, p, f) by {
                if 0 <= p < stack.len() && 0 <= f < self.edges.len() && self.edges[f].1 == stack[p] && self.edges[f].0
                    != 0 {
                    assert(stack[count - 1 - self.edges[f].0] == self.edges[f].0);
                }
            }
            lemma_visit_follows_dependencies(self.edges, count, stack, marked, (count - 1) as nat);
            assert(order[j] != order[0]);
            assert(order[j] == rest[j - 1]);
            assert(follows_dependency(self.edges, rest, marked, j - 1, e));
            let k = choose|k: int| 0 <= k < j - 1 && #[trigger] rest[k] == self.edges[e].0;
            assert(order[k + 1] == order[i]);
        }
    }

    /// Under the same conditions the traversal visits the start of every walk
    /// before each later node of the walk.
    pub proof fn lemma_walk_in_order(self, walk: Seq<usize>, k: int, i: int, j: int)
        requires
            self.wf(),
            older_dependencies(self.edges),
            single_dependencies(self.edges),
            is_walk(self.edges, walk),
            1 <= k < walk.len(),
            0 <= i < self.order().len(),
            0 <= j < self.order().len(),
            self.order()[i] == walk[0],
            self.order()[j] == walk[k],
        ensures
            i < j,
        decreases k,
    {
        assert(steps_along(self.edges, walk, k - 1));
        let e = choose|e: int| 0 <= e < self.edges.len() && self.edges[e] == (walk[k - 1], walk[k]);
        if k == 1 {
            self.lemma_edge_in_order(e, i, j);
        } else {
            self.lemma_order();
            assert(self.order().contains(walk[k - 1]));
            let m = choose|m: int| 0 <= m < self.order().len() && self.order()[m] == walk[k - 1];
            self.lemma_walk_in_order(walk, k - 1, i, m);
            self.lemma_edge_in_order(e, m, j);
        }
    }

    /// Under the same conditions the traversal visits a node before every
    /// other node that it has a path to.
    pub proof fn lemma_path_in_order(self, from: usize, to: usize, i: int, j: int)
        requires
            self.wf(),
            older_dependencies(self.edges),
            single_dependencies(self.edges),
            path_exists(self.edges, from, to),
            from != to,
            0 <= i < self.order().len(),
            0 <= j < self.order().len(),
            self.order()[i] == from,
            self.order()[j] == to,
        ensures
            i < j,
    {
        let walk = choose|walk: Seq<usize>| #[trigger]
            is_walk(self.edges, walk) && walk[0] == from && walk.last() == to;
        self.lemma_walk_in_order(walk, walk.len() - 1, i, j);
    }

    /// The entries of the plan: the nodes of the order after the root, with
    /// priorities that fall by one from `i32::MAX`.
    pub proof fn lemma_plan(self, i: int)
        requires
            self.wf(),
            self.payloads.len() <= 0x1_0000_0000,
            0 <= i < self.plan().len(),
        ensures
            self.plan().len() == self.payloads.len() - 1,
            self.plan().len() == self.order().len() - 1,
            self.plan()[i].0 == self.order()[i + 1],
            self.plan()[i].1 == i32::MAX - i,
    {
        self.lemma_order();
    }

    /// A new node keeps the invariant.
    pub proof fn lemma_with_node_wf(self, name: Seq<char>, payload: Payload<S>)
        requires
            self.wf(),
            self.payloads.len() < usize::MAX,
            !self.knows(name),
            !(payload is Root),
            payload matches Payload::Placeholder(given) ==> given@ == name,
        ensures
            self.with_node(name, payload).wf(),
    {
        let next = self.with_node(name, payload);
        let node = self.payloads.len() as usize;
        assert forall|i: int| 0 <= i < next.edges.len() implies (#[trigger] next.edges[i]).0 < next.payloads.len() && 1
            <= next.edges[i].1 < next.payloads.len() by {
            if i < self.edges.len() {
                assert(next.edges[i] == self.edges[i]);
            }
        }
        assert forall|k: int| 1 <= k < next.payloads.len() implies (#[trigger] next.payloads[k] matches Payload::Placeholder(given)
            ==> next.names.contains_key(given@) && next.names[given@] == k) by {
            if k < self.payloads.len() {
                assert(next.payloads[k] == self.payloads[k]);
            }
        }
        assert(successors(next.edges, 0) == countdown(next.payloads.len())) by {
            lemma_successors_push(self.edges, (0usize, node), 0);
            assert(seq![node] + countdown(self.payloads.len()) =~= countdown(next.payloads.len()));
        }
        assert(acyclic(next.edges)) by {
            if path_exists(self.edges, node, 0) {
                lemma_path_enters(self.edges, node, 0);
            }
            lemma_acyclic_push(self.edges, 0, node);
        }
    }

    /// Registering a system keeps the invariant.
    pub proof fn lemma_upserted_wf(self, name: Seq<char>, constructor: S)
        requires
            self.wf(),
            !self.knows(name) ==> self.payloads.len() < usize::MAX,
        ensures
            self.upserted(name, constructor).wf(),
            self.upserted(name, constructor).knows(name),
    {
        if self.knows(name) {
            let next = self.upserted(name, constructor);
            let node = self.names[name];
            assert forall|k: int| 1 <= k < next.payloads.len() implies (#[trigger] next.payloads[k] matches Payload::Placeholder(given)
                ==> next.names.contains_key(given@) && next.names[given@] == k) by {
                if k != node {
                    assert(next.payloads[k] == self.payloads[k]);
                }
            }
        } else {
            self.lemma_with_node_wf(name, Payload::System(constructor));
        }
    }

    /// Mentioning a dependency keeps the invariant.
    pub proof fn lemma_with_placeholder_wf(self, name: String)
        requires
            self.wf(),
            !self.knows(name@) ==> self.payloads.len() < usize::MAX,
        ensures
            self.with_placeholder(name).wf(),
            self.with_placeholder(name).knows(name@),
    {
        if !self.knows(name@) {
            self.lemma_with_node_wf(name@, Payload::Placeholder(name));
        }
    }

    /// A dependency that closes no cycle keeps the invariant.
    pub proof fn lemma_with_dependency_wf(self, node: usize, dependency: String)
        requires
            self.wf(),
            !self.knows(dependency@) ==> self.payloads.len() < usize::MAX,
            self.is_system_node(node),
            !self.closes_cycle(node, dependency@),
        ensures
            self.with_dependency(node, dependency).wf(),
    {
        let mentioned = self.with_placeholder(dependency);
        let next = self.with_dependency(node, dependency);
        let target = mentioned.names[dependency@];
        self.lemma_with_placeholder_wf(dependency);
        assert forall|i: int| 0 <= i < next.edges.len() implies (#[trigger] next.edges[i]).0 < next.payloads.len() && 1
            <= next.edges[i].1 < next.payloads.len() by {
            if i < mentioned.edges.len() {
                assert(next.edges[i] == mentioned.edges[i]);
            }
        }
        assert(successors(next.edges, 0) == countdown(next.payloads.len())) by {
            lemma_successors_push(mentioned.edges, (target, node), 0);
        }
        assert(!path_exists(mentioned.edges, node, target)) by {
            if !self.knows(dependency@) && path_exists(mentioned.edges, node, target) {
                // The placeholder is entered from the root alone, and the
                // root from nowhere.
                lemma_path_enters(mentioned.edges, node, target);
                let i = choose|i: int| 0 <= i < mentioned.edges.len() && (#[trigger] mentioned.edges[i]).1 == target
                    && path_exists(mentioned.edges, node, mentioned.edges[i].0);
                if i < self.edges.len() {
                    assert(mentioned.edges[i] == self.edges[i]);
                }
                lemma_path_enters(mentioned.edges, node, 0);
            }
        }
        lemma_acyclic_push(mentioned.edges, target, node);
    }

    /// Dependencies only add nodes.
    pub proof fn lemma_with_dependencies_grows(self, node: usize, dependencies: Seq<String>)
        ensures
            self.payloads.len() <= self.with_dependencies(node, dependencies).0.payloads.len(),
        decreases dependencies.len(),
    {
        if dependencies.len() > 0 && !self.closes_cycle(node, dependencies[0]@) {
            self.with_dependency(node, dependencies[0]).lemma_with_dependencies_grows(node, dependencies.skip(1));
        }
    }

    /// Growing is transitive.
    pub proof fn lemma_extends_transitive(self, middle: Self, earlier: Self)
        requires
            self.extends(middle),
            middle.extends(earlier),
        ensures
            self.extends(earlier),
    {
        assert forall|name: Seq<char>| #[trigger] earlier.names.contains_key(name) implies self.names.contains_key(name)
            && self.names[name] == earlier.names[name] by {
            assert(middle.names.contains_key(name));
        }
        assert forall|i: int| 0 <= i < earlier.edges.len() implies #[trigger] self.edges[i] == earlier.edges[i] by {
            assert(middle.edges[i] == earlier.edges[i]);
        }
    }

    /// One dependency grows the registry, keeps the payloads there were, and
    /// ends it with the edge from the dependency to `node`.
    pub proof fn lemma_with_dependency_extends(self, node: usize, dependency: String)
        ensures
            self.with_dependency(node, dependency).extends(self),
            self.with_dependency(node, dependency).knows(dependency@),
            self.with_dependency(node, dependency).edges.last() == (
                self.with_dependency(node, dependency).names[dependency@],
                node,
            ),
            forall|k: int|
                0 <= k < self.payloads.len() ==> #[trigger] self.with_dependency(node, dependency).payloads[k]
                    == self.payloads[k],
    {
    }

    /// A run of dependencies grows the registry and keeps the payloads there
    /// were.
    pub proof fn lemma_with_dependencies_extends(self, node: usize, dependencies: Seq<String>)
        ensures
            self.with_dependencies(node, dependencies).0.extends(self),
            forall|k: int|
                0 <= k < self.payloads.len() ==> #[trigger] self.with_dependencies(node, dependencies).0.payloads[k]
                    == self.payloads[k],
        decreases dependencies.len(),
    {
        if dependencies.len() > 0 && !self.closes_cycle(node, dependencies[0]@) {
            let end = self.with_dependencies(node, dependencies).0;
            let next = self.with_dependency(node, dependencies[0]);
            self.lemma_with_dependency_extends(node, dependencies[0]);
            next.lemma_with_dependencies_extends(node, dependencies.skip(1));
            end.lemma_extends_transitive(next, self);
            assert forall|k: int| 0 <= k < self.payloads.len() implies #[trigger] end.payloads[k] == self.payloads[k] by {
                assert(next.payloads[k] == self.payloads[k]);
            }
        }
    }

    /// A run of dependencies keeps the invariant, within the limit of `usize`
    /// on the number of nodes.
    pub proof fn lemma_with_dependencies_wf(self, node: usize, dependencies: Seq<String>)
        requires
            self.wf(),
            self.is_system_node(node),
            self.with_dependencies(node, dependencies).0.payloads.len() <= usize::MAX,
        ensures
            self.with_dependencies(node, dependencies).0.wf(),
        decreases dependencies.len(),
    {
        if dependencies.len() > 0 && !self.closes_cycle(node, dependencies[0]@) {
            let next = self.with_dependency(node, dependencies[0]);
            next.lemma_with_dependencies_grows(node, dependencies.skip(1));
            self.lemma_with_dependency_wf(node, dependencies[0]);
            next.lemma_with_dependencies_wf(node, dependencies.skip(1));
        }
    }

    /// Where a run of dependencies was added in full, each of them has its
    /// edge to `node`.
    pub proof fn lemma_with_dependencies_edges(self, node: usize, dependencies: Seq<String>)
        requires
            self.with_dependencies(node, dependencies).1,
        ensures
            forall|i: int|
                0 <= i < dependencies.len() ==> {
                    let end = self.with_dependencies(node, dependencies).0;
                    end.knows(#[trigger] dependencies[i]@) && end.edges.contains((end.names[dependencies[i]@], node))
                },
        decreases dependencies.len(),
    {
        if dependencies.len() > 0 {
            let end = self.with_dependencies(node, dependencies).0;
            let first = dependencies[0];
            let rest = dependencies.skip(1);
            let next = self.with_dependency(node, first);
            self.lemma_with_dependency_extends(node, first);
            next.lemma_with_dependencies_extends(node, rest);
            next.lemma_with_dependencies_edges(node, rest);
            assert forall|i: int| 0 <= i < dependencies.len() implies end.knows(#[trigger] dependencies[i]@)
                && end.edges.contains((end.names[dependencies[i]@], node)) by {
                if i == 0 {
                    let at = next.edges.len() - 1;
                    assert(end.edges[at] == next.edges[at]);
                    assert(end.names[first@] == next.names[first@]);
                } else {
                    assert(dependencies[i] == rest[i - 1]);
                }
            }
        }
    }

    /// A run of dependencies is refused where one of them closes a cycle from
    /// the start.
    pub proof fn lemma_closing_dependency_refused(self, node: usize, dependencies: Seq<String>, i: int)
        requires
            0 <= i < dependencies.len(),
            self.closes_cycle(node, dependencies[i]@),
        ensures
            !self.with_dependencies(node, dependencies).1,
        decreases dependencies.len(),
    {
        if !self.closes_cycle(node, dependencies[0]@) {
            let rest = dependencies.skip(1);
            let next = self.with_dependency(node, dependencies[0]);
            assert(next.closes_cycle(node, dependencies[i]@)) by {
                self.lemma_with_dependency_extends(node, dependencies[0]);
                self.lemma_closes_cycle_stays(next, node, dependencies[i]@);
            }
            assert(rest[i - 1] == dependencies[i]);
            next.lemma_closing_dependency_refused(node, rest, i - 1);
        }
    }

    /// A run of dependencies is refused only where one of them closes a cycle
    /// in the registry that the run ends with. The result is its place.
    pub proof fn lemma_refused_dependency(self, node: usize, dependencies: Seq<String>) -> (i: int)
        requires
            !self.with_dependencies(node, dependencies).1,
        ensures
            0 <= i < dependencies.len(),
            self.with_dependencies(node, dependencies).0.closes_cycle(node, dependencies[i]@),
        decreases dependencies.len(),
    {
        if self.closes_cycle(node, dependencies[0]@) {
            0
        } else {
            let rest = dependencies.skip(1);
            let next = self.with_dependency(node, dependencies[0]);
            let at = next.lemma_refused_dependency(node, rest);
            assert(rest[at] == dependencies[at + 1]);
            at + 1
        }
    }

    /// A dependency that closes a cycle goes on closing it as the registry
    /// grows.
    pub proof fn lemma_closes_cycle_stays(self, later: Self, node: usize, dependency: Seq<char>)
        requires
            later.extends(self),
            self.closes_cycle(node, dependency),
        ensures
            later.closes_cycle(node, dependency),
    {
        assert(later.names[dependency] == self.names[dependency]);
        lemma_path_grows(self.edges, later.edges, node, self.names[dependency]);
    }
}

/// A path stays a path in a graph that keeps every edge.
pub proof fn lemma_path_grows(edges: Seq<(usize, usize)>, later: Seq<(usize, usize)>, from: usize, to: usize)
    requires
        edges.len() <= later.len(),
        forall|i: int| 0 <= i < edges.len() ==> #[trigger] later[i] == edges[i],
        path_exists(edges, from, to),
    ensures
        path_exists(later, from, to),
    decreases later.len() - edges.len(),
{
    if edges.len() < later.len() {
        let next = edges.push(later[edges.len() as int]);
        lemma_path_monotonic(edges, later[edges.len() as int], from, to);
        lemma_path_grows(next, later, from, to);
    } else {
        assert(edges =~= later);
    }
}

} // verus!
