//! The system builder: registration of named systems with their
//! dependencies, kept free of cycles at every step.

use crate::error::SystemError;
use crate::graph::{
    graph_add_edge, graph_add_node, graph_edges, graph_has_path, graph_new, graph_node_count, path_exists,
    space_new, successors, CycleSpace, SystemGraph,
};
use crate::registry::{countdown, Payload, Registry};
use crate::system::{delivered, SystemConstructor};
use crate::table::{table_entries, table_get, table_insert, table_new};
use crate::traversal::{
    dfs_capacity, dfs_discovered, dfs_new, dfs_next, dfs_stack, lemma_step, lemma_undiscovered_empty, traversing,
    visit,
};
use fnv::FnvHashMap;
use vstd::prelude::*;

verus! {

/// Collects named systems and the names of the systems each depends on.
///
/// A dependency may be named before the system of that name is registered.
/// An edge that would close a cycle is refused when it is asked for, so the
/// graph is acyclic after every call, whether it succeeded or not.
pub struct SystemBuilder<S> {
    node_table: FnvHashMap<String, usize>,
    root: usize,
    graph: SystemGraph,
    cycle_state: CycleSpace,
    payloads: Vec<Payload<S>>,
}

impl<S> View for SystemBuilder<S> {
    type V = Registry<S>;

    closed spec fn view(&self) -> Registry<S> {
        Registry { names: table_entries(self.node_table), payloads: self.payloads@, edges: graph_edges(self.graph) }
    }
}

impl<S> SystemBuilder<S> {
    /// The invariant of a builder: its registry is well formed and its parts
    /// agree on the nodes.
    pub closed spec fn wf(&self) -> bool {
        &&& self.root == 0
        &&& graph_node_count(self.graph) == self.payloads@.len()
        &&& self@.wf()
    }

    /// A well-formed builder has a well-formed registry.
    pub proof fn lemma_registry_wf(&self)
        requires
            self.wf(),
        ensures
            self@.wf(),
    {
    }

    /// A builder that holds the root alone.
    pub fn new() -> (builder: Self)
        ensures
            builder.wf(),
            builder@ == Registry::<S>::empty(),
    {
        let mut graph = graph_new();
        let root = graph_add_node(&mut graph);
        let mut payloads: Vec<Payload<S>> = Vec::new();
        payloads.push(Payload::Root);
        let builder = SystemBuilder { node_table: table_new(), root, graph, cycle_state: space_new(), payloads };
        proof {
            assert(builder@.names =~= Map::<Seq<char>, usize>::empty());
            assert(builder@.payloads =~= seq![Payload::<S>::Root]);
            assert(builder@.edges =~= Seq::<(usize, usize)>::empty());
            assert(successors(builder@.edges, 0) =~= countdown(1));
        }
        builder
    }

    /// The number of nodes, the root included.
    pub fn node_count(&self) -> (count: usize)
        requires
            self.wf(),
        ensures
            count == self@.payloads.len(),
    {
        self.payloads.len()
    }

    /// Adds a node for the unknown `name` and anchors it to the root.
    fn create_node(&mut self, name: String, payload: Payload<S>) -> (node: usize)
        requires
            old(self).wf(),
            !old(self)@.knows(name@),
            !(payload is Root),
            payload matches Payload::Placeholder(given) ==> given@ == name@,
        ensures
            final(self).wf(),
            final(self)@ == old(self)@.with_node(name@, payload),
            node == old(self)@.payloads.len(),
    {
        let node = graph_add_node(&mut self.graph);
        self.payloads.push(payload);
        table_insert(&mut self.node_table, name, node);
        graph_add_edge(&mut self.graph, self.root, node);
        proof {
            assert(self.payloads.len() <= usize::MAX);
            old(self)@.lemma_with_node_wf(name@, payload);
        }
        node
    }

    /// The node of `name`. An unknown name gets a placeholder, which fails
    /// with `MissingDependentSystem` when built unless a system is registered
    /// under the name first.
    pub fn get_or_create_placeholder(&mut self, name: String) -> (node: usize)
        requires
            old(self).wf(),
        ensures
            final(self).wf(),
            final(self)@ == old(self)@.with_placeholder(name),
            final(self)@.knows(name@),
            node == final(self)@.names[name@],
    {
        match table_get(&self.node_table, name.as_str()) {
            Some(node) => node,
            None => {
                let key = name.clone();
                self.create_node(key, Payload::Placeholder(name))
            },
        }
    }

    /// Registers `constructor` under `name` and returns the node with the
    /// flag that says whether the name was known. The constructor replaces
    /// what the node of a known name carried, a placeholder included.
    ///
    /// `DuplicateSystem` would report a name whose node the graph lacks. The
    /// invariant rules that out, so the call succeeds.
    pub fn upsert_payload(&mut self, name: &str, constructor: S) -> (result: Result<(usize, bool), SystemError>)
        requires
            old(self).wf(),
        ensures
            final(self).wf(),
            final(self)@ == old(self)@.upserted(name@, constructor),
            final(self)@.knows(name@),
            result == Ok::<(usize, bool), SystemError>((final(self)@.names[name@], old(self)@.knows(name@))),
    {
        match table_get(&self.node_table, name) {
            Some(node) => {
                if node < self.payloads.len() {
                    self.payloads.set(node, Payload::System(constructor));
                    proof {
                        old(self)@.lemma_upserted_wf(name@, constructor);
                    }
                    Ok((node, true))
                } else {
                    Err(SystemError::DuplicateSystem(name.to_owned()))
                }
            },
            None => {
                let node = self.create_node(name.to_owned(), Payload::System(constructor));
                Ok((node, false))
            },
        }
    }

    /// The cycle oracle: whether a path leads from `from` to `to` in the
    /// graph as it stands. A node has a path to itself.
    pub fn connected(&mut self, from: usize, to: usize) -> (found: bool)
        requires
            old(self).wf(),
            from < old(self)@.payloads.len(),
        ensures
            final(self).wf(),
            final(self)@ == old(self)@,
            found == path_exists(old(self)@.edges, from, to),
    {
        graph_has_path(&self.graph, &mut self.cycle_state, from, to)
    }

    /// Registers the system `name` without dependencies and returns its node.
    /// Registering a name again replaces its constructor and keeps its node
    /// and edges.
    pub fn add_system(&mut self, name: &str, constructor: S) -> (result: Result<usize, SystemError>)
        requires
            old(self).wf(),
        ensures
            final(self).wf(),
            final(self)@ == old(self)@.upserted(name@, constructor),
            result == Ok::<usize, SystemError>(final(self)@.names[name@]),
    {
        match self.upsert_payload(name, constructor) {
            Ok((node, _)) => Ok(node),
            Err(error) => Err(error),
        }
    }

    /// Registers the system `name` and makes it depend on each name of `deps`
    /// in the order given.
    ///
    /// A dependency that is not known yet gets a placeholder. A known one is
    /// refused with `WouldCycle` where a path already leads from the system to
    /// it. The call stops at the first refusal: the registration itself and
    /// the dependencies before the refused one stay.
    pub fn add_system_with_deps(&mut self, name: &str, constructor: S, deps: Vec<String>) -> (result: Result<
        usize,
        SystemError,
    >)
        requires
            old(self).wf(),
        ensures
            final(self).wf(),
            final(self)@ == old(self)@.registered(name@, constructor, deps@).0,
            final(self)@.knows(name@),
            result == if old(self)@.registered(name@, constructor, deps@).1 {
                Ok::<usize, SystemError>(final(self)@.names[name@])
            } else {
                Err::<usize, SystemError>(SystemError::WouldCycle)
            },
    {
        let node = match self.upsert_payload(name, constructor) {
            Ok((node, _)) => node,
            Err(error) => {
                return Err(error);
            },
        };
        let ghost registered = self@;
        let mut i: usize = 0;
        proof {
            assert(deps@.skip(0) =~= deps@);
            registered.lemma_with_dependencies_extends(node, deps@);
            assert(registered.names.contains_key(name@));
        }
        while i < deps.len()
            invariant
                self.wf(),
                registered == old(self)@.upserted(name@, constructor),
                node == registered.names[name@],
                registered.with_dependencies(node, deps@).0.knows(name@),
                registered.with_dependencies(node, deps@).0.names[name@] == node,
                i <= deps.len(),
                self@.is_system_node(node),
                registered.with_dependencies(node, deps@) == self@.with_dependencies(node, deps@.skip(i as int)),
            decreases deps.len() - i,
        {
            let ghost before = self@;
            proof {
                assert(deps@.skip(i as int)[0] == deps@[i as int]);
                assert(deps@.skip(i as int).skip(1) =~= deps@.skip(i + 1));
            }
            let dep_node = match table_get(&self.node_table, deps[i].as_str()) {
                Some(dep_node) => {
                    if self.connected(node, dep_node) {
                        return Err(SystemError::WouldCycle);
                    }
                    dep_node
                },
                None => self.get_or_create_placeholder(deps[i].clone()),
            };
            proof {
                before.lemma_with_dependency_wf(node, deps@[i as int]);
            }
            graph_add_edge(&mut self.graph, dep_node, node);
            i += 1;
        }
        Ok(node)
    }

    /// The linearizer: the nodes that carry a payload in the order of the
    /// traversal, each with its priority, from `i32::MAX` downwards.
    ///
    /// Every node but the root is in the result exactly once. The priorities
    /// have to fit `i32`, so there can be `2^32` nodes at most.
    pub fn linearize(&self) -> (plan: Vec<(usize, i32)>)
        requires
            self.wf(),
            self@.payloads.len() <= 0x1_0000_0000,
        ensures
            plan@ == self@.plan(),
    {
        let mut plan: Vec<(usize, i32)> = Vec::new();
        let mut priority: i32 = i32::MAX;
        let mut dfs = dfs_new(&self.graph, self.root);
        let ghost count = self@.payloads.len();
        let ghost order = self@.order();
        let ghost mut visited: Seq<usize> = Seq::empty();
        proof {
            self@.lemma_order();
            lemma_undiscovered_empty(count);
            assert(order == visited + order);
        }
        loop
            invariant
                self.wf(),
                count == self@.payloads.len(),
                count <= 0x1_0000_0000,
                order == self@.order(),
                order.len() == count,
                order[0] == 0,
                order.no_duplicates(),
                dfs_capacity(dfs) == count,
                visited.len() <= count,
                traversing(self@.edges, count, dfs_stack(dfs), dfs_discovered(dfs), (count - visited.len()) as nat),
                order == visited + visit(
                    self@.edges,
                    dfs_stack(dfs),
                    dfs_discovered(dfs),
                    (count - visited.len()) as nat,
                ),
                plan@.len() == if visited.len() == 0 {
                    0
                } else {
                    visited.len() - 1
                },
                forall|j: int| 0 <= j < plan@.len() ==> #[trigger] plan@[j] == (order[j + 1], (i32::MAX - j) as i32),
                priority == i32::MAX - plan@.len(),
            ensures
                plan@ == self@.plan(),
            decreases count - visited.len(),
        {
            let ghost stack = dfs_stack(dfs);
            let ghost discovered = dfs_discovered(dfs);
            match dfs_next(&mut dfs, &self.graph) {
                None => {
                    proof {
                        assert(order == visited);
                        assert(plan@ =~= self@.plan());
                    }
                    break ;
                },
                Some(node) => {
                    proof {
                        lemma_step(self@.edges, count, stack, discovered, (count - visited.len()) as nat);
                        let rest = visit(
                            self@.edges,
                            dfs_stack(dfs),
                            dfs_discovered(dfs),
                            (count - visited.len() - 1) as nat,
                        );
                        assert(order == visited + (seq![node] + rest));
                        assert(order[visited.len() as int] == node);
                        assert(visited + (seq![node] + rest) =~= visited.push(node) + rest);
                        visited = visited.push(node);
                    }
                    match &self.payloads[node] {
                        Payload::Root => {},
                        _ => {
                            plan.push((node, priority));
                            priority = priority - 1;
                        },
                    }
                },
            }
        }
        plan
    }
}

impl<S: SystemConstructor> SystemBuilder<S> {
    /// Delivers every system to `planner`: each is instantiated in the order
    /// of `linearize` with its priority. This consumes the builder.
    ///
    /// A placeholder that no registration replaced fails with
    /// `MissingDependentSystem` and the name it stands for. The first failure,
    /// a placeholder's or a system's own, ends the build with that error; the
    /// systems before it stay delivered.
    pub fn build(self, planner: &mut S::Planner) -> (result: Result<(), SystemError>)
        requires
            self.wf(),
            self@.payloads.len() <= 0x1_0000_0000,
        ensures
            delivered(self@.payloads, self@.plan(), *old(planner), *final(planner), result),
    {
        let plan = self.linearize();
        let ghost payloads = self@.payloads;
        let ghost before = *planner;
        proof {
            self@.lemma_order();
            assert(plan@.skip(0) =~= plan@);
        }
        let mut systems = self.payloads;
        let mut i: usize = 0;
        while i < plan.len()
            invariant
                i <= plan.len(),
                payloads == self@.payloads,
                plan@ == self@.plan(),
                before == *old(planner),
                systems@.len() == payloads.len(),
                forall|j: int| 0 <= j < plan@.len() ==> (#[trigger] plan@[j]).0 < payloads.len(),
                forall|j: int, k: int| 0 <= j < plan@.len() && 0 <= k < plan@.len() && j != k ==> plan@[j].0 != plan@[k].0,
                forall|j: int| i <= j < plan@.len() ==> systems@[(#[trigger] plan@[j]).0 as int] == payloads[plan@[j].0 as int],
                forall|after: S::Planner, result: Result<(), SystemError>| #[trigger]
                    delivered(payloads, plan@.skip(i as int), *planner, after, result) ==> delivered(
                        payloads,
                        plan@,
                        before,
                        after,
                        result,
                    ),
            decreases plan.len() - i,
        {
            let (node, priority) = plan[i];
            let ghost now = *planner;
            let ghost rest = plan@.skip(i + 1);
            proof {
                assert(plan@.skip(i as int)[0] == plan@[i as int]);
                assert(plan@.skip(i as int).skip(1) =~= rest);
                assert(systems@[node as int] == payloads[node as int]);
            }
            let outcome = match &mut systems[node] {
                Payload::Root => Ok(()),
                Payload::Placeholder(name) => Err(SystemError::MissingDependentSystem(name.clone())),
                Payload::System(constructor) => constructor.instantiate(planner, priority),
            };
            proof {
                if outcome is Err {
                    assert(delivered(payloads, plan@.skip(i as int), now, *planner, outcome));
                } else {
                    assert forall|after: S::Planner, result: Result<(), SystemError>| #[trigger]
                        delivered(payloads, rest, *planner, after, result) implies delivered(
                        payloads,
                        plan@,
                        before,
                        after,
                        result,
                    ) by {
                        assert(delivered(payloads, plan@.skip(i as int), now, after, result));
                    }
                }
            }
            if let Err(error) = outcome {
                return Err(error);
            }
            i += 1;
        }
        proof {
            assert(delivered(payloads, plan@.skip(i as int), *planner, *planner, Ok::<(), SystemError>(())));
        }
        Ok(())
    }
}

} // verus!
