//! What holds of every registry and of every build.

use crate::error::SystemError;
use crate::graph::{acyclic, lemma_acyclic_no_back_edge, lemma_path_reflexive, lemma_path_step, path_exists};
use crate::registry::{countdown, Payload, Registry};
use crate::traversal::{lemma_successors, older_dependencies, single_dependencies};
use crate::system::{delivered, never_fails, SystemConstructor};
use vstd::prelude::*;

verus! {

/// A registration leaves a well-formed registry, whether it was refused or
/// not: the graph is acyclic, every node is anchored to the root, no name has
/// lost or changed its node, and no edge was removed. The number of nodes has
/// to stay within `usize`.
pub proof fn law_registration_keeps_the_invariant<S>(
    registry: Registry<S>,
    name: Seq<char>,
    constructor: S,
    dependencies: Seq<String>,
)
    requires
        registry.wf(),
        registry.registered(name, constructor, dependencies).0.payloads.len() <= usize::MAX,
    ensures
        registry.registered(name, constructor, dependencies).0.wf(),
        registry.registered(name, constructor, dependencies).0.extends(registry),
        acyclic(registry.registered(name, constructor, dependencies).0.edges),
{
    let start = registry.upserted(name, constructor);
    let node = start.names[name];
    let end = start.with_dependencies(node, dependencies).0;
    start.lemma_with_dependencies_grows(node, dependencies);
    registry.lemma_upserted_wf(name, constructor);
    start.lemma_with_dependencies_wf(node, dependencies);
    start.lemma_with_dependencies_extends(node, dependencies);
    assert(start.extends(registry));
    end.lemma_extends_transitive(start, registry);
}

/// Every node but the root is anchored: an edge leads to it from the root, so
/// the traversal from the root reaches it.
pub proof fn law_every_node_is_anchored<S>(registry: Registry<S>, node: usize)
    requires
        registry.wf(),
        registry.is_system_node(node),
    ensures
        registry.edges.contains((0usize, node)),
        path_exists(registry.edges, 0, node),
{
    let count = registry.payloads.len();
    assert(countdown(count)[count - 1 - node] == node);
    lemma_successors(registry.edges, 0);
    lemma_path_reflexive(registry.edges, 0);
    lemma_path_step(registry.edges, 0, 0, node);
}

/// Every node but the root is in the plan exactly once, so every system that
/// was registered is delivered exactly once; and the priorities fall by one
/// from `i32::MAX` along the plan, so a system that is delivered later has a
/// strictly lower priority.
pub proof fn law_every_system_is_delivered_once<S>(registry: Registry<S>)
    requires
        registry.wf(),
        registry.payloads.len() <= 0x1_0000_0000,
    ensures
        registry.plan().len() == registry.payloads.len() - 1,
        forall|i: int|
            0 <= i < registry.plan().len() ==> registry.is_system_node((#[trigger] registry.plan()[i]).0)
                && registry.plan()[i].1 == i32::MAX - i,
        forall|i: int, j: int|
            0 <= i < j < registry.plan().len() ==> (#[trigger] registry.plan()[i]).0 != (#[trigger] registry.plan()[j]).0
                && registry.plan()[i].1 > registry.plan()[j].1,
        forall|node: usize|
            registry.is_system_node(node) ==> exists|i: int|
                0 <= i < registry.plan().len() && (#[trigger] registry.plan()[i]).0 == node,
        forall|name: Seq<char>|
            registry.knows(name) ==> exists|i: int|
                0 <= i < registry.plan().len() && (#[trigger] registry.plan()[i]).0 == registry.names[name],
{
    let order = registry.order();
    let plan = registry.plan();
    registry.lemma_order();
    assert forall|i: int| 0 <= i < plan.len() implies registry.is_system_node((#[trigger] plan[i]).0) && plan[i].1
        == i32::MAX - i by {
        assert(order[i + 1] != order[0]);
    }
    assert forall|node: usize| registry.is_system_node(node) implies exists|i: int|
        0 <= i < plan.len() && (#[trigger] plan[i]).0 == node by {
        assert(order.contains(node));
        let at = choose|at: int| 0 <= at < order.len() && order[at] == node;
        assert(plan[at - 1].0 == node);
    }
    assert forall|name: Seq<char>| registry.knows(name) implies exists|i: int|
        0 <= i < plan.len() && (#[trigger] plan[i]).0 == registry.names[name] by {
        assert(registry.is_system_node(registry.names[name]));
    }
}

/// Where every dependency was mentioned before the system that names it, and
/// no system has two different dependencies, every system is delivered after
/// each system that it depends on, directly or through others, and so at a
/// strictly lower priority.
///
/// Without these conditions the order of the traversal decides: a system is
/// delivered as soon as the first of its dependencies has been, and a system
/// that was mentioned before its dependency is delivered before it.
pub proof fn law_dependencies_come_first<S>(registry: Registry<S>, dependency: usize, dependent: usize, i: int, j: int)
    requires
        registry.wf(),
        registry.payloads.len() <= 0x1_0000_0000,
        older_dependencies(registry.edges),
        single_dependencies(registry.edges),
        dependency != dependent,
        path_exists(registry.edges, dependency, dependent),
        0 <= i < registry.plan().len(),
        0 <= j < registry.plan().len(),
        registry.plan()[i].0 == dependency,
        registry.plan()[j].0 == dependent,
    ensures
        i < j,
        registry.plan()[i].1 > registry.plan()[j].1,
{
    registry.lemma_plan(i);
    registry.lemma_plan(j);
    registry.lemma_path_in_order(dependency, dependent, i + 1, j + 1);
}

/// Registering a system under a name that was only mentioned as a dependency
/// puts the system's constructor in the placeholder's place: the node, the
/// edges and the plan stay, and no other payload changes. Building then
/// instantiates the system where it would have failed for the placeholder.
pub proof fn law_registration_replaces_placeholder<S>(registry: Registry<S>, name: Seq<char>, constructor: S)
    requires
        registry.wf(),
        registry.knows(name),
    ensures
        registry.upserted(name, constructor).names == registry.names,
        registry.upserted(name, constructor).edges == registry.edges,
        registry.upserted(name, constructor).plan() == registry.plan(),
        registry.upserted(name, constructor).payloads[registry.names[name] as int] == Payload::System(constructor),
        forall|node: int|
            0 <= node < registry.payloads.len() && node != registry.names[name] ==> #[trigger] registry.upserted(
                name,
                constructor,
            ).payloads[node] == registry.payloads[node],
{
}

/// A delivery succeeds where every node of the plan carries a system that
/// never fails.
pub proof fn lemma_delivery_succeeds<S: SystemConstructor>(
    payloads: Seq<Payload<S>>,
    plan: Seq<(usize, i32)>,
    before: S::Planner,
    after: S::Planner,
    result: Result<(), SystemError>,
)
    requires
        delivered(payloads, plan, before, after, result),
        forall|i: int|
            0 <= i < plan.len() ==> (#[trigger] payloads[plan[i].0 as int] matches Payload::System(constructor)
                && never_fails(constructor)),
    ensures
        result is Ok,
    decreases plan.len(),
{
    if plan.len() > 0 {
        let rest = plan.skip(1);
        assert(payloads[plan[0].0 as int] is System);
        let constructor = payloads[plan[0].0 as int]->System_0;
        let (reached, outcome) = choose|reached: S::Planner, outcome: Result<(), SystemError>|
            #![trigger constructor.instantiates(before, plan[0].1, reached, outcome)]
            constructor.instantiates(before, plan[0].1, reached, outcome) && if outcome is Ok {
                delivered(payloads, rest, reached, after, result)
            } else {
                after == reached && result == outcome
            };
        assert forall|i: int| 0 <= i < rest.len() implies (#[trigger] payloads[rest[i].0 as int] matches Payload::System(
            constructor,
        ) && never_fails(constructor)) by {
            assert(rest[i] == plan[i + 1]);
            assert(payloads[plan[i + 1].0 as int] is System);
        }
        lemma_delivery_succeeds(payloads, rest, reached, after, result);
    }
}

/// Once a system is registered under every name, and none of the systems ever
/// fails, the build succeeds.
pub proof fn law_build_succeeds<S: SystemConstructor>(
    registry: Registry<S>,
    before: S::Planner,
    after: S::Planner,
    result: Result<(), SystemError>,
)
    requires
        registry.wf(),
        registry.payloads.len() <= 0x1_0000_0000,
        forall|node: int|
            1 <= node < registry.payloads.len() ==> (#[trigger] registry.payloads[node] matches Payload::System(
                constructor,
            ) && never_fails(constructor)),
        delivered(registry.payloads, registry.plan(), before, after, result),
    ensures
        result is Ok,
{
    law_every_system_is_delivered_once(registry);
    assert forall|i: int| 0 <= i < registry.plan().len() implies (#[trigger] registry.payloads[registry.plan()[i].0 as int] matches Payload::System(
        constructor,
    ) && never_fails(constructor)) by {
        assert(registry.is_system_node(registry.plan()[i].0));
    }
    lemma_delivery_succeeds(registry.payloads, registry.plan(), before, after, result);
}

/// A build succeeds only where every node of the plan carries a system.
pub proof fn lemma_success_meets_no_placeholder<S: SystemConstructor>(
    payloads: Seq<Payload<S>>,
    plan: Seq<(usize, i32)>,
    before: S::Planner,
    after: S::Planner,
    result: Result<(), SystemError>,
    i: int,
)
    requires
        delivered(payloads, plan, before, after, result),
        result is Ok,
        0 <= i < plan.len(),
    ensures
        !(payloads[plan[i].0 as int] is Placeholder),
    decreases plan.len(),
{
    let rest = plan.skip(1);
    match payloads[plan[0].0 as int] {
        Payload::Root => {
            if i > 0 {
                lemma_success_meets_no_placeholder(payloads, rest, before, after, result, i - 1);
            }
        },
        Payload::Placeholder(name) => {},
        Payload::System(constructor) => {
            if i > 0 {
                let (reached, outcome) = choose|reached: S::Planner, outcome: Result<(), SystemError>|
                    #![trigger constructor.instantiates(before, plan[0].1, reached, outcome)]
                    constructor.instantiates(before, plan[0].1, reached, outcome) && if outcome is Ok {
                        delivered(payloads, rest, reached, after, result)
                    } else {
                        after == reached && result == outcome
                    };
                lemma_success_meets_no_placeholder(payloads, rest, reached, after, result, i - 1);
            }
        },
    }
}

/// While a dependency is named and no system is registered under its name,
/// no build succeeds: whatever the systems do, the result is an error.
pub proof fn law_unregistered_dependency_fails<S: SystemConstructor>(
    registry: Registry<S>,
    dependency: Seq<char>,
    before: S::Planner,
    after: S::Planner,
    result: Result<(), SystemError>,
)
    requires
        registry.wf(),
        registry.payloads.len() <= 0x1_0000_0000,
        registry.knows(dependency),
        registry.payloads[registry.names[dependency] as int] is Placeholder,
        delivered(registry.payloads, registry.plan(), before, after, result),
    ensures
        result is Err,
{
    if result is Ok {
        law_every_system_is_delivered_once(registry);
        let node = registry.names[dependency];
        let i = choose|i: int| 0 <= i < registry.plan().len() && (#[trigger] registry.plan()[i]).0 == node;
        lemma_success_meets_no_placeholder(registry.payloads, registry.plan(), before, after, result, i);
    }
}

/// When a placeholder's turn has come, the build ends with
/// `MissingDependentSystem` and the very name that the placeholder stands for,
/// and leaves the planner as it was.
pub proof fn law_placeholder_fails_with_its_name<S: SystemConstructor>(
    registry: Registry<S>,
    plan: Seq<(usize, i32)>,
    before: S::Planner,
    after: S::Planner,
    result: Result<(), SystemError>,
)
    requires
        registry.wf(),
        plan.len() > 0,
        registry.is_system_node(plan[0].0),
        registry.payloads[plan[0].0 as int] is Placeholder,
        delivered(registry.payloads, plan, before, after, result),
    ensures
        after == before,
        result matches Err(SystemError::MissingDependentSystem(name)) && registry.knows(name@) && registry.names[name@]
            == plan[0].0,
{
}

/// A dependency that would close a cycle is refused: where a path leads from
/// the system to the dependency when the registration starts, the call fails
/// with `WouldCycle`, and the graph it leaves holds no edge from that
/// dependency to the system.
pub proof fn law_cycle_is_refused<S>(
    registry: Registry<S>,
    name: Seq<char>,
    constructor: S,
    dependencies: Seq<String>,
    i: int,
)
    requires
        registry.wf(),
        registry.registered(name, constructor, dependencies).0.payloads.len() <= usize::MAX,
        0 <= i < dependencies.len(),
        registry.upserted(name, constructor).closes_cycle(
            registry.upserted(name, constructor).names[name],
            dependencies[i]@,
        ),
    ensures
        !registry.registered(name, constructor, dependencies).1,
        ({
            let end = registry.registered(name, constructor, dependencies).0;
            !end.edges.contains((end.names[dependencies[i]@], end.names[name]))
        }),
{
    let start = registry.upserted(name, constructor);
    let node = start.names[name];
    let end = start.with_dependencies(node, dependencies).0;
    let target = start.names[dependencies[i]@];
    start.lemma_closing_dependency_refused(node, dependencies, i);
    assert(acyclic(end.edges)) by {
        law_registration_keeps_the_invariant(registry, name, constructor, dependencies);
    }
    assert(end.closes_cycle(node, dependencies[i]@) && end.names[name] == node) by {
        start.lemma_with_dependencies_extends(node, dependencies);
        start.lemma_closes_cycle_stays(end, node, dependencies[i]@);
        assert(start.names.contains_key(name));
    }
    lemma_acyclic_no_back_edge(end.edges, node, end.names[dependencies[i]@]);
}

/// A registration is refused for a cycle alone: where it fails, one of its
/// dependencies, whose place is the result, is known in the registry that the
/// call leaves and has a path leading to it from the system.
pub proof fn law_refusal_names_a_cycle<S>(
    registry: Registry<S>,
    name: Seq<char>,
    constructor: S,
    dependencies: Seq<String>,
) -> (i: int)
    requires
        !registry.registered(name, constructor, dependencies).1,
    ensures
        0 <= i < dependencies.len(),
        ({
            let end = registry.registered(name, constructor, dependencies).0;
            end.knows(name) && end.closes_cycle(end.names[name], dependencies[i]@)
        }),
{
    let start = registry.upserted(name, constructor);
    let node = start.names[name];
    assert(start.names.contains_key(name));
    start.lemma_with_dependencies_extends(node, dependencies);
    start.lemma_refused_dependency(node, dependencies)
}

/// Two systems cannot depend on each other: once `first` depends on `second`,
/// a registration of `second` that names `first` is refused with `WouldCycle`.
pub proof fn law_mutual_dependency_is_refused<S>(
    registry: Registry<S>,
    first: Seq<char>,
    first_constructor: S,
    first_dependencies: Seq<String>,
    i: int,
    second_constructor: S,
    second_dependencies: Seq<String>,
    j: int,
)
    requires
        registry.wf(),
        0 <= i < first_dependencies.len(),
        0 <= j < second_dependencies.len(),
        second_dependencies[j]@ == first,
        registry.registered(first, first_constructor, first_dependencies).1,
        registry.registered(first, first_constructor, first_dependencies).0.registered(
            first_dependencies[i]@,
            second_constructor,
            second_dependencies,
        ).0.payloads.len() <= usize::MAX,
    ensures
        !registry.registered(first, first_constructor, first_dependencies).0.registered(
            first_dependencies[i]@,
            second_constructor,
            second_dependencies,
        ).1,
{
    let second = first_dependencies[i]@;
    let start = registry.upserted(first, first_constructor);
    let node = start.names[first];
    let middle = start.with_dependencies(node, first_dependencies).0;
    start.lemma_with_dependencies_edges(node, first_dependencies);
    start.lemma_with_dependencies_extends(node, first_dependencies);
    assert(start.names.contains_key(first));
    assert(middle.knows(first_dependencies[i]@));
    let other = middle.names[second];
    assert(middle.edges.contains((other, node)));
    let again = middle.upserted(second, second_constructor);
    assert(again.names == middle.names && again.edges == middle.edges);
    assert(path_exists(again.edges, other, node)) by {
        lemma_path_reflexive(again.edges, other);
        lemma_path_step(again.edges, other, other, node);
    }
    again.lemma_closing_dependency_refused(other, second_dependencies, j);
}

/// No system can depend on itself: a registration that names the system
/// among its own dependencies is refused with `WouldCycle`.
pub proof fn law_self_dependency_is_refused<S>(
    registry: Registry<S>,
    name: Seq<char>,
    constructor: S,
    dependencies: Seq<String>,
    i: int,
)
    requires
        0 <= i < dependencies.len(),
        dependencies[i]@ == name,
    ensures
        !registry.registered(name, constructor, dependencies).1,
{
    let start = registry.upserted(name, constructor);
    let node = start.names[name];
    lemma_path_reflexive(start.edges, node);
    assert(start.names.contains_key(name));
    start.lemma_closing_dependency_refused(node, dependencies, i);
}

/// Registering a name again adds to its dependencies: after two registrations
/// that were both accepted, the system has an edge from each dependency of
/// the first and from each of the second, and it has kept its node.
pub proof fn law_dependencies_accumulate<S>(
    registry: Registry<S>,
    name: Seq<char>,
    first_constructor: S,
    first_dependencies: Seq<String>,
    second_constructor: S,
    second_dependencies: Seq<String>,
)
    requires
        registry.registered(name, first_constructor, first_dependencies).1,
        registry.registered(name, first_constructor, first_dependencies).0.registered(
            name,
            second_constructor,
            second_dependencies,
        ).1,
    ensures
        ({
            let middle = registry.registered(name, first_constructor, first_dependencies).0;
            let end = middle.registered(name, second_constructor, second_dependencies).0;
            &&& end.knows(name)
            &&& end.names[name] == middle.names[name]
            &&& forall|i: int|
                0 <= i < first_dependencies.len() ==> end.knows(#[trigger] first_dependencies[i]@) && end.edges.contains(
                    (end.names[first_dependencies[i]@], end.names[name]),
                )
            &&& forall|i: int|
                0 <= i < second_dependencies.len() ==> end.knows(#[trigger] second_dependencies[i]@)
                    && end.edges.contains((end.names[second_dependencies[i]@], end.names[name]))
        }),
{
    let start = registry.upserted(name, first_constructor);
    let node = start.names[name];
    let middle = start.with_dependencies(node, first_dependencies).0;
    assert(start.names.contains_key(name));
    start.lemma_with_dependencies_edges(node, first_dependencies);
    start.lemma_with_dependencies_extends(node, first_dependencies);
    assert(middle.names.contains_key(name));
    let again = middle.upserted(name, second_constructor);
    let end = again.with_dependencies(node, second_dependencies).0;
    again.lemma_with_dependencies_edges(node, second_dependencies);
    again.lemma_with_dependencies_extends(node, second_dependencies);
    assert(again.names.contains_key(name));
    assert forall|i: int| 0 <= i < first_dependencies.len() implies end.knows(#[trigger] first_dependencies[i]@)
        && end.edges.contains((end.names[first_dependencies[i]@], end.names[name])) by {
        let dependency = first_dependencies[i]@;
        assert(middle.names.contains_key(dependency));
        assert(again.names.contains_key(dependency));
        let at = choose|at: int| 0 <= at < middle.edges.len() && middle.edges[at] == (middle.names[dependency], node);
        assert(end.edges[at] == again.edges[at]);
    }
}

} // verus!
