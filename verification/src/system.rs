//! What a system is to the builder: something that can be set up with a
//! planner at a priority.

use crate::error::SystemError;
use crate::registry::Payload;
use vstd::prelude::*;

verus! {

/// The deferred constructor of a system. The builder calls it once, when the
/// system's turn in the order has come, with the planner to register with and
/// the priority that the system got.
pub trait SystemConstructor {
    /// The planner that the system registers with.
    type Planner;

    /// What a call of `instantiate` may do: whether, handed `priority` with
    /// the planner as it was `before`, it can leave the planner as it is
    /// `after` and return `result`. The default allows everything; a verified
    /// constructor says more.
    open spec fn instantiates(
        &self,
        before: Self::Planner,
        priority: i32,
        after: Self::Planner,
        result: Result<(), SystemError>,
    ) -> bool {
        true
    }

    /// Sets the system up with `planner` at `priority`.
    fn instantiate(&mut self, planner: &mut Self::Planner, priority: i32) -> (result: Result<(), SystemError>)
        ensures
            old(self).instantiates(*old(planner), priority, *final(planner), result),
    ;
}

/// Whether `constructor` succeeds whatever it is handed.
pub open spec fn never_fails<S: SystemConstructor>(constructor: S) -> bool {
    forall|before: S::Planner, priority: i32, after: S::Planner, result: Result<(), SystemError>|
        #[trigger] constructor.instantiates(before, priority, after, result) ==> result is Ok
}

/// Whether delivering `plan` in its order, each node's payload with its
/// priority, can lead from the planner as it was `before` to the planner as it
/// is `after` with `result`.
///
/// A system is instantiated with the planner as the one before left it. A
/// placeholder fails with `MissingDependentSystem` and its name. The first
/// failure ends the delivery with that error; what was delivered before it
/// stays with the planner.
pub open spec fn delivered<S: SystemConstructor>(
    payloads: Seq<Payload<S>>,
    plan: Seq<(usize, i32)>,
    before: S::Planner,
    after: S::Planner,
    result: Result<(), SystemError>,
) -> bool
    decreases plan.len(),
{
    if plan.len() == 0 {
        after == before && result is Ok
    } else {
        match payloads[plan[0].0 as int] {
            Payload::Root => delivered(payloads, plan.skip(1), before, after, result),
            Payload::Placeholder(name) => after == before && result == Err::<(), SystemError>(
                SystemError::MissingDependentSystem(name),
            ),
            Payload::System(constructor) => exists|reached: S::Planner, outcome: Result<(), SystemError>|
                #![trigger constructor.instantiates(before, plan[0].1, reached, outcome)]
                constructor.instantiates(before, plan[0].1, reached, outcome) && if outcome is Ok {
                    delivered(payloads, plan.skip(1), reached, after, result)
                } else {
                    after == reached && result == outcome
                },
        }
    }
}

} // verus!
