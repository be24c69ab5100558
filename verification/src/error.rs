//! The ways in which registering or building systems can fail.

use vstd::prelude::*;

verus! {

/// An error of the system builder.
#[derive(Debug, PartialEq, Eq)]
pub enum SystemError {
    /// A name was in the node table without a node in the graph. This marks a
    /// defect of the builder itself and carries the offending name.
    DuplicateSystem(String),
    /// A dependency would have closed a cycle; the edge was not added.
    WouldCycle,
    /// A system was named as a dependency and never registered.
    MissingDependentSystem(String),
    /// A system's own constructor failed, with its message.
    Failed(String),
}

} // verus!
