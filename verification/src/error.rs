//! Errors reported by the net and by evaluation.
use vstd::prelude::*;

verus! {

/// What can go wrong while a net is built or reduced.
#[derive(Debug, Clone, Copy, PartialEq, Eq, Structural)]
pub enum Error {
    /// A custom agent was requested with a type id that was never registered.
    /// `cap` is the largest registered type id (0 when none is registered).
    InvalidTypeId { actual: usize, cap: usize },
    /// The agent store is full.
    AllocationFailed,
    /// A pending pair names an id whose slot holds no agent.
    MissingAgent { id: usize },
    /// Two custom agents met and no rule is registered for their types in
    /// either order.
    NoRule { lhs_type: usize, rhs_type: usize },
    /// The rule registered for the two types will not rewrite the pair it was
    /// handed, for instance because an agent lacks a port the rule reads.
    RuleRefused { lhs_type: usize, rhs_type: usize },
    /// A counter of resolutions has reached the largest value it can hold.
    CounterOverflow,
}

} // verus!
