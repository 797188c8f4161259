use vstd::prelude::*;

verus! {

/// Visibility of an agent's memory.
#[derive(Debug, Clone, Copy, PartialEq, Eq, Structural)]
pub enum Scope {
    Private,
    Shared,
    Global,
}

/// Lifecycle of a stored memory entry.
#[derive(Debug, Clone, Copy, PartialEq, Eq, Structural)]
pub enum LifecycleState {
    Active,
    Superseded,
    Merged,
    Archived,
}

/// Where a memory entry came from.
#[derive(Debug, Clone, Copy, PartialEq, Eq, Structural)]
pub enum OriginType {
    UserInput,
    AgentGenerated,
    Imported,
}

} // verus!
