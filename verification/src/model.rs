use vstd::prelude::*;

verus! {

/// The overall status that the pet shows.
#[derive(Debug, Clone, Copy, PartialEq, Eq, Structural)]
pub enum Status {
    Working,
    Completed,
    Resting,
}

/// A kind of explicit record read from the local Codex logs.
#[derive(Debug, Clone, Copy, PartialEq, Eq, Structural)]
pub enum EvidenceKind {
    ExecutionStarted,
    ExecutionHeartbeat,
    ExecutionCompleted,
    WaitingForInput,
    ProcessSeen,
}

/// One explicit record with the time at which it was observed.
#[derive(Debug, Clone, Copy, PartialEq, Eq, Structural)]
pub struct Evidence {
    pub kind: EvidenceKind,
    pub observed_at_ms: u64,
}

/// The pet's state: its status and, while it shows a completion, the moment
/// at which that display ends.
#[derive(Debug, Clone, Copy, PartialEq, Eq, Structural)]
pub struct PetState {
    pub status: Status,
    pub completed_until_ms: Option<u64>,
}

} // verus!
