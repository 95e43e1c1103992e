use vstd::prelude::*;

use crate::model::{Evidence, EvidenceKind, PetState, Status};

verus! {

/// How long a completion stays on display after the moment it was observed.
pub const COMPLETED_DURATION_MS: u64 = 8_000;

pub open spec fn resting_state() -> PetState {
    PetState { status: Status::Resting, completed_until_ms: None }
}

pub open spec fn working_state() -> PetState {
    PetState { status: Status::Working, completed_until_ms: None }
}

pub open spec fn completed_state(until_ms: u64) -> PetState {
    PetState { status: Status::Completed, completed_until_ms: Some(until_ms) }
}

/// A state is well formed when it carries a deadline exactly while it shows
/// a completion.
pub open spec fn state_wf(state: PetState) -> bool {
    (state.status == Status::Completed) <==> (state.completed_until_ms is Some)
}

/// The state shows a completion whose deadline has not passed yet.
pub open spec fn spec_completion_is_current(state: PetState, now_ms: u64) -> bool {
    &&& state.status == Status::Completed
    &&& state.completed_until_ms matches Some(until_ms)
    &&& now_ms < until_ms
}

/// The evidence is an explicit record that work is being executed.
pub open spec fn is_execution_evidence(kind: EvidenceKind) -> bool {
    kind == EvidenceKind::ExecutionStarted || kind == EvidenceKind::ExecutionHeartbeat
}

/// The next state of the pet, given its previous state, the newest evidence
/// and the current time.
pub open spec fn spec_advance(previous: PetState, evidence: Option<Evidence>, now_ms: u64) -> PetState {
    match evidence {
        Some(e) if is_execution_evidence(e.kind) => working_state(),
        Some(e) if e.kind == EvidenceKind::ExecutionCompleted => {
            let until = e.observed_at_ms + COMPLETED_DURATION_MS;
            if until <= u64::MAX && now_ms < until {
                completed_state(until as u64)
            } else {
                resting_state()
            }
        },
        Some(e) if e.kind == EvidenceKind::WaitingForInput && previous.status == Status::Completed => {
            resting_state()
        },
        _ => if spec_completion_is_current(previous, now_ms) {
            previous
        } else {
            resting_state()
        },
    }
}

/// Moves the pet to its next state. Only an explicit start or heartbeat of an
/// execution makes it work; a completion is shown for eight seconds from the
/// moment it was observed.
pub fn advance(previous: PetState, evidence: Option<Evidence>, now_ms: u64) -> (next: PetState)
    ensures
        next == spec_advance(previous, evidence, now_ms),
{
    match evidence {
        Some(e) => {
            if e.kind == EvidenceKind::ExecutionStarted || e.kind == EvidenceKind::ExecutionHeartbeat {
                return working();
            }
            if e.kind == EvidenceKind::ExecutionCompleted {
                return match e.observed_at_ms.checked_add(COMPLETED_DURATION_MS) {
                    Some(until) => if now_ms < until { completed(until) } else { resting() },
                    None => resting(),
                };
            }
            if e.kind == EvidenceKind::WaitingForInput && previous.status == Status::Completed {
                return resting();
            }
        },
        None => {},
    }
    if completion_is_current(previous, now_ms) {
        previous
    } else {
        resting()
    }
}

fn completion_is_current(state: PetState, now_ms: u64) -> (b: bool)
    ensures
        b == spec_completion_is_current(state, now_ms),
{
    state.status == Status::Completed && match state.completed_until_ms {
        Some(until_ms) => now_ms < until_ms,
        None => false,
    }
}

pub(crate) fn working() -> (s: PetState)
    ensures
        s == working_state(),
{
    PetState { status: Status::Working, completed_until_ms: None }
}

pub(crate) fn completed(completed_until_ms: u64) -> (s: PetState)
    ensures
        s == completed_state(completed_until_ms),
{
    PetState { status: Status::Completed, completed_until_ms: Some(completed_until_ms) }
}

pub(crate) fn resting() -> (s: PetState)
    ensures
        s == resting_state(),
{
    PetState { status: Status::Resting, completed_until_ms: None }
}

/// The pet works after a step exactly when that step's evidence is an
/// explicit start or heartbeat of an execution: waiting for input, a seen
/// process or the absence of evidence never enter or keep the working state.
pub proof fn law_working_only_on_execution_evidence(previous: PetState, evidence: Option<Evidence>, now_ms: u64)
    ensures
        (spec_advance(previous, evidence, now_ms).status == Status::Working) <==>
            (evidence matches Some(e) && is_execution_evidence(e.kind)),
{
}

/// Every step yields a well-formed state, and a completion on display always
/// has a deadline that lies in the future.
pub proof fn law_completion_has_future_deadline(previous: PetState, evidence: Option<Evidence>, now_ms: u64)
    ensures
        state_wf(spec_advance(previous, evidence, now_ms)),
        spec_advance(previous, evidence, now_ms).status == Status::Completed ==>
            spec_completion_is_current(spec_advance(previous, evidence, now_ms), now_ms),
{
}

/// A completion observed at a moment is shown until eight seconds after that
/// moment, and no longer.
pub proof fn law_completion_lasts_eight_seconds(previous: PetState, observed_at_ms: u64, now_ms: u64)
    requires
        observed_at_ms + COMPLETED_DURATION_MS <= u64::MAX,
    ensures
        ({
            let next = spec_advance(
                previous,
                Some(Evidence { kind: EvidenceKind::ExecutionCompleted, observed_at_ms }),
                now_ms,
            );
            if now_ms < observed_at_ms + COMPLETED_DURATION_MS {
                next == completed_state((observed_at_ms + COMPLETED_DURATION_MS) as u64)
            } else {
                next == resting_state()
            }
        }),
{
}

/// Without new evidence a completion is kept only before its deadline, and a
/// pet that is not showing a completion rests.
pub proof fn law_no_evidence_keeps_only_current_completion(previous: PetState, now_ms: u64)
    ensures
        spec_advance(previous, None, now_ms) == if spec_completion_is_current(previous, now_ms) {
            previous
        } else {
            resting_state()
        },
{
}

/// Waiting for input acknowledges a completion at once: the pet rests.
pub proof fn law_waiting_for_input_rests(previous: PetState, observed_at_ms: u64, now_ms: u64)
    ensures
        spec_advance(
            previous,
            Some(Evidence { kind: EvidenceKind::WaitingForInput, observed_at_ms }),
            now_ms,
        ) == resting_state(),
{
}

} // verus!
