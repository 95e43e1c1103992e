use vstd::prelude::*;

use crate::model::{Evidence, PetState, Status};
use crate::rows::{fresh_rows, is_project_list, task_snapshots};
use crate::scan::{opt_usage, Scan, UsageModel, ValidatedUsage};
use crate::state_machine::{
    advance, completed, completed_state, resting, resting_state, spec_advance, working, working_state,
    COMPLETED_DURATION_MS,
};
use crate::tasks::{rows_view, TaskModel, TaskSnapshot, TaskStatus};
use crate::text::string_of;

verus! {

/// `std::path::PathBuf`, carried as it stands.
#[verifier::external_type_specification]
#[verifier::external_body]
pub struct ExPathBuf(std::path::PathBuf);

/// Where the local Codex data lives.
#[derive(Debug)]
pub struct CodexPaths {
    pub home: std::path::PathBuf,
}

/// Whether the data behind a snapshot is current.
#[derive(Debug, Clone, Copy, PartialEq, Eq, Structural)]
pub enum SyncState {
    Ready,
    Stale,
    Unavailable,
}

/// The usage shown: today's tokens, the weekly share (the decimal text of
/// the local record), the weekly reset time and the sync time.
#[derive(Debug, Clone, PartialEq, Eq)]
pub struct UsageSnapshot {
    pub today_tokens: Option<u64>,
    pub weekly_usage_percent: Option<String>,
    pub weekly_reset_at_ms: Option<u64>,
    pub synced_at_ms: Option<u64>,
}

pub struct UsageView {
    pub today_tokens: Option<u64>,
    pub weekly_usage_percent: Option<Seq<char>>,
    pub weekly_reset_at_ms: Option<u64>,
    pub synced_at_ms: Option<u64>,
}

pub open spec fn opt_string(s: Option<String>) -> Option<Seq<char>> {
    match s {
        Some(x) => Some(x@),
        None => None,
    }
}

impl View for UsageSnapshot {
    type V = UsageView;

    open spec fn view(&self) -> UsageView {
        UsageView {
            today_tokens: self.today_tokens,
            weekly_usage_percent: opt_string(self.weekly_usage_percent),
            weekly_reset_at_ms: self.weekly_reset_at_ms,
            synced_at_ms: self.synced_at_ms,
        }
    }
}

/// What the pet shows.
#[derive(Debug, Clone, PartialEq, Eq)]
pub struct PetSnapshot {
    pub state: PetState,
    pub usage: UsageSnapshot,
    pub sync_state: SyncState,
    pub tasks: Vec<TaskSnapshot>,
}

/// No usage at all: nothing is estimated.
pub open spec fn no_usage() -> UsageView {
    UsageView { today_tokens: None, weekly_usage_percent: None, weekly_reset_at_ms: None, synced_at_ms: None }
}

/// The usage that a validated record shows.
pub open spec fn usage_view(u: UsageModel) -> UsageView {
    UsageView {
        today_tokens: u.today_tokens,
        weekly_usage_percent: Some(u.weekly_usage_percent),
        weekly_reset_at_ms: u.weekly_reset_at_ms,
        synced_at_ms: Some(u.synced_at_ms),
    }
}

pub open spec fn shown_usage(u: Option<UsageModel>) -> UsageView {
    match u {
        Some(x) => usage_view(x),
        None => no_usage(),
    }
}

/// The snapshot shown when the local data cannot be read.
pub open spec fn is_unavailable(s: PetSnapshot) -> bool {
    &&& s.state == resting_state()
    &&& s.usage@ == no_usage()
    &&& s.sync_state == SyncState::Unavailable
    &&& s.tasks@.len() == 0
}

/// The snapshot shown when the local data cannot be read: resting, no
/// usage, no tasks.
pub fn unavailable_snapshot() -> (s: PetSnapshot)
    ensures
        is_unavailable(s),
{
    PetSnapshot { state: resting(), usage: empty_usage(), sync_state: SyncState::Unavailable, tasks: Vec::new() }
}

pub fn empty_usage() -> (u: UsageSnapshot)
    ensures
        u@ == no_usage(),
{
    UsageSnapshot { today_tokens: None, weekly_usage_percent: None, weekly_reset_at_ms: None, synced_at_ms: None }
}

impl ValidatedUsage {
    /// The usage that this record shows.
    pub fn into_snapshot(self) -> (u: UsageSnapshot)
        ensures
            u@ == usage_view(self@),
    {
        UsageSnapshot {
            today_tokens: self.today_tokens,
            weekly_usage_percent: Some(string_of(&self.weekly_usage_percent)),
            weekly_reset_at_ms: self.weekly_reset_at_ms,
            synced_at_ms: Some(self.synced_at_ms),
        }
    }
}

/// The latest completion deadline, among completed tasks, that lies after
/// `now_ms`.
pub open spec fn latest_deadline(tasks: Seq<TaskModel>, now_ms: u64) -> Option<u64>
    decreases tasks.len(),
{
    if tasks.len() == 0 {
        None
    } else {
        let rest = latest_deadline(tasks.subrange(0, tasks.len() - 1), now_ms);
        let t = tasks[tasks.len() - 1];
        let until = t.observed_at_ms + COMPLETED_DURATION_MS;
        if t.status == TaskStatus::Completed && until <= u64::MAX && now_ms < until {
            match rest {
                Some(r) => if r >= until { rest } else { Some(until as u64) },
                None => Some(until as u64),
            }
        } else {
            rest
        }
    }
}

pub open spec fn any_working(tasks: Seq<TaskModel>) -> bool {
    exists|i: int| 0 <= i < tasks.len() && (#[trigger] tasks[i]).status == TaskStatus::Working
}

/// The pet's state from its task rows: working while any task works;
/// otherwise showing the latest completion that is still within its eight
/// seconds; otherwise resting.
pub open spec fn spec_aggregate(tasks: Seq<TaskModel>, now_ms: u64) -> PetState {
    if any_working(tasks) {
        working_state()
    } else {
        match latest_deadline(tasks, now_ms) {
            Some(until) => completed_state(until),
            None => resting_state(),
        }
    }
}

/// The pet's state from its task rows.
pub fn aggregate_task_state(tasks: &Vec<TaskSnapshot>, now_ms: u64) -> (s: PetState)
    ensures
        s == spec_aggregate(rows_view(tasks@), now_ms),
{
    let ghost r = rows_view(tasks@);
    let mut i: usize = 0;
    while i < tasks.len()
        invariant
            0 <= i <= tasks@.len(),
            r == rows_view(tasks@),
            forall|k: int| 0 <= k < i ==> (#[trigger] r[k]).status != TaskStatus::Working,
        decreases tasks@.len() - i,
    {
        if tasks[i].status == TaskStatus::Working {
            proof {
                assert(r[i as int].status == TaskStatus::Working);
            }
            return working();
        }
        i = i + 1;
    }
    let mut best: Option<u64> = None;
    let mut k: usize = 0;
    proof {
        assert(r.subrange(0, 0) =~= Seq::<TaskModel>::empty());
    }
    while k < tasks.len()
        invariant
            0 <= k <= tasks@.len(),
            r == rows_view(tasks@),
            best == latest_deadline(r.subrange(0, k as int), now_ms),
        decreases tasks@.len() - k,
    {
        proof {
            assert(r.subrange(0, k + 1).subrange(0, k as int) =~= r.subrange(0, k as int));
            assert(r.subrange(0, k + 1)[k as int] == r[k as int]);
        }
        let t = &tasks[k];
        if t.status == TaskStatus::Completed {
            match t.observed_at_ms.checked_add(COMPLETED_DURATION_MS) {
                Some(until) => if now_ms < until {
                    best = match best {
                        Some(b) => if b >= until { Some(b) } else { Some(until) },
                        None => Some(until),
                    };
                },
                None => {},
            }
        }
        k = k + 1;
    }
    proof {
        assert(r.subrange(0, r.len() as int) =~= r);
        assert(!any_working(r));
    }
    match best {
        Some(until) => completed(until),
        None => resting(),
    }
}

/// How long the newest sync may lie in the past before the data is stale.
pub const STALE_AFTER_MS: u64 = 300_000;

/// The newest of the usage record's sync time and the task rows' times.
pub open spec fn latest_sync(usage: Option<UsageModel>, tasks: Seq<TaskModel>) -> Option<u64>
    decreases tasks.len(),
{
    if tasks.len() == 0 {
        match usage {
            Some(u) => Some(u.synced_at_ms),
            None => None,
        }
    } else {
        let t = tasks[tasks.len() - 1].observed_at_ms;
        match latest_sync(usage, tasks.subrange(0, tasks.len() - 1)) {
            Some(m) => Some(if m >= t { m } else { t }),
            None => Some(t),
        }
    }
}

/// Reads the local Codex data and reports the pet's state.
pub struct CodexDataAdapter {
    paths: CodexPaths,
    state: PetState,
}

impl CodexDataAdapter {
    /// The state that the adapter carries from one poll to the next.
    pub closed spec fn pet_state(&self) -> PetState {
        self.state
    }

    /// Where this adapter reads.
    pub closed spec fn codex_paths(&self) -> CodexPaths {
        self.paths
    }

    /// A new adapter, resting.
    pub fn new(paths: CodexPaths) -> (a: Self)
        ensures
            a.pet_state() == resting_state(),
            a.codex_paths() == paths,
    {
        Self { paths, state: resting() }
    }

    /// Where this adapter reads.
    pub fn paths(&self) -> (p: &CodexPaths)
        ensures
            *p == self.codex_paths(),
    {
        &self.paths
    }

    /// The pet's state after the last poll.
    pub fn state(&self) -> (s: PetState)
        ensures
            s == self.pet_state(),
    {
        self.state
    }

    /// One poll, given what reading the local data gave (`Err` where no
    /// source could be read). Without readable data the pet rests and shows
    /// nothing; otherwise the task rows are the project list; the sync time
    /// is the newest of the usage record and the task rows, and where there
    /// is none the pet rests and shows nothing; where it lies more than five
    /// minutes back the data is stale and the pet rests; otherwise the data
    /// is ready and the pet's state follows the task rows if the logs held
    /// any task, else the newest evidence.
    pub fn update_from_scan(&mut self, scan: Result<Scan, ()>, now_ms: u64) -> (snapshot: PetSnapshot)
        ensures
            snapshot.state == final(self).pet_state(),
            match scan {
                Err(_) => is_unavailable(snapshot),
                Ok(s) => {
                    let rows = rows_view(snapshot.tasks@);
                    match latest_sync(s@.usage, rows) {
                        None => is_unavailable(snapshot),
                        Some(synced) => {
                            &&& is_project_list(fresh_rows(s.tasks.rows(), s.no_turn_waiting_at_ms, now_ms), rows)
                            &&& snapshot.usage@ == shown_usage(s@.usage)
                            &&& if now_ms > synced && now_ms - synced > STALE_AFTER_MS {
                                &&& snapshot.sync_state == SyncState::Stale
                                &&& snapshot.state == resting_state()
                            } else {
                                &&& snapshot.sync_state == SyncState::Ready
                                &&& snapshot.state == if s.tasks.rows().len() > 0 {
                                    spec_aggregate(rows, now_ms)
                                } else {
                                    spec_advance(old(self).pet_state(), s.evidence, now_ms)
                                }
                            }
                        },
                    }
                },
            },
    {
        let scan = match scan {
            Ok(s) => s,
            Err(()) => {
                self.state = resting();
                return unavailable_snapshot();
            },
        };
        let has_task_records = !scan.tasks.is_empty();
        let tasks = task_snapshots(&scan.tasks, scan.no_turn_waiting_at_ms, now_ms);
        let ghost rows = rows_view(tasks@);
        let mut synced: Option<u64> = match &scan.usage {
            Some(u) => Some(u.synced_at_ms),
            None => None,
        };
        let mut i: usize = 0;
        proof {
            assert(rows.subrange(0, 0) =~= Seq::<TaskModel>::empty());
        }
        while i < tasks.len()
            invariant
                0 <= i <= tasks@.len(),
                rows == rows_view(tasks@),
                synced == latest_sync(opt_usage(scan.usage), rows.subrange(0, i as int)),
            decreases tasks@.len() - i,
        {
            proof {
                assert(rows.subrange(0, i + 1).subrange(0, i as int) =~= rows.subrange(0, i as int));
                assert(rows.subrange(0, i + 1)[i as int] == rows[i as int]);
            }
            let t = tasks[i].observed_at_ms;
            synced = match synced {
                Some(m) => Some(if m >= t { m } else { t }),
                None => Some(t),
            };
            i = i + 1;
        }
        proof {
            assert(rows.subrange(0, rows.len() as int) =~= rows);
        }
        let synced = match synced {
            Some(s) => s,
            None => {
                self.state = resting();
                proof {
                    assert(rows.len() == 0);
                }
                return unavailable_snapshot();
            },
        };
        let usage = match scan.usage {
            Some(u) => u.into_snapshot(),
            None => empty_usage(),
        };
        if now_ms > synced && now_ms - synced > STALE_AFTER_MS {
            self.state = resting();
            return PetSnapshot { state: self.state, usage, sync_state: SyncState::Stale, tasks };
        }
        self.state = if has_task_records {
            aggregate_task_state(&tasks, now_ms)
        } else {
            advance(self.state, scan.evidence, now_ms)
        };
        PetSnapshot { state: self.state, usage, sync_state: SyncState::Ready, tasks }
    }
}

/// Working takes precedence: while any task row works, the pet works, and
/// it works only then.
pub proof fn law_working_has_priority(tasks: Seq<TaskModel>, now_ms: u64)
    ensures
        (spec_aggregate(tasks, now_ms).status == Status::Working) <==> any_working(tasks),
{
}

proof fn lemma_latest_deadline_future(tasks: Seq<TaskModel>, now_ms: u64)
    ensures
        latest_deadline(tasks, now_ms) matches Some(u) ==> now_ms < u,
    decreases tasks.len(),
{
    if tasks.len() > 0 {
        lemma_latest_deadline_future(tasks.subrange(0, tasks.len() - 1), now_ms);
    }
}

/// A completion shown from the task rows always has a deadline in the
/// future: completions disappear at most eight seconds after they happened.
pub proof fn law_aggregate_completion_is_current(tasks: Seq<TaskModel>, now_ms: u64)
    ensures
        spec_aggregate(tasks, now_ms).status == Status::Completed ==> (spec_aggregate(tasks, now_ms).completed_until_ms matches Some(u) && now_ms < u),
{
    lemma_latest_deadline_future(tasks, now_ms);
}


proof fn lemma_latest_deadline_source(tasks: Seq<TaskModel>, now_ms: u64)
    ensures
        latest_deadline(tasks, now_ms) matches Some(u) ==> exists|i: int|
            0 <= i < tasks.len() && (#[trigger] tasks[i]).status == TaskStatus::Completed
                && tasks[i].observed_at_ms + 8_000 == u && now_ms < u,
        forall|j: int|
            0 <= j < tasks.len() && (#[trigger] tasks[j]).status == TaskStatus::Completed && now_ms
                < tasks[j].observed_at_ms + 8_000 && tasks[j].observed_at_ms + 8_000 <= u64::MAX
                ==> (latest_deadline(tasks, now_ms) matches Some(u) && tasks[j].observed_at_ms + 8_000 <= u),
    decreases tasks.len(),
{
    if tasks.len() > 0 {
        let front = tasks.subrange(0, tasks.len() - 1);
        lemma_latest_deadline_source(front, now_ms);
        if let Some(u) = latest_deadline(tasks, now_ms) {
            if latest_deadline(front, now_ms) == Some(u) {
                let i = choose|i: int|
                    0 <= i < front.len() && (#[trigger] front[i]).status == TaskStatus::Completed
                        && front[i].observed_at_ms + 8_000 == u && now_ms < u;
                assert(tasks[i] == front[i]);
            } else {
                assert(tasks[tasks.len() - 1].status == TaskStatus::Completed);
            }
        }
        assert forall|j: int|
            0 <= j < tasks.len() && (#[trigger] tasks[j]).status == TaskStatus::Completed && now_ms
                < tasks[j].observed_at_ms + 8_000 && tasks[j].observed_at_ms + 8_000 <= u64::MAX
                implies (latest_deadline(tasks, now_ms) matches Some(u) && tasks[j].observed_at_ms + 8_000 <= u) by {
            if j < tasks.len() - 1 {
                assert(tasks[j] == front[j]);
            }
        }
    }
}

/// Only a completed task makes the pet show a completion: where no task
/// works, the pet shows a completion exactly when some completed task
/// finished less than eight seconds ago, until eight seconds after the
/// latest such one; waiting tasks never count.
pub proof fn law_completion_shown_only_for_completed_tasks(tasks: Seq<TaskModel>, now_ms: u64)
    requires
        forall|i: int| 0 <= i < tasks.len() ==> (#[trigger] tasks[i]).status != TaskStatus::Working,
    ensures
        spec_aggregate(tasks, now_ms).status == Status::Completed ==> exists|i: int|
            0 <= i < tasks.len() && (#[trigger] tasks[i]).status == TaskStatus::Completed && now_ms
                < tasks[i].observed_at_ms + 8_000 && spec_aggregate(tasks, now_ms).completed_until_ms
                == Some((tasks[i].observed_at_ms + 8_000) as u64),
        forall|j: int|
            0 <= j < tasks.len() && (#[trigger] tasks[j]).status == TaskStatus::Completed && now_ms
                < tasks[j].observed_at_ms + 8_000 && tasks[j].observed_at_ms + 8_000 <= u64::MAX
                ==> spec_aggregate(tasks, now_ms).status == Status::Completed
                && (spec_aggregate(tasks, now_ms).completed_until_ms matches Some(u) && tasks[j].observed_at_ms + 8_000 <= u),
        spec_aggregate(tasks, now_ms).status != Status::Working,
        (forall|i: int| 0 <= i < tasks.len() ==> (#[trigger] tasks[i]).status == TaskStatus::Waiting)
            ==> spec_aggregate(tasks, now_ms) == resting_state(),
{
    lemma_latest_deadline_source(tasks, now_ms);
    if any_working(tasks) {
        let i = choose|i: int| 0 <= i < tasks.len() && (#[trigger] tasks[i]).status == TaskStatus::Working;
        assert(tasks[i].status != TaskStatus::Working);
    }
    if spec_aggregate(tasks, now_ms).status == Status::Completed {
        let u = latest_deadline(tasks, now_ms)->0;
        let i = choose|i: int|
            0 <= i < tasks.len() && (#[trigger] tasks[i]).status == TaskStatus::Completed
                && tasks[i].observed_at_ms + 8_000 == u && now_ms < u;
        assert(spec_aggregate(tasks, now_ms).completed_until_ms == Some((tasks[i].observed_at_ms + 8_000) as u64));
    }
    if forall|i: int| 0 <= i < tasks.len() ==> (#[trigger] tasks[i]).status == TaskStatus::Waiting {
        if let Some(u) = latest_deadline(tasks, now_ms) {
            let i = choose|i: int|
                0 <= i < tasks.len() && (#[trigger] tasks[i]).status == TaskStatus::Completed
                    && tasks[i].observed_at_ms + 8_000 == u && now_ms < u;
            assert(tasks[i].status == TaskStatus::Waiting);
        }
    }
}
} // verus!
