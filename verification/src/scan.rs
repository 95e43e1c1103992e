use vstd::prelude::*;

use crate::catalog::{meta_session_id, spec_project_title, TitleCatalog};
use crate::json::{
    field, field_of, integer, opt_view, spec_field, spec_field_of, spec_integer, spec_parse,
    spec_str, string, string_is, Json, JsonParser, JsonValue,
};
use crate::model::{Evidence, EvidenceKind};
use crate::percent::{percent_in_range, spec_percent_in_range};
use crate::tasks::{copy_task, TaskModel, TaskSnapshot, TaskStatus, TaskTable};
use crate::text::{chars_of, opt_chars, spec_lines, split_lines, string_of, texts_view, trim, trimmed};
use crate::timestamp::{rfc3339_ms, spec_rfc3339_ms};
use crate::titles::{fallback_task_title, shorten_chars, spec_shorten_title, spec_user_task_title, user_task_title};

verus! {

/// A usage record that passed validation. The weekly share is kept as the
/// decimal text of the record, which lies between 0 and 100.
pub struct ValidatedUsage {
    pub today_tokens: Option<u64>,
    pub weekly_usage_percent: Vec<char>,
    pub weekly_reset_at_ms: Option<u64>,
    pub synced_at_ms: u64,
}

/// The mathematical value of a validated usage record.
pub struct UsageModel {
    pub today_tokens: Option<u64>,
    pub weekly_usage_percent: Seq<char>,
    pub weekly_reset_at_ms: Option<u64>,
    pub synced_at_ms: u64,
}

impl View for ValidatedUsage {
    type V = UsageModel;

    open spec fn view(&self) -> UsageModel {
        UsageModel {
            today_tokens: self.today_tokens,
            weekly_usage_percent: self.weekly_usage_percent@,
            weekly_reset_at_ms: self.weekly_reset_at_ms,
            synced_at_ms: self.synced_at_ms,
        }
    }
}

pub open spec fn opt_usage(u: Option<ValidatedUsage>) -> Option<UsageModel> {
    match u {
        Some(x) => Some(x@),
        None => None,
    }
}

/// What the logs read so far have shown.
pub struct Scan {
    pub evidence: Option<Evidence>,
    pub usage: Option<ValidatedUsage>,
    pub latest_observed_at_ms: Option<u64>,
    pub no_turn_waiting_at_ms: Option<u64>,
    pub tasks: TaskTable,
}

/// The mathematical value of a scan.
pub struct ScanModel {
    pub evidence: Option<Evidence>,
    pub usage: Option<UsageModel>,
    pub latest_observed_at_ms: Option<u64>,
    pub no_turn_waiting_at_ms: Option<u64>,
    pub tasks: Map<Seq<char>, TaskModel>,
}

impl View for Scan {
    type V = ScanModel;

    open spec fn view(&self) -> ScanModel {
        ScanModel {
            evidence: self.evidence,
            usage: opt_usage(self.usage),
            latest_observed_at_ms: self.latest_observed_at_ms,
            no_turn_waiting_at_ms: self.no_turn_waiting_at_ms,
            tasks: self.tasks.view(),
        }
    }
}

impl Scan {
    /// A scan that has read nothing.
    pub fn new() -> (s: Scan)
        ensures
            s@ == empty_scan(),
    {
        Scan {
            evidence: None,
            usage: None,
            latest_observed_at_ms: None,
            no_turn_waiting_at_ms: None,
            tasks: TaskTable::new(),
        }
    }

    /// The task row for a turn id.
    pub fn task(&self, turn_id: &str) -> (r: Option<TaskSnapshot>)
        ensures
            match r {
                Some(t) => self@.tasks.contains_key(turn_id@) && t@ == self@.tasks[turn_id@],
                None => !self@.tasks.contains_key(turn_id@),
            },
    {
        let id = chars_of(turn_id);
        match self.tasks.get(id.as_slice()) {
            Some(t) => Some(copy_task(t)),
            None => None,
        }
    }
}

pub open spec fn empty_scan() -> ScanModel {
    ScanModel {
        evidence: None,
        usage: None,
        latest_observed_at_ms: None,
        no_turn_waiting_at_ms: None,
        tasks: Map::empty(),
    }
}

// --- Usage ------------------------------------------------------------------

/// The newer of a kept usage record and a new one; a new record with the same
/// sync time replaces the kept one.
pub open spec fn newer_usage(kept: Option<UsageModel>, u: UsageModel) -> Option<UsageModel> {
    match kept {
        Some(k) => if u.synced_at_ms >= k.synced_at_ms { Some(u) } else { kept },
        None => Some(u),
    }
}

/// A weekly share: a number whose value lies between 0 and 100.
pub open spec fn spec_percent(v: Option<Json>) -> Option<Seq<char>> {
    match v {
        Some(Json::Number(t)) => if spec_percent_in_range(t) { Some(t) } else { None },
        _ => None,
    }
}

pub open spec fn saturating_ms(seconds: u64) -> u64 {
    if seconds * 1000 <= u64::MAX { (seconds * 1000) as u64 } else { u64::MAX }
}

pub open spec fn opt_integer(v: Option<Json>) -> Option<u64> {
    match v {
        Some(j) => spec_integer(j),
        None => None,
    }
}

/// A `usage` record of the older log format: `today_tokens`,
/// `weekly_usage_percent` and `synced_at_ms`, all required and valid.
pub open spec fn spec_parse_usage(v: Json) -> Option<UsageModel> {
    if !(v is Object) {
        None
    } else {
        let today = opt_integer(spec_field(v, "today_tokens"@));
        let percent = spec_percent(spec_field(v, "weekly_usage_percent"@));
        let synced = opt_integer(spec_field(v, "synced_at_ms"@));
        if today is None || percent is None || synced is None {
            None
        } else {
            Some(UsageModel {
                today_tokens: today,
                weekly_usage_percent: percent->0,
                weekly_reset_at_ms: None,
                synced_at_ms: synced->0,
            })
        }
    }
}

/// The primary rate limit of a `token_count` event.
pub open spec fn primary_limit(payload: Json) -> Option<Json> {
    spec_field_of(spec_field(payload, "rate_limits"@), "primary"@)
}

/// A `token_count` event of the desktop log format: the weekly share from
/// `rate_limits.primary.used_percent` (required, between 0 and 100), the
/// reset time from `resets_at` in seconds, today's tokens from
/// `info.last_token_usage.total_tokens`, and the record's own time as the
/// sync time (required).
pub open spec fn spec_parse_desktop_usage(payload: Json, synced_at_ms: Option<u64>) -> Option<UsageModel> {
    match primary_limit(payload) {
        None => None,
        Some(primary) => match spec_percent(spec_field(primary, "used_percent"@)) {
            None => None,
            Some(percent) => match synced_at_ms {
                None => None,
                Some(synced) => Some(UsageModel {
                    today_tokens: opt_integer(
                        spec_field_of(spec_field_of(spec_field(payload, "info"@), "last_token_usage"@), "total_tokens"@),
                    ),
                    weekly_usage_percent: percent,
                    weekly_reset_at_ms: match opt_integer(spec_field(primary, "resets_at"@)) {
                        Some(s) => Some(saturating_ms(s)),
                        None => None,
                    },
                    synced_at_ms: synced,
                }),
            },
        },
    }
}

fn integer_of(v: Option<&JsonValue>) -> (r: Option<u64>)
    ensures
        r == opt_integer(opt_view(v)),
{
    match v {
        Some(j) => match integer(j) {
            Ok(n) => Some(n),
            Err(()) => None,
        },
        None => None,
    }
}

fn percent_of(v: Option<&JsonValue>) -> (r: Option<Vec<char>>)
    ensures
        opt_chars(r) == spec_percent(opt_view(v)),
{
    match v {
        Some(JsonValue::Number(t)) => if percent_in_range(t.as_slice()) {
            Some(copy_chars(t))
        } else {
            None
        },
        _ => None,
    }
}

fn copy_chars(t: &Vec<char>) -> (c: Vec<char>)
    ensures
        c@ == t@,
{
    let c = t.clone();
    proof {
        assert(c@ =~= t@);
    }
    c
}

fn saturating_seconds_to_ms(seconds: u64) -> (ms: u64)
    ensures
        ms == saturating_ms(seconds),
{
    match seconds.checked_mul(1_000) {
        Some(ms) => ms,
        None => u64::MAX,
    }
}

/// Reads a `usage` record of the older log format.
pub fn parse_usage(value: &JsonValue) -> (r: Result<ValidatedUsage, ()>)
    ensures
        match r {
            Ok(u) => spec_parse_usage(value.view()) == Some(u@),
            Err(_) => spec_parse_usage(value.view()) is None,
        },
{
    match value {
        JsonValue::Object(_) => {},
        _ => return Err(()),
    }
    let today_tokens = match integer_of(field(value, "today_tokens")) {
        Some(n) => n,
        None => return Err(()),
    };
    let weekly_usage_percent = match percent_of(field(value, "weekly_usage_percent")) {
        Some(p) => p,
        None => return Err(()),
    };
    let synced_at_ms = match integer_of(field(value, "synced_at_ms")) {
        Some(n) => n,
        None => return Err(()),
    };
    Ok(ValidatedUsage { today_tokens: Some(today_tokens), weekly_usage_percent, weekly_reset_at_ms: None, synced_at_ms })
}

/// Reads the usage that a `token_count` event carries.
pub fn parse_desktop_usage(payload: &JsonValue, synced_at_ms: Option<u64>) -> (r: Option<ValidatedUsage>)
    ensures
        opt_usage(r) == spec_parse_desktop_usage(payload.view(), synced_at_ms),
{
    let primary = match field_of(field(payload, "rate_limits"), "primary") {
        Some(p) => p,
        None => return None,
    };
    let weekly_usage_percent = match percent_of(field(primary, "used_percent")) {
        Some(p) => p,
        None => return None,
    };
    let today_tokens = integer_of(field_of(field_of(field(payload, "info"), "last_token_usage"), "total_tokens"));
    let weekly_reset_at_ms = match integer_of(field(primary, "resets_at")) {
        Some(s) => Some(saturating_seconds_to_ms(s)),
        None => None,
    };
    let synced_at_ms = match synced_at_ms {
        Some(s) => s,
        None => return None,
    };
    Some(ValidatedUsage { today_tokens, weekly_usage_percent, weekly_reset_at_ms, synced_at_ms })
}

fn keep_newer_usage(scan: &mut Scan, usage: ValidatedUsage)
    ensures
        final(scan)@ == (ScanModel { usage: newer_usage(old(scan)@.usage, usage@), ..old(scan)@ }),
        final(scan).tasks == old(scan).tasks,
{
    let replace = match &scan.usage {
        Some(previous) => usage.synced_at_ms >= previous.synced_at_ms,
        None => true,
    };
    if replace {
        scan.usage = Some(usage);
    }
}

// --- Evidence ---------------------------------------------------------------

/// The newer of a kept piece of evidence and a new one; new evidence with the
/// same time replaces the kept one.
pub open spec fn newer_evidence(kept: Option<Evidence>, e: Evidence) -> Option<Evidence> {
    match kept {
        Some(k) => if e.observed_at_ms >= k.observed_at_ms { Some(e) } else { kept },
        None => Some(e),
    }
}

pub open spec fn max_u64(a: u64, b: u64) -> u64 {
    if a >= b { a } else { b }
}

/// A desktop event's evidence: it moves the latest observation forward and
/// becomes the evidence if it is the newest.
pub open spec fn with_desktop_evidence(s: ScanModel, e: Evidence) -> ScanModel {
    ScanModel {
        latest_observed_at_ms: Some(
            max_u64(
                match s.latest_observed_at_ms {
                    Some(l) => l,
                    None => 0,
                },
                e.observed_at_ms,
            ),
        ),
        evidence: newer_evidence(s.evidence, e),
        ..s
    }
}

/// A record of the older format's evidence: a wait for input moves the
/// latest wait forward; the evidence is kept if it is the newest.
pub open spec fn with_record_evidence(s: ScanModel, e: Evidence) -> ScanModel {
    ScanModel {
        no_turn_waiting_at_ms: if e.kind == EvidenceKind::WaitingForInput {
            Some(
                max_u64(
                    match s.no_turn_waiting_at_ms {
                        Some(w) => w,
                        None => 0,
                    },
                    e.observed_at_ms,
                ),
            )
        } else {
            s.no_turn_waiting_at_ms
        },
        evidence: newer_evidence(s.evidence, e),
        ..s
    }
}

fn update_desktop_evidence(scan: &mut Scan, evidence: Evidence)
    ensures
        final(scan)@ == with_desktop_evidence(old(scan)@, evidence),
        final(scan).tasks == old(scan).tasks,
{
    let latest = match scan.latest_observed_at_ms {
        Some(l) => l,
        None => 0,
    };
    scan.latest_observed_at_ms = Some(if latest >= evidence.observed_at_ms { latest } else { evidence.observed_at_ms });
    let replace = match scan.evidence {
        Some(previous) => evidence.observed_at_ms >= previous.observed_at_ms,
        None => true,
    };
    if replace {
        scan.evidence = Some(evidence);
    }
}

fn record_evidence(scan: &mut Scan, evidence: Evidence)
    ensures
        final(scan)@ == with_record_evidence(old(scan)@, evidence),
        final(scan).tasks == old(scan).tasks,
{
    if evidence.kind == EvidenceKind::WaitingForInput {
        let waiting = match scan.no_turn_waiting_at_ms {
            Some(w) => w,
            None => 0,
        };
        scan.no_turn_waiting_at_ms = Some(
            if waiting >= evidence.observed_at_ms { waiting } else { evidence.observed_at_ms },
        );
    }
    let replace = match scan.evidence {
        Some(previous) => evidence.observed_at_ms >= previous.observed_at_ms,
        None => true,
    };
    if replace {
        scan.evidence = Some(evidence);
    }
}

// --- Tasks ------------------------------------------------------------------

/// The label that a task event itself gives: `title`, else `task_title`,
/// else `name`.
pub open spec fn explicit_title(payload: Json) -> Option<Seq<char>> {
    match spec_str(spec_field(payload, "title"@)) {
        Some(t) => Some(t),
        None => match spec_str(spec_field(payload, "task_title"@)) {
            Some(t) => Some(t),
            None => spec_str(spec_field(payload, "name"@)),
        },
    }
}

/// A task event for the turn in `turn_id`. A newer or equally new event
/// replaces the row's status and time; its title is the project title of the
/// session if known, else the event's own label, both shortened; where
/// neither exists an existing row keeps its title and a new row shows the
/// fallback title. An older event changes nothing.
pub open spec fn spec_update_task(
    s: ScanModel,
    payload: Json,
    source_title: Option<Seq<char>>,
    status: TaskStatus,
    observed_at_ms: u64,
) -> ScanModel {
    match spec_str(spec_field(payload, "turn_id"@)) {
        None => s,
        Some(id) => {
            let named = match source_title {
                Some(t) => Some(t),
                None => explicit_title(payload),
            };
            if s.tasks.contains_key(id) {
                let existing = s.tasks[id];
                if observed_at_ms >= existing.observed_at_ms {
                    ScanModel {
                        tasks: s.tasks.insert(
                            id,
                            TaskModel {
                                turn_id: id,
                                title: match named {
                                    Some(n) => spec_shorten_title(n),
                                    None => existing.title,
                                },
                                status,
                                observed_at_ms,
                            },
                        ),
                        ..s
                    }
                } else {
                    s
                }
            } else {
                ScanModel {
                    tasks: s.tasks.insert(
                        id,
                        TaskModel {
                            turn_id: id,
                            title: spec_shorten_title(
                                match named {
                                    Some(n) => n,
                                    None => fallback_task_title(),
                                },
                            ),
                            status,
                            observed_at_ms,
                        },
                    ),
                    ..s
                }
            }
        },
    }
}

/// Activity of a subagent session: the session's own row `session:<id>`
/// works, under the session's project title shortened as task rows shorten
/// it (the fallback title where none is known), so that it merges with the
/// project's task rows; a row that holds a newer observation is kept.
pub open spec fn spec_update_source_task(
    s: ScanModel,
    source_id: Option<Seq<char>>,
    source_title: Option<Seq<char>>,
    observed_at_ms: u64,
) -> ScanModel {
    match source_id {
        None => s,
        Some(sid) => {
            let id = "session:"@ + sid;
            let task = TaskModel {
                turn_id: id,
                title: spec_shorten_title(
                    match source_title {
                        Some(t) => t,
                        None => fallback_task_title(),
                    },
                ),
                status: TaskStatus::Working,
                observed_at_ms,
            };
            if !s.tasks.contains_key(id) || observed_at_ms >= s.tasks[id].observed_at_ms {
                ScanModel { tasks: s.tasks.insert(id, task), ..s }
            } else {
                s
            }
        },
    }
}

pub open spec fn opt_slice(v: Option<&[char]>) -> Option<Seq<char>> {
    match v {
        Some(x) => Some(x@),
        None => None,
    }
}

/// A task event names its row by the project title of its session where
/// that title is known, whatever label the event itself carries: an event
/// at least as new as the row it updates sets the row for its turn to that
/// title, shortened, with the event's status and time, and changes no other
/// row; an older event changes nothing.
pub proof fn law_session_title_names_the_task_row(
    s: ScanModel,
    payload: Json,
    title: Seq<char>,
    status: TaskStatus,
    observed_at_ms: u64,
    id: Seq<char>,
)
    requires
        spec_str(spec_field(payload, "turn_id"@)) == Some(id),
    ensures
        ({
            let after = spec_update_task(s, payload, Some(title), status, observed_at_ms);
            if !s.tasks.contains_key(id) || s.tasks[id].observed_at_ms <= observed_at_ms {
                &&& after.tasks.contains_key(id)
                &&& after.tasks[id] == (TaskModel {
                    turn_id: id,
                    title: spec_shorten_title(title),
                    status,
                    observed_at_ms,
                })
                &&& forall|k: Seq<char>| k != id ==> (#[trigger] after.tasks.contains_key(k)) == s.tasks.contains_key(k)
                    && (s.tasks.contains_key(k) ==> after.tasks[k] == s.tasks[k])
            } else {
                after == s
            }
        }),
{
}

fn owned(s: &[char]) -> (v: Vec<char>)
    ensures
        v@ == s@,
{
    let n = s.len();
    crate::text::slice_to_vec(s, 0, n)
}

/// Records a task event.
pub fn update_task(
    scan: &mut Scan,
    payload: &JsonValue,
    source_title: Option<&[char]>,
    status: TaskStatus,
    observed_at_ms: u64,
)
    ensures
        final(scan)@ == spec_update_task(old(scan)@, payload.view(), opt_slice(source_title), status, observed_at_ms),
{
    let turn_id = match string(field(payload, "turn_id")) {
        Some(t) => t,
        None => return,
    };
    let explicit = match string(field(payload, "title")) {
        Some(t) => Some(t),
        None => match string(field(payload, "task_title")) {
            Some(t) => Some(t),
            None => string(field(payload, "name")),
        },
    };
    let named: Option<Vec<char>> = match source_title {
        Some(t) => Some(owned(t)),
        None => match explicit {
            Some(t) => Some(copy_chars(t)),
            None => None,
        },
    };
    let existing_title: Option<Vec<char>> = match scan.tasks.get(turn_id.as_slice()) {
        Some(existing) => {
            if observed_at_ms < existing.observed_at_ms {
                return;
            }
            Some(chars_of(existing.title.as_str()))
        },
        None => None,
    };
    let title = match named {
        Some(n) => shorten_chars(n.as_slice()),
        None => match existing_title {
            Some(t) => t,
            None => {
                let fallback = chars_of(crate::titles::task_fallback_title(""));
                shorten_chars(fallback.as_slice())
            },
        },
    };
    let task = TaskSnapshot { turn_id: string_of(turn_id), title: string_of(&title), status, observed_at_ms };
    scan.tasks.upsert(task);
    proof {
        assert(final(scan)@ =~= spec_update_task(old(scan)@, payload.view(), opt_slice(source_title), status, observed_at_ms));
    }
}

/// Records the activity of a subagent session.
pub fn update_source_task(
    scan: &mut Scan,
    source_id: Option<&[char]>,
    source_title: Option<&[char]>,
    observed_at_ms: u64,
)
    ensures
        final(scan)@ == spec_update_source_task(old(scan)@, opt_slice(source_id), opt_slice(source_title), observed_at_ms),
{
    let source_id = match source_id {
        Some(s) => s,
        None => return,
    };
    let mut id = chars_of("session:");
    let mut k: usize = 0;
    let ghost prefix = id@;
    while k < source_id.len()
        invariant
            0 <= k <= source_id@.len(),
            id@ == prefix + source_id@.subrange(0, k as int),
        decreases source_id@.len() - k,
    {
        id.push(source_id[k]);
        k = k + 1;
        proof {
            assert(id@ =~= prefix + source_id@.subrange(0, k as int));
        }
    }
    proof {
        assert(source_id@.subrange(0, source_id@.len() as int) =~= source_id@);
    }
    let replace = match scan.tasks.get(id.as_slice()) {
        Some(existing) => observed_at_ms >= existing.observed_at_ms,
        None => true,
    };
    if !replace {
        return;
    }
    let title = match source_title {
        Some(t) => shorten_chars(t),
        None => {
            let fallback = chars_of(crate::titles::task_fallback_title(""));
            shorten_chars(fallback.as_slice())
        },
    };
    let task = TaskSnapshot {
        turn_id: string_of(&id),
        title: string_of(&title),
        status: TaskStatus::Working,
        observed_at_ms,
    };
    scan.tasks.upsert(task);
    proof {
        assert(final(scan)@ =~= spec_update_source_task(old(scan)@, opt_slice(Some(source_id)), opt_slice(source_title), observed_at_ms));
    }
}

} // verus!

verus! {

// --- Desktop events ---------------------------------------------------------

/// The event types that mark a wait for input.
pub open spec fn is_waiting_kind(k: Seq<char>) -> bool {
    k == "task_waiting"@ || k == "task_waiting_for_input"@ || k == "waiting_for_input"@
}

/// One `event_msg` record of the desktop log format, given its payload, its
/// own time, and the project title and id of its session: `None` where the
/// record is malformed, which leaves the scan as it was.
pub open spec fn spec_desktop_event(
    payload: Option<Json>,
    record_timestamp_ms: Option<u64>,
    source_title: Option<Seq<char>>,
    source_id: Option<Seq<char>>,
    s: ScanModel,
) -> Option<ScanModel> {
    match payload {
        None => Some(s),
        Some(p) => match spec_str(spec_field(p, "type"@)) {
            None => Some(s),
            Some(kind) => if kind == "task_started"@ {
                match opt_integer(spec_field(p, "started_at"@)) {
                    None => None,
                    Some(seconds) => {
                        let at = saturating_ms(seconds);
                        Some(spec_update_task(
                            with_desktop_evidence(s, Evidence { kind: EvidenceKind::ExecutionStarted, observed_at_ms: at }),
                            p,
                            source_title,
                            TaskStatus::Working,
                            at,
                        ))
                    },
                }
            } else if kind == "task_complete"@ {
                match opt_integer(spec_field(p, "completed_at"@)) {
                    None => None,
                    Some(seconds) => {
                        let at = saturating_ms(seconds);
                        Some(spec_update_task(
                            with_desktop_evidence(s, Evidence { kind: EvidenceKind::ExecutionCompleted, observed_at_ms: at }),
                            p,
                            source_title,
                            TaskStatus::Completed,
                            at,
                        ))
                    },
                }
            } else if is_waiting_kind(kind) {
                match record_timestamp_ms {
                    None => Some(s),
                    Some(at) => Some(spec_update_task(
                        with_desktop_evidence(s, Evidence { kind: EvidenceKind::WaitingForInput, observed_at_ms: at }),
                        p,
                        source_title,
                        TaskStatus::Waiting,
                        at,
                    )),
                }
            } else if kind == "token_count"@ {
                match spec_parse_desktop_usage(p, record_timestamp_ms) {
                    Some(u) => Some(ScanModel { usage: newer_usage(s.usage, u), ..s }),
                    None => Some(s),
                }
            } else if kind == "sub_agent_activity"@ {
                match record_timestamp_ms {
                    None => Some(s),
                    Some(at) => Some(spec_update_source_task(
                        with_desktop_evidence(s, Evidence { kind: EvidenceKind::ExecutionHeartbeat, observed_at_ms: at }),
                        source_id,
                        source_title,
                        at,
                    )),
                }
            } else {
                Some(s)
            },
        },
    }
}

fn is_waiting_kind_exec(kind: &Vec<char>) -> (b: bool)
    ensures
        b == is_waiting_kind(kind@),
{
    crate::text::equals_str(kind.as_slice(), "task_waiting")
        || crate::text::equals_str(kind.as_slice(), "task_waiting_for_input")
        || crate::text::equals_str(kind.as_slice(), "waiting_for_input")
}

/// Reads one `event_msg` record of the desktop log format into the scan.
pub fn scan_desktop_event(
    payload: Option<&JsonValue>,
    record_timestamp_ms: Option<u64>,
    source_title: Option<&[char]>,
    source_id: Option<&[char]>,
    scan: &mut Scan,
) -> (r: Result<(), ()>)
    ensures
        match spec_desktop_event(opt_view(payload), record_timestamp_ms, opt_slice(source_title), opt_slice(source_id), old(scan)@) {
            Some(s) => r is Ok && final(scan)@ == s,
            None => r is Err && final(scan)@ == old(scan)@,
        },
{
    let payload = match payload {
        Some(p) => p,
        None => return Ok(()),
    };
    let kind = match string(field(payload, "type")) {
        Some(k) => k,
        None => return Ok(()),
    };
    if crate::text::equals_str(kind.as_slice(), "task_started") {
        let seconds = match integer_of(field(payload, "started_at")) {
            Some(n) => n,
            None => return Err(()),
        };
        let at = saturating_seconds_to_ms(seconds);
        update_desktop_evidence(scan, Evidence { kind: EvidenceKind::ExecutionStarted, observed_at_ms: at });
        update_task(scan, payload, source_title, TaskStatus::Working, at);
    } else if crate::text::equals_str(kind.as_slice(), "task_complete") {
        let seconds = match integer_of(field(payload, "completed_at")) {
            Some(n) => n,
            None => return Err(()),
        };
        let at = saturating_seconds_to_ms(seconds);
        update_desktop_evidence(scan, Evidence { kind: EvidenceKind::ExecutionCompleted, observed_at_ms: at });
        update_task(scan, payload, source_title, TaskStatus::Completed, at);
    } else if is_waiting_kind_exec(kind) {
        let at = match record_timestamp_ms {
            Some(t) => t,
            None => return Ok(()),
        };
        update_desktop_evidence(scan, Evidence { kind: EvidenceKind::WaitingForInput, observed_at_ms: at });
        update_task(scan, payload, source_title, TaskStatus::Waiting, at);
    } else if crate::text::equals_str(kind.as_slice(), "token_count") {
        match parse_desktop_usage(payload, record_timestamp_ms) {
            Some(usage) => keep_newer_usage(scan, usage),
            None => {},
        }
    } else if crate::text::equals_str(kind.as_slice(), "sub_agent_activity") {
        let at = match record_timestamp_ms {
            Some(t) => t,
            None => return Ok(()),
        };
        update_desktop_evidence(scan, Evidence { kind: EvidenceKind::ExecutionHeartbeat, observed_at_ms: at });
        update_source_task(scan, source_id, source_title, at);
    }
    Ok(())
}

// --- Records of a session file ---------------------------------------------

/// What a session file has told about itself so far: its project title,
/// whether that title is final, and its id.
pub struct SourceModel {
    pub title: Option<Seq<char>>,
    pub has_user_title: bool,
    pub id: Option<Seq<char>>,
}

pub open spec fn initial_source() -> SourceModel {
    SourceModel { title: None, has_user_title: false, id: None }
}

/// The evidence kind that a record's `event_type` names.
pub open spec fn event_kind(name: Seq<char>) -> Option<EvidenceKind> {
    if name == "execution_started"@ {
        Some(EvidenceKind::ExecutionStarted)
    } else if name == "execution_heartbeat"@ {
        Some(EvidenceKind::ExecutionHeartbeat)
    } else if name == "execution_completed"@ {
        Some(EvidenceKind::ExecutionCompleted)
    } else if name == "waiting_for_input"@ {
        Some(EvidenceKind::WaitingForInput)
    } else {
        None
    }
}

/// The record's time, where its `timestamp` is an RFC 3339 text.
pub open spec fn record_timestamp(record: Json) -> Option<u64> {
    match spec_str(spec_field(record, "timestamp"@)) {
        Some(t) => spec_rfc3339_ms(t),
        None => None,
    }
}

/// The part of a record that follows its usage: its optional `event_type`
/// with `observed_at_ms`. `false` where the record is malformed.
pub open spec fn spec_event_type_step(s: ScanModel, record: Json) -> (ScanModel, bool) {
    match spec_field(record, "event_type"@) {
        None => (s, true),
        Some(Json::Str(name)) => match event_kind(name) {
            None => (s, false),
            Some(kind) => match opt_integer(spec_field(record, "observed_at_ms"@)) {
                None => (s, false),
                Some(at) => (with_record_evidence(s, Evidence { kind, observed_at_ms: at }), true),
            },
        },
        Some(_) => (s, false),
    }
}

/// One line of a session file. The result holds the scan after the line,
/// what the file has told about itself, and `false` where the line is
/// malformed: a malformed line ends the reading of its file, and what the
/// line had already recorded stays recorded.
pub open spec fn spec_line_step(
    s: ScanModel,
    src: SourceModel,
    line: Seq<char>,
    titles: Map<Seq<char>, Seq<char>>,
    parents: Map<Seq<char>, Seq<char>>,
) -> (ScanModel, SourceModel, bool) {
    if trim(line).len() == 0 {
        (s, src, true)
    } else {
        match spec_parse(line) {
            None => (s, src, false),
            Some(record) => if !(record is Object) {
                (s, src, false)
            } else if spec_str(spec_field(record, "type"@)) == Some("session_meta"@) {
                let id = meta_session_id(spec_field(record, "payload"@));
                let title = match id {
                    Some(i) => spec_project_title(titles, parents, i),
                    None => None,
                };
                (s, SourceModel { title, has_user_title: title is Some, id }, true)
            } else {
                let src1 = if !src.has_user_title && spec_user_task_title(record) is Some {
                    SourceModel { title: spec_user_task_title(record), has_user_title: true, ..src }
                } else {
                    src
                };
                if spec_str(spec_field(record, "type"@)) == Some("event_msg"@) {
                    match spec_desktop_event(spec_field(record, "payload"@), record_timestamp(record), src1.title, src1.id, s) {
                        Some(s2) => (s2, src1, true),
                        None => (s, src1, false),
                    }
                } else {
                    match spec_field(record, "usage"@) {
                        Some(u) => match spec_parse_usage(u) {
                            None => (s, src1, false),
                            Some(um) => {
                                let s1 = ScanModel { usage: newer_usage(s.usage, um), ..s };
                                let (s2, ok) = spec_event_type_step(s1, record);
                                (s2, src1, ok)
                            },
                        },
                        None => {
                            let (s2, ok) = spec_event_type_step(s, record);
                            (s2, src1, ok)
                        },
                    }
                }
            },
        }
    }
}

/// The lines of a session file from the first on, until one is malformed.
pub open spec fn spec_lines_fold(
    s: ScanModel,
    src: SourceModel,
    lines: Seq<Seq<char>>,
    titles: Map<Seq<char>, Seq<char>>,
    parents: Map<Seq<char>, Seq<char>>,
) -> (ScanModel, bool)
    decreases lines.len(),
{
    if lines.len() == 0 {
        (s, true)
    } else {
        let (s1, src1, ok) = spec_line_step(s, src, lines[0], titles, parents);
        if !ok {
            (s1, false)
        } else {
            spec_lines_fold(s1, src1, lines.subrange(1, lines.len() as int), titles, parents)
        }
    }
}

/// A whole session file read into a scan: the scan after it, and whether
/// every line was well formed.
pub open spec fn spec_scan_source(
    s: ScanModel,
    source: Seq<char>,
    titles: Map<Seq<char>, Seq<char>>,
    parents: Map<Seq<char>, Seq<char>>,
) -> (ScanModel, bool) {
    spec_lines_fold(s, initial_source(), spec_lines(source), titles, parents)
}

/// What a session file has told about itself so far.
pub struct SourceState {
    pub title: Option<Vec<char>>,
    pub has_user_title: bool,
    pub id: Option<Vec<char>>,
}

impl View for SourceState {
    type V = SourceModel;

    open spec fn view(&self) -> SourceModel {
        SourceModel { title: opt_chars(self.title), has_user_title: self.has_user_title, id: opt_chars(self.id) }
    }
}

fn as_opt_slice(v: &Option<Vec<char>>) -> (r: Option<&[char]>)
    ensures
        opt_slice(r) == opt_chars(*v),
{
    match v {
        Some(x) => Some(x.as_slice()),
        None => None,
    }
}

fn event_kind_exec(name: &Vec<char>) -> (k: Option<EvidenceKind>)
    ensures
        k == event_kind(name@),
{
    let n = name.as_slice();
    if crate::text::equals_str(n, "execution_started") {
        Some(EvidenceKind::ExecutionStarted)
    } else if crate::text::equals_str(n, "execution_heartbeat") {
        Some(EvidenceKind::ExecutionHeartbeat)
    } else if crate::text::equals_str(n, "execution_completed") {
        Some(EvidenceKind::ExecutionCompleted)
    } else if crate::text::equals_str(n, "waiting_for_input") {
        Some(EvidenceKind::WaitingForInput)
    } else {
        None
    }
}

fn event_type_step(scan: &mut Scan, record: &JsonValue) -> (ok: bool)
    ensures
        (final(scan)@, ok) == spec_event_type_step(old(scan)@, record.view()),
{
    let event_type = match field(record, "event_type") {
        Some(e) => e,
        None => return true,
    };
    let name = match event_type {
        JsonValue::String(n) => n,
        _ => return false,
    };
    let kind = match event_kind_exec(name) {
        Some(k) => k,
        None => return false,
    };
    let at = match integer_of(field(record, "observed_at_ms")) {
        Some(n) => n,
        None => return false,
    };
    record_evidence(scan, Evidence { kind, observed_at_ms: at });
    true
}

fn timestamp_of(record: &JsonValue) -> (r: Option<u64>)
    ensures
        r == record_timestamp(record.view()),
{
    match string(field(record, "timestamp")) {
        Some(t) => rfc3339_ms(t.as_slice()),
        None => None,
    }
}

/// Reads one line of a session file.
pub fn scan_line(line: &[char], source: &mut SourceState, scan: &mut Scan, catalog: &TitleCatalog) -> (ok: bool)
    ensures
        (final(scan)@, final(source)@, ok) == spec_line_step(old(scan)@, old(source)@, line@, catalog.titles@, catalog.parents@),
{
    let t = trimmed(line);
    if t.len() == 0 {
        return true;
    }
    let record = match JsonParser::parse_chars(line) {
        Ok(r) => r,
        Err(()) => return false,
    };
    match &record {
        JsonValue::Object(_) => {},
        _ => return false,
    }
    if string_is(field(&record, "type"), "session_meta") {
        let payload = field(&record, "payload");
        let id: Option<Vec<char>> = match string(field_of(payload, "session_id")) {
            Some(i) => Some(copy_chars(i)),
            None => match string(field_of(payload, "id")) {
                Some(i) => Some(copy_chars(i)),
                None => None,
            },
        };
        let title = match &id {
            Some(i) => catalog.project_title(i.as_slice()),
            None => None,
        };
        source.has_user_title = title.is_some();
        source.title = title;
        source.id = id;
        return true;
    }
    if !source.has_user_title {
        match user_task_title(&record) {
            Some(title) => {
                source.title = Some(title);
                source.has_user_title = true;
            },
            None => {},
        }
    }
    if string_is(field(&record, "type"), "event_msg") {
        let r = scan_desktop_event(
            field(&record, "payload"),
            timestamp_of(&record),
            as_opt_slice(&source.title),
            as_opt_slice(&source.id),
            scan,
        );
        return r.is_ok();
    }
    match field(&record, "usage") {
        Some(u) => match parse_usage(u) {
            Ok(usage) => keep_newer_usage(scan, usage),
            Err(()) => return false,
        },
        None => {},
    }
    event_type_step(scan, &record)
}

/// Reads the text of a session file into the scan, line by line, until a
/// line is malformed; `Err` where one is.
pub fn scan_jsonl_source(source: &str, scan: &mut Scan, catalog: &TitleCatalog) -> (r: Result<(), ()>)
    ensures
        (final(scan)@, r is Ok) == spec_scan_source(old(scan)@, source@, catalog.titles@, catalog.parents@),
{
    let chars = chars_of(source);
    let lines = split_lines(chars.as_slice());
    let ghost ls = texts_view(lines@);
    let mut state = SourceState { title: None, has_user_title: false, id: None };
    let mut i: usize = 0;
    proof {
        assert(ls.subrange(0, ls.len() as int) =~= ls);
    }
    while i < lines.len()
        invariant
            0 <= i <= lines@.len(),
            ls == texts_view(lines@),
            ls == spec_lines(source@),
            spec_scan_source(old(scan)@, source@, catalog.titles@, catalog.parents@)
                == spec_lines_fold(scan@, state@, ls.subrange(i as int, ls.len() as int), catalog.titles@, catalog.parents@),
        decreases lines@.len() - i,
    {
        let ghost rest = ls.subrange(i as int, ls.len() as int);
        proof {
            assert(rest[0] == lines@[i as int]@);
            assert(rest.subrange(1, rest.len() as int) =~= ls.subrange(i + 1, ls.len() as int));
        }
        let ok = scan_line(lines[i].as_slice(), &mut state, scan, catalog);
        if !ok {
            return Err(());
        }
        i = i + 1;
    }
    Ok(())
}

} // verus!
