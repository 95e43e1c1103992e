use vstd::prelude::*;

use crate::json::{spec_field, spec_parse, spec_str, Json};
use crate::model::{Evidence, EvidenceKind};
use crate::scan::{
    is_waiting_kind, newer_usage, opt_integer, record_timestamp, saturating_ms, spec_desktop_event,
    spec_parse_desktop_usage, spec_parse_usage, spec_event_type_step, spec_line_step, spec_lines_fold, spec_scan_source,
    spec_update_source_task, spec_update_task, with_desktop_evidence, ScanModel, SourceModel,
    UsageModel,
};
use crate::sources::spec_scan_all;
use crate::tasks::TaskStatus;
use crate::titles::spec_user_task_title;

verus! {

/// What a later scan keeps of an earlier one: every task row, observed at
/// the same time or later; and the usage record, the evidence, the latest
/// observation and the latest wait for input, each as new or newer.
pub open spec fn keeps_newer(a: ScanModel, b: ScanModel) -> bool {
    &&& forall|id: Seq<char>| #[trigger]
        a.tasks.contains_key(id) ==> b.tasks.contains_key(id) && b.tasks[id].observed_at_ms
            >= a.tasks[id].observed_at_ms
    &&& (a.usage matches Some(u) ==> b.usage matches Some(v) && v.synced_at_ms >= u.synced_at_ms)
    &&& (a.evidence matches Some(e) ==> b.evidence matches Some(f) && f.observed_at_ms >= e.observed_at_ms)
    &&& (a.latest_observed_at_ms matches Some(l) ==> b.latest_observed_at_ms matches Some(m) && m >= l)
    &&& (a.no_turn_waiting_at_ms matches Some(w) ==> b.no_turn_waiting_at_ms matches Some(x) && x >= w)
}

proof fn lemma_keeps_transitive(a: ScanModel, b: ScanModel, c: ScanModel)
    requires
        keeps_newer(a, b),
        keeps_newer(b, c),
    ensures
        keeps_newer(a, c),
{
    assert forall|id: Seq<char>| #[trigger] a.tasks.contains_key(id) implies c.tasks.contains_key(id)
        && c.tasks[id].observed_at_ms >= a.tasks[id].observed_at_ms by {
        assert(b.tasks.contains_key(id));
    }
}

proof fn lemma_update_task_keeps(
    s: ScanModel,
    payload: Json,
    source_title: Option<Seq<char>>,
    status: TaskStatus,
    observed_at_ms: u64,
)
    ensures
        keeps_newer(s, spec_update_task(s, payload, source_title, status, observed_at_ms)),
{
}

proof fn lemma_update_source_task_keeps(
    s: ScanModel,
    source_id: Option<Seq<char>>,
    source_title: Option<Seq<char>>,
    observed_at_ms: u64,
)
    ensures
        keeps_newer(s, spec_update_source_task(s, source_id, source_title, observed_at_ms)),
{
}

proof fn lemma_desktop_evidence_keeps(s: ScanModel, e: Evidence)
    ensures
        keeps_newer(s, with_desktop_evidence(s, e)),
{
}

proof fn lemma_usage_keeps(s: ScanModel, u: UsageModel)
    ensures
        keeps_newer(s, ScanModel { usage: newer_usage(s.usage, u), ..s }),
{
}

/// A task event: its evidence, then its row.
proof fn lemma_task_event_keeps(
    s: ScanModel,
    p: Json,
    source_title: Option<Seq<char>>,
    e: Evidence,
    status: TaskStatus,
)
    ensures
        keeps_newer(
            s,
            spec_update_task(with_desktop_evidence(s, e), p, source_title, status, e.observed_at_ms),
        ),
{
    let s1 = with_desktop_evidence(s, e);
    lemma_desktop_evidence_keeps(s, e);
    lemma_update_task_keeps(s1, p, source_title, status, e.observed_at_ms);
    lemma_keeps_transitive(s, s1, spec_update_task(s1, p, source_title, status, e.observed_at_ms));
}

proof fn lemma_desktop_event_keeps(
    payload: Option<Json>,
    record_timestamp_ms: Option<u64>,
    source_title: Option<Seq<char>>,
    source_id: Option<Seq<char>>,
    s: ScanModel,
)
    ensures
        spec_desktop_event(payload, record_timestamp_ms, source_title, source_id, s) matches Some(s2)
            ==> keeps_newer(s, s2),
{
    if let Some(p) = payload {
        if let Some(kind) = spec_str(spec_field(p, "type"@)) {
            if kind == "task_started"@ {
                if let Some(seconds) = opt_integer(spec_field(p, "started_at"@)) {
                    let e = Evidence { kind: EvidenceKind::ExecutionStarted, observed_at_ms: saturating_ms(seconds) };
                    lemma_task_event_keeps(s, p, source_title, e, TaskStatus::Working);
                }
            } else if kind == "task_complete"@ {
                if let Some(seconds) = opt_integer(spec_field(p, "completed_at"@)) {
                    let e = Evidence { kind: EvidenceKind::ExecutionCompleted, observed_at_ms: saturating_ms(seconds) };
                    lemma_task_event_keeps(s, p, source_title, e, TaskStatus::Completed);
                }
            } else if is_waiting_kind(kind) {
                if let Some(at) = record_timestamp_ms {
                    let e = Evidence { kind: EvidenceKind::WaitingForInput, observed_at_ms: at };
                    lemma_task_event_keeps(s, p, source_title, e, TaskStatus::Waiting);
                }
            } else if kind == "token_count"@ {
                if let Some(u) = spec_parse_desktop_usage(p, record_timestamp_ms) {
                    lemma_usage_keeps(s, u);
                }
            } else if kind == "sub_agent_activity"@ {
                if let Some(at) = record_timestamp_ms {
                    let e = Evidence { kind: EvidenceKind::ExecutionHeartbeat, observed_at_ms: at };
                    let s1 = with_desktop_evidence(s, e);
                    lemma_desktop_evidence_keeps(s, e);
                    lemma_update_source_task_keeps(s1, source_id, source_title, at);
                    lemma_keeps_transitive(s, s1, spec_update_source_task(s1, source_id, source_title, at));
                }
            }
        }
    }
}

proof fn lemma_event_type_step_keeps(s: ScanModel, record: Json)
    ensures
        keeps_newer(s, spec_event_type_step(s, record).0),
{
}

proof fn lemma_line_step_keeps(
    s: ScanModel,
    src: SourceModel,
    line: Seq<char>,
    titles: Map<Seq<char>, Seq<char>>,
    parents: Map<Seq<char>, Seq<char>>,
)
    ensures
        keeps_newer(s, spec_line_step(s, src, line, titles, parents).0),
{
    if let Some(record) = spec_parse(line) {
        let src1 = if !src.has_user_title && spec_user_task_title(record) is Some {
            SourceModel { title: spec_user_task_title(record), has_user_title: true, ..src }
        } else {
            src
        };
        lemma_desktop_event_keeps(spec_field(record, "payload"@), record_timestamp(record), src1.title, src1.id, s);
        lemma_event_type_step_keeps(s, record);
        if let Some(u) = spec_field(record, "usage"@) {
            if let Some(um) = spec_parse_usage(u) {
                let s1 = ScanModel { usage: newer_usage(s.usage, um), ..s };
                lemma_usage_keeps(s, um);
                lemma_event_type_step_keeps(s1, record);
                lemma_keeps_transitive(s, s1, spec_event_type_step(s1, record).0);
            }
        }
    }
}

proof fn lemma_lines_fold_keeps(
    s: ScanModel,
    src: SourceModel,
    lines: Seq<Seq<char>>,
    titles: Map<Seq<char>, Seq<char>>,
    parents: Map<Seq<char>, Seq<char>>,
)
    ensures
        keeps_newer(s, spec_lines_fold(s, src, lines, titles, parents).0),
    decreases lines.len(),
{
    if lines.len() > 0 {
        let (s1, src1, ok) = spec_line_step(s, src, lines[0], titles, parents);
        lemma_line_step_keeps(s, src, lines[0], titles, parents);
        if ok {
            lemma_lines_fold_keeps(s1, src1, lines.subrange(1, lines.len() as int), titles, parents);
            lemma_keeps_transitive(s, s1, spec_lines_fold(s, src, lines, titles, parents).0);
        }
    }
}

/// Reading a session file never forgets what the scan already held: every
/// task row stays, observed at the same time or later, and the usage record,
/// the evidence and the latest times are replaced only by newer ones, also
/// where the file holds a malformed line.
pub proof fn law_reading_keeps_newer(
    s: ScanModel,
    source: Seq<char>,
    titles: Map<Seq<char>, Seq<char>>,
    parents: Map<Seq<char>, Seq<char>>,
)
    ensures
        keeps_newer(s, spec_scan_source(s, source, titles, parents).0),
{
    lemma_lines_fold_keeps(s, crate::scan::initial_source(), crate::text::spec_lines(source), titles, parents);
}

/// Reading further session files never forgets what the earlier ones showed:
/// the scan of all sources keeps the scan of the first `k` of them.
pub proof fn law_later_sources_keep_earlier_ones(
    sources: Seq<Option<Seq<char>>>,
    k: int,
    titles: Map<Seq<char>, Seq<char>>,
    parents: Map<Seq<char>, Seq<char>>,
)
    requires
        0 <= k <= sources.len(),
    ensures
        keeps_newer(
            spec_scan_all(sources.subrange(0, k), titles, parents).0,
            spec_scan_all(sources, titles, parents).0,
        ),
    decreases sources.len() - k,
{
    if k == sources.len() {
        assert(sources.subrange(0, k) =~= sources);
    } else {
        let n = sources.len();
        let front = sources.subrange(0, n - 1);
        assert(front.subrange(0, k) =~= sources.subrange(0, k));
        law_later_sources_keep_earlier_ones(front, k, titles, parents);
        let before = spec_scan_all(front, titles, parents).0;
        match sources[n - 1] {
            None => {},
            Some(text) => {
                law_reading_keeps_newer(before, text, titles, parents);
            },
        }
        lemma_keeps_transitive(
            spec_scan_all(sources.subrange(0, k), titles, parents).0,
            before,
            spec_scan_all(sources, titles, parents).0,
        );
    }
}

} // verus!
