use codex_pet_island::adapter::{aggregate_task_state, CodexDataAdapter, CodexPaths, SyncState, UsageSnapshot};
use codex_pet_island::app_state::{
    autostart_to_restore, settings_after_save, Settings, acknowledge_completion, is_dismissible, present_snapshot, remove_task, DismissedTasks,
};
use codex_pet_island::catalog::TitleCatalog;
use codex_pet_island::json::{field, integer, parse_u64, string, JsonParser, JsonValue};
use codex_pet_island::model::{PetState, Status};
use codex_pet_island::percent::percent_in_range;
use codex_pet_island::scan::{parse_usage, scan_jsonl_source, Scan};
use codex_pet_island::sources::{
    is_task_event_line, jsonl_window, reads_whole_file, recent_session_files, scan_all, select_session_files,
    with_recovered_task_events,
};
use codex_pet_island::tasks::{TaskSnapshot, TaskStatus, TaskTable};
use codex_pet_island::rows::task_snapshots;
use codex_pet_island::timestamp::rfc3339_ms;
use codex_pet_island::titles::shorten_title;

fn chars(s: &str) -> Vec<char> {
    s.chars().collect()
}

fn text(v: &[char]) -> String {
    v.iter().collect()
}

fn task(turn_id: &str, title: &str, status: TaskStatus, observed_at_ms: u64) -> TaskSnapshot {
    TaskSnapshot { turn_id: turn_id.to_owned(), title: title.to_owned(), status, observed_at_ms }
}

fn scan_of(lines: &[&str]) -> Result<Scan, ()> {
    let source: String = lines.iter().map(|line| format!("{line}\n")).collect();
    scan_all(&vec![Some(source)], &TitleCatalog::new())
}

// --- JSON -------------------------------------------------------------------

#[test]
fn json_parser_reads_nested_values_and_escapes() {
    let value = JsonParser::parse(r#" {"a": [1, -2.5e3, true, null], "b": {"c": "x\u00e9\ud83d\ude00\n"}} "#).unwrap();
    let b = field(&value, "b").unwrap();
    assert_eq!(string(field(b, "c")).map(|s| text(s)), Some("xé\u{FFFD}\u{FFFD}\n".to_owned()));
    let lone = JsonParser::parse(r#""\ud800\u0041""#).unwrap();
    assert!(matches!(lone, JsonValue::String(ref s) if text(s) == "\u{FFFD}A"));
    match field(&value, "a") {
        Some(JsonValue::Array(items)) => assert_eq!(items.len(), 4),
        _ => panic!("the array was not read"),
    }
}

#[test]
fn json_parser_refuses_duplicate_keys_trailing_text_and_bad_numbers() {
    assert!(JsonParser::parse(r#"{"a":1,"a":2}"#).is_err());
    assert!(JsonParser::parse(r#"{"a":1} x"#).is_err());
    assert!(JsonParser::parse("01").is_err());
    assert!(JsonParser::parse("1.").is_err());
    assert!(JsonParser::parse("-").is_err());
    assert!(JsonParser::parse("\"a\u{1}b\"").is_err());
    assert!(JsonParser::parse("").is_err());
    assert!(JsonParser::parse("tru").is_err());
}

#[test]
fn integers_are_read_as_unsigned_64_bit_numbers() {
    assert_eq!(parse_u64(&chars("18446744073709551615")), Some(u64::MAX));
    assert_eq!(parse_u64(&chars("18446744073709551616")), None);
    assert_eq!(parse_u64(&chars("+5")), Some(5));
    assert_eq!(parse_u64(&chars("")), None);
    assert_eq!(integer(&JsonParser::parse("1.5").unwrap()), Err(()));
    assert_eq!(integer(&JsonParser::parse("-1").unwrap()), Err(()));
    assert_eq!(integer(&JsonParser::parse("42").unwrap()), Ok(42));
}

// --- Weekly share -----------------------------------------------------------

#[test]
fn weekly_share_must_lie_between_zero_and_one_hundred() {
    for accepted in ["0", "-0", "100", "100.0", "1e2", "1E+2", "12.5", "0.000", "99.9999999", "1e-999999999999999999999999999999999999"] {
        assert!(percent_in_range(&chars(accepted)), "{accepted} was refused");
    }
    for refused in ["100.5", "101", "1e3", "-1", "-0.001", "1e999999999999999999999999999999999999", "abc", "", "1.", "0100"] {
        assert!(!percent_in_range(&chars(refused)), "{refused} was accepted");
    }
}

#[test]
fn usage_records_need_all_three_values() {
    let valid = JsonParser::parse(r#"{"today_tokens":42,"weekly_usage_percent":12.5,"synced_at_ms":1000}"#).unwrap();
    let usage = parse_usage(&valid).unwrap();
    assert_eq!(usage.today_tokens, Some(42));
    assert_eq!(text(&usage.weekly_usage_percent), "12.5");
    assert_eq!(usage.synced_at_ms, 1_000);
    let out_of_range = JsonParser::parse(r#"{"today_tokens":42,"weekly_usage_percent":120,"synced_at_ms":1000}"#).unwrap();
    assert!(parse_usage(&out_of_range).is_err());
    let missing = JsonParser::parse(r#"{"today_tokens":42,"weekly_usage_percent":12.5}"#).unwrap();
    assert!(parse_usage(&missing).is_err());
}

// --- Timestamps ---------------------------------------------------------------

#[test]
fn rfc3339_timestamps_give_milliseconds_since_the_epoch() {
    assert_eq!(rfc3339_ms(&chars("1970-01-01T00:00:00Z")), Some(0));
    assert_eq!(rfc3339_ms(&chars("2026-08-10T00:00:02Z")), Some(1_786_320_002_000));
    assert_eq!(rfc3339_ms(&chars("2023-03-01T12:00:00.5Z")), Some(1_677_672_000_000));
    assert_eq!(rfc3339_ms(&chars("2023-03-01T12:00:00.123+08:00")), Some(1_677_672_000_123));
}

#[test]
fn rfc3339_dates_of_a_leap_year_follow_the_calendar() {
    assert_eq!(rfc3339_ms(&chars("2024-01-01T00:00:00Z")), Some(1_704_067_200_000));
    assert_eq!(rfc3339_ms(&chars("2024-02-29T23:59:59.123Z")), Some(1_709_251_199_123));
    assert_eq!(rfc3339_ms(&chars("2024-06-01T00:00:00Z")), Some(1_717_200_000_000));
    assert_eq!(rfc3339_ms(&chars("2000-03-01T12:00:00Z")), Some(951_912_000_000));
    assert_eq!(rfc3339_ms(&chars("2100-03-01T00:00:00Z")), Some(4_107_542_400_000));
}

#[test]
fn rfc3339_timestamps_out_of_range_are_refused() {
    assert_eq!(rfc3339_ms(&chars("2023-02-29T00:00:00Z")), None);
    assert_eq!(rfc3339_ms(&chars("2023-13-01T00:00:00Z")), None);
    assert_eq!(rfc3339_ms(&chars("2023-01-01T24:00:00Z")), None);
    assert_eq!(rfc3339_ms(&chars("1969-12-31T23:59:59Z")), None);
    assert_eq!(rfc3339_ms(&chars("2023-01-01 00:00:00Z")), None);
    assert_eq!(rfc3339_ms(&chars("2023-01-01T00:00:00")), None);
}

// --- Titles ---------------------------------------------------------------------

#[test]
fn long_titles_are_cut_to_twenty_two_characters() {
    assert_eq!(shorten_title("  make   the   island   draggable   again please  "), "make the island dragga…");
    assert_eq!(shorten_title("short  title"), "short title");
    assert_eq!(shorten_title("请做一个“会议 专家”系统"), "会议 专家");
    assert_eq!(shorten_title("Translate this"), "翻译大师");
}

#[test]
fn session_index_titles_win_over_persisted_ones() {
    let global = r#"{"electron-persisted-atom-state":{"thread-descriptions-v1":{"a":"Persisted A","b":"Persisted B","c":"  "}}}"#;
    let index = "{\"id\":\"a\",\"thread_name\":\"First A\"}\nnot json\n{\"id\":\"a\",\"thread_name\":\"Latest A\"}\n{\"id\":\"b\",\"thread_name\":\"   \"}\n";
    let first_lines = vec![
        "{\"type\":\"session_meta\",\"payload\":{\"id\":\"child\",\"parent_thread_id\":\"a\"}}\n".to_owned(),
    ];
    let catalog = TitleCatalog::load(Some(global), Some(index), &first_lines);

    assert_eq!(catalog.project_title(&chars("a")).map(|t| text(&t)).as_deref(), Some("Latest A"));
    assert_eq!(catalog.project_title(&chars("b")).map(|t| text(&t)).as_deref(), Some("Persisted B"));
    assert_eq!(catalog.project_title(&chars("c")), None);
    assert_eq!(catalog.project_title(&chars("child")).map(|t| text(&t)).as_deref(), Some("Latest A"));
}

// --- Session files ----------------------------------------------------------------

#[test]
fn session_files_are_chosen_newest_first() {
    assert_eq!(select_session_files(&vec![5, 3, 9, 3]), vec![2, 0, 3, 1]);
    let many: Vec<u128> = (0..50).collect();
    let chosen = select_session_files(&many);
    assert_eq!(chosen.len(), 48);
    assert_eq!(chosen[0], 49);
    assert_eq!(chosen[47], 2);
    assert_eq!(recent_session_files(&chosen), vec![49, 48, 47, 46, 45, 44, 43, 42]);
    assert_eq!(select_session_files(&Vec::new()), Vec::<usize>::new());
}

#[test]
fn large_files_are_read_as_the_complete_lines_of_a_window() {
    assert!(reads_whole_file(655_360));
    assert!(!reads_whole_file(655_361));
    assert_eq!(jsonl_window("a\nb\nc", "x\ny\nz"), "a\nb\ny\nz");
    assert_eq!(jsonl_window("abc", "xyz"), "");
    assert_eq!(jsonl_window("a\n", "\nb\n"), "a\nb\n");
}

#[test]
fn task_events_of_the_whole_file_are_recovered() {
    let started = r#"{"type":"event_msg","payload":{"type":"task_started","turn_id":"t","started_at":1}}"#;
    let other = r#"{"type":"event_msg","payload":{"type":"token_count"}}"#;
    assert!(is_task_event_line(&chars(started)));
    assert!(!is_task_event_line(&chars(other)));
    let lines = vec![other.to_owned(), started.to_owned()];
    assert_eq!(with_recovered_task_events("w\n", &lines), format!("w\n{started}\n"));
}

// --- Scans and polls ----------------------------------------------------------------

#[test]
fn fresh_usage_and_execution_records_make_the_pet_work() {
    let scan = scan_of(&[
        r#"{"usage":{"today_tokens":42,"weekly_usage_percent":12.5,"synced_at_ms":1000}}"#,
        r#"{"event_type":"execution_started","observed_at_ms":1000}"#,
    ]);
    let mut adapter = CodexDataAdapter::new(CodexPaths { home: std::path::PathBuf::from("home") });
    let snapshot = adapter.update_from_scan(scan, 1_001);

    assert_eq!(snapshot.state.status, Status::Working);
    assert_eq!(snapshot.sync_state, SyncState::Ready);
    assert_eq!(
        snapshot.usage,
        UsageSnapshot {
            today_tokens: Some(42),
            weekly_usage_percent: Some("12.5".to_owned()),
            weekly_reset_at_ms: None,
            synced_at_ms: Some(1_000),
        }
    );
    assert_eq!(adapter.state().status, Status::Working);
}

#[test]
fn old_records_are_stale_and_the_pet_rests() {
    let scan = scan_of(&[
        r#"{"usage":{"today_tokens":42,"weekly_usage_percent":12.5,"synced_at_ms":1000}}"#,
        r#"{"event_type":"execution_started","observed_at_ms":1000}"#,
    ]);
    let mut adapter = CodexDataAdapter::new(CodexPaths { home: std::path::PathBuf::from("home") });
    let snapshot = adapter.update_from_scan(scan, 301_001);

    assert_eq!(snapshot.state.status, Status::Resting);
    assert_eq!(snapshot.sync_state, SyncState::Stale);
    assert_eq!(snapshot.usage.weekly_usage_percent, Some("12.5".to_owned()));
}

#[test]
fn malformed_and_unknown_records_make_the_data_unavailable() {
    assert!(scan_of(&["{not json}"]).is_err());
    assert!(scan_of(&[r#"{"event_type":"dancing","observed_at_ms":1}"#]).is_err());
    assert!(scan_of(&[r#"[1,2]"#]).is_err());
    let mut adapter = CodexDataAdapter::new(CodexPaths { home: std::path::PathBuf::from("home") });
    let snapshot = adapter.update_from_scan(scan_of(&["{not json}"]), 1_001);
    assert_eq!(snapshot.state.status, Status::Resting);
    assert_eq!(snapshot.sync_state, SyncState::Unavailable);
    assert_eq!(snapshot.usage.today_tokens, None);
    assert!(snapshot.tasks.is_empty());
}

#[test]
fn a_source_stops_at_its_first_malformed_line_and_keeps_what_came_before() {
    let mut scan = Scan::new();
    let source = "{\"type\":\"event_msg\",\"payload\":{\"type\":\"task_started\",\"turn_id\":\"a\",\"started_at\":1}}\n{oops}\n{\"type\":\"event_msg\",\"payload\":{\"type\":\"task_started\",\"turn_id\":\"b\",\"started_at\":1}}\n";
    assert!(scan_jsonl_source(source, &mut scan, &TitleCatalog::new()).is_err());
    assert!(scan.task("a").is_some());
    assert!(scan.task("b").is_none());
}

#[test]
fn an_older_task_event_never_replaces_a_newer_one() {
    let mut scan = Scan::new();
    let source = "{\"type\":\"event_msg\",\"payload\":{\"type\":\"task_complete\",\"turn_id\":\"a\",\"completed_at\":5}}\n{\"type\":\"event_msg\",\"payload\":{\"type\":\"task_started\",\"turn_id\":\"a\",\"started_at\":3}}\n";
    scan_jsonl_source(source, &mut scan, &TitleCatalog::new()).unwrap();
    let row = scan.task("a").unwrap();
    assert_eq!(row.status, TaskStatus::Completed);
    assert_eq!(row.observed_at_ms, 5_000);
}

#[test]
fn the_newest_usage_record_is_kept_whatever_the_file_order() {
    let scan = scan_all(
        &vec![
            Some("{\"usage\":{\"today_tokens\":1,\"weekly_usage_percent\":95,\"synced_at_ms\":2000}}\n".to_owned()),
            None,
            Some("{\"usage\":{\"today_tokens\":2,\"weekly_usage_percent\":40,\"synced_at_ms\":1000}}\n".to_owned()),
        ],
        &TitleCatalog::new(),
    )
    .unwrap();
    let mut adapter = CodexDataAdapter::new(CodexPaths { home: std::path::PathBuf::from("home") });
    let snapshot = adapter.update_from_scan(Ok(scan), 2_001);
    assert_eq!(snapshot.usage.weekly_usage_percent, Some("95".to_owned()));
}

#[test]
fn working_has_priority_over_a_later_completion() {
    let tasks = vec![
        task("a", "A", TaskStatus::Completed, 2_000),
        task("b", "B", TaskStatus::Working, 1_000),
    ];
    assert_eq!(aggregate_task_state(&tasks, 2_001).status, Status::Working);
    let done = vec![task("a", "A", TaskStatus::Completed, 2_000), task("c", "C", TaskStatus::Completed, 1_000)];
    assert_eq!(
        aggregate_task_state(&done, 2_001),
        PetState { status: Status::Completed, completed_until_ms: Some(10_000) }
    );
    assert_eq!(aggregate_task_state(&done, 10_000).status, Status::Resting);
}

#[test]
fn each_project_is_listed_once_by_its_strongest_row() {
    let mut table = TaskTable::new();
    table.upsert(task("t1", "Project", TaskStatus::Completed, 5_000));
    table.upsert(task("t2", "Project", TaskStatus::Working, 1_000));
    table.upsert(task("t3", "Other", TaskStatus::Waiting, 3_000));
    table.upsert(task("t4", "Old", TaskStatus::Working, 0));
    let rows = task_snapshots(&table, None, 7_200_001);
    assert_eq!(
        rows,
        vec![task("t3", "Other", TaskStatus::Waiting, 3_000), task("t2", "Project", TaskStatus::Working, 1_000)]
    );
    let waiting = task_snapshots(&table, Some(4_000), 10_000);
    assert_eq!(waiting[0], task("t1", "Project", TaskStatus::Completed, 5_000));
    assert!(waiting.contains(&task("t4", "Old", TaskStatus::Waiting, 4_000)));
}

// --- Acknowledging and dismissing --------------------------------------------------

#[test]
fn dismissed_completed_tasks_stay_hidden_after_a_poll() {
    let snapshot = codex_pet_island::adapter::PetSnapshot {
        state: PetState { status: Status::Completed, completed_until_ms: Some(9_000) },
        usage: codex_pet_island::adapter::empty_usage(),
        sync_state: SyncState::Ready,
        tasks: vec![task("done", "A", TaskStatus::Completed, 1_000), task("busy", "B", TaskStatus::Working, 900)],
    };
    assert!(is_dismissible(&snapshot, "done"));
    assert!(!is_dismissible(&snapshot, "busy"));
    assert!(!is_dismissible(&snapshot, "missing"));

    let mut dismissed = DismissedTasks::new();
    dismissed.insert("done");
    dismissed.insert("done");
    assert_eq!(dismissed.to_list(), vec!["done".to_owned()]);
    assert!(dismissed.contains(&chars("done")));

    let mut shown = snapshot.clone();
    let acknowledged = acknowledge_completion(&mut shown);
    assert_eq!(acknowledged, Some(9_000));
    assert_eq!(shown.state.status, Status::Resting);
    remove_task(&mut shown, "done");
    assert_eq!(shown.tasks, vec![task("busy", "B", TaskStatus::Working, 900)]);

    let later = present_snapshot(snapshot, acknowledged, &DismissedTasks::from_list(&dismissed.to_list()));
    assert_eq!(later.state.status, Status::Resting);
    assert_eq!(later.tasks, vec![task("busy", "B", TaskStatus::Working, 900)]);
}

#[test]
fn a_newer_completion_is_shown_after_an_acknowledgement() {
    let snapshot = codex_pet_island::adapter::PetSnapshot {
        state: PetState { status: Status::Completed, completed_until_ms: Some(20_000) },
        usage: codex_pet_island::adapter::empty_usage(),
        sync_state: SyncState::Ready,
        tasks: Vec::new(),
    };
    let shown = present_snapshot(snapshot, Some(9_000), &DismissedTasks::new());
    assert_eq!(shown.state, PetState { status: Status::Completed, completed_until_ms: Some(20_000) });
}

#[test]
fn dismissed_ids_are_kept_sorted_and_unique() {
    let list = vec!["b".to_owned(), "a".to_owned(), "b".to_owned()];
    let dismissed = DismissedTasks::from_list(&list);
    assert_eq!(dismissed.to_list(), vec!["a".to_owned(), "b".to_owned()]);
}

#[test]
fn subagent_activity_merges_with_the_project_rows() {
    let mut catalog = TitleCatalog::new();
    catalog.insert_title("parent", "修复 Codex 桌宠无法拖动");
    catalog.insert_parent("child", "parent");
    let source = [
        r#"{"type":"session_meta","payload":{"id":"child"}}"#,
        r#"{"type":"event_msg","timestamp":"2026-08-10T00:00:02Z","payload":{"type":"sub_agent_activity"}}"#,
        r#"{"type":"event_msg","payload":{"type":"task_started","turn_id":"t","started_at":1786320000}}"#,
    ]
    .iter()
    .map(|line| format!("{line}\n"))
    .collect::<String>();
    let mut scan = Scan::new();
    scan_jsonl_source(&source, &mut scan, &catalog).unwrap();

    assert_eq!(scan.task("session:child").unwrap().title, "Codex桌宠灵动岛");
    assert_eq!(scan.task("t").unwrap().title, "Codex桌宠灵动岛");
    let rows = task_snapshots(&scan.tasks, None, 1_786_320_002_001);
    assert_eq!(rows, vec![task("session:child", "Codex桌宠灵动岛", TaskStatus::Working, 1_786_320_002_000)]);
}

#[test]
fn subagent_activity_without_a_known_title_uses_the_fallback_title() {
    let source = [
        r#"{"type":"session_meta","payload":{"id":"lonely"}}"#,
        r#"{"type":"event_msg","timestamp":"2026-08-10T00:00:02Z","payload":{"type":"sub_agent_activity"}}"#,
    ]
    .iter()
    .map(|line| format!("{line}\n"))
    .collect::<String>();
    let mut scan = Scan::new();
    scan_jsonl_source(&source, &mut scan, &TitleCatalog::new()).unwrap();

    assert_eq!(scan.task("session:lonely").unwrap().title, "Codex 任务");
}

/// `n` copies of the ASCII character with code `code`.
fn repeated(code: u8, n: usize) -> String {
    String::from_utf8(vec![code; n]).unwrap()
}

const OPEN_BRACKET: u8 = 91;
const CLOSE_BRACKET: u8 = 93;
const CLOSE_BRACE: u8 = 125;

#[test]
fn json_of_any_depth_is_read_without_recursion() {
    let deep = repeated(OPEN_BRACKET, 2_000) + &repeated(CLOSE_BRACKET, 2_000);
    assert!(JsonParser::parse(&deep).is_ok());
    let members = "\"a\":".repeat(1_000);
    let objects: String = members.split(':').filter(|key| !key.is_empty()).map(|key| format!("{}{key}:", repeated(123, 1))).collect();
    let objects = objects + "1" + &repeated(CLOSE_BRACE, 1_000);
    assert!(JsonParser::parse(&objects).is_ok());
    let line = repeated(123, 1) + "\"a\":" + &repeated(OPEN_BRACKET, 200) + &repeated(CLOSE_BRACKET, 200) + &repeated(CLOSE_BRACE, 1);
    assert!(scan_of(&[&line]).is_ok());
    let mut scan = Scan::new();
    assert!(scan_jsonl_source(&(line.clone() + "\n"), &mut scan, &TitleCatalog::new()).is_ok());
    assert!(JsonParser::parse(&repeated(OPEN_BRACKET, 1_000_000)).is_err());
    assert!(JsonParser::parse(&(repeated(OPEN_BRACKET, 1_000) + &repeated(CLOSE_BRACKET, 1))).is_err());
}

#[test]
fn cut_titles_stay_as_they_are_when_shortened_again() {
    let once = shorten_title("  fix   the settings page layout on small screens  ");
    assert_eq!(once, "fix the settings page …");
    assert_eq!(once.chars().count(), 23);
    assert_eq!(shorten_title(&once), once);
    assert_eq!(shorten_title(&shorten_title("short title")), "short title");
}

#[test]
fn a_settings_change_is_held_only_once_saved_and_autostart_is_undone_otherwise() {
    let current = Settings::default();
    let next = current.with_autostart_enabled(true);
    assert_eq!(settings_after_save(current, next, true), next);
    assert_eq!(settings_after_save(current, next, false), current);
    assert_eq!(autostart_to_restore(false, true), None);
    assert_eq!(autostart_to_restore(false, false), Some(false));
}
