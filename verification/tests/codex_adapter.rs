use codex_pet_island::adapter::{CodexDataAdapter, CodexPaths, SyncState};
use codex_pet_island::catalog::TitleCatalog;
use codex_pet_island::json::JsonParser;
use codex_pet_island::model::Status;
use codex_pet_island::scan::{parse_desktop_usage, scan_jsonl_source, update_task, Scan};
use codex_pet_island::sources::{
    jsonl_window, reads_whole_file, scan_all, with_recovered_task_events, PREFIX_BYTES, TAIL_BYTES,
};
use codex_pet_island::tasks::TaskStatus;
use codex_pet_island::titles::{shorten_title, task_fallback_title, user_task_title};

fn chars(s: &str) -> Vec<char> {
    s.chars().collect()
}

fn text(v: &[char]) -> String {
    v.iter().collect()
}

/// The text that is scanned of a session file with these bytes.
fn window_of(content: &[u8]) -> String {
    if reads_whole_file(content.len() as u64) {
        return String::from_utf8(content.to_vec()).unwrap();
    }
    let prefix = String::from_utf8_lossy(&content[..PREFIX_BYTES as usize]).into_owned();
    let tail = String::from_utf8(content[content.len() - TAIL_BYTES as usize..].to_vec()).unwrap();
    jsonl_window(&prefix, &tail)
}

/// The text that is scanned of one of the newest session files.
fn recovered_source(content: &[u8]) -> String {
    let window = window_of(content);
    if reads_whole_file(content.len() as u64) {
        return window;
    }
    let lines: Vec<String> = content
        .split(|byte| *byte == b'\n')
        .filter_map(|line| String::from_utf8(line.to_vec()).ok())
        .collect();
    with_recovered_task_events(&window, &lines)
}

fn first_line(content: &[u8]) -> String {
    let end = content.iter().position(|byte| *byte == b'\n').map(|i| i + 1).unwrap_or(content.len());
    String::from_utf8_lossy(&content[..end]).into_owned()
}

#[test]
fn scan_jsonl_reads_the_initial_project_title_and_latest_tail() {
    let content = format!(
        "{{\"type\":\"session_meta\",\"payload\":{{\"agent_nickname\":\"最新任务\"}}}}\n{}\n{{\"type\":\"event_msg\",\"timestamp\":\"2026-08-10T00:00:02Z\",\"payload\":{{\"type\":\"task_complete\",\"turn_id\":\"latest\",\"completed_at\":2}}}}\n",
        "{\"type\":\"ignored\"}\n".repeat(50_000),
    );
    let mut scan = Scan::new();

    scan_jsonl_source(&window_of(content.as_bytes()), &mut scan, &TitleCatalog::new()).unwrap();

    let task = scan.task("latest").unwrap();
    assert_eq!(task.status, TaskStatus::Completed);
    assert_eq!(task.title, "Codex 任务");
}

#[test]
fn scan_sources_keeps_a_running_task_when_its_start_event_is_in_a_large_log_middle() {
    let mut content = [
        "{\"type\":\"session_meta\",\"payload\":{\"thread_source\":\"user\"}}\n",
        "{\"type\":\"response_item\",\"payload\":{\"type\":\"message\",\"role\":\"user\",\"content\":[{\"type\":\"input_text\",\"text\":\"制作 Codex 桌宠灵动岛\"}]}}\n",
    ].concat();
    content.push_str(&"{\"type\":\"ignored\"}\n".repeat(12_000));
    content.push_str("{\"type\":\"event_msg\",\"payload\":{\"type\":\"task_started\",\"turn_id\":\"still-working\",\"started_at\":100}}\n");
    content.push_str(&"{\"type\":\"ignored\"}\n".repeat(40_000));
    let bytes = content.as_bytes();
    let catalog = TitleCatalog::load(None, None, &vec![first_line(bytes)]);

    let scan = scan_all(&vec![Some(recovered_source(bytes))], &catalog).unwrap();

    assert_eq!(scan.task("still-working").map(|task| task.status), Some(TaskStatus::Working));
}

#[test]
fn scan_sources_ignores_invalid_middle_bytes_while_recovering_running_tasks() {
    let mut content = [
        "{\"type\":\"session_meta\",\"payload\":{\"thread_source\":\"user\"}}\n",
        "{\"type\":\"response_item\",\"payload\":{\"type\":\"message\",\"role\":\"user\",\"content\":[{\"type\":\"input_text\",\"text\":\"翻译大师\"}]}}\n",
    ].concat().into_bytes();
    content.extend_from_slice("{\"type\":\"ignored\"}\n".repeat(12_000).as_bytes());
    content.extend_from_slice(b"\xff\n");
    content.extend_from_slice(b"{\"type\":\"event_msg\",\"payload\":{\"type\":\"task_started\",\"turn_id\":\"still-working\",\"started_at\":100}}\n");
    content.extend_from_slice("{\"type\":\"ignored\"}\n".repeat(40_000).as_bytes());
    let catalog = TitleCatalog::load(None, None, &vec![first_line(&content)]);

    let scan = scan_all(&vec![Some(recovered_source(&content))], &catalog).unwrap();

    assert_eq!(scan.task("still-working").map(|task| task.status), Some(TaskStatus::Working));
}

#[test]
fn scan_sources_keeps_valid_project_data_when_another_session_is_malformed() {
    let broken = "{not valid json}\n";
    let valid = [
        "{\"type\":\"session_meta\",\"payload\":{\"thread_source\":\"user\"}}\n",
        "{\"type\":\"response_item\",\"payload\":{\"type\":\"message\",\"role\":\"user\",\"content\":[{\"type\":\"input_text\",\"text\":\"翻译大师\"}]}}\n",
        "{\"type\":\"event_msg\",\"payload\":{\"type\":\"task_started\",\"turn_id\":\"working\",\"started_at\":100}}\n",
    ].concat();
    let catalog = TitleCatalog::load(
        None,
        None,
        &vec![first_line(broken.as_bytes()), first_line(valid.as_bytes())],
    );

    let scan = scan_all(
        &vec![Some(recovered_source(broken.as_bytes())), Some(recovered_source(valid.as_bytes()))],
        &catalog,
    )
    .unwrap();

    assert_eq!(scan.task("working").map(|task| task.status), Some(TaskStatus::Working));
}

#[test]
fn scan_jsonl_does_not_turn_a_later_follow_up_into_a_duplicate_project() {
    let mut content = [
        "{\"type\":\"session_meta\",\"payload\":{\"thread_source\":\"user\"}}\n",
        "{\"type\":\"response_item\",\"payload\":{\"type\":\"message\",\"role\":\"user\",\"content\":[{\"type\":\"input_text\",\"text\":\"请帮我制作 Codex 桌宠灵动岛\"}]}}\n",
    ].concat();
    content.push_str(&"{\"type\":\"ignored\"}\n".repeat(50_000));
    content.push_str(&[
        "{\"type\":\"response_item\",\"payload\":{\"type\":\"message\",\"role\":\"user\",\"content\":[{\"type\":\"input_text\",\"text\":\"这个工具只涵盖codex，还是也涵盖ChatGPT\"}]}}\n",
        "{\"type\":\"event_msg\",\"payload\":{\"type\":\"task_complete\",\"turn_id\":\"same-project\",\"completed_at\":2}}\n",
    ].concat());
    let mut scan = Scan::new();

    scan_jsonl_source(&window_of(content.as_bytes()), &mut scan, &TitleCatalog::new()).unwrap();

    assert_eq!(scan.task("same-project").unwrap().title, "Codex桌宠灵动岛");
}

#[test]
fn scan_jsonl_uses_the_first_real_user_request_as_the_task_title() {
    let content = [
        "{\"type\":\"session_meta\",\"payload\":{\"thread_source\":\"user\"}}\n",
        "{\"type\":\"response_item\",\"payload\":{\"type\":\"message\",\"role\":\"user\",\"content\":[{\"type\":\"input_text\",\"text\":\"<environment>ignored</environment>\"},{\"type\":\"input_text\",\"text\":\"制作 Codex 桌宠灵动岛\"}]}}\n",
        "{\"type\":\"event_msg\",\"payload\":{\"type\":\"task_started\",\"turn_id\":\"title\",\"started_at\":1}}\n",
    ].concat();
    let mut scan = Scan::new();

    scan_jsonl_source(&window_of(content.as_bytes()), &mut scan, &TitleCatalog::new()).unwrap();

    assert_eq!(scan.task("title").unwrap().title, "Codex桌宠灵动岛");
}

#[test]
fn scan_jsonl_skips_internal_heading_before_the_real_user_request() {
    let content = [
        "{\"type\":\"session_meta\",\"payload\":{\"thread_source\":\"user\"}}\n",
        "{\"type\":\"response_item\",\"payload\":{\"type\":\"message\",\"role\":\"user\",\"content\":[{\"type\":\"input_text\",\"text\":\"# filesystem\\n<environment>ignored</environment>\\n修复会议专家管理系统\"}]}}\n",
        "{\"type\":\"event_msg\",\"payload\":{\"type\":\"task_started\",\"turn_id\":\"title\",\"started_at\":1}}\n",
    ].concat();
    let mut scan = Scan::new();

    scan_jsonl_source(&window_of(content.as_bytes()), &mut scan, &TitleCatalog::new()).unwrap();

    assert_eq!(scan.task("title").unwrap().title, "修复会议专家管理系统");
}

#[test]
fn user_project_title_skips_injected_setup_and_uses_the_quoted_project_name() {
    let record = JsonParser::parse(r#"{"type":"response_item","payload":{"type":"message","role":"user","content":[{"text":"<recommended_plugins>\nHere is a list of plugins that are available but not installed.\n- Plugin A\n</recommended_plugins>"},{"text":"请帮我在 Windows 电脑上制作一个桌面悬浮的“Codex 桌宠灵动岛”。"}]}}"#).unwrap();

    assert_eq!(user_task_title(&record).map(|title| text(&title)).as_deref(), Some("Codex桌宠灵动岛"));
}

#[test]
fn stable_project_names_replace_dynamic_codex_and_translate_labels() {
    assert_eq!(shorten_title("修复 Codex 桌宠灵动岛仍显示休息中"), "Codex桌宠灵动岛");
    assert_eq!(shorten_title("#translate-medical-papers"), "翻译大师");
}

#[test]
fn nested_session_uses_its_top_level_sidebar_title() {
    let mut catalog = TitleCatalog::new();
    catalog.insert_title("project", "翻译大师");
    catalog.insert_parent("child", "project");

    assert_eq!(catalog.project_title(&chars("child")).map(|title| text(&title)).as_deref(), Some("翻译大师"));
}

#[test]
fn unknown_task_never_uses_a_turn_id_as_its_title() {
    assert_eq!(task_fallback_title("01a7eb5b-0000-0000-0000-000000000000"), "Codex 任务");
}

#[test]
fn task_rows_prefer_the_project_title_over_the_execution_label() {
    let payload = JsonParser::parse(r#"{"turn_id":"repair","title":"修复 Codex 桌宠无法拖动"}"#).unwrap();
    let mut scan = Scan::new();
    let source_title = chars("制作 Codex 桌宠灵动岛");

    update_task(&mut scan, &payload, Some(&source_title), TaskStatus::Working, 1_000);

    assert_eq!(scan.task("repair").unwrap().title, "Codex桌宠灵动岛");
}

#[test]
fn desktop_usage_exposes_the_real_weekly_reset_timestamp() {
    let payload = JsonParser::parse(r#"{"rate_limits":{"primary":{"used_percent":63,"resets_at":1787145600}},"info":{"last_token_usage":{"total_tokens":123}}}"#).unwrap();

    let usage = parse_desktop_usage(&payload, Some(1_000)).unwrap();

    assert_eq!(usage.weekly_reset_at_ms, Some(1_787_145_600_000));
}

#[test]
fn scan_jsonl_keeps_subagent_sessions_for_project_activity() {
    let content = [
        "{\"type\":\"session_meta\",\"payload\":{\"thread_source\":\"subagent\",\"agent_nickname\":\"Carson\"}}\n",
        "{\"type\":\"event_msg\",\"payload\":{\"type\":\"task_started\",\"turn_id\":\"internal\",\"started_at\":1}}\n",
    ].concat();
    let mut scan = Scan::new();

    scan_jsonl_source(&window_of(content.as_bytes()), &mut scan, &TitleCatalog::new()).unwrap();

    assert_eq!(scan.task("internal").unwrap().title, "Codex 任务");
    assert_eq!(scan.task("internal").unwrap().status, TaskStatus::Working);
}

#[test]
fn adapter_missing_sources_return_no_fabricated_usage() {
    let missing_home = std::path::PathBuf::from("tests").join("fixtures").join("does-not-exist");
    let mut adapter = CodexDataAdapter::new(CodexPaths { home: missing_home });
    let snapshot = adapter.update_from_scan(scan_all(&Vec::new(), &TitleCatalog::new()), 1_001);

    assert_eq!(snapshot.state.status, Status::Resting);
    assert_eq!(snapshot.sync_state, SyncState::Unavailable);
    assert_eq!(snapshot.usage.today_tokens, None);
    assert_eq!(snapshot.usage.weekly_usage_percent, None);
    assert_eq!(snapshot.usage.synced_at_ms, None);
}
