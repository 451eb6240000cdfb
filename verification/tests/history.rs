use magpie_app::clip::{
    group, is_filtered, policy_from_config, range_from_index, resolve_slot_or_recent, section_for, to_query,
    Entry, Kind, SearchMode, Section, TimeFilter, TypeFilter, UiState,
};
use magpie_app::config::Config;

const DAY: i64 = 86_400_000;

fn entry(id: i64, text: &str) -> Entry {
    Entry {
        id,
        content_hash: format!("h{id}"),
        kind: Kind::Text,
        preview_text: text.into(),
        full_text: text.into(),
        image_path: None,
        byte_size: 0,
        char_count: 0,
        word_count: 0,
        line_count: 0,
        first_copied_at_ms: 0,
        last_copied_at_ms: 0,
        copy_count: 1,
        pinned: false,
        source_app_id: None,
    }
}

#[test]
fn defaults_are_all_none() {
    let p = policy_from_config(&Config::default());
    assert!(p.max_entries.is_none() && p.max_age_ms.is_none() && p.max_image_bytes.is_none());
    assert!(p.is_noop());
}

#[test]
fn conversions_days_and_mb() {
    let cfg = Config {
        max_entries: Some(500),
        max_age_days: Some(30),
        max_image_mb: Some(200),
        ..Config::default()
    };
    let p = policy_from_config(&cfg);
    assert_eq!(p.max_entries, Some(500));
    assert_eq!(p.max_age_ms, Some(30 * 86_400_000));
    assert_eq!(p.max_image_bytes, Some(200 * 1_048_576));
    assert!(!p.is_noop());
}

#[test]
fn range_from_index_maps_windows() {
    let now = 100 * 86_400_000i64;
    assert_eq!(range_from_index(0, now).since_ms, Some(now - 7 * 86_400_000));
    assert_eq!(range_from_index(1, now).since_ms, Some(now - 30 * 86_400_000));
    assert_eq!(range_from_index(2, now).since_ms, Some(now - 90 * 86_400_000));
    assert_eq!(range_from_index(3, now).since_ms, None); // All
    assert_eq!(range_from_index(3, now).now_ms, now);
}

#[test]
fn slot_entry_takes_precedence() {
    let recent = vec![entry(1, "recent1"), entry(2, "recent2")];
    let slotted = entry(99, "slotted");
    let got = resolve_slot_or_recent(Some(slotted), &recent, 1).unwrap();
    assert_eq!(got.full_text, "slotted");
}

#[test]
fn falls_back_to_nth_recent_when_slot_empty() {
    let recent = vec![entry(1, "recent1"), entry(2, "recent2")];
    let got = resolve_slot_or_recent(None, &recent, 2).unwrap();
    assert_eq!(got.full_text, "recent2");
}

#[test]
fn none_when_slot_empty_and_out_of_range() {
    let recent = vec![entry(1, "recent1")];
    assert!(resolve_slot_or_recent(None, &recent, 0).is_none());
    assert!(resolve_slot_or_recent(None, &recent, 5).is_none());
}

#[test]
fn grouping_sections_today_yesterday_older() {
    assert!(matches!(
        section_for(100 * DAY + 1, 100 * DAY + 9),
        Section::Today
    ));
    assert!(matches!(
        section_for(99 * DAY, 100 * DAY + 9),
        Section::Yesterday
    ));
    assert!(matches!(section_for(1, 100 * DAY), Section::Older));

    let mk = |ms: i64| Entry {
        id: ms,
        content_hash: format!("h{ms}"),
        kind: Kind::Text,
        preview_text: String::new(),
        full_text: String::new(),
        image_path: None,
        byte_size: 0,
        char_count: 0,
        word_count: 0,
        line_count: 0,
        first_copied_at_ms: ms,
        last_copied_at_ms: ms,
        copy_count: 1,
        pinned: false,
        source_app_id: None,
    };
    let now = 100 * DAY + 5;
    let entries = vec![mk(100 * DAY), mk(99 * DAY), mk(50 * DAY), mk(100 * DAY + 1)];
    let g = group(&entries, now);
    // Today (2), Yesterday (1), Older (1) in that order
    assert_eq!(g.len(), 3);
    assert_eq!(g[0].0.label(), "Today");
    assert_eq!(g[0].1, vec![0, 3]);
    assert_eq!(g[1].0.label(), "Yesterday");
    assert_eq!(g[2].0.label(), "Older");
}

#[test]
fn tag_flows_into_query() {
    let mut ui = UiState::new();
    assert!(to_query(&ui, 0).tag.is_none());
    ui.tag = Some("work".into());
    assert_eq!(to_query(&ui, 0).tag, Some("work".to_string()));
}

#[test]
fn to_query_copies_text_and_mode() {
    let mut ui = UiState::new();
    ui.text = "hello".into();
    ui.mode = SearchMode::Fuzzy;
    let q = to_query(&ui, 1_000_000_000);
    assert_eq!(q.text, "hello");
    assert_eq!(q.mode, SearchMode::Fuzzy);
    assert!(q.kind.is_none());
    assert!(q.time.since_ms.is_none());
}

#[test]
fn pinned_only_flows_into_query() {
    let mut ui = UiState::new();
    assert!(!to_query(&ui, 0).pinned_only);
    ui.pinned_only = true;
    assert!(to_query(&ui, 0).pinned_only);
}

#[test]
fn query_takes_kind_app_and_window_from_the_controls() {
    let ui = UiState {
        type_filter: TypeFilter::Link,
        time_filter: TimeFilter::Today,
        app_filter: Some(7),
        ..UiState::default()
    };
    let now = 100 * DAY + 50_000;
    let q = to_query(&ui, now);
    assert_eq!(q.kind, Some(Kind::Link));
    assert_eq!(q.source_app_id, Some(7));
    assert_eq!(q.time.since_ms, Some(100 * DAY));
    assert_eq!(q.time.until_ms, None);
}

#[test]
fn any_narrowing_control_counts_as_filtered() {
    let mut ui = UiState::new();
    assert!(!is_filtered(&ui));
    ui.text = "query only".into();
    assert!(!is_filtered(&ui));
    ui.time_filter = TimeFilter::Today;
    assert!(is_filtered(&ui));
    let ui = UiState { type_filter: TypeFilter::Image, ..UiState::default() };
    assert!(is_filtered(&ui));
    let ui = UiState { tag: Some("x".into()), ..UiState::default() };
    assert!(is_filtered(&ui));
}
