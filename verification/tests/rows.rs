use magpie_app::clip::Kind;
use magpie_app::rows::{
    actions, clamped_selection, due_label, filter_actions, first_content_line, kept_selection,
    note_provenance, open_note_id, priority_rank, reminder_notices, row_subtitle, row_view,
    size_text, slot_picker, task_overdue,
};
use magpie_app::tasks::{Priority, Status, Task};

fn task(title: &str, note: &str) -> Task {
    Task {
        note_id: 1,
        note_name: note.into(),
        line_index: 0,
        done: false,
        status: Status::Todo,
        title: title.into(),
        priority: Priority::NoPriority,
        due_ms: None,
        due_time_min: None,
        recur: None,
        bookmarked: false,
        project: None,
        source_app_id: None,
        source_entry_id: None,
    }
}

#[test]
fn title_is_the_first_line_with_content() {
    assert_eq!(
        first_content_line("\n   \n  hello world  \nsecond").as_deref(),
        Some("hello world")
    );
    assert_eq!(first_content_line("  \r\n\t\n"), None);
    assert_eq!(first_content_line(""), None);
    let long = "x".repeat(100);
    assert_eq!(first_content_line(&long).unwrap().chars().count(), 80);
    let accented = "é".repeat(90);
    assert_eq!(first_content_line(&accented).unwrap(), "é".repeat(80));
}

#[test]
fn size_line_by_kind() {
    assert_eq!(size_text(Kind::File, 40, 1).as_deref(), Some("1 file"));
    assert_eq!(size_text(Kind::File, 40, 3).as_deref(), Some("3 files"));
    assert_eq!(size_text(Kind::Text, 1, 1).as_deref(), Some("1 char · 1 line"));
    assert_eq!(size_text(Kind::Link, 12, 2).as_deref(), Some("12 chars · 2 lines"));
    assert_eq!(size_text(Kind::Image, 0, 0), None);
}

#[test]
fn subtitle_adds_tags_when_present() {
    assert_eq!(row_subtitle("Safari", "2m ago", &[]), "Safari · 2m ago");
    let tags = vec!["work".to_string(), "x".to_string()];
    assert_eq!(row_subtitle("—", "now", &tags), "— · now · #work #x");
}

#[test]
fn task_row_fields() {
    assert_eq!(priority_rank(Priority::High), 0);
    assert_eq!(priority_rank(Priority::Medium), 1);
    assert_eq!(priority_rank(Priority::Low), 2);
    assert_eq!(priority_rank(Priority::NoPriority), 3);
    assert!(task_overdue(Some(5), false, 10));
    assert!(!task_overdue(Some(5), true, 10));
    assert!(!task_overdue(Some(10), false, 10));
    assert!(!task_overdue(None, false, 10));
    assert_eq!(due_label(Some(0)), "1970-01-01");
    assert_eq!(due_label(Some(1_000 * 86_400_000)), "1972-09-27");
    assert_eq!(due_label(None), "");
}

#[test]
fn provenance_line() {
    assert_eq!(note_provenance(0, true), "captured · 1970-01-01");
    assert_eq!(note_provenance(86_400_000, false), "created in Magpie · 1970-01-02");
}

#[test]
fn open_note_stays_when_listed() {
    assert_eq!(open_note_id(5, &[3, 5], None), 5);
    assert_eq!(open_note_id(7, &[3, 5], Some(9)), 3);
    assert_eq!(open_note_id(-1, &[], Some(9)), 9);
    assert_eq!(open_note_id(4, &[], None), -1);
}

#[test]
fn reminder_notices_summarize_on_first_pass() {
    let due = vec![task("a", "Inbox"), task("b", "")];
    assert_eq!(
        reminder_notices(&due, true),
        vec![("Magpie".to_string(), "2 tasks due".to_string())]
    );
    assert_eq!(
        reminder_notices(&due, false),
        vec![
            ("Task due".to_string(), "a · Inbox".to_string()),
            ("Task due".to_string(), "b".to_string()),
        ]
    );
    assert_eq!(
        reminder_notices(&due[..1], true),
        vec![("Task due".to_string(), "a · Inbox".to_string())]
    );
    assert!(reminder_notices(&[], true).is_empty());
}

#[test]
fn actions_filter_by_label_case_insensitively() {
    assert_eq!(actions().len(), 10);
    assert_eq!(filter_actions("").len(), 10);
    let ids: Vec<&str> = filter_actions("PASTE").iter().map(|a| a.id).collect();
    assert_eq!(ids, vec!["paste", "keep"]);
    let ids: Vec<&str> = filter_actions("note").iter().map(|a| a.id).collect();
    assert_eq!(ids, vec!["note"]);
    assert!(filter_actions("zzz").is_empty());
}

#[test]
fn masked_rows_hide_pictures_and_text() {
    let tags = vec!["work".to_string()];
    let open = row_view(Kind::Color, "#ff8800", false, 3, "Figma", "now", &tags);
    assert_eq!(open.title, "#ff8800");
    assert_eq!(open.subtitle, "Figma · now · #work");
    assert!(open.thumbnail && open.swatch);
    let masked = row_view(Kind::Color, "#ff8800", true, 3, "Figma", "now", &tags);
    assert_eq!(masked.title, "#ff••••");
    assert!(!masked.thumbnail && !masked.swatch);
    let text = row_view(Kind::Text, "hello", false, 3, "—", "1m ago", &[]);
    assert!(text.thumbnail && !text.swatch);
}

#[test]
fn slot_picker_lists_nine_rows() {
    let filled = vec![(3, "three".to_string()), (1, "one".to_string()), (3, "later".to_string())];
    let p = slot_picker(&filled);
    assert_eq!(p.len(), 9);
    assert_eq!(p[0], (1, "one".to_string(), true));
    assert_eq!(p[1], (2, "Empty".to_string(), false));
    assert_eq!(p[2], (3, "three".to_string(), true));
    assert_eq!(p[8], (9, "Empty".to_string(), false));
}

#[test]
fn selections_stay_in_range() {
    assert_eq!(kept_selection(2, 5), 2);
    assert_eq!(kept_selection(5, 5), 0);
    assert_eq!(kept_selection(-1, 5), 0);
    assert_eq!(clamped_selection(7, 3), 2);
    assert_eq!(clamped_selection(1, 3), 1);
    assert_eq!(clamped_selection(0, 0), 0);
}
