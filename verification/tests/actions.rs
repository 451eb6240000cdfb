use magpie_app::note::Note;
use magpie_app::task_actions::{all_tasks, toggle_task_body};
use magpie_app::unified_search::unified_search;

fn note(id: i64, name: &str, body: &str) -> Note {
    Note {
        id,
        name: name.into(),
        is_daily: false,
        body: body.into(),
        created_at_ms: 0,
        updated_at_ms: 0,
        source_app_id: None,
        source_entry_id: None,
    }
}

#[test]
fn searches_all_surfaces() {
    let notes = vec![note(7, "Prod Incidents", "- [ ] fix the incident runbook")];
    // The store's bookmark search hands back matching rows as (url, title, domain).
    let rows = vec![(
        "https://status.example.com".to_string(),
        "Incident status page".to_string(),
        "status.example.com".to_string(),
    )];
    let r = unified_search(&notes, &rows, "incident", 100, 10);
    assert_eq!(r.notes.len(), 1);
    assert_eq!(r.notes[0].0, 7);
    assert_eq!(r.tasks.len(), 1);
    assert!(r.tasks[0].1.to_lowercase().contains("incident"));
    assert_eq!(r.bookmarks.len(), 1);
    assert_eq!(r.bookmarks[0].0, "https://status.example.com");
    // empty query → nothing
    let empty = unified_search(&notes, &rows, "  ", 100, 10);
    assert!(empty.notes.is_empty() && empty.tasks.is_empty() && empty.bookmarks.is_empty());
    // no match → empty
    assert!(unified_search(&notes, &[], "zzzznope", 100, 10).notes.is_empty());
}

#[test]
fn search_caps_and_titles() {
    let notes = vec![
        note(1, "Note 1", "\n  alpha one\n- [ ] alpha task"),
        note(2, "alpha", "x"),
        note(3, "beta", "ALPHA in body"),
    ];
    let rows = vec![("https://a".to_string(), "".to_string(), "a.example".to_string())];
    let r = unified_search(&notes, &rows, " Alpha ", 0, 2);
    assert_eq!(r.notes, vec![(1, "alpha one".to_string()), (2, "alpha".to_string())]);
    assert_eq!(r.tasks, vec![(1, "alpha task".to_string())]);
    assert_eq!(r.bookmarks, vec![("https://a".to_string(), "a.example".to_string())]);
}

#[test]
fn all_tasks_concatenates_notes() {
    let notes = vec![note(1, "a", "- [ ] one\n- [x] two"), note(2, "b", "text\n- [ ] three")];
    let ts = all_tasks(&notes, 0);
    let got: Vec<(i64, &str)> = ts.iter().map(|t| (t.note_id, t.title.as_str())).collect();
    assert_eq!(got, vec![(1, "one"), (1, "two"), (2, "three")]);
}

#[test]
fn toggling_a_recurring_task_reschedules_it() {
    const DAY_MS: i64 = 86_400_000;
    let now = magpie_app::format_time::days_from_civil(2026, 1, 20) * DAY_MS;
    let body = "intro\n- [ ] water plants @2026-01-01 +1w";
    assert_eq!(
        toggle_task_body(body, 1, now),
        "intro\n- [ ] water plants @2026-01-22 +1w"
    );
    assert_eq!(toggle_task_body("- [ ] once", 0, now), "- [x] once");
    assert_eq!(toggle_task_body("plain", 0, now), "plain");
}
