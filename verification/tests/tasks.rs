use magpie_app::format_time::days_from_civil;
use magpie_app::note::Note;
use magpie_app::tasks::{
    add_recur, append_task_line, board_columns, duration_hm, group_sort, log_clock,
    next_occurrence, parse_recur, parse_tasks_in, partition_due, promote_line, reschedule_line,
    set_line_status, toggle_bookmark_line, toggle_line, BoardFilter, GroupBy, Priority, Recur,
    RecurUnit, SortBy, Status, Task,
};

fn note(body: &str) -> Note {
    Note {
        id: 1,
        name: "Daily".into(),
        is_daily: true,
        body: body.into(),
        created_at_ms: 0,
        updated_at_ms: 0,
        source_app_id: Some(7),
        source_entry_id: None,
    }
}

fn plain_note(body: &str) -> Note {
    Note {
        id: 1,
        name: "n".into(),
        is_daily: false,
        body: body.into(),
        created_at_ms: 0,
        updated_at_ms: 0,
        source_app_id: None,
        source_entry_id: None,
    }
}

#[test]
fn parses_checkbox_priority_due_project_and_title() {
    const DAY: i64 = 86_400_000;
    let now = 20_000 * DAY;
    let n = note("intro\n- [ ] Fix mount !high @tomorrow #prod now\n- [x] done thing\nplain");
    let ts = parse_tasks_in(&n, now);
    assert_eq!(ts.len(), 2);
    assert_eq!(ts[0].title, "Fix mount now");
    assert_eq!(ts[0].priority, Priority::High);
    assert_eq!(ts[0].due_ms, Some(20_001 * DAY));
    assert_eq!(ts[0].project.as_deref(), Some("prod"));
    assert!(!ts[0].done);
    assert_eq!(ts[0].line_index, 1);
    assert_eq!(ts[0].source_app_id, Some(7));
    assert!(ts[1].done && ts[1].title == "done thing");
}

#[test]
fn parses_doing_status_alongside_todo_and_done() {
    let n = note("- [ ] a\n- [/] b\n- [x] c");
    let ts = parse_tasks_in(&n, 0);
    assert_eq!(ts.len(), 3);
    assert_eq!(
        ts.iter().map(|t| t.status).collect::<Vec<_>>(),
        vec![Status::Todo, Status::Doing, Status::Done]
    );
    assert_eq!(
        ts.iter().map(|t| t.done).collect::<Vec<_>>(),
        vec![false, false, true]
    );
    assert_eq!(ts[1].title, "b");
}

#[test]
fn doing_marker_title_strips_priority_and_project() {
    let n = note("- [/] Fix mount !high #prod");
    let ts = parse_tasks_in(&n, 0);
    assert_eq!(ts[0].status, Status::Doing);
    assert_eq!(ts[0].title, "Fix mount");
    assert_eq!(ts[0].priority, Priority::High);
    assert_eq!(ts[0].project.as_deref(), Some("prod"));
}

#[test]
fn promote_and_toggle_lines() {
    let body = "note title\nfix the bug\ndone already";
    // cursor somewhere in "fix the bug" (line 1)
    let cb = body.find("fix").unwrap() + 1;
    let promoted = promote_line(body, cb);
    assert!(promoted.contains("- [ ] fix the bug"));
    assert_eq!(promote_line(&promoted, cb), promoted); // no double-add
    // toggle that now-task line (index 1)
    let toggled = toggle_line(&promoted, 1);
    assert!(toggled.contains("- [x] fix the bug"));
    assert!(toggle_line(&toggled, 1).contains("- [ ] fix the bug"));
    assert_eq!(toggle_line(body, 0), body); // non-task line: no-op
}

#[test]
fn toggle_line_completes_a_doing_task() {
    let body = "- [/] in progress";
    assert_eq!(toggle_line(body, 0), "- [x] in progress");
}

#[test]
fn set_line_status_swaps_marker_and_preserves_rest() {
    assert_eq!(set_line_status("- [ ] a", 0, Status::Doing), "- [/] a");
    assert_eq!(set_line_status("  - [ ] x", 0, Status::Doing), "  - [/] x");
    assert_eq!(
        set_line_status("- [ ] a !high #proj", 0, Status::Doing),
        "- [/] a !high #proj"
    );
    assert_eq!(set_line_status("- [/] a", 0, Status::Done), "- [x] a");
    assert_eq!(set_line_status("- [x] a", 0, Status::Todo), "- [ ] a");
    assert_eq!(
        set_line_status("plain line", 0, Status::Doing),
        "plain line"
    );
}

#[test]
fn append_task_line_adds_checkbox() {
    assert_eq!(append_task_line("", "buy milk"), "- [ ] buy milk");
    assert_eq!(append_task_line("note", "buy milk"), "note\n- [ ] buy milk");
    assert_eq!(
        append_task_line("note\n", "  buy milk "),
        "note\n- [ ] buy milk"
    );
    assert_eq!(append_task_line("note", "   "), "note"); // empty text: no-op
}

fn mk(title: &str, done: bool, due: Option<i64>, p: Priority, proj: Option<&str>) -> Task {
    Task {
        note_id: 1,
        note_name: "n".into(),
        line_index: 0,
        done,
        status: if done { Status::Done } else { Status::Todo },
        title: title.into(),
        priority: p,
        due_ms: due,
        due_time_min: None,
        recur: None,
        bookmarked: false,
        project: proj.map(|s| s.into()),
        source_app_id: None,
        source_entry_id: None,
    }
}

#[test]
fn group_sort_orders_open_due_priority() {
    let tasks = vec![
        mk("done", true, None, Priority::High, Some("a")),
        mk("later", false, Some(200), Priority::Low, Some("a")),
        mk("soon", false, Some(100), Priority::Low, Some("a")),
        mk("noproj", false, None, Priority::High, None),
    ];
    let g = group_sort(tasks);
    // "a" group first, "No project" last
    assert_eq!(g[0].project, "a");
    assert_eq!(g.last().unwrap().project, "No project");
    // within "a": open before done, due asc
    let titles: Vec<&str> = g[0].tasks.iter().map(|t| t.title.as_str()).collect();
    assert_eq!(titles, vec!["soon", "later", "done"]);
}

/// Full-field `Task` builder for board-column tests.
fn bt(title: &str, status: Status, priority: Priority, due: Option<i64>, project: Option<&str>) -> Task {
    Task {
        note_id: 1,
        note_name: "n".into(),
        line_index: 0,
        done: status == Status::Done,
        status,
        title: title.into(),
        priority,
        due_ms: due,
        due_time_min: None,
        recur: None,
        bookmarked: false,
        project: project.map(String::from),
        source_app_id: None,
        source_entry_id: None,
    }
}

#[test]
fn board_columns_group_by_status_three_columns_in_order_incl_empty() {
    let tasks = vec![
        bt("a", Status::Todo, Priority::NoPriority, None, None),
        bt("b", Status::Done, Priority::NoPriority, None, None),
    ];
    let cols = board_columns(tasks, GroupBy::Status, SortBy::Due, &BoardFilter::default());
    assert_eq!(cols.len(), 3);
    assert_eq!(cols[0].title, "To do");
    assert_eq!(cols[1].title, "Doing");
    assert_eq!(cols[2].title, "Done");
    assert_eq!(cols[0].tasks.len(), 1);
    assert!(cols[1].tasks.is_empty()); // empty column retained
    assert_eq!(cols[2].tasks.len(), 1);
}

#[test]
fn board_columns_hide_done_removes_done_tasks() {
    let tasks = vec![
        bt("a", Status::Todo, Priority::NoPriority, None, None),
        bt("b", Status::Done, Priority::NoPriority, None, None),
    ];
    let filter = BoardFilter {
        hide_done: true,
        ..Default::default()
    };
    let cols = board_columns(tasks, GroupBy::Status, SortBy::Due, &filter);
    let total: usize = cols.iter().map(|c| c.tasks.len()).sum();
    assert_eq!(total, 1);
    assert!(cols[2].tasks.is_empty());
}

#[test]
fn board_columns_project_filter_keeps_only_that_project() {
    let tasks = vec![
        bt("a", Status::Todo, Priority::NoPriority, None, Some("work")),
        bt("b", Status::Todo, Priority::NoPriority, None, Some("home")),
        bt("c", Status::Todo, Priority::NoPriority, None, None),
    ];
    let filter = BoardFilter {
        project: Some("work".to_string()),
        ..Default::default()
    };
    let cols = board_columns(tasks, GroupBy::Project, SortBy::Due, &filter);
    let titles: Vec<&str> = cols
        .iter()
        .flat_map(|c| c.tasks.iter())
        .map(|t| t.title.as_str())
        .collect();
    assert_eq!(titles, vec!["a"]);
}

#[test]
fn board_columns_project_filter_no_project_matches_projectless_tasks() {
    let tasks = vec![
        bt("a", Status::Todo, Priority::NoPriority, None, Some("work")),
        bt("b", Status::Todo, Priority::NoPriority, None, None),
    ];
    let filter = BoardFilter {
        project: Some("No project".to_string()),
        ..Default::default()
    };
    let cols = board_columns(tasks, GroupBy::Project, SortBy::Due, &filter);
    let titles: Vec<&str> = cols
        .iter()
        .flat_map(|c| c.tasks.iter())
        .map(|t| t.title.as_str())
        .collect();
    assert_eq!(titles, vec!["b"]);
}

#[test]
fn board_columns_query_filters_title_case_insensitively() {
    let tasks = vec![
        bt("Fix mount", Status::Todo, Priority::NoPriority, None, None),
        bt("Buy milk", Status::Todo, Priority::NoPriority, None, None),
    ];
    let filter = BoardFilter {
        query: "FIX".to_string(),
        ..Default::default()
    };
    let cols = board_columns(tasks, GroupBy::Status, SortBy::Due, &filter);
    let titles: Vec<&str> = cols
        .iter()
        .flat_map(|c| c.tasks.iter())
        .map(|t| t.title.as_str())
        .collect();
    assert_eq!(titles, vec!["Fix mount"]);
}

#[test]
fn board_columns_sort_by_due_orders_scheduled_before_unscheduled() {
    let tasks = vec![
        bt("no due", Status::Todo, Priority::NoPriority, None, None),
        bt("due", Status::Todo, Priority::NoPriority, Some(100), None),
    ];
    let cols = board_columns(tasks, GroupBy::Status, SortBy::Due, &BoardFilter::default());
    let titles: Vec<&str> = cols[0].tasks.iter().map(|t| t.title.as_str()).collect();
    assert_eq!(titles, vec!["due", "no due"]);
}

#[test]
fn board_columns_group_by_priority_four_named_columns() {
    let tasks = vec![
        bt("h", Status::Todo, Priority::High, None, None),
        bt("m", Status::Todo, Priority::Medium, None, None),
        bt("l", Status::Todo, Priority::Low, None, None),
        bt("n", Status::Todo, Priority::NoPriority, None, None),
    ];
    let cols = board_columns(tasks, GroupBy::Priority, SortBy::Due, &BoardFilter::default());
    let titles: Vec<&str> = cols.iter().map(|c| c.title.as_str()).collect();
    assert_eq!(titles, vec!["High", "Medium", "Low", "No priority"]);
    assert_eq!(cols[0].tasks[0].title, "h");
    assert_eq!(cols[1].tasks[0].title, "m");
    assert_eq!(cols[2].tasks[0].title, "l");
    assert_eq!(cols[3].tasks[0].title, "n");
}

#[test]
fn partition_due_splits_overdue_and_today() {
    const DAY: i64 = 86_400_000;
    let today = 20_000 * DAY;
    let mk = |due: Option<i64>, done: bool, pri: Priority| Task {
        note_id: 1,
        note_name: "n".into(),
        line_index: 0,
        done,
        status: if done { Status::Done } else { Status::Todo },
        title: "t".into(),
        priority: pri,
        due_ms: due,
        due_time_min: None,
        recur: None,
        bookmarked: false,
        project: None,
        source_app_id: None,
        source_entry_id: None,
    };
    let tasks = vec![
        mk(Some(today - DAY), false, Priority::NoPriority), // overdue
        mk(Some(today), false, Priority::NoPriority),       // today
        mk(Some(today + DAY), false, Priority::NoPriority), // later → dropped
        mk(None, false, Priority::NoPriority),              // no due → dropped
        mk(Some(today), true, Priority::NoPriority),        // done → dropped
    ];
    let b = partition_due(tasks, today);
    assert_eq!(b.overdue.len(), 1);
    assert_eq!(b.overdue[0].due_ms, Some(today - DAY));
    assert_eq!(b.today.len(), 1);
    assert_eq!(b.today[0].due_ms, Some(today));
}

#[test]
fn parses_due_with_time_and_leaves_bare_number() {
    let n = plain_note("- [ ] ship it @today 14:00\n- [ ] count to @today 5");
    let ts = parse_tasks_in(&n, 0);
    assert_eq!(ts[0].title, "ship it");
    assert_eq!(ts[0].due_time_min, Some(840));
    assert!(ts[0].due_ms.is_some());
    assert_eq!(ts[1].title, "count to 5");
    assert_eq!(ts[1].due_time_min, None);
}

#[test]
fn parse_recur_units_and_rejects() {
    assert_eq!(parse_recur("+1d"), Some(Recur { n: 1, unit: RecurUnit::Day }));
    assert_eq!(parse_recur("+2w"), Some(Recur { n: 2, unit: RecurUnit::Week }));
    assert_eq!(parse_recur("+1mo"), Some(Recur { n: 1, unit: RecurUnit::Month }));
    assert_eq!(parse_recur("+3y"), Some(Recur { n: 3, unit: RecurUnit::Year }));
    assert_eq!(parse_recur("+1"), None);
    assert_eq!(parse_recur("+0d"), None);
    assert_eq!(parse_recur("+xw"), None);
    assert_eq!(parse_recur("1w"), None);
}

#[test]
fn add_recur_clamps_month_and_year() {
    let jan31 = days_from_civil(2026, 1, 31);
    assert_eq!(
        add_recur(jan31, Recur { n: 1, unit: RecurUnit::Month }),
        days_from_civil(2026, 2, 28)
    );
    let feb29 = days_from_civil(2024, 2, 29);
    assert_eq!(
        add_recur(feb29, Recur { n: 1, unit: RecurUnit::Year }),
        days_from_civil(2025, 2, 28)
    );
    let d = days_from_civil(2026, 3, 1);
    assert_eq!(add_recur(d, Recur { n: 2, unit: RecurUnit::Week }), d + 14);
}

#[test]
fn next_occurrence_skips_past_today() {
    let due = days_from_civil(2026, 1, 1);
    let today = days_from_civil(2026, 1, 20);
    assert_eq!(
        next_occurrence(due, Recur { n: 1, unit: RecurUnit::Week }, today),
        days_from_civil(2026, 1, 22)
    );
}

#[test]
fn parse_tasks_in_reads_recur_and_cleans_title() {
    let n = plain_note("- [ ] water plants @today +1w");
    let t = &parse_tasks_in(&n, 0)[0];
    assert_eq!(t.title, "water plants");
    assert_eq!(t.recur, Some(Recur { n: 1, unit: RecurUnit::Week }));
}

#[test]
fn reschedule_bumps_due_and_keeps_open() {
    const DAY_MS: i64 = 86_400_000;
    let now = days_from_civil(2026, 1, 20) * DAY_MS;
    let out = reschedule_line("- [ ] water plants @2026-01-01 +1w", now).unwrap();
    assert_eq!(out, "- [ ] water plants @2026-01-22 +1w");
    assert!(reschedule_line("- [ ] plain @2026-01-01", now).is_none());
    assert!(reschedule_line("- [x] done @2026-01-01 +1w", now).is_none());
    assert!(reschedule_line("- [ ] no due +1w", now).is_none());
}

#[test]
fn parses_and_toggles_bookmark() {
    let n = plain_note("- [ ] buy milk *\n- [ ] plain");
    let ts = parse_tasks_in(&n, 0);
    assert!(ts[0].bookmarked);
    assert_eq!(ts[0].title, "buy milk");
    assert!(!ts[1].bookmarked);
    let off = toggle_bookmark_line(&n.body, 0);
    assert_eq!(off.lines().next().unwrap(), "- [ ] buy milk");
    let on = toggle_bookmark_line(&off, 0);
    assert_eq!(on.lines().next().unwrap(), "- [ ] buy milk *");
    assert_eq!(toggle_bookmark_line("hello", 0), "hello");
}

#[test]
fn log_clock_creates_new_drawer() {
    const DAY_MS: i64 = 86_400_000;
    let day = days_from_civil(2026, 1, 20) * DAY_MS;
    let start = day + 9 * 3_600_000; // 09:00
    let end = start + 90 * 60_000; // +90m -> 10:30
    let body = "- [ ] Ship it";
    let new = log_clock(body, "Ship it", start, end, 0);
    assert_eq!(
        new,
        "- [ ] Ship it\n  :LOGBOOK:\n  CLOCK: [2026-01-20 09:00]--[2026-01-20 10:30] => 1:30\n  :END:"
    );
}

#[test]
fn log_clock_appends_to_existing_drawer() {
    const DAY_MS: i64 = 86_400_000;
    let day = days_from_civil(2026, 1, 20) * DAY_MS;
    let start = day + 9 * 3_600_000;
    let end = start + 30 * 60_000; // 0:30
    let body = "- [ ] Ship it\n  :LOGBOOK:\n  CLOCK: [2026-01-19 09:00]--[2026-01-19 10:00] => 1:00\n  :END:";
    let new = log_clock(body, "Ship it", start, end, 0);
    let lines: Vec<&str> = new.lines().collect();
    assert_eq!(lines[0], "- [ ] Ship it");
    assert_eq!(lines[1], "  :LOGBOOK:");
    assert_eq!(lines[2], "  CLOCK: [2026-01-20 09:00]--[2026-01-20 09:30] => 0:30");
    assert_eq!(lines[3], "  CLOCK: [2026-01-19 09:00]--[2026-01-19 10:00] => 1:00");
    assert_eq!(lines[4], "  :END:");
    assert_eq!(lines.len(), 5);
    // no duplicate :END:
    assert_eq!(new.matches(":END:").count(), 1);
}

#[test]
fn log_clock_no_matching_title_is_noop() {
    let body = "- [ ] Ship it";
    let new = log_clock(body, "Nope", 0, 1, 0);
    assert_eq!(new, body);
}

#[test]
fn duration_hm_formats() {
    assert_eq!(duration_hm(90 * 60_000), "1:30");
    assert_eq!(duration_hm(5 * 60_000), "0:05");
    assert_eq!(duration_hm(125 * 60_000), "2:05");
    assert_eq!(duration_hm(-1000), "0:00");
}

#[test]
fn log_clock_preserves_indentation() {
    const DAY_MS: i64 = 86_400_000;
    let day = days_from_civil(2026, 1, 20) * DAY_MS;
    let start = day;
    let end = start + 5 * 60_000;
    let body = "- [ ] Parent\n  - [ ] Nested";
    let new = log_clock(body, "Nested", start, end, 0);
    let lines: Vec<&str> = new.lines().collect();
    assert_eq!(lines[0], "- [ ] Parent");
    assert_eq!(lines[1], "  - [ ] Nested");
    assert_eq!(lines[2], "    :LOGBOOK:");
    assert_eq!(lines[3], "    CLOCK: [2026-01-20 00:00]--[2026-01-20 00:05] => 0:05");
    assert_eq!(lines[4], "    :END:");
}

#[test]
fn toggle_twice_restores_an_open_line() {
    let body = "intro\n  - [ ] call bob !low\nend";
    let once = toggle_line(body, 1);
    assert_eq!(once, "intro\n  - [x] call bob !low\nend");
    assert_eq!(toggle_line(&once, 1), body);
}

#[test]
fn out_of_range_line_index_is_a_noop() {
    assert_eq!(toggle_line("- [ ] a", 3), "- [ ] a");
    assert_eq!(set_line_status("- [ ] a", 9, Status::Done), "- [ ] a");
    assert_eq!(toggle_bookmark_line("- [ ] a", 2), "- [ ] a");
}

#[test]
fn add_recur_days_and_month_end_of_year() {
    let d = days_from_civil(2025, 12, 31);
    assert_eq!(add_recur(d, Recur { n: 3, unit: RecurUnit::Day }), d + 3);
    assert_eq!(
        add_recur(d, Recur { n: 2, unit: RecurUnit::Month }),
        days_from_civil(2026, 2, 28)
    );
}

#[test]
fn bookmark_toggled_twice_restores_a_plain_task_line() {
    let body = "# list\n  - [ ] buy milk\n- [x] done";
    let on = magpie_app::tasks::toggle_bookmark_line(body, 1);
    assert_eq!(on, "# list\n  - [ ] buy milk *\n- [x] done");
    assert_eq!(magpie_app::tasks::toggle_bookmark_line(&on, 1), body);
    // A bare marker becomes a marker with a title of "*" and back.
    let bare = "- [ ]";
    let on = magpie_app::tasks::toggle_bookmark_line(bare, 0);
    assert_eq!(on, "- [ ] *");
    assert_eq!(magpie_app::tasks::toggle_bookmark_line(&on, 0), bare);
}

#[test]
fn promote_twice_adds_the_marker_once() {
    let body = "a\n  plan the trip\nb";
    let cb = body.find("trip").unwrap();
    let once = magpie_app::tasks::promote_line(body, cb);
    assert_eq!(once, "a\n  - [ ] plan the trip\nb");
    assert_eq!(magpie_app::tasks::promote_line(&once, cb), once);
    let end = magpie_app::tasks::promote_line("tail", 99);
    assert_eq!(end, "- [ ] tail");
    assert_eq!(magpie_app::tasks::promote_line(&end, 99), end);
}

#[test]
fn log_clock_only_inserts_after_the_titled_task() {
    let day = days_from_civil(2026, 1, 20) * 86_400_000;
    let start = day + 9 * 3_600_000;
    let end = start + 15 * 60_000;
    let body = "intro\n    - [ ] Other\n    - [ ] Ship it\ntail";
    let new = log_clock(body, "Ship it", start, end, 0);
    let lines: Vec<&str> = new.split('\n').collect();
    assert_eq!(
        lines,
        vec![
            "intro",
            "    - [ ] Other",
            "    - [ ] Ship it",
            "      :LOGBOOK:",
            "      CLOCK: [2026-01-20 09:00]--[2026-01-20 09:15] => 0:15",
            "      :END:",
            "tail",
        ]
    );
    assert_eq!(log_clock(body, "Missing", start, end, 0), body);
}

#[test]
fn group_sort_hands_back_every_task_once() {
    let tasks = vec![
        mk("b1", false, None, Priority::Low, Some("b")),
        mk("n1", false, None, Priority::High, None),
        mk("a1", true, Some(5), Priority::Medium, Some("a")),
        mk("b2", false, Some(1), Priority::High, Some("b")),
        mk("a2", false, None, Priority::Low, Some("a")),
    ];
    let g = group_sort(tasks);
    let projects: Vec<&str> = g.iter().map(|x| x.project.as_str()).collect();
    assert_eq!(projects, vec!["a", "b", "No project"]);
    let mut seen: Vec<String> = Vec::new();
    for grp in &g {
        assert!(!grp.tasks.is_empty());
        for t in &grp.tasks {
            assert_eq!(t.project.as_deref().unwrap_or("No project"), grp.project);
            seen.push(t.title.clone());
        }
    }
    seen.sort();
    assert_eq!(seen, vec!["a1", "a2", "b1", "b2", "n1"]);
}

#[test]
fn parse_tasks_in_finds_every_task_line_in_order() {
    let n = note("intro\n  - [/] a\nnot - [ ] b\n- [X] c\n\t- [ ] d");
    let ts = parse_tasks_in(&n, 0);
    let idx: Vec<usize> = ts.iter().map(|t| t.line_index).collect();
    assert_eq!(idx, vec![1, 3, 4]);
    assert_eq!(ts[0].status, Status::Doing);
    assert!(!ts[0].done);
    assert_eq!(ts[1].status, Status::Done);
    assert!(ts[1].done);
    assert_eq!(ts[2].status, Status::Todo);
    for t in &ts {
        assert_eq!(t.note_id, 1);
        assert_eq!(t.source_app_id, Some(7));
    }
}

#[test]
fn board_columns_show_each_kept_task_once_in_every_grouping() {
    let tasks = vec![
        bt("Alpha report", Status::Todo, Priority::High, Some(3), Some("work")),
        bt("beta", Status::Done, Priority::Low, None, None),
        bt("Gamma REPORT", Status::Doing, Priority::NoPriority, Some(1), Some("home")),
        bt("delta", Status::Todo, Priority::Medium, None, Some("work")),
    ];
    let filter = BoardFilter {
        query: "report".to_string(),
        ..Default::default()
    };
    for g in [GroupBy::Status, GroupBy::Priority, GroupBy::Project] {
        let cols = board_columns(tasks.clone(), g, SortBy::Due, &filter);
        let mut titles: Vec<String> =
            cols.iter().flat_map(|c| c.tasks.iter().map(|t| t.title.clone())).collect();
        titles.sort();
        assert_eq!(titles, vec!["Alpha report".to_string(), "Gamma REPORT".to_string()]);
    }
}

#[test]
fn reschedule_line_lands_after_today() {
    let now = days_from_civil(2026, 3, 15) * 86_400_000 + 3_600_000;
    let out = reschedule_line("  - [/] pay rent @2026-01-31 +1mo !high", now).unwrap();
    assert_eq!(out, "  - [/] pay rent @2026-03-28 +1mo !high");
    let same_day = reschedule_line("- [ ] stretch @2026-03-14 +1d", now).unwrap();
    assert_eq!(same_day, "- [ ] stretch @2026-03-16 +1d");
}
