use magpie_app::config::{default_mask_visible_chars, default_true, migrate_theme, Config};
use magpie_app::diagnostics::{
    alert_allowed, as_applescript_str, crash_log_text, is_crash_loop, parse_crash_times,
    prev_exit_of, record_and_check_loop, record_crash, PrevExit, CRASH_THRESHOLD,
    CRASH_WINDOW_MS,
};
use magpie_app::external_editor::{
    command_bin, env_editor, is_terminal_editor, temp_file_name, terminal_argv,
    terminal_candidates,
};
use magpie_app::favicon::{domain_of, favicon_cache_path};
use magpie_app::reminders::{due_before, fingerprint, parse_offset, reminder_instant_ms};
use magpie_app::tasks::{Priority, Status, Task};

const DAY: i64 = 86_400_000;

fn task(due: Option<i64>, time: Option<i64>, done: bool, title: &str) -> Task {
    Task {
        note_id: 1,
        note_name: "n".into(),
        line_index: 0,
        done,
        status: if done { Status::Done } else { Status::Todo },
        title: title.into(),
        priority: Priority::NoPriority,
        due_ms: due,
        due_time_min: time,
        recur: None,
        bookmarked: false,
        project: None,
        source_app_id: None,
        source_entry_id: None,
    }
}

#[test]
fn instant_applies_offset_and_default() {
    let day = 20_000 * DAY;
    assert_eq!(
        reminder_instant_ms(day, Some(840), 7200, 540),
        day - 7200 * 1000 + 840 * 60_000
    );
    assert_eq!(reminder_instant_ms(day, None, 0, 540), day + 540 * 60_000);
}

#[test]
fn due_before_filters_and_sorts() {
    let day = 20_000 * DAY;
    let now = day + 12 * 3_600_000;
    let ripe = due_before(
        vec![
            task(Some(day), Some(600), false, "ten"),
            task(Some(day), Some(540), false, "nine"),
            task(Some(day), Some(23 * 60), false, "late"),
            task(Some(day), Some(600), true, "done"),
            task(None, None, false, "nodate"),
        ],
        now,
        0,
        540,
    );
    let titles: Vec<&str> = ripe.iter().map(|t| t.title.as_str()).collect();
    assert_eq!(titles, vec!["nine", "ten"]);
}

#[test]
fn due_before_keeps_input_order_for_equal_instants() {
    let day = 20_000 * DAY;
    let ripe = due_before(
        vec![
            task(Some(day), None, false, "a"),
            task(Some(day), Some(540), false, "b"),
            task(Some(day), Some(60), false, "c"),
        ],
        day + 10 * 3_600_000,
        0,
        540,
    );
    let titles: Vec<&str> = ripe.iter().map(|t| t.title.as_str()).collect();
    assert_eq!(titles, vec!["c", "a", "b"]);
}

#[test]
fn fingerprint_is_stable_and_distinct() {
    let a = task(Some(100), Some(540), false, "x");
    let mut b = a.clone();
    b.line_index = 9;
    assert_eq!(fingerprint(&a), fingerprint(&b));
    let mut c = a.clone();
    c.due_time_min = Some(600);
    assert_ne!(fingerprint(&a), fingerprint(&c));
}

#[test]
fn fingerprint_text_shape() {
    assert_eq!(fingerprint(&task(Some(100), Some(540), false, "x")), "1|x|100|540");
    assert_eq!(fingerprint(&task(None, None, false, "y")), "1|y|0|-1");
}

#[test]
fn parse_offset_variants() {
    assert_eq!(parse_offset("+0200"), Some(7200));
    assert_eq!(parse_offset("-0500"), Some(-18000));
    assert_eq!(parse_offset("+0530"), Some(19800));
    assert_eq!(parse_offset("junk"), None);
    assert_eq!(parse_offset(""), None);
}

#[test]
fn parse_offset_trims_and_rejects_bad_fields() {
    assert_eq!(parse_offset("  +0100\n"), Some(3600));
    assert_eq!(parse_offset("0100+"), None);
    assert_eq!(parse_offset("+01x0"), None);
    assert_eq!(parse_offset("+é100"), None);
}

#[test]
fn crash_loop_detection() {
    // 3 crashes within 60s at now=100_000 → loop; spread out → not.
    let tight = [70_000_i64, 80_000, 95_000];
    assert!(is_crash_loop(&tight, 100_000, CRASH_WINDOW_MS, CRASH_THRESHOLD));
    let sparse = [1_000_i64, 40_000, 95_000];
    assert!(!is_crash_loop(&sparse, 100_000, CRASH_WINDOW_MS, CRASH_THRESHOLD));
}

#[test]
fn record_crash_keeps_last_ten() {
    let mut times: Vec<i64> = Vec::new();
    for i in 0..15 {
        times = record_crash(&times, i);
        times = parse_crash_times(&crash_log_text(&times));
    }
    assert_eq!(times.len(), 10);
    assert_eq!(times.first().copied(), Some(5)); // oldest kept is the 6th (index 5)
    assert_eq!(times.last().copied(), Some(14));
}

#[test]
fn crash_log_text_round_trips() {
    let t = vec![-5, 0, 1_700_000_000_000, i64::MAX, i64::MIN];
    assert_eq!(crash_log_text(&t), format!("-5\n0\n1700000000000\n{}\n{}", i64::MAX, i64::MIN));
    assert_eq!(parse_crash_times(&crash_log_text(&t)), t);
    assert_eq!(parse_crash_times(" 12 \nbogus\n\n7"), vec![12, 7]);
}

#[test]
fn record_and_check_reports_a_loop() {
    let (kept, looping) = record_and_check_loop(&vec![70_000, 80_000], 95_000);
    assert_eq!(kept, vec![70_000, 80_000, 95_000]);
    assert!(looping);
    let (_, calm) = record_and_check_loop(&vec![1_000], 95_000);
    assert!(!calm);
}

#[test]
fn prev_exit_states() {
    assert_eq!(prev_exit_of(None), PrevExit::FirstRun);
    assert_eq!(prev_exit_of(Some("running")), PrevExit::Crashed);
    assert_eq!(prev_exit_of(Some("clean\n")), PrevExit::Clean);
}

#[test]
fn alert_gate_rate_limits() {
    assert_eq!(alert_allowed(100_000, 0), (true, 100_000));
    assert_eq!(alert_allowed(110_000, 100_000), (false, 100_000));
    assert_eq!(alert_allowed(130_000, 100_000), (true, 130_000));
}

#[test]
fn applescript_strings_are_quoted_and_escaped() {
    assert_eq!(as_applescript_str(r#"say "hi" \ now"#), r#""say \"hi\" \\ now""#);
}

#[test]
fn detects_terminal_vs_gui_editors() {
    assert!(is_terminal_editor("nvim"));
    assert!(is_terminal_editor("vim"));
    assert!(is_terminal_editor("nano"));
    assert!(is_terminal_editor("emacsclient -t -a ''"));
    assert!(is_terminal_editor("emacs -nw"));
    assert!(is_terminal_editor("/opt/homebrew/bin/hx"));
    assert!(!is_terminal_editor("code"));
    assert!(!is_terminal_editor("code -n -w"));
    assert!(!is_terminal_editor("zed"));
    assert!(!is_terminal_editor("/usr/local/bin/subl -w"));
}

#[test]
fn terminal_argv_styles() {
    assert_eq!(
        terminal_argv("ghostty", "ghostty", "nvim \"/tmp/x.txt\""),
        vec!["ghostty", "-e", "sh", "-lc", "nvim \"/tmp/x.txt\""]
    );
    assert_eq!(terminal_argv("kitty", "kitty", "vim f")[1], "sh");
    assert_eq!(terminal_argv("wezterm", "wezterm", "vim f")[1], "start");
}

#[test]
fn command_bin_is_basename_of_first_token() {
    assert_eq!(command_bin("/usr/bin/nvim -p"), "nvim");
    assert_eq!(command_bin("  code -w"), "code");
    assert_eq!(command_bin(""), "");
}

#[test]
fn terminal_candidates_prefer_env() {
    assert_eq!(
        terminal_candidates(Some("/opt/term"), Some("WezTerm")),
        vec!["/opt/term", "wezterm", "ghostty", "kitty", "wezterm", "alacritty"]
    );
    assert_eq!(
        terminal_candidates(Some(""), Some("Apple_Terminal")),
        vec!["ghostty", "kitty", "wezterm", "alacritty"]
    );
}

#[test]
fn editor_from_env_prefers_visual() {
    assert_eq!(env_editor(Some(" hx "), Some("vim")), Some("hx".to_string()));
    assert_eq!(env_editor(Some("  "), Some("vim")), Some("vim".to_string()));
    assert_eq!(env_editor(None, None), None);
}

#[test]
fn temp_path_is_sanitized_txt() {
    let name = temp_file_name("abc/../def 123!");
    assert_eq!(name, "magpie-abcdef123.txt");
    assert!(!name.contains('/') && !name.contains(' '));
}

#[test]
fn empty_key_falls_back() {
    assert_eq!(temp_file_name(""), "magpie-clip.txt");
    assert_eq!(temp_file_name(&"a".repeat(40)), format!("magpie-{}.txt", "a".repeat(24)));
}

#[test]
fn domain_parsing() {
    assert_eq!(domain_of("https://github.com/a/b?x=1"), Some("github.com".into()));
    assert_eq!(domain_of("http://Example.COM:8080/x"), Some("example.com".into()));
    assert_eq!(domain_of("not a url"), None);
    assert_eq!(domain_of("https://localhost/x"), None); // no dot
}

#[test]
fn domain_drops_userinfo_and_fragment() {
    assert_eq!(domain_of("https://me@site.org#top"), Some("site.org".into()));
    assert_eq!(domain_of("https://"), None);
}

#[test]
fn favicon_path_is_domain_png_in_dir() {
    let p = favicon_cache_path("/tmp/fav", "example.com");
    assert_eq!(p, "/tmp/fav/example.com.png");
}

#[test]
fn default_has_nine_quick_paste_hotkeys() {
    let c = Config::default();
    assert_eq!(c.quick_paste_hotkeys.len(), 9);
    assert_eq!(c.quick_paste_hotkeys[0], "super+ctrl+1");
    assert!(c.paste_on_select);
}

#[test]
fn masking_defaults_are_empty_with_three_visible() {
    let c = Config::default();
    assert!(c.mask_apps.is_empty());
    assert!(c.mask_patterns.is_empty());
    assert_eq!(c.mask_visible_chars, 3);
    assert_eq!(default_mask_visible_chars(), 3);
    assert!(default_true());
}

#[test]
fn old_config_theme_migrates_from_dark_flag() {
    let mut c = Config::default();
    c.theme = String::new();
    c.theme_dark = false;
    migrate_theme(&mut c);
    assert_eq!(c.theme, "light");
    c.theme = "nord".into();
    migrate_theme(&mut c);
    assert_eq!(c.theme, "nord");
}

#[test]
fn crash_times_after_now_are_not_counted() {
    assert!(is_crash_loop(&[70_000, 80_000, 95_000], 100_000, 60_000, 3));
    assert!(!is_crash_loop(&[1_000, 40_000, 95_000], 100_000, 60_000, 3));
    assert!(!is_crash_loop(&[200_000], 100_000, 60_000, 1));
    assert!(is_crash_loop(&[100_000], 100_000, 60_000, 1));
}
