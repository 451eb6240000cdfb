use magpie_app::badges::{line_badge, plural, recur_badge, truncate, type_glyph};
use magpie_app::clip::{
    group, range_from_index, resolve_quick_paste, resolve_slot_or_recent, section_for,
    sort_from_index, time_filter_from_index, time_range, type_filter_from_index, Entry, Kind,
    Section, Sort, TimeFilter, TypeFilter,
};
use magpie_app::mask_view::{mask_render, should_mask, MaskRules};
use magpie_app::merge_view::separator_str;
use magpie_app::stats_view::over_time_caption;
use magpie_app::tasks::{Recur, RecurUnit};
use magpie_app::themes::{id_of, index_of, is_dark, themes};

#[test]
fn round_trips_id_and_index() {
    for (i, t) in themes().iter().enumerate() {
        assert_eq!(index_of(t.id), i, "index_of({})", t.id);
        assert_eq!(id_of(i), t.id);
        assert_eq!(is_dark(i), t.dark);
    }
}

#[test]
fn unknown_id_falls_back_to_dark() {
    assert_eq!(index_of("no-such-theme"), 0);
    assert_eq!(id_of(9999), "dark");
    assert!(is_dark(9999));
}

#[test]
fn first_two_are_the_legacy_dark_and_light_defaults() {
    let t = themes();
    assert_eq!(t[0].id, "dark");
    assert!(t[0].dark);
    assert_eq!(t[1].id, "light");
    assert!(!t[1].dark);
}

#[test]
fn catalogue_has_nine_named_themes() {
    let t = themes();
    assert_eq!(t.len(), 9);
    assert_eq!(t[2].name, "Catppuccin Mocha");
    assert_eq!(index_of("nord"), 7);
    assert!(!is_dark(3));
}

#[test]
fn maps_indices() {
    assert_eq!(separator_str(0), "\n");
    assert_eq!(separator_str(1), " ");
    assert_eq!(separator_str(2), ", ");
    assert_eq!(separator_str(7), "\n");
}

#[test]
fn badge_counts_nonempty_lines() {
    assert_eq!(line_badge("a\nb\nc"), "3 lines");
    assert_eq!(line_badge("a\n\nb"), "2 lines"); // blank interior line ignored
}

#[test]
fn badge_empty_for_single_or_no_line() {
    assert_eq!(line_badge("one line"), "");
    assert_eq!(line_badge(""), "");
    assert_eq!(line_badge("   \n  "), ""); // only blank lines
}

#[test]
fn every_kind_has_a_glyph() {
    assert_eq!(type_glyph(&Kind::Link), "🔗");
    assert_eq!(type_glyph(&Kind::Color), "🎨");
    assert_eq!(type_glyph(&Kind::Email), "✉️");
    assert_eq!(type_glyph(&Kind::Image), "🖼️");
    assert_eq!(type_glyph(&Kind::File), "📁");
    assert_eq!(type_glyph(&Kind::Text), "📄");
    assert_eq!(type_glyph(&Kind::Rtf), "📄");
    assert_eq!(type_glyph(&Kind::Html), "📄");
}

#[test]
fn plural_and_recur_badges() {
    assert_eq!(plural(1, "line", "lines"), "1 line");
    assert_eq!(plural(0, "line", "lines"), "0 lines");
    assert_eq!(plural(12, "file", "files"), "12 files");
    assert_eq!(recur_badge(Some(Recur { n: 2, unit: RecurUnit::Week })), "↻2w");
    assert_eq!(recur_badge(Some(Recur { n: 1, unit: RecurUnit::Month })), "↻1mo");
    assert_eq!(recur_badge(None), "");
}

#[test]
fn truncate_takes_first_content_line() {
    assert_eq!(truncate("\n   hello world  \nmore", 5), "hello");
    assert_eq!(truncate("short", 10), "short");
    assert_eq!(truncate("  \n ", 10), "(whitespace)");
}

#[test]
fn empty_series_has_no_caption() {
    assert_eq!(over_time_caption(&[], false), "");
}

const DAY: i64 = 86_400_000;

#[test]
fn spans_first_to_last_bucket_with_peak() {
    let buckets = [(1_000 * DAY, 2), (1_001 * DAY, 7), (1_002 * DAY, 0)];
    assert_eq!(
        over_time_caption(&buckets, false),
        "1972-09-27 → 1972-09-29 · peak 7 copies in a day"
    );
}

#[test]
fn weekly_buckets_and_singular_peak() {
    let buckets = [(1_000 * DAY, 1)];
    assert_eq!(
        over_time_caption(&buckets, true),
        "1972-09-27 → 1972-09-27 · peak 1 copy in a week"
    );
}

#[test]
fn buckets_by_utc_day() {
    let now = 100 * DAY + 5_000;
    assert!(matches!(section_for(100 * DAY + 1, now), Section::Today));
    assert!(matches!(section_for(99 * DAY + 1, now), Section::Yesterday));
    assert!(matches!(section_for(90 * DAY, now), Section::Older));
}

fn mk(id: i64, ms: i64, text: &str) -> Entry {
    Entry {
        id,
        content_hash: format!("h{id}"),
        kind: Kind::Text,
        preview_text: text.into(),
        full_text: text.into(),
        image_path: None,
        byte_size: 0,
        char_count: 0,
        word_count: 0,
        line_count: 0,
        first_copied_at_ms: ms,
        last_copied_at_ms: ms,
        copy_count: 1,
        pinned: false,
        source_app_id: None,
    }
}

#[test]
fn group_orders_and_indexes() {
    let now = 10 * DAY + 1;
    let entries = vec![mk(1, 10 * DAY, ""), mk(2, 9 * DAY, ""), mk(3, DAY, "")];
    let g = group(&entries, now);
    assert_eq!(g.len(), 3);
    assert!(matches!(g[0].0, Section::Today));
    assert_eq!(g[0].1, vec![0]);
    assert!(matches!(g[2].0, Section::Older));
    assert_eq!(g[2].1, vec![2]);
}

#[test]
fn group_skips_empty_sections_and_labels() {
    let now = 10 * DAY + 1;
    let entries = vec![mk(1, DAY, ""), mk(2, 10 * DAY, ""), mk(3, 2 * DAY, "")];
    let g = group(&entries, now);
    assert_eq!(g.len(), 2);
    assert_eq!(g[0].0.label(), "Today");
    assert_eq!(g[0].1, vec![1]);
    assert_eq!(g[1].0.label(), "Older");
    assert_eq!(g[1].1, vec![0, 2]);
    assert_eq!(Section::Yesterday.label(), "Yesterday");
}

#[test]
fn resolve_is_one_based_and_bounded() {
    let r = vec![mk(1, 0, "a"), mk(2, 0, "b")];
    assert_eq!(resolve_quick_paste(&r, 1).unwrap().full_text, "a");
    assert_eq!(resolve_quick_paste(&r, 2).unwrap().full_text, "b");
    assert!(resolve_quick_paste(&r, 0).is_none());
    assert!(resolve_quick_paste(&r, 3).is_none());
}

#[test]
fn resolve_slot_or_recent_prefers_assigned_slot() {
    let recent = vec![mk(1, 0, "r1"), mk(2, 0, "r2")];
    assert_eq!(
        resolve_slot_or_recent(Some(mk(9, 0, "pinned")), &recent, 1).unwrap().full_text,
        "pinned"
    );
    assert_eq!(resolve_slot_or_recent(None, &recent, 2).unwrap().full_text, "r2");
    assert!(resolve_slot_or_recent(None, &recent, 0).is_none());
    assert!(resolve_slot_or_recent(None, &recent, 3).is_none());
}

#[test]
fn type_filter_index_mapping() {
    assert_eq!(type_filter_from_index(0), TypeFilter::All);
    assert_eq!(type_filter_from_index(1), TypeFilter::Text);
    assert_eq!(type_filter_from_index(2), TypeFilter::Link);
    assert_eq!(type_filter_from_index(3), TypeFilter::Color);
    assert_eq!(type_filter_from_index(4), TypeFilter::Image);
    assert_eq!(type_filter_from_index(5), TypeFilter::File);
    assert_eq!(type_filter_from_index(99), TypeFilter::All);
}

#[test]
fn type_filter_maps_to_kind() {
    assert!(TypeFilter::All.to_kind().is_none());
    assert_eq!(TypeFilter::Link.to_kind(), Some(Kind::Link));
}

#[test]
fn sort_index_mapping() {
    assert_eq!(sort_from_index(0), Sort::Recency);
    assert_eq!(sort_from_index(1), Sort::MostCopied);
    assert_eq!(sort_from_index(99), Sort::Recency);
}

#[test]
fn time_filter_index_and_30_days() {
    assert_eq!(time_filter_from_index(0), TimeFilter::All);
    assert_eq!(time_filter_from_index(3), TimeFilter::Last30Days);
    let now = 100 * 86_400_000i64;
    assert_eq!(time_range(TimeFilter::Last30Days, now).since_ms, Some(now - 30 * 86_400_000));
}

#[test]
fn last_7_days_sets_since() {
    let now = 10 * 86_400_000i64;
    assert_eq!(time_range(TimeFilter::Last7Days, now).since_ms, Some(now - 7 * 86_400_000));
    assert!(time_range(TimeFilter::All, now).since_ms.is_none());
}

#[test]
fn today_floors_to_utc_midnight() {
    let now = 3 * 86_400_000i64 + 12_345;
    assert_eq!(time_range(TimeFilter::Today, now).since_ms, Some(3 * 86_400_000));
}

#[test]
fn stats_range_from_index() {
    let now = 200 * DAY;
    assert_eq!(range_from_index(0, now).since_ms, Some(now - 7 * DAY));
    assert_eq!(range_from_index(2, now).since_ms, Some(now - 90 * DAY));
    assert_eq!(range_from_index(5, now).since_ms, None);
    assert_eq!(range_from_index(1, now).now_ms, now);
}

#[test]
fn render_prefix_then_bullets() {
    assert_eq!(mask_render("sk-live-abcdef", 3), format!("sk-{}", "•".repeat(11)));
}

#[test]
fn render_short_text_fully_masked() {
    assert_eq!(mask_render("hi", 3), "••");
    assert_eq!(mask_render("", 3), "•");
}

#[test]
fn render_visible_zero_all_bullets() {
    assert_eq!(mask_render("hello", 0), "•••••");
}

#[test]
fn render_caps_bullets_at_12() {
    let out = mask_render(&"x".repeat(100), 2);
    assert_eq!(out.chars().filter(|&c| c == '•').count(), 12);
}

#[test]
fn render_unicode_by_char() {
    assert_eq!(mask_render("café…", 3), "caf••");
}

#[test]
fn should_mask_screenshare_always() {
    let r = MaskRules::build(&[], &[], true);
    assert!(should_mask(&r, None, "anything"));
}

#[test]
fn should_mask_by_app() {
    let r = MaskRules::build(&["Slack".into()], &[], false);
    assert!(should_mask(&r, Some("Slack"), "x"));
    assert!(!should_mask(&r, Some("Terminal"), "x"));
}

#[test]
fn should_mask_by_pattern_and_skips_invalid() {
    let r = MaskRules::build(&[], &["secret".into(), "(".into()], false);
    assert_eq!(r.patterns.len(), 1);
    assert!(should_mask(&r, None, "a secret value"));
    assert!(!should_mask(&r, None, "nothing here"));
}

#[test]
fn should_not_mask_when_no_rule_hits() {
    let r = MaskRules::build(&[], &[], false);
    assert!(!should_mask(&r, Some("Terminal"), "plain"));
}

#[test]
fn end_to_end_masking_shape() {
    let rules = MaskRules::build(&["1Password".into()], &[r"^ghp_".into()], false);
    assert!(should_mask(&rules, Some("1Password"), "hunter2"));
    assert!(should_mask(&rules, None, "ghp_tokenvalue"));
    assert!(!should_mask(&rules, Some("Notes"), "grocery list"));
    assert_eq!(mask_render("ghp_secret", 3), format!("ghp{}", "•".repeat(7)));
}
