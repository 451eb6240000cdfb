//! The app configuration: its fields, their defaults, and the migration of an
//! older file's dark/light flag into a theme id. Reading and writing the TOML
//! file is the caller's part.
use vstd::prelude::*;
use crate::notes_view::string_views;
use crate::num::{dec, fmt_i64};
use crate::text::{append_chars, chars_of, string_of};

verus! {

pub struct Config {
    pub launcher_hotkey: String,
    pub quick_paste_hotkeys: Vec<String>,
    pub paste_on_select: bool,
    pub app_denylist: Vec<String>,
    /// Opt-in retention caps (off by default).
    pub max_entries: Option<i64>,
    pub max_age_days: Option<i64>,
    pub max_image_mb: Option<i64>,
    /// Display-only masking (opt-in; empty by default).
    pub mask_apps: Vec<String>,
    pub mask_patterns: Vec<String>,
    pub mask_visible_chars: i64,
    /// Fetch a link's site favicon (from the site's own /favicon.ico) for display.
    pub fetch_link_favicons: bool,
    /// Fetch a rich preview thumbnail (OG image) for a bookmark on explicit save only.
    pub fetch_link_previews: bool,
    /// Open the Today dashboard each time the launcher is summoned.
    pub open_to_today: bool,
    /// Folder synced with notes (Markdown files, one per note).
    pub vault_path: Option<String>,
    /// Periodically reconcile against `vault_path` while running.
    pub vault_watch: bool,
    /// Record a completed task-timer session as an org `CLOCK:` line.
    pub log_clock_entries: bool,
    /// Legacy dark/light flag, read only to migrate an older file into `theme`.
    pub theme_dark: bool,
    /// Selected colour-theme id, e.g. "dark", "light", "catppuccin-mocha".
    pub theme: String,
}

/// Characters visible before masking starts, when the file does not say.
pub fn default_mask_visible_chars() -> (r: i64)
    ensures
        r == 3,
{
    3
}

/// Default of the flags that are on unless the file says otherwise.
pub fn default_true() -> (r: bool)
    ensures
        r,
{
    true
}

/// `super+ctrl+1` … `super+ctrl+9`.
pub open spec fn default_quick_paste() -> Seq<Seq<char>> {
    Seq::new(9, |i: int| "super+ctrl+"@ + dec(i + 1))
}

fn quick_paste_hotkeys() -> (r: Vec<String>)
    ensures
        string_views(r@) == default_quick_paste(),
{
    let mut r: Vec<String> = Vec::new();
    let mut n: i64 = 1;
    while n <= 9
        invariant
            1 <= n <= 10,
            string_views(r@) == default_quick_paste().take(n - 1),
        decreases 10 - n,
    {
        let mut s = chars_of("super+ctrl+");
        append_chars(&mut s, &fmt_i64(n));
        let ghost r0 = string_views(r@);
        let h = string_of(s.as_slice());
        r.push(h);
        assert(string_views(r@) =~= r0.push(h@));
        assert(default_quick_paste().take(n as int) =~= default_quick_paste().take(n - 1).push(
            default_quick_paste()[n - 1],
        ));
        n += 1;
    }
    assert(default_quick_paste().take(9) =~= default_quick_paste());
    r
}

impl Default for Config {
    fn default() -> (c: Self)
        ensures
            c.launcher_hotkey@ == "super+shift+space"@,
            string_views(c.quick_paste_hotkeys@) == default_quick_paste(),
            c.paste_on_select,
            c.app_denylist@.len() == 0,
            c.max_entries is None,
            c.max_age_days is None,
            c.max_image_mb is None,
            c.mask_apps@.len() == 0,
            c.mask_patterns@.len() == 0,
            c.mask_visible_chars == 3,
            c.fetch_link_favicons,
            c.fetch_link_previews,
            !c.open_to_today,
            c.vault_path is None,
            !c.vault_watch,
            c.log_clock_entries,
            c.theme_dark,
            c.theme@ == "dark"@,
    {
        Config {
            launcher_hotkey: String::from_str("super+shift+space"),
            quick_paste_hotkeys: quick_paste_hotkeys(),
            paste_on_select: true,
            app_denylist: Vec::new(),
            max_entries: None,
            max_age_days: None,
            max_image_mb: None,
            mask_apps: Vec::new(),
            mask_patterns: Vec::new(),
            mask_visible_chars: default_mask_visible_chars(),
            fetch_link_favicons: default_true(),
            fetch_link_previews: default_true(),
            open_to_today: false,
            vault_path: None,
            vault_watch: false,
            log_clock_entries: true,
            theme_dark: true,
            theme: String::from_str("dark"),
        }
    }
}

/// The theme after loading: an older file without a theme id gets "dark" or
/// "light" from its dark/light flag.
pub open spec fn migrated_theme(theme: Seq<char>, theme_dark: bool) -> Seq<char> {
    if theme.len() == 0 {
        if theme_dark {
            "dark"@
        } else {
            "light"@
        }
    } else {
        theme
    }
}

/// Migrate an older config that only had the dark/light bool.
pub fn migrate_theme(cfg: &mut Config)
    ensures
        final(cfg).theme@ == migrated_theme(old(cfg).theme@, old(cfg).theme_dark),
        final(cfg).theme_dark == old(cfg).theme_dark,
        final(cfg).launcher_hotkey == old(cfg).launcher_hotkey,
        final(cfg).quick_paste_hotkeys == old(cfg).quick_paste_hotkeys,
        final(cfg).paste_on_select == old(cfg).paste_on_select,
        final(cfg).app_denylist == old(cfg).app_denylist,
        final(cfg).max_entries == old(cfg).max_entries,
        final(cfg).max_age_days == old(cfg).max_age_days,
        final(cfg).max_image_mb == old(cfg).max_image_mb,
        final(cfg).mask_apps == old(cfg).mask_apps,
        final(cfg).mask_patterns == old(cfg).mask_patterns,
        final(cfg).mask_visible_chars == old(cfg).mask_visible_chars,
        final(cfg).fetch_link_favicons == old(cfg).fetch_link_favicons,
        final(cfg).fetch_link_previews == old(cfg).fetch_link_previews,
        final(cfg).open_to_today == old(cfg).open_to_today,
        final(cfg).vault_path == old(cfg).vault_path,
        final(cfg).vault_watch == old(cfg).vault_watch,
        final(cfg).log_clock_entries == old(cfg).log_clock_entries,
{
    if chars_of(cfg.theme.as_str()).len() == 0 {
        cfg.theme = if cfg.theme_dark {
            String::from_str("dark")
        } else {
            String::from_str("light")
        };
    }
}

} // verus!
