use magpie_app::cli::{parse_args, Command};

fn v(items: &[&str]) -> Vec<String> {
    items.iter().map(|s| s.to_string()).collect()
}

#[test]
fn parses_known_flags() {
    assert!(matches!(parse_args(&v(&["--install-autostart"])), Command::InstallAutostart));
    assert!(matches!(parse_args(&v(&["--uninstall-autostart"])), Command::UninstallAutostart));
    assert!(matches!(parse_args(&v(&["--help"])), Command::Help));
    assert!(matches!(parse_args(&v(&["-h"])), Command::Help));
}

#[test]
fn empty_or_unknown_is_run() {
    assert!(matches!(parse_args(&v(&[])), Command::Run));
    assert!(matches!(parse_args(&v(&["--nonsense"])), Command::Run));
}

#[test]
fn parses_export_backup_restore() {
    assert!(matches!(
        parse_args(&v(&["--export", "/tmp/x"])),
        Command::Export(p) if p == "/tmp/x"
    ));
    assert!(matches!(parse_args(&v(&["--backup", "/tmp/b"])), Command::Backup(_)));
    assert!(matches!(parse_args(&v(&["--restore", "/tmp/r"])), Command::Restore(_)));
    // missing path → Run
    assert!(matches!(parse_args(&v(&["--export"])), Command::Run));
}

#[test]
fn parses_import_bookmarks() {
    assert!(matches!(
        parse_args(&v(&["--import-bookmarks", "chrome"])),
        Command::ImportBookmarks(w) if w == "chrome"
    ));
    assert!(matches!(parse_args(&v(&["--import-bookmarks"])), Command::Run));
}

#[test]
fn parses_sync_vault() {
    assert!(matches!(
        parse_args(&v(&["--sync-vault", "/tmp/v"])),
        Command::SyncVault(Some(p)) if p == "/tmp/v"
    ));
    assert!(matches!(parse_args(&v(&["--sync-vault"])), Command::SyncVault(None)));
    assert!(matches!(parse_args(&v(&["--sync-vault", "--help"])), Command::SyncVault(None)));
}

#[test]
fn first_known_flag_wins_after_unknown_ones() {
    assert!(matches!(parse_args(&v(&["magpie", "--verbose", "-h", "--export", "x"])), Command::Help));
    assert_eq!(parse_args(&v(&["x", "--backup", "b"])), Command::Backup("b".to_string()));
}
