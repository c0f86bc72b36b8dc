use nimbus::config::{
    backup_settings_from_output, launch_options_string, parse_backup_settings, probe_ludusavi, Config,
    InheritedBackupSettings,
};
use nimbus::yaml::scan_yaml_leaves;

// Trimmed from a real `ludusavi config show` (v0.31.0) capture.
const SAMPLE: &str = r#"---
runtime:
  threads: ~
release:
  check: true
manifest:
  enable: true
language: en-US
theme: light
roots:
  - store: steam
    path: "C:/Program Files (x86)/Steam"
redirects: []
backup:
  path: "C:/Users/urina/ludusavi-backup"
  ignoredGames: []
  filter:
    excludeStoreScreenshots: false
  retention:
    full: 5
    differential: 0
  format:
    chosen: zip
    zip:
      compression: deflate
restore:
  path: "C:/Users/urina/ludusavi-backup"
"#;

#[test]
fn reads_backup_path_format_and_retention() {
    let settings = parse_backup_settings(SAMPLE);
    assert_eq!(settings.path.as_deref(), Some("C:/Users/urina/ludusavi-backup"));
    assert_eq!(settings.format.as_deref(), Some("zip"));
    assert_eq!(settings.full_limit, Some(5));
}

#[test]
fn does_not_confuse_restore_path_with_backup_path() {
    let restore_only = r#"---
restore:
  path: "C:/should/not/match"
"#;
    assert_eq!(parse_backup_settings(restore_only).path, None);
}

#[test]
fn missing_backup_key_yields_defaults() {
    assert_eq!(parse_backup_settings("---\nlanguage: en-US\n"), InheritedBackupSettings::default());
}

#[test]
fn sibling_sections_do_not_leak_into_each_other() {
    // format.zip.compression must not be mistaken for format.chosen, and
    // retention's "full" must not collide with anything above it.
    let leaves = scan_yaml_leaves(SAMPLE);
    assert_eq!(leaves.get("backup.format.zip.compression").map(|s| s.as_str()), Some("deflate"));
    assert_eq!(leaves.get("backup.retention.full").map(|s| s.as_str()), Some("5"));
}

#[test]
fn leaves_come_in_document_order_with_quotes_stripped() {
    let leaves = scan_yaml_leaves(SAMPLE);
    let paths: Vec<&str> = leaves.entries.iter().map(|(k, _)| k.as_str()).collect();
    assert_eq!(
        paths,
        vec![
            "runtime.threads",
            "release.check",
            "manifest.enable",
            "language",
            "theme",
            "roots.path",
            "redirects",
            "backup.path",
            "backup.ignoredGames",
            "backup.filter.excludeStoreScreenshots",
            "backup.retention.full",
            "backup.retention.differential",
            "backup.format.chosen",
            "backup.format.zip.compression",
            "restore.path",
        ]
    );
    assert_eq!(leaves.get("restore.path").map(|s| s.as_str()), Some("C:/Users/urina/ludusavi-backup"));
    assert_eq!(leaves.get("runtime.threads").map(|s| s.as_str()), Some("~"));
    // List items are skipped, but their continuation lines are read as
    // leaves of the enclosing section.
    assert_eq!(leaves.get("roots.path").map(|s| s.as_str()), Some("C:/Program Files (x86)/Steam"));
    assert_eq!(leaves.get("redirects").map(|s| s.as_str()), Some("[]"));
}

#[test]
fn crlf_lines_and_comments_are_read_like_lf_lines() {
    let text = "# a comment\r\nbackup:\r\n  path: \"/mnt/nas\"\r\n  retention:\r\n    full: 300\r\n";
    let settings = parse_backup_settings(text);
    assert_eq!(settings.path.as_deref(), Some("/mnt/nas"));
    // 300 does not fit the retention count's u8.
    assert_eq!(settings.full_limit, None);
    assert_eq!(settings.format, None);
}

#[test]
fn a_later_duplicate_leaf_wins() {
    let leaves = scan_yaml_leaves("a:\n  b: 1\na:\n  b: 2\n");
    assert_eq!(leaves.get("a.b").map(|s| s.as_str()), Some("2"));
    assert_eq!(leaves.entries.len(), 2);
}

#[test]
fn dedent_closes_sections_by_byte_width() {
    // "\u{3000}" (ideographic space) is one character but three bytes, so
    // a two-space line after it is indented less, and closes its section.
    let leaves = scan_yaml_leaves("top:\n\u{3000}mid:\n  leaf: x\n");
    assert_eq!(leaves.get("top.leaf").map(|s| s.as_str()), Some("x"));
    assert_eq!(leaves.get("top.mid.leaf"), None);
}

#[test]
fn remembered_name_is_found_again() {
    let mut c = Config::default();
    assert_eq!(c.name_for_exe("C:/Games/hk.exe"), None);
    c.remember("C:/Games/hk.exe", "Hollow Knight");
    assert_eq!(c.name_for_exe("C:/Games/hk.exe"), Some("Hollow Knight"));
    c.remember("C:/Games/hk.exe", "Hollow Knight: Silksong");
    assert_eq!(c.name_for_exe("C:/Games/hk.exe"), Some("Hollow Knight: Silksong"));
    assert_eq!(c.exe_names.len(), 1);
    assert_eq!(c.name_for_exe("C:/Games/other.exe"), None);
}

#[test]
fn ignoring_twice_keeps_one_entry() {
    let mut c = Config::default();
    assert!(!c.is_ignored("/usr/bin/steam"));
    c.ignore("/usr/bin/steam");
    c.ignore("/usr/bin/steam");
    assert!(c.is_ignored("/usr/bin/steam"));
    assert_eq!(c.ignored_exes, vec!["/usr/bin/steam".to_string()]);
}

#[test]
fn defaults_apply_until_set() {
    let mut c = Config::default();
    assert_eq!(c.format(), "zip");
    assert_eq!(c.full_limit(), 5);
    c.format = Some("simple".into());
    c.full_limit = Some(2);
    assert_eq!(c.format(), "simple");
    assert_eq!(c.full_limit(), 2);
}

#[test]
fn ludusavi_bin_resolution_order() {
    let mut c = Config::default();
    assert_eq!(c.ludusavi_bin(None), "ludusavi");
    assert_eq!(c.ludusavi_bin(Some("/opt/nimbus/ludusavi".into())), "/opt/nimbus/ludusavi");
    c.ludusavi_path = Some("/custom/ludusavi".into());
    assert_eq!(c.ludusavi_bin(Some("/opt/nimbus/ludusavi".into())), "/custom/ludusavi");
}

#[test]
fn inherit_fills_only_what_is_unset() {
    let inherited = || InheritedBackupSettings {
        path: Some("//nas/saves".into()),
        format: Some("simple".into()),
        full_limit: Some(9),
    };
    let mut fresh = Config::default();
    fresh.full_limit = Some(3);
    fresh.inherit_from_ludusavi_if_unset(Some(inherited()));
    assert_eq!(fresh.sync_path.as_deref(), Some("//nas/saves"));
    assert_eq!(fresh.format.as_deref(), Some("simple"));
    assert_eq!(fresh.full_limit, Some(3));

    let mut set_up = Config::default();
    set_up.sync_path = Some("/mine".into());
    set_up.inherit_from_ludusavi_if_unset(Some(inherited()));
    assert_eq!(set_up.sync_path.as_deref(), Some("/mine"));
    assert_eq!(set_up.format, None);

    let mut nothing = Config::default();
    nothing.inherit_from_ludusavi_if_unset(None);
    assert_eq!(nothing.sync_path, None);
}

#[test]
fn settings_form_is_trimmed_and_validated() {
    let mut c = Config::default();
    c.apply_settings_form("  //TOWER/Game Saves  ", false, " 7 ");
    assert_eq!(c.sync_path.as_deref(), Some("//TOWER/Game Saves"));
    assert_eq!(c.format.as_deref(), Some("simple"));
    assert_eq!(c.full_limit, Some(7));
    c.apply_settings_form("   ", true, "lots");
    assert_eq!(c.sync_path, None);
    assert_eq!(c.format.as_deref(), Some("zip"));
    assert_eq!(c.full_limit, None);
    c.apply_settings_form("x", true, "+255");
    assert_eq!(c.full_limit, Some(255));
    c.apply_settings_form("x", true, "256");
    assert_eq!(c.full_limit, None);
}

#[test]
fn onboarding_is_skipped_once_a_sync_folder_exists() {
    let mut c = Config::default();
    c.skip_onboarding_if_already_set_up();
    assert!(!c.onboarded);
    c.sync_path = Some("/mnt/nas".into());
    c.skip_onboarding_if_already_set_up();
    assert!(c.onboarded);
}

#[test]
fn probe_and_inherit_read_process_output() {
    assert_eq!(probe_ludusavi(true, b"ludusavi v0.31.0\n").as_deref(), Some("ludusavi v0.31.0"));
    assert_eq!(probe_ludusavi(false, b"ludusavi v0.31.0\n"), None);
    let s = backup_settings_from_output(true, b"backup:\n  path: /x\n").unwrap();
    assert_eq!(s.path.as_deref(), Some("/x"));
    assert!(backup_settings_from_output(false, b"backup:\n  path: /x\n").is_none());
}

#[test]
fn launch_options_quote_the_install_path() {
    assert_eq!(
        launch_options_string(Some("C:\\Program Files\\Nimbus\\nimbus.exe")),
        "\"C:\\Program Files\\Nimbus\\nimbus.exe\" %command%"
    );
    assert_eq!(launch_options_string(None), "\"nimbus\" %command%");
}
