use nimbus::config::Config;
use nimbus::daemon::{poll_one, poll_targets, pull_finished, DaemonState, PollAction};
use nimbus::gameid::{find_args, find_queries, guess_candidates, Identity};
use nimbus::ludusavi::{latest_when, sort_games, GameStatus};
use nimbus::timestamp::{civil_from_days_exec, days_from_civil_checked, parse_rfc3339, Rfc3339};
use nimbus::tray::{icon_rgba, MenuAction, MenuIds};
use nimbus::ui::{apply_confirmation, Confirmation};
use nimbus::wrap::{lookup, Lookup};

fn nanos(s: &str) -> i128 {
    match parse_rfc3339(s) {
        Rfc3339::Epoch(n) => n,
        other => panic!("{other:?}"),
    }
}

fn game(name: &str) -> GameStatus {
    GameStatus { name: name.to_string(), bytes: 0, paths: Vec::new() }
}

#[test]
fn same_shape_timestamps_compare_like_their_times() {
    let stamps = [
        "1999-12-31T23:59:59.999999999Z",
        "2026-08-10T01:08:01.053222200Z",
        "2026-08-10T01:08:02.000000000Z",
        "2026-08-10T01:09:00.000000000Z",
        "2026-09-01T00:00:00.000000000Z",
    ];
    for a in stamps {
        for b in stamps {
            assert_eq!(a < b, nanos(a) < nanos(b), "{a} vs {b}");
        }
    }
    // Different shapes are outside the promise: "…01Z" sorts after
    // "…01.5Z" as a string, though it is the earlier time.
    assert!("2026-08-10T01:08:01Z" > "2026-08-10T01:08:01.5Z");
    assert!(nanos("2026-08-10T01:08:01Z") < nanos("2026-08-10T01:08:01.5Z"));
}

#[test]
fn latest_backup_is_latest_in_time() {
    let whens = vec![
        "2026-08-10T01:08:02.000000000Z".to_string(),
        "2026-08-10T01:08:01.053222200Z".to_string(),
        "2025-01-01T00:00:00.000000000Z".to_string(),
    ];
    let latest = latest_when(&whens).unwrap();
    assert_eq!(latest, "2026-08-10T01:08:02.000000000Z");
    assert!(whens.iter().all(|w| nanos(w) <= nanos(&latest)));
    assert_eq!(latest_when(&Vec::new()), None);
}

#[test]
fn dates_survive_the_round_trip() {
    for (y, m, d) in [(1970, 1, 1), (2000, 2, 29), (1900, 3, 1), (2024, 12, 31), (1, 1, 1), (-44, 3, 15)] {
        let z = days_from_civil_checked(y, m, d).unwrap();
        assert_eq!(civil_from_days_exec(z), (y, m, d));
    }
    for z in [-800_000i64, -1, 0, 59, 60, 11_016, 19_782, 2_932_896] {
        let (y, m, d) = civil_from_days_exec(z);
        assert_eq!(days_from_civil_checked(y, m, d), Some(z));
    }
}

#[test]
fn sorted_game_list_is_ordered_and_complete() {
    let games = vec![game("zelda"), game("Celeste"), game("braid"), game("Braid"), game("ABZU")];
    let sorted = sort_games(games);
    let names: Vec<&str> = sorted.iter().map(|g| g.name.as_str()).collect();
    assert_eq!(names, vec!["ABZU", "braid", "Braid", "Celeste", "zelda"]);
    for w in sorted.windows(2) {
        assert!(w[0].name.to_lowercase() <= w[1].name.to_lowercase());
    }
}

#[test]
fn answered_games_are_never_asked_about_again() {
    let mut c = Config::default();
    assert!(matches!(lookup(false, None, "/g/hk.exe", &c), Lookup::Ask));
    apply_confirmation(&mut c, "/g/hk.exe", Confirmation::Named("Hollow Knight".to_string()));
    assert!(matches!(lookup(false, None, "/g/hk.exe", &c), Lookup::Known(Identity::Named(ref n)) if n == "Hollow Knight"));
    apply_confirmation(&mut c, "/usr/bin/top", Confirmation::Ignore);
    assert!(matches!(lookup(false, None, "/usr/bin/top", &c), Lookup::Ignored));
    apply_confirmation(&mut c, "/g/x", Confirmation::Skip);
    assert!(matches!(lookup(false, None, "/g/x", &c), Lookup::Ask));
    assert!(matches!(lookup(true, None, "/g/x", &c), Lookup::Known(Identity::Infer("steam"))));
    assert!(matches!(lookup(false, Some("Celeste".to_string()), "/usr/bin/top", &c), Lookup::Known(Identity::Named(ref n)) if n == "Celeste"));
}

#[test]
fn poll_checks_only_games_with_remote_backups() {
    let games = vec![game("A"), game("B"), game("C")];
    let remote = vec![
        ("C".to_string(), "2026-01-01T00:00:00Z".to_string()),
        ("A".to_string(), "2025-01-01T00:00:00Z".to_string()),
        ("Z".to_string(), "2024-01-01T00:00:00Z".to_string()),
    ];
    assert_eq!(
        poll_targets(&games, &remote),
        vec![(0, "2025-01-01T00:00:00Z".to_string()), (2, "2026-01-01T00:00:00Z".to_string())]
    );
    assert!(poll_targets(&games, &Vec::new()).is_empty());
}

#[test]
fn guess_queries_from_directory_and_stem() {
    let candidates = guess_candidates("/games/Hollow_Knight-FLT/game.exe");
    assert_eq!(candidates, vec!["Hollow_Knight-FLT".to_string(), "game".to_string()]);
    // "game" cleans to nothing and is not searched for.
    assert_eq!(find_queries(&candidates), vec!["Hollow Knight".to_string()]);
    assert_eq!(find_queries(&vec!["\u{212A}-FLT".to_string()]), vec!["\u{212A}".to_string()]);
    assert_eq!(find_args("Celeste"), vec!["find", "--fuzzy", "--normalized", "--api", "Celeste"]);
}

#[test]
fn tray_menu_clicks() {
    let ids = MenuIds { sync_now: "1".into(), pause: "2".into(), open: "3".into(), quit: "4".into() };
    assert_eq!(ids.action("1"), MenuAction::SyncNow);
    assert_eq!(ids.action("2"), MenuAction::TogglePause);
    assert_eq!(ids.action("3"), MenuAction::OpenWindow);
    assert_eq!(ids.action("4"), MenuAction::Quit);
    assert_eq!(ids.action("5"), MenuAction::Nothing);
}

#[test]
fn tray_icon_is_a_blue_disc() {
    let rgba = icon_rgba();
    assert_eq!(rgba.len(), 32 * 32 * 4);
    let px = |x: usize, y: usize| &rgba[(y * 32 + x) * 4..(y * 32 + x) * 4 + 4];
    assert_eq!(px(16, 16), &[70, 140, 220, 255]);
    assert_eq!(px(0, 0), &[0, 0, 0, 0]);
    assert_eq!(px(31, 16), &[0, 0, 0, 0]);
    assert_eq!(px(2, 16), &[70, 140, 220, 255]);
    assert_eq!(px(1, 16), &[0, 0, 0, 0]);
    // Same disc as the centre-distance test in floating point.
    for y in 0..32 {
        for x in 0..32 {
            let dx = x as f32 + 0.5 - 16.0;
            let dy = y as f32 + 0.5 - 16.0;
            let inside = (dx * dx + dy * dy).sqrt() <= 14.0;
            assert_eq!(px(x, y)[3] == 255, inside, "pixel {x},{y}");
        }
    }
}

#[test]
fn latest_local_save_time() {
    assert_eq!(nimbus::ludusavi::latest_mtime(&vec![]), None);
    assert_eq!(nimbus::ludusavi::latest_mtime(&vec![5, -3, 9, 9, 2]), Some(9));
}

#[test]
fn prompt_names_the_executable_by_file_name() {
    assert_eq!(nimbus::ui::prompt_subject_given("/g/hk.exe", Some("hk.exe".to_string())), "hk.exe");
    assert_eq!(nimbus::ui::prompt_subject_given("..", None), "..");
    assert_eq!(nimbus::ui::prompt_subject("/games/Celeste/Celeste.exe"), "Celeste.exe");
    assert_eq!(
        nimbus::gameid::candidates_given(None, Some("game".to_string())),
        vec!["game".to_string()]
    );
}

#[test]
fn bare_names_and_empty_paths() {
    assert_eq!(guess_candidates("game.exe"), vec!["game".to_string()]);
    assert_eq!(guess_candidates(".bashrc"), vec![".bashrc".to_string()]);
    assert_eq!(guess_candidates("a.b.c"), vec!["a.b".to_string()]);
    assert_eq!(guess_candidates("..x"), vec![".".to_string()]);
    assert!(guess_candidates("").is_empty());
    assert_eq!(nimbus::ui::prompt_subject("hk.exe"), "hk.exe");
    assert_eq!(nimbus::ui::prompt_subject("x/.."), "x/..");
    assert_eq!(nimbus::ui::prompt_subject(""), "");
}

#[test]
fn a_remembered_name_survives_later_calls() {
    let mut c = Config::default();
    assert_eq!(c.name_for_exe("/g/hk.exe"), None);
    c.remember("/g/hk.exe", "Hollow Knight");
    c.remember("/g/other.exe", "Celeste");
    c.ignore("/g/hk.exe");
    c.ignore("/g/tool.exe");
    assert_eq!(c.name_for_exe("/g/hk.exe"), Some("Hollow Knight"));
    c.remember("/g/hk.exe", "Hollow Knight: Silksong");
    c.remember("/g/x.exe", "X");
    assert_eq!(c.name_for_exe("/g/hk.exe"), Some("Hollow Knight: Silksong"));
    assert_eq!(c.name_for_exe("/g/tool.exe"), None);
}

#[test]
fn skipped_yaml_lines_change_nothing() {
    let base = "backup:\n  path: /b\n  format:\n    chosen: zip\n";
    let before = nimbus::yaml::scan_yaml_leaves(base).entries;
    for line in ["# note", "", "   ", "---", "- item", "no colon here", "  # indented: comment"] {
        let with = format!("backup:\n  path: /b\n{line}\n  format:\n    chosen: zip\n");
        assert_eq!(nimbus::yaml::scan_yaml_leaves(&with).entries, before, "{line:?}");
    }
}

#[test]
fn a_failed_restore_is_retried_next_poll() {
    let mut state = DaemonState::new();
    let remote = "2026-01-01T00:00:00Z";
    assert_eq!(poll_one(&mut state, "Celeste", remote, None), PollAction::Pull);
    pull_finished(&mut state, "Celeste", remote, false);
    assert_eq!(state.last_synced("Celeste"), None);
    assert_eq!(poll_one(&mut state, "Celeste", remote, None), PollAction::Pull);
    pull_finished(&mut state, "Celeste", remote, true);
    assert_eq!(poll_one(&mut state, "Celeste", remote, None), PollAction::UpToDate);
    // Seen but older than the local saves: accounted for, never restored.
    let local = nanos("2026-06-01T00:00:00Z");
    assert_eq!(poll_one(&mut state, "Braid", remote, Some(local)), PollAction::Acknowledge);
    assert_eq!(state.last_synced("Braid").map(|s| s.as_str()), Some(remote));
    assert_eq!(state.last_synced("Celeste").map(|s| s.as_str()), Some(remote));
}
