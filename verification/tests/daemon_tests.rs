use nimbus::daemon::{
    changed_games, changed_games_at, files_by_game, files_by_key, pause_label, poll_one, pull_finished,
    push_finished, DaemonState, PollAction,
};
use nimbus::ludusavi::GameStatus;
use nimbus::timestamp::{parse_rfc3339, Rfc3339};

fn nanos(s: &str) -> i128 {
    match parse_rfc3339(s) {
        Rfc3339::Epoch(n) => n,
        other => panic!("{other:?}"),
    }
}

#[test]
fn stale_remote_is_acknowledged_once_then_left_alone() {
    let mut state = DaemonState::new();
    let local = Some(nanos("2026-08-10T00:00:00Z"));
    assert_eq!(poll_one(&mut state, "Celeste", "2020-01-01T00:00:00Z", local), PollAction::Acknowledge);
    assert_eq!(state.last_synced("Celeste").map(|s| s.as_str()), Some("2020-01-01T00:00:00Z"));
    assert_eq!(poll_one(&mut state, "Celeste", "2020-01-01T00:00:00Z", local), PollAction::UpToDate);
}

#[test]
fn newer_remote_is_pulled_until_a_pull_succeeds() {
    let mut state = DaemonState::new();
    let local = Some(nanos("2020-01-01T00:00:00Z"));
    assert_eq!(poll_one(&mut state, "Celeste", "2026-01-01T00:00:00Z", local), PollAction::Pull);
    assert_eq!(state.last_synced("Celeste"), None);
    pull_finished(&mut state, "Celeste", "2026-01-01T00:00:00Z", false);
    assert_eq!(poll_one(&mut state, "Celeste", "2026-01-01T00:00:00Z", local), PollAction::Pull);
    pull_finished(&mut state, "Celeste", "2026-01-01T00:00:00Z", true);
    assert_eq!(poll_one(&mut state, "Celeste", "2026-01-01T00:00:00Z", local), PollAction::UpToDate);
}

#[test]
fn own_push_is_not_pulled_back() {
    let mut state = DaemonState::new();
    push_finished(&mut state, "Braid", Some("2026-05-05T05:05:05Z"));
    assert_eq!(poll_one(&mut state, "Braid", "2026-05-05T05:05:05Z", None), PollAction::UpToDate);
    push_finished(&mut state, "Braid", None);
    assert_eq!(state.last_synced("Braid").map(|s| s.as_str()), Some("2026-05-05T05:05:05Z"));
    // No local saves at all: a new remote is always pulled.
    assert_eq!(poll_one(&mut state, "Braid", "2026-05-06T00:00:00Z", None), PollAction::Pull);
    assert_eq!(poll_one(&mut state, "Other", "garbage", None), PollAction::Acknowledge);
}

#[test]
fn file_changes_route_to_each_owning_game_once() {
    let games = vec![
        GameStatus { name: "A".into(), bytes: 1, paths: vec!["/s/shared.ini".into(), "/s/a.sav".into()] },
        GameStatus { name: "B".into(), bytes: 1, paths: vec!["/s/shared.ini".into(), "/s/b.sav".into(), "/s/b.sav".into()] },
    ];
    let index = files_by_game(&games);
    assert_eq!(index.entries.len(), 3);
    let shared = index.entries.iter().find(|(p, _)| p == "/s/shared.ini").unwrap();
    assert_eq!(shared.1, vec!["A".to_string(), "B".to_string()]);
    let b = index.entries.iter().find(|(p, _)| p == "/s/b.sav").unwrap();
    assert_eq!(b.1, vec!["B".to_string()]);
    let changed = changed_games(&index, &vec!["/s/b.sav".into(), "/elsewhere".into(), "/s/shared.ini".into(), "/s/a.sav".into()]);
    assert_eq!(changed, vec!["B".to_string(), "A".to_string()]);
}

#[test]
fn pause_menu_label() {
    assert_eq!(pause_label(true), "Resume syncing");
    assert_eq!(pause_label(false), "Pause syncing");
}

#[test]
fn changed_files_are_compared_as_paths() {
    let games = vec![
        GameStatus { name: "A".into(), bytes: 1, paths: vec!["/s//a.sav".into()] },
        GameStatus { name: "B".into(), bytes: 1, paths: vec!["/s/a.sav".into(), "/s/./b.sav".into()] },
    ];
    let index = files_by_game(&games);
    // One entry per save path as Ludusavi wrote it.
    assert_eq!(index.entries.len(), 3);
    assert_eq!(index.entries[0], ("/s//a.sav".to_string(), vec!["A".to_string()]));
    assert_eq!(index.entries[1], ("/s/a.sav".to_string(), vec!["B".to_string()]));
    // A change at a save path's own text reports that save's games.
    assert_eq!(changed_games_at(&index, &vec!["/s/a.sav".into()]).contains(&"B".to_string()), true);
    assert!(changed_games_at(&index, &vec!["/elsewhere".into()]).is_empty());
    // Keys given directly are compared as they are.
    let keyed = files_by_key(&vec![("A".to_string(), vec!["x".to_string(), "x".to_string()])]);
    assert_eq!(keyed.entries, vec![("x".to_string(), vec!["A".to_string()])]);
    assert!(changed_games(&keyed, &vec!["./x".into()]).is_empty());
}

#[test]
fn equal_paths_on_this_platform_reach_every_entry() {
    let games = vec![
        GameStatus { name: "A".into(), bytes: 1, paths: vec!["/s//a.sav".into()] },
        GameStatus { name: "B".into(), bytes: 1, paths: vec!["/s/a.sav".into(), "/s/./b.sav".into()] },
    ];
    let index = files_by_game(&games);
    assert_eq!(
        changed_games_at(&index, &vec!["/s/b.sav".into(), "/s//a.sav/".into()]),
        vec!["B".to_string(), "A".to_string()]
    );
}
