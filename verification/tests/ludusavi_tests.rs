use nimbus::ludusavi::{
    backup_args, files_total, game_status, latest_backups, latest_when, query_failure,
    remote_is_newer, restore_args, run_outcome, sort_games, GameStatus,
};
use nimbus::timestamp::{parse_rfc3339, Rfc3339};

fn parse_rfc3339_to_epoch(s: &str) -> Option<f64> {
    match parse_rfc3339(s) {
        Rfc3339::Epoch(n) => Some(n as f64 / 1_000_000_000.0),
        _ => None,
    }
}

fn epoch_nanos(s: &str) -> i128 {
    match parse_rfc3339(s) {
        Rfc3339::Epoch(n) => n,
        other => panic!("{s}: {other:?}"),
    }
}

#[test]
fn parses_a_real_ludusavi_timestamp() {
    // Real capture from `ludusavi backups --api`, cross-checked against
    // Python's datetime.fromisoformat for the same string: 1786324081.053222.
    let epoch = parse_rfc3339_to_epoch("2026-08-10T01:08:01.053222200Z").unwrap();
    assert!((epoch - 1786324081.053222).abs() < 0.001);
}

#[test]
fn parses_a_timestamp_with_no_fractional_seconds() {
    let epoch = parse_rfc3339_to_epoch("2026-08-10T01:08:01Z").unwrap();
    assert_eq!(epoch as i64, 1786324081);
}

#[test]
fn later_timestamp_parses_as_later() {
    let a = parse_rfc3339_to_epoch("2026-08-10T01:08:01.053222200Z").unwrap();
    let b = parse_rfc3339_to_epoch("2026-08-10T01:08:02.5Z").unwrap();
    assert!(b > a);
}

#[test]
fn remote_never_wins_against_a_genuinely_newer_local_file() {
    // The actual bug: a remote timestamp from a stale bulk backup must
    // never be judged "newer" than a local file that's more recent.
    let old_remote = "2020-01-01T00:00:00Z";
    let recent_local_epoch = epoch_nanos("2026-08-10T00:00:00Z");
    assert!(!remote_is_newer(old_remote, Some(recent_local_epoch)));
}

#[test]
fn remote_wins_when_genuinely_newer_than_local() {
    let new_remote = "2099-01-01T00:00:00Z";
    let old_local_epoch = epoch_nanos("2020-01-01T00:00:00Z");
    assert!(remote_is_newer(new_remote, Some(old_local_epoch)));
}

#[test]
fn remote_wins_when_there_is_no_local_file_at_all() {
    assert!(remote_is_newer("2020-01-01T00:00:00Z", None));
}

#[test]
fn within_tolerance_is_not_considered_newer() {
    let base = "2026-08-10T00:00:00Z";
    let local_epoch = epoch_nanos("2026-08-10T00:00:01Z"); // 1s later
    assert!(!remote_is_newer(base, Some(local_epoch)));
}

#[test]
fn exact_epoch_values() {
    assert_eq!(epoch_nanos("1970-01-01T00:00:00Z"), 0);
    assert_eq!(epoch_nanos("2026-08-10T01:08:01.053222200Z"), 1_786_324_081_053_222_200);
    assert_eq!(epoch_nanos(" 2000-03-01T00:00:00.5Z\n"), 951_868_800_500_000_000);
    assert_eq!(epoch_nanos("1969-12-31T23:59:59Z"), -1_000_000_000);
    // Fractions beyond nanoseconds are cut, short ones padded.
    assert_eq!(epoch_nanos("1970-01-01T00:00:00.1234567891Z"), 123_456_789);
    assert_eq!(epoch_nanos("1970-01-01T00:00:00.1Z"), 100_000_000);
    // A leap second is a second of its own.
    assert_eq!(epoch_nanos("1972-06-30T23:59:60Z"), epoch_nanos("1972-07-01T00:00:00Z"));
    assert_eq!(epoch_nanos("2024-02-29T00:00:00Z"), 1_709_164_800_000_000_000);
}

#[test]
fn malformed_and_unrepresentable_timestamps() {
    assert_eq!(parse_rfc3339("2026-08-10T01:08:01"), Rfc3339::Malformed);
    assert_eq!(parse_rfc3339("2026-08-10 01:08:01Z"), Rfc3339::Malformed);
    assert_eq!(parse_rfc3339("2026-08T01:08:01Z"), Rfc3339::Malformed);
    assert_eq!(parse_rfc3339("2026-08-10T01:08:01.x5Z"), Rfc3339::Malformed);
    assert_eq!(parse_rfc3339("2026-08-10T01:08:01.12345678éZ"), Rfc3339::Unrepresentable);
    assert_eq!(parse_rfc3339("9223372036854775807-01-01T00:00:00Z"), Rfc3339::Unrepresentable);
    assert!(!remote_is_newer("not a time", None));
    // Dates that do not exist and times out of range are not timestamps:
    // never pulled, and nothing panics.
    for bad in [
        "2026-03-00T00:00:00Z",
        "2026-08-00T00:00:00Z",
        "2026-13-01T00:00:00Z",
        "2026-00-10T00:00:00Z",
        "2026-02-29T00:00:00Z",
        "2026-04-31T00:00:00Z",
        "1970-01-01T25:00:00Z",
        "1970-01-01T24:00:00Z",
        "1970-01-01T00:60:00Z",
        "1970-01-01T00:00:61Z",
        "1970-01-01T-1:00:00Z",
    ] {
        assert_eq!(parse_rfc3339(bad), Rfc3339::Malformed, "{bad}");
        assert!(!remote_is_newer(bad, None), "{bad}");
        assert!(!remote_is_newer(bad, Some(0)), "{bad}");
    }
}

#[test]
fn latest_backup_is_compared_by_time_not_text() {
    // "…01Z" sorts after "…01.5Z" as text but is half a second earlier.
    let whens = vec!["2026-08-10T01:08:01Z".to_string(), "2026-08-10T01:08:01.5Z".to_string()];
    assert_eq!(latest_when(&whens).as_deref(), Some("2026-08-10T01:08:01.5Z"));
    let whens = vec!["2026-08-10T01:08:01.5Z".to_string(), "2026-08-10T01:08:01Z".to_string()];
    assert_eq!(latest_when(&whens).as_deref(), Some("2026-08-10T01:08:01.5Z"));
    // A stamp that does not read loses to any that does.
    let whens = vec!["2026-08-10T01:08:01Z".to_string(), "garbage".to_string()];
    assert_eq!(latest_when(&whens).as_deref(), Some("2026-08-10T01:08:01Z"));
    let all = latest_backups(&vec![("Celeste".to_string(), vec!["2026-08-10T01:08:01Z".to_string(), "2026-08-10T01:08:01.5Z".to_string()])]);
    assert_eq!(all, vec![("Celeste".to_string(), "2026-08-10T01:08:01.5Z".to_string())]);
}

#[test]
fn command_lines() {
    assert_eq!(
        backup_args("/mnt/nas", "zip", 5, "Celeste"),
        vec!["backup", "--api", "--force", "--path", "/mnt/nas", "--format", "zip", "--full-limit", "5", "Celeste"]
    );
    assert_eq!(
        restore_args("/mnt/nas", "Celeste"),
        vec!["restore", "--api", "--force", "--path", "/mnt/nas", "Celeste"]
    );
    assert_eq!(backup_args("/s", "simple", 255, "G")[8], "255");
}

#[test]
fn failure_messages() {
    assert_eq!(run_outcome(true, b"noise", b"more"), Ok(()));
    assert_eq!(run_outcome(false, b"  disk full\n", b"out"), Err("disk full".to_string()));
    assert_eq!(run_outcome(false, b" \n", b" game not found \n"), Err("game not found".to_string()));
    assert_eq!(query_failure(b"\tbad path\n"), "bad path");
}

fn game(name: &str) -> GameStatus {
    GameStatus { name: name.into(), bytes: 0, paths: vec![] }
}

#[test]
fn games_sort_by_lowercase_name_stably() {
    let sorted = sort_games(vec![game("celeste"), game("Braid"), game("Celeste"), game("antichamber"), game("braid")]);
    let names: Vec<&str> = sorted.iter().map(|g| g.name.as_str()).collect();
    assert_eq!(names, vec!["antichamber", "Braid", "braid", "celeste", "Celeste"]);
}

#[test]
fn game_status_sums_file_sizes() {
    let g = game_status("Celeste".into(), vec![("/a".into(), 10), ("/b".into(), 32)]);
    assert_eq!(g.bytes, 42);
    assert_eq!(g.paths, vec!["/a".to_string(), "/b".to_string()]);
    assert_eq!(files_total(&vec![("/a".into(), u64::MAX), ("/b".into(), 1)]), None);
}

#[test]
fn latest_backup_is_the_greatest_timestamp() {
    let whens = vec![
        "2026-08-10T01:08:01Z".to_string(),
        "2026-08-11T00:00:00Z".to_string(),
        "2025-12-31T23:59:59Z".to_string(),
    ];
    assert_eq!(latest_when(&whens).as_deref(), Some("2026-08-11T00:00:00Z"));
    assert_eq!(latest_when(&vec![]), None);
    let all = latest_backups(&vec![
        ("Celeste".to_string(), whens.clone()),
        ("Braid".to_string(), vec![]),
    ]);
    assert_eq!(all, vec![("Celeste".to_string(), "2026-08-11T00:00:00Z".to_string())]);
}

#[test]
fn all_games_listing_agrees_with_each_lookup() {
    let games = vec![
        ("Celeste".to_string(), vec!["2026-01-02T00:00:00Z".to_string(), "2026-01-01T00:00:00Z".to_string()]),
        ("Braid".to_string(), vec![]),
        ("Hades".to_string(), vec!["2025-05-05T05:05:05.5Z".to_string()]),
    ];
    let all = latest_backups(&games);
    for (name, whens) in &games {
        let listed = all.iter().find(|(n, _)| n == name).map(|(_, w)| w.clone());
        assert_eq!(listed, latest_when(whens), "{name}");
    }
    assert_eq!(all.len(), 2);
}
