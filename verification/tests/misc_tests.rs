use nimbus::config::Config;
use nimbus::gameid::Identity;
use nimbus::log::{console_line, format_log_timestamp, log_record, should_rotate};
use nimbus::startup::{autostart_entry, startup_script};
use nimbus::timestamp::{civil_from_days_exec, days_from_civil_checked};
use nimbus::wrap::{command_line, exit_code_byte, launch_plan, wrap_args, LaunchPlan};

#[test]
fn civil_dates_and_day_numbers() {
    assert_eq!(days_from_civil_checked(1970, 1, 1), Some(0));
    assert_eq!(days_from_civil_checked(2000, 3, 1), Some(11017));
    assert_eq!(days_from_civil_checked(1969, 12, 31), Some(-1));
    assert_eq!(days_from_civil_checked(2024, 2, 29), Some(19782));
    assert_eq!(days_from_civil_checked(2026, 3, 0), None);
    assert_eq!(days_from_civil_checked(i64::MIN, 1, 1), None);
    assert_eq!(civil_from_days_exec(0), (1970, 1, 1));
    assert_eq!(civil_from_days_exec(19782), (2024, 2, 29));
    assert_eq!(civil_from_days_exec(-1), (1969, 12, 31));
    assert_eq!(civil_from_days_exec(11017), (2000, 3, 1));
}

#[test]
fn log_lines() {
    assert_eq!(format_log_timestamp(0), "1970-01-01 00:00:00");
    assert_eq!(format_log_timestamp(1_786_324_081), "2026-08-10 01:08:01");
    assert_eq!(log_record("1970-01-01 00:00:00", "hi"), "[1970-01-01 00:00:00] hi");
    assert_eq!(console_line("hi"), "nimbus: hi");
    assert!(should_rotate(1_000_001));
    assert!(!should_rotate(1_000_000));
}

#[test]
fn wrap_command_line() {
    let mut c = Config::default();
    c.sync_path = Some("//TOWER/Saves".into());
    let cmd = vec!["/games/hk".to_string(), "-windowed".to_string()];
    let args = wrap_args(&c, &Identity::Named("Hollow Knight".into()), &cmd);
    assert_eq!(
        args,
        vec![
            "wrap", "--path", "//TOWER/Saves", "--format", "zip", "--full-limit", "5", "--force", "--name",
            "Hollow Knight", "--", "/games/hk", "-windowed"
        ]
    );
    let args = wrap_args(&c, &Identity::Infer("steam"), &cmd);
    assert_eq!(&args[8..10], &["--infer".to_string(), "steam".to_string()]);
    assert_eq!(command_line("ludusavi", &vec!["a".into(), "b c".into()]), "ludusavi a b c");
    assert_eq!(command_line("ludusavi", &vec![]), "ludusavi ");
}

#[test]
fn launches_untouched_without_folder_or_identity() {
    let mut c = Config::default();
    let cmd = vec!["/games/x".to_string()];
    assert!(matches!(launch_plan(&c, Some(Identity::Infer("steam")), &cmd), LaunchPlan::NoSyncFolder));
    c.sync_path = Some("/s".into());
    assert!(matches!(launch_plan(&c, None, &cmd), LaunchPlan::Unidentified));
    assert!(matches!(launch_plan(&c, Some(Identity::Infer("steam")), &cmd), LaunchPlan::ViaLudusavi(_)));
}

#[test]
fn exit_codes_fold_to_a_byte() {
    assert_eq!(exit_code_byte(Some(0)), 0);
    assert_eq!(exit_code_byte(Some(3)), 3);
    assert_eq!(exit_code_byte(Some(256 + 7)), 7);
    assert_eq!(exit_code_byte(Some(-1)), 255);
    assert_eq!(exit_code_byte(None), 0);
}

#[test]
fn autostart_files() {
    assert_eq!(startup_script("C:\\N\\nimbus.exe"), "@echo off\r\nstart \"\" \"C:\\N\\nimbus.exe\" --tray\r\n");
    assert_eq!(
        autostart_entry("/opt/nimbus"),
        "[Desktop Entry]\nType=Application\nName=Nimbus (background sync)\nExec=\"/opt/nimbus\" --tray\nX-GNOME-Autostart-enabled=true\n"
    );
}
