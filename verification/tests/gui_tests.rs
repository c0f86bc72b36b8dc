use nimbus::config::{Config, InheritedBackupSettings};
use nimbus::gui::{
    finish_action, initial_screen, ludusavi_status, open_window, path_result_message, progress_label,
    start_action, sync_folder_warning, sync_folder_warning_for, visible_games, ActionKind, ActionState, LudusaviStatus, Screen,
    SettingsForm,
};
use nimbus::ludusavi::GameStatus;

fn game(name: &str, bytes: u64) -> GameStatus {
    GameStatus { name: name.to_string(), bytes, paths: Vec::new() }
}

#[test]
fn first_run_opens_welcome_prefilled_from_ludusavi() {
    let ludusavi = InheritedBackupSettings {
        path: Some("//nas/saves".to_string()),
        format: Some("simple".to_string()),
        full_limit: Some(9),
    };
    let (config, screen, form) = open_window(Config::default(), Some(ludusavi));
    assert_eq!(screen, Screen::Onboarding);
    assert_eq!(config.sync_path.as_deref(), Some("//nas/saves"));
    assert_eq!(form.sync_path_text, "//nas/saves");
    assert!(!form.format_zip);
    assert_eq!(form.full_limit_text, "9");
}

#[test]
fn configured_install_opens_main_screen() {
    let mut stored = Config::default();
    stored.sync_path = Some("/mnt/nas".to_string());
    let ludusavi = InheritedBackupSettings { path: Some("/elsewhere".to_string()), format: None, full_limit: None };
    let (config, screen, form) = open_window(stored, Some(ludusavi));
    assert_eq!(screen, Screen::Main);
    assert!(config.onboarded);
    assert_eq!(form.sync_path_text, "/mnt/nas");
    assert!(form.format_zip);
    assert_eq!(form.full_limit_text, "5");
}

#[test]
fn nothing_to_borrow_opens_blank_welcome() {
    let (config, screen, form) = open_window(Config::default(), None);
    assert_eq!(screen, Screen::Onboarding);
    assert!(config.sync_path.is_none());
    assert_eq!(form.sync_path_text, "");
    assert!(initial_screen(&config) == Screen::Onboarding);
}

#[test]
fn get_started_saves_the_form_and_opens_main() {
    let mut config = Config::default();
    let form = SettingsForm {
        sync_path_text: "  //tower/Game Saves  ".to_string(),
        format_zip: false,
        full_limit_text: " 12 ".to_string(),
    };
    assert_eq!(form.finish_onboarding(&mut config), Screen::Main);
    assert!(config.onboarded);
    assert_eq!(config.sync_path.as_deref(), Some("//tower/Game Saves"));
    assert_eq!(config.format.as_deref(), Some("simple"));
    assert_eq!(config.full_limit, Some(12));
    assert_eq!(initial_screen(&config), Screen::Main);
}

#[test]
fn local_folder_warning() {
    assert!(!sync_folder_warning("   "));
    assert!(!sync_folder_warning("//nas/share"));
    assert!(!sync_folder_warning("/mnt/nas"));
    // Each platform's own rule.
    assert!(sync_folder_warning_for(r"C:\Users\me\saves", true));
    assert!(sync_folder_warning_for("c:/Users/me/saves", true));
    assert!(!sync_folder_warning_for(r"Z:\saves", true));
    assert!(!sync_folder_warning_for(r"\\nas\saves", true));
    assert!(!sync_folder_warning_for("/home/me/saves", true));
    assert!(!sync_folder_warning_for("  /home/me/saves", false));
    assert!(sync_folder_warning_for("/home/me/saves", false));
    assert!(sync_folder_warning_for("/root/saves", false));
    assert!(!sync_folder_warning_for("/mnt/nas", false));
    assert!(!sync_folder_warning_for(r"C:\Users", false));
    assert!(!sync_folder_warning_for("  ", true));
    assert!(!sync_folder_warning_for("", false));
}

#[test]
fn ludusavi_status_lines() {
    let found = ludusavi_status("ludusavi".to_string(), Some("0.31.0".to_string()));
    assert_eq!(found.line(), "Ludusavi 0.31.0 found");
    let missing = ludusavi_status("/opt/ludusavi".to_string(), None);
    assert!(matches!(missing, LudusaviStatus::Missing(ref b) if b == "/opt/ludusavi"));
    assert_eq!(
        missing.line(),
        "Ludusavi not found (looked for /opt/ludusavi). Nimbus can't sync anything until it's installed, or ludusavi.exe is placed next to nimbus.exe."
    );
}

#[test]
fn path_button_messages() {
    assert_eq!(
        path_result_message(&Ok(()), false),
        "Added. Restart Steam (and any open terminals) for it to take effect."
    );
    assert_eq!(
        path_result_message(&Ok(()), true),
        "Added. Restart Steam (and any open terminals) for it to take effect, then Launch Options can just say: nimbus %command%"
    );
    assert_eq!(path_result_message(&Err("denied".to_string()), true), "Couldn't add to PATH: denied");
}

#[test]
fn filter_matches_lowercased_substrings() {
    let games = vec![game("Hollow Knight", 10), game("Celeste", 20), game("HOLLOW Front", 30)];
    assert_eq!(
        visible_games(&games, "hollow"),
        vec![("Hollow Knight".to_string(), 10), ("HOLLOW Front".to_string(), 30)]
    );
    assert_eq!(visible_games(&games, "LESt"), vec![("Celeste".to_string(), 20)]);
    assert_eq!(visible_games(&games, "").len(), 3);
    assert!(visible_games(&games, "zelda").is_empty());
}

#[test]
fn manual_push_and_pull() {
    let mut config = Config::default();
    let (state, args) = start_action(&config, "Celeste", ActionKind::Push);
    assert!(args.is_none());
    assert!(matches!(state, ActionState::Done { ref message, ok: false } if message == "Set a sync folder first."));

    config.sync_path = Some("/mnt/nas".to_string());
    config.full_limit = Some(3);
    let (state, args) = start_action(&config, "Celeste", ActionKind::Push);
    assert!(matches!(state, ActionState::Running { ref game, kind: ActionKind::Push } if game == "Celeste"));
    assert_eq!(
        args.unwrap(),
        vec!["backup", "--api", "--force", "--path", "/mnt/nas", "--format", "zip", "--full-limit", "3", "Celeste"]
    );
    let (_, args) = start_action(&config, "Celeste", ActionKind::Pull);
    assert_eq!(args.unwrap(), vec!["restore", "--api", "--force", "--path", "/mnt/nas", "Celeste"]);
}

#[test]
fn action_reports() {
    assert_eq!(progress_label(ActionKind::Pull, "Celeste"), "Pull in progress for Celeste…");
    assert!(matches!(
        finish_action("Celeste", ActionKind::Push, &Ok(())),
        ActionState::Done { ref message, ok: true } if message == "Push succeeded for Celeste."
    ));
    assert!(matches!(
        finish_action("Celeste", ActionKind::Pull, &Err("no backups".to_string())),
        ActionState::Done { ref message, ok: false } if message == "Pull failed for Celeste: no backups"
    ));
}
