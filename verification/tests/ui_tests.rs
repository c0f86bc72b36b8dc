use nimbus::config::Config;
use nimbus::gameid::Identity;
use nimbus::ui::{
    apply_confirmation, backup_failed, confirm_prompt, confirmation_from_answer, info, looks_local,
    looks_local_for, pulled, pushed, restore_failed, Confirmation,
};

#[test]
fn unc_share_is_not_local() {
    assert!(!looks_local("//nas/gamesaves"));
    assert!(!looks_local(r"\\nas\gamesaves"));
}

#[test]
fn c_drive_is_local() {
    assert!(looks_local_for(r"C:\Users\urina\ludusavi-backup", true));
    assert!(looks_local_for("C:/Users/urina/ludusavi-backup", true));
}

#[test]
fn other_drive_letter_is_not_flagged_local() {
    // A mapped network drive (e.g. Z:) looks like a plain drive letter to
    // us - we can't tell it's remote without asking the OS, so this is a
    // known blind spot, not a bug: we only warn on the common "still
    // pointed at the C: default" case.
    assert!(!looks_local_for(r"Z:\gamesaves", true));
}

#[test]
fn home_directories_are_local_elsewhere() {
    assert!(looks_local_for("/home/dan/saves", false));
    assert!(looks_local_for("/root/saves", false));
    assert!(!looks_local_for("/mnt/nas/saves", false));
    assert!(looks_local_for("c:/games", true));
    assert!(!looks_local_for("C:/games", false));
}

#[test]
fn answers_to_the_prompt() {
    assert!(matches!(confirmation_from_answer(Some("Celeste"), true), Confirmation::Named(n) if n == "Celeste"));
    assert!(matches!(confirmation_from_answer(Some("Celeste"), false), Confirmation::Skip));
    assert!(matches!(confirmation_from_answer(None, true), Confirmation::Ignore));
    assert!(matches!(confirmation_from_answer(None, false), Confirmation::Skip));
}

#[test]
fn applying_answers_updates_the_config() {
    let mut c = Config::default();
    let id = apply_confirmation(&mut c, "/g/celeste", Confirmation::Named("Celeste".into()));
    assert!(matches!(id, Some(Identity::Named(n)) if n == "Celeste"));
    assert_eq!(c.name_for_exe("/g/celeste"), Some("Celeste"));
    assert!(apply_confirmation(&mut c, "/usr/bin/top", Confirmation::Ignore).is_none());
    assert!(c.is_ignored("/usr/bin/top"));
    assert!(apply_confirmation(&mut c, "/g/x", Confirmation::Skip).is_none());
    assert!(!c.is_ignored("/g/x"));
    assert_eq!(c.name_for_exe("/g/x"), None);
}

#[test]
fn prompt_texts() {
    let (title, text) = confirm_prompt("hk.exe", Some("Hollow Knight"));
    assert_eq!(title, "Nimbus - is this the right game?");
    assert_eq!(
        text,
        "Nimbus doesn't recognize this game yet:\nhk.exe\n\nBest guess: Hollow Knight\n\nSync saves for it under that name? Nimbus will remember your answer and won't ask again."
    );
    let (title, text) = confirm_prompt("tool.exe", None);
    assert_eq!(title, "Nimbus - unrecognized game");
    assert!(text.starts_with("Nimbus couldn't work out which game this is:\ntool.exe\n\n"));
}

#[test]
fn notifications() {
    let n = pulled("Celeste");
    assert_eq!((n.summary.as_str(), n.body.as_str()), ("Celeste updated", "Pulled a newer save from another PC."));
    let n = pushed("Celeste");
    assert_eq!(n.summary, "Celeste backed up");
    assert_eq!(n.body, "Local changes pushed to your sync folder.");
    let n = restore_failed("Celeste", "no backup");
    assert_eq!((n.summary.as_str(), n.body.as_str()), ("Celeste: restore failed", "no backup"));
    let n = backup_failed("Celeste", "disk full");
    assert_eq!(n.log_line(), "notify: Celeste: backup failed - disk full");
    let n = info("Nimbus", "Sync check complete.");
    assert_eq!(n.log_line(), "notify: Nimbus - Sync check complete.");
}

