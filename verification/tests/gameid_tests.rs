use nimbus::config::Config;
use nimbus::gameid::{clean, resolve, Identity};

#[test]
fn strips_scene_group_and_release_noise() {
    assert_eq!(clean("Hollow_Knight-FLT"), "Hollow Knight");
    assert_eq!(clean("Stardew.Valley.GOG"), "Stardew Valley");
    assert_eq!(clean("Cuphead-CODEX"), "Cuphead");
}

#[test]
fn leaves_titles_that_only_partially_overlap_junk_words() {
    // "gog" is junk, but must not eat part of an unrelated word.
    assert_eq!(clean("Goggles of Doom"), "Goggles of Doom");
}

#[test]
fn collapses_separators_to_single_spaces() {
    assert_eq!(clean("The___Long---Dark..."), "The Long Dark");
}

#[test]
fn every_whole_word_occurrence_of_a_junk_word_is_stripped() {
    // The "game" inside "Gamer" is not a whole word; the later one is.
    assert_eq!(clean("Gamer game"), "Gamer");
    // ".GOG" goes even though "gog" also occurs inside "Goggles".
    assert_eq!(clean("Goggles.GOG"), "Goggles");
    assert_eq!(clean("bin/x64/shipping"), "/ /shipping");
    assert_eq!(clean("Hades_x64_bin"), "Hades");
    assert_eq!(clean("launcher"), "");
    assert_eq!(clean("FLT flt Flt"), "");
}

#[test]
fn non_ascii_names_keep_their_characters() {
    assert_eq!(clean("Ōkami-HD_GOG"), "Ōkami HD");
    // Junk words match ASCII letters only, whatever the case; the Kelvin
    // sign is left as it is and never panics the cleaner.
    assert_eq!(clean("\u{212A}-FLT"), "\u{212A}");
    assert_eq!(clean("İ codex"), "İ");
}

#[test]
fn resolution_order() {
    let mut c = Config::default();
    c.remember("/games/hk", "Hollow Knight");
    assert!(matches!(resolve(true, Some("X".into()), "/games/hk", &c), Some(Identity::Infer("steam"))));
    match resolve(false, Some("Override".into()), "/games/hk", &c) {
        Some(Identity::Named(n)) => assert_eq!(n, "Override"),
        other => panic!("unexpected {other:?}"),
    }
    match resolve(false, None, "/games/hk", &c) {
        Some(Identity::Named(n)) => assert_eq!(n, "Hollow Knight"),
        other => panic!("unexpected {other:?}"),
    }
    assert!(resolve(false, None, "/games/unknown", &c).is_none());
}
