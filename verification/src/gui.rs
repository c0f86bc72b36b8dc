//! The settings window's state and its decisions: which screen opens, what
//! the settings form starts from, which games the filter shows, and how a
//! manual push or pull starts and ends. Drawing is left to the toolkit.

use vstd::prelude::*;
use crate::config::{inherited, marked_set_up, Config, InheritedBackupSettings, opt_view};
use crate::ludusavi::{backup_args, backup_argv, restore_args, restore_argv, strings_view, GameStatus};
use crate::text::{
    chars_of, decimal, decimal_chars, lowercase_chars, string_of, trim, trimmed, unicode_lowercase,
};
use crate::gameid::{find_sub, find_sub_exec, occurs_at};

verus! {

/// The two screens of the window.
#[derive(Debug, Clone, Copy, PartialEq, Eq, Structural)]
pub enum Screen {
    Onboarding,
    Main,
}

/// A configuration whose welcome screen was completed opens on the main
/// screen; any other on the welcome screen.
pub open spec fn initial_screen_of(config: Config) -> Screen {
    if config.onboarded {
        Screen::Main
    } else {
        Screen::Onboarding
    }
}

/// The screen the window opens on for `config`.
pub fn initial_screen(config: &Config) -> (r: Screen)
    ensures
        r == initial_screen_of(*config),
{
    if config.onboarded {
        Screen::Main
    } else {
        Screen::Onboarding
    }
}

// ---------------------------------------------------------------------------
// The settings form
// ---------------------------------------------------------------------------

/// The editable values of the settings form.
#[derive(Debug, Clone)]
pub struct SettingsForm {
    pub sync_path_text: String,
    pub format_zip: bool,
    pub full_limit_text: String,
}

/// The sync folder field as the form opens on `config`: the folder, or
/// blank when there is none.
pub open spec fn form_sync_text(config: Config) -> Seq<char> {
    match config.sync_path {
        Some(p) => p@,
        None => Seq::<char>::empty(),
    }
}

impl SettingsForm {
    /// The form as it opens: the sync folder (blank when none), whether the
    /// format in effect is zip, and the retention limit in effect.
    pub fn from_config(config: &Config) -> (f: SettingsForm)
        ensures
            f.sync_path_text@ == form_sync_text(*config),
            f.format_zip == (config.format_of() == "zip"@),
            f.full_limit_text@ == decimal(config.full_limit_of() as nat),
    {
        let sync_path_text = match &config.sync_path {
            Some(p) => p.clone(),
            None => String::new(),
        };
        let zip = "zip".to_owned();
        let format_zip = config.format().to_owned() == zip;
        let full_limit_text = string_of(&decimal_chars(config.full_limit() as u64));
        SettingsForm { sync_path_text, format_zip, full_limit_text }
    }

    /// "Get started" on the welcome screen: the form's values are taken,
    /// the welcome screen counts as completed, and the main screen opens.
    pub fn finish_onboarding(&self, config: &mut Config) -> (r: Screen)
        ensures
            r == Screen::Main,
            final(config).onboarded,
            opt_view(final(config).sync_path) == (if trim(self.sync_path_text@).len() == 0 {
                None
            } else {
                Some(trim(self.sync_path_text@))
            }),
            opt_view(final(config).format) == Some(
                if self.format_zip {
                    "zip"@
                } else {
                    "simple"@
                },
            ),
            final(config).full_limit == match crate::text::parse_unsigned(
                trim(self.full_limit_text@),
                255,
            ) {
                Some(n) => Some(n as u8),
                None => None,
            },
            final(config).ludusavi_path == old(config).ludusavi_path,
            final(config).exe_names == old(config).exe_names,
            final(config).ignored_exes == old(config).ignored_exes,
    {
        config.apply_settings_form(
            self.sync_path_text.as_str(),
            self.format_zip,
            self.full_limit_text.as_str(),
        );
        config.onboarded = true;
        Screen::Main
    }
}

/// The configuration the window opens on: the stored one, counted as set up
/// when it has a sync folder of its own, then with Ludusavi's settings
/// filling what it leaves unset.
pub open spec fn opening_config(stored: Config, ludusavi: Option<InheritedBackupSettings>) -> Config {
    inherited(marked_set_up(stored), ludusavi)
}

/// The window as it opens: its configuration, its first screen and its
/// settings form.
pub fn open_window(stored: Config, ludusavi: Option<InheritedBackupSettings>) -> (r: (Config, Screen, SettingsForm))
    ensures
        r.0 == opening_config(stored, ludusavi),
        r.1 == initial_screen_of(r.0),
        r.2.sync_path_text@ == form_sync_text(r.0),
        r.2.format_zip == (r.0.format_of() == "zip"@),
        r.2.full_limit_text@ == decimal(r.0.full_limit_of() as nat),
{
    let mut config = stored;
    config.skip_onboarding_if_already_set_up();
    config.inherit_from_ludusavi_if_unset(ludusavi);
    let screen = initial_screen(&config);
    let form = SettingsForm::from_config(&config);
    (config, screen, form)
}

/// With Ludusavi already set up before Nimbus, the first run opens on the
/// welcome screen with Ludusavi's backup folder in the sync folder field;
/// a configuration with a sync folder of its own opens on the main screen.
pub proof fn law_first_run_welcome_is_prefilled(stored: Config, settings: InheritedBackupSettings)
    requires
        stored.sync_path is None,
        !stored.onboarded,
        settings.path is Some,
    ensures
        initial_screen_of(opening_config(stored, Some(settings))) == Screen::Onboarding,
        form_sync_text(opening_config(stored, Some(settings))) == settings.path->0@,
{
}

/// A stored configuration with a sync folder of its own opens on the main
/// screen, with that folder, whatever Ludusavi has.
pub proof fn law_set_up_config_opens_main(stored: Config, ludusavi: Option<InheritedBackupSettings>)
    requires
        stored.sync_path is Some,
    ensures
        initial_screen_of(opening_config(stored, ludusavi)) == Screen::Main,
        form_sync_text(opening_config(stored, ludusavi)) == stored.sync_path->0@,
{
}

/// Whether the form warns that the sync folder typed in looks like a folder
/// on this machine, on Windows (`windows`) or elsewhere: never for a blank
/// field, otherwise exactly when `ui::looks_local_on` says so.
pub fn sync_folder_warning_for(text: &str, windows: bool) -> (r: bool)
    ensures
        r == (trim(text@).len() > 0 && crate::ui::looks_local_on(text@, windows)),
{
    let t = trimmed(&chars_of(text));
    t.len() != 0 && crate::ui::looks_local_for(text, windows)
}

/// `sync_folder_warning_for` on the platform Nimbus runs on.
pub fn sync_folder_warning(text: &str) -> (r: bool)
    ensures
        r == (trim(text@).len() > 0 && crate::ui::looks_local_on(text@, true)) || r == (trim(text@).len()
            > 0 && crate::ui::looks_local_on(text@, false)),
{
    sync_folder_warning_for(text, crate::ui::backslash_separated())
}

// ---------------------------------------------------------------------------
// Ludusavi's status line
// ---------------------------------------------------------------------------

/// Whether Ludusavi answered a version query: its version, or the
/// executable that was looked for.
#[derive(Debug, Clone)]
pub enum LudusaviStatus {
    Missing(String),
    Found(String),
}

/// The status for the executable `bin`, given what the version query
/// returned (`config::probe_ludusavi`).
pub fn ludusavi_status(bin: String, version: Option<String>) -> (r: LudusaviStatus)
    ensures
        match version {
            Some(v) => r matches LudusaviStatus::Found(w) && w@ == v@,
            None => r matches LudusaviStatus::Missing(b) && b@ == bin@,
        },
{
    match version {
        Some(v) => LudusaviStatus::Found(v),
        None => LudusaviStatus::Missing(bin),
    }
}

impl LudusaviStatus {
    /// The line shown at the top of the settings tab.
    pub fn line(&self) -> (r: String)
        ensures
            r@ == match *self {
                LudusaviStatus::Found(v) => "Ludusavi "@ + v@ + " found"@,
                LudusaviStatus::Missing(b) => "Ludusavi not found (looked for "@ + b@
                    + "). Nimbus can't sync anything until it's installed, or ludusavi.exe is placed next to nimbus.exe."@,
            },
    {
        match self {
            LudusaviStatus::Found(v) => {
                let mut s = "Ludusavi ".to_owned();
                s.append(v.as_str());
                s.append(" found");
                s
            },
            LudusaviStatus::Missing(b) => {
                let mut s = "Ludusavi not found (looked for ".to_owned();
                s.append(b.as_str());
                s.append(
                    "). Nimbus can't sync anything until it's installed, or ludusavi.exe is placed next to nimbus.exe.",
                );
                s
            },
        }
    }
}

/// What the Add-to-PATH button reports: on success a reminder to restart
/// Steam (on the settings tab also the short Launch Options it allows),
/// otherwise the reason.
pub fn path_result_message(result: &Result<(), String>, on_settings_tab: bool) -> (r: String)
    ensures
        r@ == match *result {
            Ok(()) => if on_settings_tab {
                "Added. Restart Steam (and any open terminals) for it to take effect, then Launch Options can just say: nimbus %command%"@
            } else {
                "Added. Restart Steam (and any open terminals) for it to take effect."@
            },
            Err(e) => "Couldn't add to PATH: "@ + e@,
        },
{
    match result {
        Ok(()) => if on_settings_tab {
            "Added. Restart Steam (and any open terminals) for it to take effect, then Launch Options can just say: nimbus %command%".to_owned()
        } else {
            "Added. Restart Steam (and any open terminals) for it to take effect.".to_owned()
        },
        Err(e) => {
            let mut s = "Couldn't add to PATH: ".to_owned();
            s.append(e.as_str());
            s
        },
    }
}

// ---------------------------------------------------------------------------
// The game list and its filter
// ---------------------------------------------------------------------------

/// Whether `needle` occurs somewhere in `hay` (`str::contains`).
pub open spec fn contains_sub(hay: Seq<char>, needle: Seq<char>) -> bool {
    exists|i: int| occurs_at(hay, needle, i)
}

/// A game shows under `filter` when the lowercased filter is empty or
/// occurs in the lowercased name.
pub open spec fn shows(name: Seq<char>, filter: Seq<char>) -> bool {
    unicode_lowercase(filter).len() == 0 || contains_sub(unicode_lowercase(name), unicode_lowercase(filter))
}

/// The rows (name and size) of the games that show under `filter`, in
/// list order.
pub open spec fn visible_rows(games: Seq<GameStatus>, filter: Seq<char>) -> Seq<(Seq<char>, u64)>
    decreases games.len(),
{
    if games.len() == 0 {
        seq![]
    } else {
        let rest = visible_rows(games.drop_last(), filter);
        let g = games.last();
        if shows(g.name@, filter) {
            rest.push((g.name@, g.bytes))
        } else {
            rest
        }
    }
}

/// The filter matches text anywhere in a game's name, ignoring case: the
/// rows shown are, in list order, exactly the games whose lowercased name
/// holds the lowercased filter somewhere (all games for an empty filter).
pub proof fn law_filter_finds_text_anywhere_in_name(games: Seq<GameStatus>, filter: Seq<char>)
    ensures
        visible_rows(games, filter) == games.filter_map(
            |g: GameStatus|
                if unicode_lowercase(filter).len() == 0 || exists|k: int|
                    0 <= k && k + unicode_lowercase(filter).len() <= unicode_lowercase(g.name@).len()
                        && (#[trigger] unicode_lowercase(g.name@).skip(k)).take(unicode_lowercase(filter).len() as int)
                        == unicode_lowercase(filter) {
                    Some((g.name@, g.bytes))
                } else {
                    None
                },
        ),
    decreases games.len(),
{
    if games.len() > 0 {
        law_filter_finds_text_anywhere_in_name(games.drop_last(), filter);
        let g = games.last();
        let lf = unicode_lowercase(filter);
        let ln = unicode_lowercase(g.name@);
        let anywhere = lf.len() == 0 || exists|k: int|
            0 <= k && k + lf.len() <= ln.len() && (#[trigger] ln.skip(k)).take(lf.len() as int) == lf;
        assert(shows(g.name@, filter) == anywhere) by {
            if contains_sub(ln, lf) {
                let k = choose|k: int| occurs_at(ln, lf, k);
                assert(ln.skip(k).take(lf.len() as int) =~= ln.subrange(k, k + lf.len()));
            }
            if exists|k: int| 0 <= k && k + lf.len() <= ln.len() && (#[trigger] ln.skip(k)).take(lf.len() as int) == lf {
                let k = choose|k: int| 0 <= k && k + lf.len() <= ln.len() && (#[trigger] ln.skip(k)).take(lf.len() as int) == lf;
                assert(ln.skip(k).take(lf.len() as int) =~= ln.subrange(k, k + lf.len()));
                assert(occurs_at(ln, lf, k));
            }
        }
        let rest = visible_rows(games.drop_last(), filter);
        if anywhere {
            assert(rest.push((g.name@, g.bytes)) =~= rest + seq![(g.name@, g.bytes)]);
        }
    }
}

pub open spec fn rows_view(rows: Seq<(String, u64)>) -> Seq<(Seq<char>, u64)> {
    rows.map_values(|r: (String, u64)| (r.0@, r.1))
}

fn contains_chars(hay: &Vec<char>, needle: &Vec<char>) -> (r: bool)
    ensures
        r == contains_sub(hay@, needle@),
{
    proof {
        reveal(find_sub);
    }
    match find_sub_exec(hay, needle) {
        Some(_) => true,
        None => false,
    }
}

/// The games tab's list under the filter text `filter`.
pub fn visible_games(games: &Vec<GameStatus>, filter: &str) -> (r: Vec<(String, u64)>)
    ensures
        rows_view(r@) == visible_rows(games@, filter@),
{
    let lf = lowercase_chars(&chars_of(filter));
    let mut out: Vec<(String, u64)> = Vec::new();
    let mut i: usize = 0;
    while i < games.len()
        invariant
            i <= games.len(),
            lf@ == unicode_lowercase(filter@),
            rows_view(out@) == visible_rows(games@.take(i as int), filter@),
        decreases games.len() - i,
    {
        let g = &games[i];
        assert(games@.take(i + 1).drop_last() =~= games@.take(i as int));
        let show = if lf.len() == 0 {
            true
        } else {
            let ln = lowercase_chars(&chars_of(g.name.as_str()));
            contains_chars(&ln, &lf)
        };
        if show {
            let ghost before = rows_view(out@);
            out.push((g.name.clone(), g.bytes));
            assert(rows_view(out@) =~= before.push((g.name@, g.bytes)));
        }
        i = i + 1;
    }
    assert(games@.take(i as int) =~= games@);
    out
}

// ---------------------------------------------------------------------------
// Manual push and pull
// ---------------------------------------------------------------------------

/// A manual action on one game.
#[derive(Debug, Clone, Copy, PartialEq, Eq, Structural)]
pub enum ActionKind {
    /// Back the game up to the sync folder.
    Push,
    /// Restore the game from the sync folder.
    Pull,
}

pub open spec fn kind_label(kind: ActionKind) -> Seq<char> {
    match kind {
        ActionKind::Push => "Push"@,
        ActionKind::Pull => "Pull"@,
    }
}

impl ActionKind {
    /// The action's name as the window shows it.
    pub fn label(&self) -> (r: &'static str)
        ensures
            r@ == kind_label(*self),
    {
        match self {
            ActionKind::Push => "Push",
            ActionKind::Pull => "Pull",
        }
    }
}

/// Where the manual action stands.
#[derive(Debug, Clone)]
pub enum ActionState {
    Idle,
    Running { game: String, kind: ActionKind },
    Done { message: String, ok: bool },
}

/// Starting an action on `game`: without a sync folder it ends at once
/// with a request to set one; otherwise it runs, and these are the
/// arguments of the Ludusavi run (a backup with the format and retention in
/// effect, or a restore).
pub fn start_action(config: &Config, game: &str, kind: ActionKind) -> (r: (ActionState, Option<Vec<String>>))
    ensures
        match config.sync_path {
            None => r.1 is None && (r.0 matches ActionState::Done { message, ok } && message@
                == "Set a sync folder first."@ && !ok),
            Some(p) => (r.0 matches ActionState::Running { game: g, kind: k } && g@ == game@ && k
                == kind) && (r.1 matches Some(args) && strings_view(args@) == match kind {
                ActionKind::Push => backup_argv(p@, config.format_of(), config.full_limit_of(), game@),
                ActionKind::Pull => restore_argv(p@, game@),
            }),
        },
{
    match &config.sync_path {
        None => (ActionState::Done { message: "Set a sync folder first.".to_owned(), ok: false }, None),
        Some(p) => {
            let args = match kind {
                ActionKind::Push => backup_args(p.as_str(), config.format(), config.full_limit(), game),
                ActionKind::Pull => restore_args(p.as_str(), game),
            };
            (ActionState::Running { game: game.to_owned(), kind }, Some(args))
        },
    }
}

/// The line shown while an action runs.
pub fn progress_label(kind: ActionKind, game: &str) -> (r: String)
    ensures
        r@ == kind_label(kind) + " in progress for "@ + game@ + "…"@,
{
    let mut s = kind.label().to_owned();
    s.append(" in progress for ");
    s.append(game);
    s.append("…");
    s
}

/// How a finished action is reported.
pub fn finish_action(game: &str, kind: ActionKind, result: &Result<(), String>) -> (r: ActionState)
    ensures
        r matches ActionState::Done { message, ok } && ok == (result is Ok) && message@ == match *result {
            Ok(()) => kind_label(kind) + " succeeded for "@ + game@ + "."@,
            Err(e) => kind_label(kind) + " failed for "@ + game@ + ": "@ + e@,
        },
{
    let mut s = kind.label().to_owned();
    match result {
        Ok(()) => {
            s.append(" succeeded for ");
            s.append(game);
            s.append(".");
            ActionState::Done { message: s, ok: true }
        },
        Err(e) => {
            s.append(" failed for ");
            s.append(game);
            s.append(": ");
            s.append(e.as_str());
            ActionState::Done { message: s, ok: false }
        },
    }
}

} // verus!
