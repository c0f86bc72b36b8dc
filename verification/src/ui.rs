//! What Nimbus tells the user and what it makes of the answers: the
//! one-time game confirmation, the notifications of the background daemon,
//! and the hint that a sync folder is not a network share.

use vstd::prelude::*;
use crate::config::Config;
use crate::gameid::Identity;
use crate::text::{all_ascii, ascii_uppercase, chars_of, has_prefix, starts_with, unicode_uppercase, uppercase_chars};

verus! {

pub const LUDUSAVI_URL: &'static str = "https://github.com/mtkennerly/ludusavi";

// ---------------------------------------------------------------------------
// Sync-folder hint
// ---------------------------------------------------------------------------

/// `\` written as `/`.
pub open spec fn forward_slashes(s: Seq<char>) -> Seq<char> {
    s.map_values(|c: char| if c == '\\' {
        '/'
    } else {
        c
    })
}

/// Rough check for "this path is on this machine, not a share", on Windows
/// (`windows`) or elsewhere. A UNC share never is; on Windows only the `C:`
/// drive counts (a mapped network drive looks like any other letter), on
/// other systems only home directories.
pub open spec fn looks_local_on(path: Seq<char>, windows: bool) -> bool {
    let p = forward_slashes(path);
    if has_prefix(p, "//"@) {
        false
    } else if windows {
        has_prefix(unicode_uppercase(p), "C:/"@)
    } else {
        has_prefix(p, "/home/"@) || has_prefix(p, "/root/"@)
    }
}

/// `looks_local_on`, computed.
pub fn looks_local_for(path: &str, windows: bool) -> (r: bool)
    ensures
        r == looks_local_on(path@, windows),
        all_ascii(path@) && windows ==> r == (!has_prefix(forward_slashes(path@), "//"@) && has_prefix(
            ascii_uppercase(forward_slashes(path@)),
            "C:/"@,
        )),
{
    let cs = chars_of(path);
    let mut p: Vec<char> = Vec::new();
    let mut i: usize = 0;
    while i < cs.len()
        invariant
            i <= cs.len(),
            cs@ == path@,
            p@ == forward_slashes(path@).take(i as int),
        decreases cs.len() - i,
    {
        p.push(
            if cs[i] == '\\' {
                '/'
            } else {
                cs[i]
            },
        );
        i = i + 1;
        assert(p@ =~= forward_slashes(path@).take(i as int));
    }
    assert(forward_slashes(path@).take(i as int) =~= forward_slashes(path@));
    if starts_with(&p, &chars_of("//")) {
        return false;
    }
    if windows {
        assert(all_ascii(path@) ==> all_ascii(p@)) by {
            if all_ascii(path@) {
                assert forall|i: int| 0 <= i < p@.len() implies (#[trigger] p@[i]) as u32 <= 127 by {
                    assert(p@[i] == '/' || p@[i] == path@[i]);
                }
            }
        }
        starts_with(&uppercase_chars(&p), &chars_of("C:/"))
    } else {
        starts_with(&p, &chars_of("/home/")) || starts_with(&p, &chars_of("/root/"))
    }
}

/// Whether the platform's main path separator is `\` (Windows).
#[verifier::external_body]
pub(crate) fn backslash_separated() -> bool {
    std::path::MAIN_SEPARATOR == '\\'
}

/// `looks_local_on` for the platform Nimbus runs on. Deliberately
/// conservative: only used to soften a hint, never to block anything.
pub fn looks_local(path: &str) -> (r: bool)
    ensures
        r == looks_local_on(path@, true) || r == looks_local_on(path@, false),
{
    looks_local_for(path, backslash_separated())
}

// ---------------------------------------------------------------------------
// Confirming an unrecognized game
// ---------------------------------------------------------------------------

/// The answer to the one-time prompt about an unrecognized executable.
#[derive(Debug, Clone)]
pub enum Confirmation {
    Named(String),
    /// Skip syncing this time, but ask again next launch.
    Skip,
    /// Never ask about this executable again.
    Ignore,
}

/// How the prompt names the executable `exe`, given its file name as
/// `Path::file_name` finds it: that name, or the whole path where there is
/// none.
pub fn prompt_subject_given(exe: &str, file_name: Option<String>) -> (r: String)
    ensures
        r@ == match file_name {
            Some(n) => n@,
            None => exe@,
        },
{
    match file_name {
        Some(name) => name,
        None => exe.to_owned(),
    }
}

/// How the prompt names the executable `exe` (`prompt_subject_given` with
/// the file name the platform's path rules find): the path itself when it
/// is empty, ends in `..` or is a bare name; the part after the last `/`
/// of a `/`-path when that part is plain; for other paths which file name,
/// is not stated.
pub fn prompt_subject(exe: &str) -> (r: String)
    ensures
        exe@.len() == 0 || crate::gameid::ends_in_parent_dir(exe@) || crate::gameid::single_component(exe@)
            ==> r@ == exe@,
        crate::gameid::slash_path(exe@) && crate::gameid::single_component(crate::gameid::last_part(exe@))
            ==> r@ == crate::gameid::last_part(exe@),
{
    prompt_subject_given(exe, crate::gameid::path_file_name(exe))
}

/// The prompt's title and text for the executable shown as `shown`, with
/// the best-guess name if there is one.
pub fn confirm_prompt(shown: &str, guess: Option<&str>) -> (r: (String, String))
    ensures
        match guess {
            Some(name) => r.0@ == "Nimbus - is this the right game?"@ && r.1@
                == "Nimbus doesn't recognize this game yet:\n"@ + shown@ + "\n\nBest guess: "@
                + name@
                + "\n\nSync saves for it under that name? Nimbus will remember your answer and won't ask again."@,
            None => r.0@ == "Nimbus - unrecognized game"@ && r.1@
                == "Nimbus couldn't work out which game this is:\n"@ + shown@
                + "\n\nIt will start normally, just without save syncing.\n\nStop asking about this program?"@,
        },
{
    match guess {
        Some(name) => {
            let mut t = "Nimbus doesn't recognize this game yet:\n".to_owned();
            t.append(shown);
            t.append("\n\nBest guess: ");
            t.append(name);
            t.append(
                "\n\nSync saves for it under that name? Nimbus will remember your answer and won't ask again.",
            );
            ("Nimbus - is this the right game?".to_owned(), t)
        },
        None => {
            let mut t = "Nimbus couldn't work out which game this is:\n".to_owned();
            t.append(shown);
            t.append(
                "\n\nIt will start normally, just without save syncing.\n\nStop asking about this program?",
            );
            ("Nimbus - unrecognized game".to_owned(), t)
        },
    }
}

/// What a Yes (`yes`) or No to the prompt means: with a guess, Yes takes
/// the guessed name; without one, Yes means stop asking. No skips.
pub fn confirmation_from_answer(guess: Option<&str>, yes: bool) -> (r: Confirmation)
    ensures
        match guess {
            Some(name) => if yes {
                r matches Confirmation::Named(n) && n@ == name@
            } else {
                r is Skip
            },
            None => if yes {
                r is Ignore
            } else {
                r is Skip
            },
        },
{
    match guess {
        Some(name) => if yes {
            Confirmation::Named(name.to_owned())
        } else {
            Confirmation::Skip
        },
        None => if yes {
            Confirmation::Ignore
        } else {
            Confirmation::Skip
        },
    }
}

/// How the configuration `f` records the answer about `exe`, given the
/// configuration `o` before it: a confirmed name becomes the game of `exe`,
/// "stop asking" puts `exe` on the ignore list (once), a skip records
/// nothing; every other setting stays.
pub open spec fn records_answer(o: Config, f: Config, exe: Seq<char>, answer: Confirmation) -> bool {
    match answer {
        Confirmation::Named(n) => {
            &&& f.exe_map() == o.exe_map().insert(exe, n@)
            &&& f.ignored_exes == o.ignored_exes
            &&& f.same_settings(&o)
        },
        Confirmation::Ignore => {
            &&& f.ignored() == (if o.ignored().contains(exe) {
                o.ignored()
            } else {
                o.ignored().push(exe)
            })
            &&& f.exe_names == o.exe_names
            &&& f.same_settings(&o)
        },
        Confirmation::Skip => f == o,
    }
}

/// Whether a launch of `exe` under `config` has to ask which game it is:
/// not launched by Steam, no name given for the run, no game confirmed for
/// `exe` and not told to stop asking (`wrap::lookup`).
pub open spec fn asks_about(steam_app_id_set: bool, name_given: bool, exe: Seq<char>, config: Config) -> bool {
    !steam_app_id_set && !name_given && config.name_of(exe) is None && !config.ignored().contains(exe)
}

/// An answer other than a skip is remembered from then on: later launches
/// of that executable are never asked about again, and a confirmed name is
/// the game they sync under.
pub proof fn law_answer_is_remembered(o: Config, f: Config, exe: Seq<char>, answer: Confirmation)
    requires
        records_answer(o, f, exe, answer),
        !(answer is Skip),
    ensures
        forall|steam: bool, given: bool| !asks_about(steam, given, exe, f),
        answer matches Confirmation::Named(n) ==> f.name_of(exe) == Some(n@),
{
    if answer is Ignore {
        if !o.ignored().contains(exe) {
            assert(o.ignored().push(exe)[o.ignored().len() as int] == exe);
        }
    }
}

/// Applies the answer about `exe`: a confirmed name is remembered and used,
/// an ignore is remembered, a skip changes nothing. The caller saves the
/// configuration when it changed.
pub fn apply_confirmation(config: &mut Config, exe: &str, answer: Confirmation) -> (r: Option<Identity>)
    ensures
        records_answer(*old(config), *final(config), exe@, answer),
        match answer {
            Confirmation::Named(n) => r matches Some(Identity::Named(m)) && m == n,
            _ => r is None,
        },
{
    match answer {
        Confirmation::Named(name) => {
            config.remember(exe, name.as_str());
            Some(Identity::Named(name))
        },
        Confirmation::Ignore => {
            config.ignore(exe);
            None
        },
        Confirmation::Skip => None,
    }
}

// ---------------------------------------------------------------------------
// Notifications
// ---------------------------------------------------------------------------

/// A notification: summary line and body.
#[derive(Debug, Clone)]
pub struct Notice {
    pub summary: String,
    pub body: String,
}

impl Notice {
    /// The line logged when the notification is shown.
    pub fn log_line(&self) -> (r: String)
        ensures
            r@ == "notify: "@ + self.summary@ + " - "@ + self.body@,
    {
        let mut s = "notify: ".to_owned();
        s.append(self.summary.as_str());
        s.append(" - ");
        s.append(self.body.as_str());
        s
    }
}

fn titled(game: &str, suffix: &str, body: &str) -> (r: Notice)
    ensures
        r.summary@ == game@ + suffix@,
        r.body@ == body@,
{
    let mut s = game.to_owned();
    s.append(suffix);
    Notice { summary: s, body: body.to_owned() }
}

/// A newer save of `game` was pulled from the sync folder.
pub fn pulled(game: &str) -> (r: Notice)
    ensures
        r.summary@ == game@ + " updated"@,
        r.body@ == "Pulled a newer save from another PC."@,
{
    titled(game, " updated", "Pulled a newer save from another PC.")
}

/// Local changes of `game` were pushed to the sync folder.
pub fn pushed(game: &str) -> (r: Notice)
    ensures
        r.summary@ == game@ + " backed up"@,
        r.body@ == "Local changes pushed to your sync folder."@,
{
    titled(game, " backed up", "Local changes pushed to your sync folder.")
}

pub fn restore_failed(game: &str, reason: &str) -> (r: Notice)
    ensures
        r.summary@ == game@ + ": restore failed"@,
        r.body@ == reason@,
{
    titled(game, ": restore failed", reason)
}

pub fn backup_failed(game: &str, reason: &str) -> (r: Notice)
    ensures
        r.summary@ == game@ + ": backup failed"@,
        r.body@ == reason@,
{
    titled(game, ": backup failed", reason)
}

pub fn info(summary: &str, body: &str) -> (r: Notice)
    ensures
        r.summary@ == summary@,
        r.body@ == body@,
{
    Notice { summary: summary.to_owned(), body: body.to_owned() }
}

} // verus!
