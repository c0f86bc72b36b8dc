//! Nimbus's own settings: where saves go, how they are kept, and which
//! executables map to which game. Ludusavi's config is only ever read, to
//! seed a first run.

use vstd::prelude::*;
use crate::assoc::{assoc_get, assoc_map, assoc_set, contains_string, pairs_view};
use crate::text::{
    chars_of, lossy_string, parse_u8, parse_unsigned, string_of, trim, trimmed, utf8_lossy,
};
use crate::yaml::{scan_yaml_leaves, yaml_leaves};

verus! {

pub const DEFAULT_FORMAT: &'static str = "zip";

pub const DEFAULT_FULL_LIMIT: u8 = 5;

pub open spec fn opt_view(o: Option<String>) -> Option<Seq<char>> {
    match o {
        Some(s) => Some(s@),
        None => None,
    }
}

/// The configuration after a first run borrowed Ludusavi's `settings`:
/// unchanged when Nimbus already has a sync folder or there is nothing to
/// borrow; otherwise Ludusavi's folder, and its format and retention where
/// Nimbus has none of its own.
pub open spec fn inherited(o: Config, settings: Option<InheritedBackupSettings>) -> Config {
    if o.sync_path is Some || settings is None {
        o
    } else {
        let s = settings->0;
        Config {
            sync_path: s.path,
            format: if o.format is None {
                s.format
            } else {
                o.format
            },
            full_limit: if o.full_limit is None {
                s.full_limit
            } else {
                o.full_limit
            },
            ludusavi_path: o.ludusavi_path,
            exe_names: o.exe_names,
            ignored_exes: o.ignored_exes,
            onboarded: o.onboarded,
        }
    }
}

/// `o`, with its welcome screen counted as completed when it has a sync
/// folder.
pub open spec fn marked_set_up(o: Config) -> Config {
    Config { onboarded: o.onboarded || o.sync_path is Some, ..o }
}

/// The settings. `exe_names` maps an executable path to the game name the
/// user confirmed for it (a later pair for a path hides earlier ones);
/// `ignored_exes` lists executables the user declined to identify.
#[derive(Debug, Clone)]
pub struct Config {
    pub sync_path: Option<String>,
    pub format: Option<String>,
    pub full_limit: Option<u8>,
    /// Override if `ludusavi` isn't on PATH and no bundled copy is found.
    pub ludusavi_path: Option<String>,
    pub exe_names: Vec<(String, String)>,
    pub ignored_exes: Vec<String>,
    /// Whether the welcome screen has been completed.
    pub onboarded: bool,
}

impl Default for Config {
    fn default() -> (c: Config)
        ensures
            c.sync_path is None,
            c.format is None,
            c.full_limit is None,
            c.ludusavi_path is None,
            c.exe_names@.len() == 0,
            c.ignored_exes@.len() == 0,
            !c.onboarded,
    {
        Config {
            sync_path: None,
            format: None,
            full_limit: None,
            ludusavi_path: None,
            exe_names: Vec::new(),
            ignored_exes: Vec::new(),
            onboarded: false,
        }
    }
}

impl Config {
    /// The executable-to-game map.
    pub open spec fn exe_map(&self) -> Map<Seq<char>, Seq<char>> {
        assoc_map(pairs_view(self.exe_names@))
    }

    /// The ignored executables.
    pub open spec fn ignored(&self) -> Seq<Seq<char>> {
        self.ignored_exes@.map_values(|s: String| s@)
    }

    /// The game name confirmed for `exe`, if any.
    pub open spec fn name_of(&self, exe: Seq<char>) -> Option<Seq<char>> {
        if self.exe_map().contains_key(exe) {
            Some(self.exe_map()[exe])
        } else {
            None
        }
    }

    /// The backup format in effect.
    pub open spec fn format_of(&self) -> Seq<char> {
        match self.format {
            Some(f) => f@,
            None => DEFAULT_FORMAT@,
        }
    }

    /// The retention limit in effect.
    pub open spec fn full_limit_of(&self) -> u8 {
        match self.full_limit {
            Some(n) => n,
            None => DEFAULT_FULL_LIMIT,
        }
    }

    /// Everything but the executable map and the ignore list is the same.
    pub open spec fn same_settings(&self, other: &Config) -> bool {
        &&& self.sync_path == other.sync_path
        &&& self.format == other.format
        &&& self.full_limit == other.full_limit
        &&& self.ludusavi_path == other.ludusavi_path
        &&& self.onboarded == other.onboarded
    }

    pub fn name_for_exe(&self, exe: &str) -> (r: Option<&str>)
        ensures
            match r {
                Some(n) => self.name_of(exe@) == Some(n@),
                None => self.name_of(exe@) is None,
            },
    {
        match assoc_get(&self.exe_names, exe) {
            Some(n) => Some(n.as_str()),
            None => None,
        }
    }

    pub fn is_ignored(&self, exe: &str) -> (r: bool)
        ensures
            r == self.ignored().contains(exe@),
    {
        let k = exe.to_owned();
        contains_string(&self.ignored_exes, &k)
    }

    /// Records `name` as the game for `exe`.
    pub fn remember(&mut self, exe: &str, name: &str)
        ensures
            final(self).exe_map() == old(self).exe_map().insert(exe@, name@),
            final(self).ignored_exes == old(self).ignored_exes,
            final(self).same_settings(old(self)),
    {
        assoc_set(&mut self.exe_names, exe.to_owned(), name.to_owned());
    }

    /// Adds `exe` to the ignore list, unless it is already there.
    pub fn ignore(&mut self, exe: &str)
        ensures
            old(self).ignored().contains(exe@) ==> final(self).ignored() == old(self).ignored(),
            !old(self).ignored().contains(exe@) ==> final(self).ignored() == old(
                self,
            ).ignored().push(exe@),
            final(self).exe_names == old(self).exe_names,
            final(self).same_settings(old(self)),
    {
        let k = exe.to_owned();
        if !contains_string(&self.ignored_exes, &k) {
            let ghost before = self.ignored();
            self.ignored_exes.push(k);
            assert(self.ignored() =~= before.push(exe@));
        }
    }

    pub fn format(&self) -> (r: &str)
        ensures
            r@ == self.format_of(),
    {
        match &self.format {
            Some(f) => f.as_str(),
            None => DEFAULT_FORMAT,
        }
    }

    pub fn full_limit(&self) -> (r: u8)
        ensures
            r == self.full_limit_of(),
    {
        match self.full_limit {
            Some(n) => n,
            None => DEFAULT_FULL_LIMIT,
        }
    }

    /// The Ludusavi executable to run: the configured override, else a copy
    /// found next to Nimbus's own executable (`bundled`), else whatever
    /// `PATH` resolves for `ludusavi`.
    pub fn ludusavi_bin(&self, bundled: Option<String>) -> (r: String)
        ensures
            r@ == match self.ludusavi_path {
                Some(p) => p@,
                None => match bundled {
                    Some(b) => b@,
                    None => "ludusavi"@,
                },
            },
    {
        match &self.ludusavi_path {
            Some(p) => p.clone(),
            None => match bundled {
                Some(b) => b,
                None => "ludusavi".to_owned(),
            },
        }
    }

    /// First-run convenience: with no sync folder of its own yet, Nimbus
    /// takes what Ludusavi has configured. Never overwrites a value Nimbus
    /// already has.
    pub fn inherit_from_ludusavi_if_unset(&mut self, settings: Option<InheritedBackupSettings>)
        ensures
            *final(self) == inherited(*old(self), settings),
    {
        if self.sync_path.is_some() {
            return;
        }
        let settings = match settings {
            Some(s) => s,
            None => {
                return;
            },
        };
        self.sync_path = settings.path;
        if self.format.is_none() {
            self.format = settings.format;
        }
        if self.full_limit.is_none() {
            self.full_limit = settings.full_limit;
        }
    }

    /// A stored configuration that already has a sync folder of its own was
    /// set up before, so its welcome screen counts as completed. (Applied to
    /// the configuration as stored, before anything is borrowed from
    /// Ludusavi, so that a first run still shows the welcome screen.)
    pub fn skip_onboarding_if_already_set_up(&mut self)
        ensures
            *final(self) == marked_set_up(*old(self)),
    {
        if self.sync_path.is_some() {
            self.onboarded = true;
        }
    }

    /// Takes the values of the settings form: the sync folder text (blank
    /// for none), zip or simple format, and the retention text (kept only
    /// if it reads as a number from 0 to 255).
    pub fn apply_settings_form(&mut self, sync_path_text: &str, format_zip: bool, full_limit_text: &str)
        ensures
            opt_view(final(self).sync_path) == (if trim(sync_path_text@).len() == 0 {
                None
            } else {
                Some(trim(sync_path_text@))
            }),
            opt_view(final(self).format) == Some(
                if format_zip {
                    "zip"@
                } else {
                    "simple"@
                },
            ),
            final(self).full_limit == match parse_unsigned(trim(full_limit_text@), 255) {
                Some(n) => Some(n as u8),
                None => None,
            },
            final(self).ludusavi_path == old(self).ludusavi_path,
            final(self).exe_names == old(self).exe_names,
            final(self).ignored_exes == old(self).ignored_exes,
            final(self).onboarded == old(self).onboarded,
    {
        let p = trimmed(&chars_of(sync_path_text));
        self.sync_path = if p.len() == 0 {
            None
        } else {
            Some(string_of(&p))
        };
        self.format = Some(
            if format_zip {
                "zip".to_owned()
            } else {
                "simple".to_owned()
            },
        );
        self.full_limit = parse_u8(&trimmed(&chars_of(full_limit_text)));
    }
}

/// What one call does to the executable map: `(exe, Some(name))` is
/// `remember(exe, name)`, `(exe, None)` is `ignore(exe)`, which leaves the
/// map as it is.
pub open spec fn exe_step(m: Map<Seq<char>, Seq<char>>, step: (Seq<char>, Option<Seq<char>>)) -> Map<
    Seq<char>,
    Seq<char>,
> {
    match step.1 {
        Some(name) => m.insert(step.0, name),
        None => m,
    }
}

/// Whether `cs` are the configurations before and after each call of
/// `steps`, one call after another.
pub open spec fn exe_run(cs: Seq<Config>, steps: Seq<(Seq<char>, Option<Seq<char>>)>) -> bool {
    &&& cs.len() == steps.len() + 1
    &&& forall|i: int| 0 <= i < steps.len() ==> cs[i + 1].exe_map() == exe_step(cs[i].exe_map(), #[trigger] steps[i])
}

proof fn lemma_remembered_stays(
    cs: Seq<Config>,
    steps: Seq<(Seq<char>, Option<Seq<char>>)>,
    k: int,
    exe: Seq<char>,
    name: Seq<char>,
    i: int,
)
    requires
        exe_run(cs, steps),
        0 <= k < steps.len(),
        steps[k] == (exe, Some(name)),
        forall|j: int| k < j < steps.len() ==> (#[trigger] steps[j]).0 != exe || steps[j].1 is None,
        k < i <= steps.len(),
    ensures
        cs[i].name_of(exe) == Some(name),
    decreases i,
{
    assert(cs[i].exe_map() == exe_step(cs[i - 1].exe_map(), steps[i - 1]));
    if i > k + 1 {
        lemma_remembered_stays(cs, steps, k, exe, name, i - 1);
    }
}

proof fn lemma_never_remembered(cs: Seq<Config>, steps: Seq<(Seq<char>, Option<Seq<char>>)>, exe: Seq<char>, i: int)
    requires
        exe_run(cs, steps),
        cs[0].name_of(exe) is None,
        forall|j: int| 0 <= j < steps.len() ==> (#[trigger] steps[j]).0 != exe || steps[j].1 is None,
        0 <= i <= steps.len(),
    ensures
        cs[i].name_of(exe) is None,
    decreases i,
{
    if i > 0 {
        assert(cs[i].exe_map() == exe_step(cs[i - 1].exe_map(), steps[i - 1]));
        lemma_never_remembered(cs, steps, exe, i - 1);
    }
}

/// A confirmed name is remembered from then on: after `remember(exe, name)`,
/// any later calls of `remember` for other executables and of `ignore`
/// leave `name_for_exe(exe)` giving `name`; an executable that no call
/// remembered, and that had no name before, has none after.
pub proof fn law_remembered_name_persists(
    cs: Seq<Config>,
    steps: Seq<(Seq<char>, Option<Seq<char>>)>,
    exe: Seq<char>,
)
    requires
        exe_run(cs, steps),
    ensures
        forall|k: int|
            0 <= k < steps.len() && (#[trigger] steps[k]).0 == exe && steps[k].1 is Some && (forall|j: int|
                k < j < steps.len() ==> (#[trigger] steps[j]).0 != exe || steps[j].1 is None)
                ==> cs.last().name_of(exe) == steps[k].1,
        cs[0].name_of(exe) is None && (forall|j: int|
            0 <= j < steps.len() ==> (#[trigger] steps[j]).0 != exe || steps[j].1 is None)
            ==> cs.last().name_of(exe) is None,
{
    assert forall|k: int|
        0 <= k < steps.len() && (#[trigger] steps[k]).0 == exe && steps[k].1 is Some && (forall|j: int|
            k < j < steps.len() ==> (#[trigger] steps[j]).0 != exe || steps[j].1 is None)
            implies cs.last().name_of(exe) == steps[k].1 by {
        lemma_remembered_stays(cs, steps, k, exe, steps[k].1->0, steps.len() as int);
    }
    if cs[0].name_of(exe) is None && (forall|j: int|
        0 <= j < steps.len() ==> (#[trigger] steps[j]).0 != exe || steps[j].1 is None) {
        lemma_never_remembered(cs, steps, exe, steps.len() as int);
    }
}

/// What a first run borrows from Ludusavi's configuration.
#[derive(Debug, Default, PartialEq, Eq)]
pub struct InheritedBackupSettings {
    pub path: Option<String>,
    pub format: Option<String>,
    pub full_limit: Option<u8>,
}

/// `backup.path`, `backup.format.chosen` and `backup.retention.full` of a
/// `ludusavi config show` document (the last a number from 0 to 255).
pub open spec fn leaf_of(text: Seq<char>, path: Seq<char>) -> Option<Seq<char>> {
    let m = assoc_map(yaml_leaves(text));
    if m.contains_key(path) {
        Some(m[path])
    } else {
        None
    }
}

pub open spec fn settings_path(text: Seq<char>) -> Option<Seq<char>> {
    leaf_of(text, "backup.path"@)
}

pub open spec fn settings_format(text: Seq<char>) -> Option<Seq<char>> {
    leaf_of(text, "backup.format.chosen"@)
}

pub open spec fn settings_full_limit(text: Seq<char>) -> Option<u8> {
    match leaf_of(text, "backup.retention.full"@) {
        Some(v) => match parse_unsigned(v, 255) {
            Some(n) => Some(n as u8),
            None => None,
        },
        None => None,
    }
}

fn cloned(o: Option<&String>) -> (r: Option<String>)
    ensures
        opt_view(r) == match o {
            Some(s) => Some(s@),
            None => None::<Seq<char>>,
        },
{
    match o {
        Some(s) => Some(s.clone()),
        None => None,
    }
}

/// Reads the three backup settings out of `ludusavi config show` output.
pub fn parse_backup_settings(text: &str) -> (r: InheritedBackupSettings)
    ensures
        opt_view(r.path) == settings_path(text@),
        opt_view(r.format) == settings_format(text@),
        r.full_limit == settings_full_limit(text@),
{
    let leaves = scan_yaml_leaves(text);
    let path = cloned(leaves.get("backup.path"));
    let format = cloned(leaves.get("backup.format.chosen"));
    let full_limit = match leaves.get("backup.retention.full") {
        Some(v) => parse_u8(&chars_of(v.as_str())),
        None => None,
    };
    InheritedBackupSettings { path, format, full_limit }
}

/// What `ludusavi config show` yields for inheriting: nothing if it failed,
/// else the settings read from its standard output.
pub fn backup_settings_from_output(success: bool, stdout: &[u8]) -> (r: Option<
    InheritedBackupSettings,
>)
    ensures
        success == (r is Some),
        r matches Some(s) ==> ({
            let text = utf8_lossy(stdout@);
            &&& opt_view(s.path) == settings_path(text)
            &&& opt_view(s.format) == settings_format(text)
            &&& s.full_limit == settings_full_limit(text)
        }),
{
    if !success {
        return None;
    }
    let text = lossy_string(stdout);
    Some(parse_backup_settings(text.as_str()))
}

/// `ludusavi --version` output when it ran successfully: the version line.
pub fn probe_ludusavi(success: bool, stdout: &[u8]) -> (r: Option<String>)
    ensures
        success == (r is Some),
        r matches Some(v) ==> v@ == trim(utf8_lossy(stdout@)),
{
    if !success {
        return None;
    }
    let text = lossy_string(stdout);
    Some(string_of(&trimmed(&chars_of(text.as_str()))))
}

/// The exact string to paste into a game's Launch Options, for Nimbus
/// installed at `exe` (or plain `nimbus` when its location is unknown).
pub fn launch_options_string(exe: Option<&str>) -> (r: String)
    ensures
        r@ == seq!['"'] + match exe {
            Some(e) => e@,
            None => "nimbus"@,
        } + "\" %command%"@,
{
    let mut s = "\"".to_owned();
    match exe {
        Some(e) => s.append(e),
        None => s.append("nimbus"),
    }
    s.append("\" %command%");
    proof {
        reveal_strlit("\"");
    }
    s
}

} // verus!
