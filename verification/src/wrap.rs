//! The launch-triggered path (`nimbus <command...>`): restore, run the game
//! and wait, back up, all through `ludusavi wrap`; or launch the game
//! untouched whenever syncing cannot proceed.

use vstd::prelude::*;
use crate::config::Config;
use crate::gameid::Identity;
use crate::ludusavi::strings_view;
use crate::text::{decimal, decimal_chars, string_of};

verus! {

/// The arguments of `ludusavi wrap` for one launch of `cmd`.
pub open spec fn wrap_argv(config: Config, identity: Identity, cmd: Seq<Seq<char>>) -> Seq<Seq<char>> {
    seq![
        "wrap"@,
        "--path"@,
        config.sync_path->0@,
        "--format"@,
        config.format_of(),
        "--full-limit"@,
        decimal(config.full_limit_of() as nat),
        "--force"@,
    ] + match identity {
        Identity::Infer(launcher) => seq!["--infer"@, launcher@],
        Identity::Named(name) => seq!["--name"@, name@],
    } + seq!["--"@] + cmd
}

/// A launch never loses the game's own command: through `ludusavi wrap`,
/// the arguments end in `--` followed by the command exactly as given, for
/// every identity and configuration (and `launch_plan` launches untouched
/// when there is no sync folder or no identity).
pub proof fn law_wrapped_launch_runs_the_command(config: Config, identity: Identity, cmd: Seq<Seq<char>>)
    ensures
        wrap_argv(config, identity, cmd).len() >= cmd.len() + 1,
        wrap_argv(config, identity, cmd).skip(wrap_argv(config, identity, cmd).len() - cmd.len() - 1)
            == seq!["--"@] + cmd,
{
    let head = seq![
        "wrap"@,
        "--path"@,
        config.sync_path->0@,
        "--format"@,
        config.format_of(),
        "--full-limit"@,
        decimal(config.full_limit_of() as nat),
        "--force"@,
    ] + match identity {
        Identity::Infer(launcher) => seq!["--infer"@, launcher@],
        Identity::Named(name) => seq!["--name"@, name@],
    };
    let w = wrap_argv(config, identity, cmd);
    assert(w == head + seq!["--"@] + cmd);
    assert(w.skip(w.len() - cmd.len() - 1) =~= seq!["--"@] + cmd);
}

fn push_str(v: &mut Vec<String>, s: &str)
    ensures
        strings_view(final(v)@) == strings_view(old(v)@).push(s@),
{
    let ghost before = strings_view(v@);
    v.push(s.to_owned());
    assert(strings_view(v@) =~= before.push(s@));
}

/// Arguments that make `ludusavi wrap` restore, run `cmd`, then back up.
pub fn wrap_args(config: &Config, identity: &Identity, cmd: &Vec<String>) -> (r: Vec<String>)
    requires
        config.sync_path is Some,
    ensures
        strings_view(r@) == wrap_argv(*config, *identity, strings_view(cmd@)),
{
    let mut v: Vec<String> = Vec::new();
    push_str(&mut v, "wrap");
    push_str(&mut v, "--path");
    match &config.sync_path {
        Some(p) => push_str(&mut v, p.as_str()),
        None => {},
    }
    push_str(&mut v, "--format");
    push_str(&mut v, config.format());
    push_str(&mut v, "--full-limit");
    let limit = string_of(&decimal_chars(config.full_limit() as u64));
    let ghost b0 = strings_view(v@);
    v.push(limit);
    assert(strings_view(v@) =~= b0.push(decimal(config.full_limit_of() as nat)));
    push_str(&mut v, "--force");
    match identity {
        Identity::Infer(launcher) => {
            push_str(&mut v, "--infer");
            push_str(&mut v, launcher);
        },
        Identity::Named(name) => {
            push_str(&mut v, "--name");
            push_str(&mut v, name.as_str());
        },
    }
    push_str(&mut v, "--");
    let ghost base = strings_view(v@);
    let mut i: usize = 0;
    while i < cmd.len()
        invariant
            i <= cmd.len(),
            strings_view(v@) == base + strings_view(cmd@).take(i as int),
        decreases cmd.len() - i,
    {
        let ghost before = strings_view(v@);
        v.push(cmd[i].clone());
        assert(strings_view(v@) =~= before.push(cmd@[i as int]@));
        assert(strings_view(cmd@).take(i + 1) =~= strings_view(cmd@).take(i as int).push(cmd@[i as int]@));
        i = i + 1;
    }
    assert(strings_view(cmd@).take(i as int) =~= strings_view(cmd@));
    assert(strings_view(v@) =~= wrap_argv(*config, *identity, strings_view(cmd@)));
    v
}

/// How a launch proceeds.
#[derive(Debug, Clone)]
pub enum LaunchPlan {
    /// Through `ludusavi wrap`, with these arguments.
    ViaLudusavi(Vec<String>),
    /// Untouched: no sync folder is configured.
    NoSyncFolder,
    /// Untouched: the game could not be identified.
    Unidentified,
}

/// A failed lookup must never stop someone from playing: without a sync
/// folder or an identity, the game launches untouched.
pub fn launch_plan(config: &Config, identity: Option<Identity>, cmd: &Vec<String>) -> (r: LaunchPlan)
    ensures
        match (config.sync_path, identity) {
            (Some(_), Some(id)) => r matches LaunchPlan::ViaLudusavi(args) && strings_view(args@)
                == wrap_argv(*config, id, strings_view(cmd@)),
            (None, _) => r is NoSyncFolder,
            (_, None) => r is Unidentified,
        },
{
    if config.sync_path.is_none() {
        return LaunchPlan::NoSyncFolder;
    }
    match identity {
        Some(id) => LaunchPlan::ViaLudusavi(wrap_args(config, &id, cmd)),
        None => LaunchPlan::Unidentified,
    }
}

/// The process exit code to hand on: the child's code (or 0 when it was
/// killed by a signal) truncated to a byte.
pub fn exit_code_byte(code: Option<i32>) -> (r: u8)
    ensures
        r == match code {
            Some(c) => c as u8,
            None => 0u8,
        },
{
    match code {
        Some(c) => c as u8,
        None => 0,
    }
}

/// The logged command line: the program, a space, the arguments joined by
/// spaces.
pub fn command_line(bin: &str, args: &Vec<String>) -> (r: String)
    ensures
        r@ == bin@ + " "@ + crate::text::join_with(strings_view(args@), " "@),
{
    let mut s = bin.to_owned();
    s.append(" ");
    let ghost base = s@;
    let ghost av = strings_view(args@);
    let mut i: usize = 0;
    assert(av.take(0) =~= Seq::<Seq<char>>::empty());
    assert(s@ =~= base + crate::text::join_with(av.take(0), " "@));
    while i < args.len()
        invariant
            i <= args.len(),
            av == strings_view(args@),
            s@ == base + crate::text::join_with(av.take(i as int), " "@),
        decreases args.len() - i,
    {
        assert(av.take(i + 1).drop_last() =~= av.take(i as int));
        assert(av.take(i + 1).last() == args@[i as int]@);
        let ghost prev = crate::text::join_with(av.take(i as int), " "@);
        if i > 0 {
            s.append(" ");
        }
        s.append(args[i].as_str());
        proof {
            if i == 0 {
                assert(crate::text::join_with(av.take(1), " "@) == av.take(1)[0]);
                assert(s@ =~= base + crate::text::join_with(av.take(1), " "@));
            } else {
                assert(s@ =~= base + (prev + " "@ + av[i as int]));
            }
        }
        i = i + 1;
    }
    assert(av.take(i as int) =~= av);
    s
}

/// Where finding the game for a launch stands before anything is asked.
#[derive(Debug, Clone)]
pub enum Lookup {
    /// Identified without asking.
    Known(Identity),
    /// The user said never to ask about this executable.
    Ignored,
    /// Unknown: guess a name and ask once.
    Ask,
}

/// The silent part of identifying a launch (`gameid::resolve`), and whether
/// the one-time question may be asked: never for an ignored executable.
pub fn lookup(steam_app_id_set: bool, name_override: Option<String>, exe: &str, config: &Config) -> (r: Lookup)
    ensures
        steam_app_id_set ==> (r matches Lookup::Known(Identity::Infer(l)) && l@ == "steam"@),
        !steam_app_id_set && name_override is Some ==> (r matches Lookup::Known(Identity::Named(n))
            && n == name_override->0),
        !steam_app_id_set && name_override is None ==> match config.name_of(exe@) {
            Some(n) => (r matches Lookup::Known(Identity::Named(m)) && m@ == n),
            None => if config.ignored().contains(exe@) {
                r is Ignored
            } else {
                r is Ask
            },
        },
        (r is Ask) == crate::ui::asks_about(steam_app_id_set, name_override is Some, exe@, *config),
{
    match crate::gameid::resolve(steam_app_id_set, name_override, exe, config) {
        Some(id) => Lookup::Known(id),
        None => if config.is_ignored(exe) {
            Lookup::Ignored
        } else {
            Lookup::Ask
        },
    }
}

} // verus!
