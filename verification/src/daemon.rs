//! Decisions of the background sync daemon: which remote backups to pull,
//! what it remembers having accounted for, and which games a batch of file
//! changes touches. The daemon program performs the pulls, pushes, file
//! watching and persistence around these.

use vstd::prelude::*;
use crate::assoc::{assoc_get, assoc_map, assoc_set, contains_string, pairs_view};
use crate::ludusavi::{remote_newer, GameStatus, strings_view, tolerance_nanos};
use crate::timestamp::{rfc3339, Rfc3339};
use crate::ludusavi::remote_is_newer;
use crate::pathset::{path_norm, same_path};

verus! {

// ---------------------------------------------------------------------------
// What the daemon has accounted for
// ---------------------------------------------------------------------------

/// Per game, the last remote backup timestamp the daemon has accounted for:
/// kept so a restart does not re-pull everything, and so a push it just made
/// does not look like a new remote change to pull back down.
#[derive(Debug, Clone)]
pub struct DaemonState {
    pub last_synced_remote: Vec<(String, String)>,
}

impl DaemonState {
    /// Game name to accounted-for remote timestamp.
    pub open spec fn known(&self) -> Map<Seq<char>, Seq<char>> {
        assoc_map(pairs_view(self.last_synced_remote@))
    }

    pub open spec fn known_of(&self, game: Seq<char>) -> Option<Seq<char>> {
        if self.known().contains_key(game) {
            Some(self.known()[game])
        } else {
            None
        }
    }

    pub fn new() -> (s: DaemonState)
        ensures
            s.known() == Map::<Seq<char>, Seq<char>>::empty(),
    {
        let s = DaemonState { last_synced_remote: Vec::new() };
        assert(pairs_view(s.last_synced_remote@) =~= Seq::<(Seq<char>, Seq<char>)>::empty());
        s
    }

    /// The remote timestamp accounted for `game`.
    pub fn last_synced(&self, game: &str) -> (r: Option<&String>)
        ensures
            match r {
                Some(t) => self.known_of(game@) == Some(t@),
                None => self.known_of(game@) is None,
            },
    {
        assoc_get(&self.last_synced_remote, game)
    }

    /// Accounts for remote timestamp `ts` of `game`.
    pub fn record(&mut self, game: &str, ts: &str)
        ensures
            final(self).known() == old(self).known().insert(game@, ts@),
    {
        assoc_set(&mut self.last_synced_remote, game.to_owned(), ts.to_owned());
    }
}

// ---------------------------------------------------------------------------
// Polling the remote side
// ---------------------------------------------------------------------------

/// What a poll does about one game.
#[derive(Debug, PartialEq, Eq, Clone, Copy)]
pub enum PollAction {
    /// Nothing new since the daemon last accounted for this game's remote.
    UpToDate,
    /// The remote changed but is not newer than the local saves: remembered
    /// as seen, nothing pulled.
    Acknowledge,
    /// The remote is newer than the local saves: pull it.
    Pull,
}

/// The decision for a game whose latest remote backup is `remote`, whose
/// accounted-for remote is `known`, and whose local saves were last modified
/// at `local` (nanoseconds since the epoch; `None` without local saves).
pub open spec fn poll_decision(known: Option<Seq<char>>, remote: Seq<char>, local: Option<int>) -> PollAction {
    if known == Some(remote) {
        PollAction::UpToDate
    } else if !remote_newer(remote, local) {
        PollAction::Acknowledge
    } else {
        PollAction::Pull
    }
}

pub open spec fn local_view(local: Option<i128>) -> Option<int> {
    match local {
        Some(l) => Some(l as int),
        None => None,
    }
}

/// Decides one game of a poll, and remembers a remote that is seen but not
/// pulled so an unchanged stale remote is not reconsidered every cycle.
pub fn poll_one(state: &mut DaemonState, game: &str, remote_ts: &str, local_epoch_nanos: Option<i128>) -> (r: PollAction)
    ensures
        r == poll_decision(old(state).known_of(game@), remote_ts@, local_view(local_epoch_nanos)),
        r == PollAction::Acknowledge ==> final(state).known() == old(state).known().insert(game@, remote_ts@),
        r != PollAction::Acknowledge ==> final(state).known() == old(state).known(),
{
    let remote = remote_ts.to_owned();
    let already = match state.last_synced(game) {
        Some(t) => *t == remote,
        None => false,
    };
    if already {
        return PollAction::UpToDate;
    }
    if !remote_is_newer(remote_ts, local_epoch_nanos) {
        state.record(game, remote_ts);
        return PollAction::Acknowledge;
    }
    PollAction::Pull
}

/// After a pull of remote `remote_ts` for `game`: a successful one is
/// accounted for, a failed one is not (and is retried next poll).
pub fn pull_finished(state: &mut DaemonState, game: &str, remote_ts: &str, ok: bool)
    ensures
        ok ==> final(state).known() == old(state).known().insert(game@, remote_ts@),
        !ok ==> final(state).known() == old(state).known(),
{
    if ok {
        state.record(game, remote_ts);
    }
}

/// After a successful push of `game`: its new latest remote backup, when it
/// could be read, is accounted for, so the push is not pulled back.
pub fn push_finished(state: &mut DaemonState, game: &str, latest_remote: Option<&str>)
    ensures
        match latest_remote {
            Some(t) => final(state).known() == old(state).known().insert(game@, t@),
            None => final(state).known() == old(state).known(),
        },
{
    if let Some(t) = latest_remote {
        state.record(game, t);
    }
}

/// Pulls never overwrite local saves that are as new as the remote backup
/// (within the tolerance), and a remote timestamp that does not read is
/// never pulled.
pub proof fn law_no_pull_over_current_local(known: Option<Seq<char>>, remote: Seq<char>, local: Option<int>)
    requires
        match rfc3339(remote) {
            Rfc3339::Epoch(r) => local matches Some(l) && r <= l + tolerance_nanos(),
            _ => true,
        },
    ensures
        poll_decision(known, remote, local) != PollAction::Pull,
{
}

/// A pull happens whenever the remote is newer than the local saves (or no
/// local save exists) and has not been accounted for yet.
pub proof fn law_pull_when_remote_newer(known: Option<Seq<char>>, remote: Seq<char>, local: Option<int>)
    requires
        known != Some(remote),
        remote_newer(remote, local),
    ensures
        poll_decision(known, remote, local) == PollAction::Pull,
{
}

/// Once a remote timestamp is accounted for a game (acknowledged, pulled,
/// or pushed), polling that same remote again does nothing, whatever the
/// local saves look like; other games are unaffected.
pub proof fn law_accounted_remote_is_up_to_date(
    before: DaemonState,
    after: DaemonState,
    game: Seq<char>,
    remote: Seq<char>,
    other: Seq<char>,
    local: Option<int>,
)
    requires
        after.known() == before.known().insert(game, remote),
    ensures
        poll_decision(after.known_of(game), remote, local) == PollAction::UpToDate,
        other != game ==> after.known_of(other) == before.known_of(other),
{
}

/// One poll of one game, as the daemon runs it: `poll_one` decides, and on
/// `Pull` the restore runs once and `pull_finished` records its outcome
/// (`restored`). The restore runs exactly when the remote has not been
/// accounted for and is newer than the local saves; a remote already
/// accounted for changes nothing; a remote seen but not newer is accounted
/// for without a restore; a successful restore is accounted for and a
/// failed one is not; other games' entries never change.
pub proof fn law_poll_cycle(
    before: DaemonState,
    mid: DaemonState,
    after: DaemonState,
    game: Seq<char>,
    remote: Seq<char>,
    local: Option<int>,
    action: PollAction,
    restored: bool,
    other: Seq<char>,
)
    requires
        action == poll_decision(before.known_of(game), remote, local),
        action == PollAction::Acknowledge ==> mid.known() == before.known().insert(game, remote),
        action != PollAction::Acknowledge ==> mid.known() == before.known(),
        action == PollAction::Pull && restored ==> after.known() == mid.known().insert(game, remote),
        !(action == PollAction::Pull && restored) ==> after.known() == mid.known(),
    ensures
        (action == PollAction::Pull) <==> (before.known_of(game) != Some(remote) && remote_newer(remote, local)),
        before.known_of(game) == Some(remote) ==> after.known() == before.known(),
        action == PollAction::Acknowledge ==> after.known_of(game) == Some(remote),
        action == PollAction::Pull && restored ==> after.known_of(game) == Some(remote),
        action == PollAction::Pull && !restored ==> after.known() == before.known(),
        other != game ==> after.known_of(other) == before.known_of(other),
{
}

/// The checks of one poll cycle, in list order: the position of each game
/// that has a remote backup, with that game's latest remote timestamp from
/// `remote`. Games without one are skipped.
pub open spec fn poll_targets_of(games: Seq<GameStatus>, remote: Map<Seq<char>, Seq<char>>) -> Seq<(int, Seq<char>)>
    decreases games.len(),
{
    if games.len() == 0 {
        seq![]
    } else {
        let rest = poll_targets_of(games.drop_last(), remote);
        let name = games.last().name@;
        if remote.contains_key(name) {
            rest.push((games.len() - 1, remote[name]))
        } else {
            rest
        }
    }
}

pub open spec fn targets_view(ts: Seq<(usize, String)>) -> Seq<(int, Seq<char>)> {
    ts.map_values(|t: (usize, String)| (t.0 as int, t.1@))
}

/// Which games a poll cycle checks against which remote timestamp, from
/// the latest remote backup per game (`ludusavi::latest_backups`).
pub fn poll_targets(games: &Vec<GameStatus>, remote: &Vec<(String, String)>) -> (r: Vec<(usize, String)>)
    ensures
        targets_view(r@) == poll_targets_of(games@, assoc_map(pairs_view(remote@))),
{
    let ghost m = assoc_map(pairs_view(remote@));
    let mut out: Vec<(usize, String)> = Vec::new();
    let mut i: usize = 0;
    while i < games.len()
        invariant
            i <= games.len(),
            m == assoc_map(pairs_view(remote@)),
            targets_view(out@) == poll_targets_of(games@.take(i as int), m),
        decreases games.len() - i,
    {
        assert(games@.take(i + 1).drop_last() =~= games@.take(i as int));
        assert(games@.take(i + 1).last() == games@[i as int]);
        match assoc_get(remote, games[i].name.as_str()) {
            Some(ts) => {
                let ghost before = targets_view(out@);
                out.push((i, ts.clone()));
                assert(targets_view(out@) =~= before.push((i as int, ts@)));
            },
            None => {},
        }
        i = i + 1;
    }
    assert(games@.take(i as int) =~= games@);
    out
}

// ---------------------------------------------------------------------------
// Which games a file change belongs to
// ---------------------------------------------------------------------------

/// A save file path with the games whose saves include it.
pub type SpecIndex = Seq<(Seq<char>, Seq<Seq<char>>)>;

/// Position of `path` in the index.
pub open spec fn index_pos(idx: SpecIndex, path: Seq<char>) -> Option<int>
    decreases idx.len(),
{
    if idx.len() == 0 {
        None
    } else if idx.last().0 == path {
        Some(idx.len() - 1)
    } else {
        index_pos(idx.drop_last(), path)
    }
}

pub proof fn lemma_index_pos_bounds(idx: SpecIndex, path: Seq<char>)
    ensures
        index_pos(idx, path) matches Some(i) ==> 0 <= i < idx.len() && idx[i].0 == path,
    decreases idx.len(),
{
    if idx.len() > 0 && idx.last().0 != path {
        lemma_index_pos_bounds(idx.drop_last(), path);
    }
}

/// Adds `name` to the games of `path`, unless it is already there.
pub open spec fn index_add(idx: SpecIndex, path: Seq<char>, name: Seq<char>) -> SpecIndex {
    match index_pos(idx, path) {
        None => idx.push((path, seq![name])),
        Some(i) => if idx[i].1.contains(name) {
            idx
        } else {
            idx.update(i, (path, idx[i].1.push(name)))
        },
    }
}

pub open spec fn index_paths(idx: SpecIndex, paths: Seq<Seq<char>>, name: Seq<char>) -> SpecIndex
    decreases paths.len(),
{
    if paths.len() == 0 {
        idx
    } else {
        index_add(index_paths(idx, paths.drop_last(), name), paths.last(), name)
    }
}

/// Each game's name with the paths of its save files.
pub type SpecKeyed = Seq<(Seq<char>, Seq<Seq<char>>)>;

/// Save file path to the games it belongs to, over all `keyed` games (each
/// a name and the paths of its save files): one entry per path text, in
/// order of first appearance, each game once.
pub open spec fn files_index(keyed: SpecKeyed) -> SpecIndex
    decreases keyed.len(),
{
    if keyed.len() == 0 {
        seq![]
    } else {
        let g = keyed.last();
        index_paths(files_index(keyed.drop_last()), g.1, g.0)
    }
}

pub open spec fn keyed_view(keyed: Seq<(String, Vec<String>)>) -> SpecKeyed {
    keyed.map_values(|g: (String, Vec<String>)| (g.0@, strings_view(g.1@)))
}

/// One file can belong to more than one game, so each save file path maps
/// to a list of game names.
#[derive(Debug, Clone)]
pub struct FileIndex {
    pub entries: Vec<(String, Vec<String>)>,
}

pub open spec fn entries_view(es: Seq<(String, Vec<String>)>) -> SpecIndex {
    es.map_values(|e: (String, Vec<String>)| (e.0@, strings_view(e.1@)))
}

impl FileIndex {
    pub open spec fn spec_index(&self) -> SpecIndex {
        entries_view(self.entries@)
    }

    /// Position of `path`.
    fn position(&self, path: &String) -> (r: Option<usize>)
        ensures
            match r {
                Some(j) => index_pos(self.spec_index(), path@) == Some(j as int) && j
                    < self.entries.len() && self.entries@[j as int].0@ == path@,
                None => index_pos(self.spec_index(), path@) is None,
            },
    {
        let ghost idx = self.spec_index();
        let mut i = self.entries.len();
        assert(idx.take(i as int) =~= idx);
        while i > 0
            invariant
                i <= self.entries.len(),
                idx == self.spec_index(),
                index_pos(idx, path@) == index_pos(idx.take(i as int), path@),
            decreases i,
        {
            assert(idx.take(i as int).drop_last() =~= idx.take(i - 1));
            assert(idx.take(i as int).last().0 == self.entries@[i - 1].0@);
            if self.entries[i - 1].0 == *path {
                proof {
                    lemma_index_pos_bounds(idx.take(i as int), path@);
                }
                return Some(i - 1);
            }
            i = i - 1;
        }
        None
    }

    /// The games of `path`, if it is a save file of any.
    pub fn games_of(&self, path: &String) -> (r: Option<&Vec<String>>)
        ensures
            match index_pos(self.spec_index(), path@) {
                Some(i) => r matches Some(v) && strings_view(v@) == self.spec_index()[i].1,
                None => r is None,
            },
    {
        proof {
            lemma_index_pos_bounds(self.spec_index(), path@);
        }
        match self.position(path) {
            Some(i) => {
                let v = &self.entries[i].1;
                assert(self.spec_index()[i as int] == (self.entries@[i as int].0@, strings_view(self.entries@[i as int].1@)));
                assert(strings_view(v@) == self.spec_index()[i as int].1);
                Some(v)
            },
            None => None,
        }
    }

    fn add(&mut self, path: &String, name: &String)
        ensures
            final(self).spec_index() == index_add(old(self).spec_index(), path@, name@),
    {
        let ghost idx = self.spec_index();
        proof {
            lemma_index_pos_bounds(idx, path@);
        }
        match self.position(path) {
            None => {
                let mut names: Vec<String> = Vec::new();
                names.push(name.clone());
                assert(strings_view(names@) =~= seq![name@]);
                self.entries.push((path.clone(), names));
                assert(self.spec_index() =~= idx.push((path@, seq![name@])));
            },
            Some(i) => {
                assert(idx[i as int] == (self.entries@[i as int].0@, strings_view(self.entries@[i as int].1@)));
                if !contains_string(&self.entries[i].1, name) {
                    let ghost old_entries = self.entries@;
                    let mut entry = self.entries.remove(i);
                    let ghost old_names = strings_view(entry.1@);
                    entry.1.push(name.clone());
                    assert(strings_view(entry.1@) =~= old_names.push(name@));
                    let ghost e2 = entry;
                    self.entries.insert(i, entry);
                    assert(self.entries@ =~= old_entries.update(i as int, e2));
                    assert(e2.0@ == path@);
                    assert(entries_view(old_entries.update(i as int, e2)) =~= idx.update(i as int, (e2.0@, strings_view(e2.1@))));
                    assert(self.spec_index() =~= idx.update(i as int, (path@, idx[i as int].1.push(name@))));
                }
            },
        }
    }
}

/// The save-file index of games given by name and the paths of their save
/// files.
pub fn files_by_key(keyed: &Vec<(String, Vec<String>)>) -> (r: FileIndex)
    ensures
        r.spec_index() == files_index(keyed_view(keyed@)),
{
    let ghost kv = keyed_view(keyed@);
    let mut index = FileIndex { entries: Vec::new() };
    assert(index.spec_index() =~= Seq::<(Seq<char>, Seq<Seq<char>>)>::empty());
    let mut g: usize = 0;
    assert(kv.take(0) =~= Seq::<(Seq<char>, Seq<Seq<char>>)>::empty());
    while g < keyed.len()
        invariant
            g <= keyed.len(),
            kv == keyed_view(keyed@),
            index.spec_index() == files_index(kv.take(g as int)),
        decreases keyed.len() - g,
    {
        let game = &keyed[g];
        let ghost base = index.spec_index();
        let ghost ps = strings_view(game.1@);
        let mut p: usize = 0;
        assert(ps.take(0) =~= Seq::<Seq<char>>::empty());
        while p < game.1.len()
            invariant
                g < keyed.len(),
                *game == keyed@[g as int],
                p <= game.1.len(),
                ps == strings_view(game.1@),
                index.spec_index() == index_paths(base, ps.take(p as int), game.0@),
            decreases game.1.len() - p,
        {
            assert(ps.take(p + 1).drop_last() =~= ps.take(p as int));
            assert(ps.take(p + 1).last() == game.1@[p as int]@);
            index.add(&game.1[p], &game.0);
            p = p + 1;
        }
        assert(ps.take(p as int) =~= ps);
        assert(kv.take(g + 1).drop_last() =~= kv.take(g as int));
        assert(kv.take(g + 1).last() == (game.0@, ps));
        g = g + 1;
    }
    assert(kv.take(g as int) =~= kv);
    index
}

pub open spec fn games_keyed(games: Seq<GameStatus>) -> SpecKeyed {
    games.map_values(|g: GameStatus| (g.name@, strings_view(g.paths@)))
}

/// Whether the index has an entry for `path` that lists `name`.
pub open spec fn indexed(idx: SpecIndex, path: Seq<char>, name: Seq<char>) -> bool {
    exists|j: int| 0 <= j < idx.len() && (#[trigger] idx[j]).0 == path && idx[j].1.contains(name)
}

proof fn lemma_index_add_indexes(idx: SpecIndex, path: Seq<char>, name: Seq<char>)
    ensures
        indexed(index_add(idx, path, name), path, name),
        forall|q: Seq<char>, m: Seq<char>| indexed(idx, q, m) ==> #[trigger] indexed(index_add(idx, path, name), q, m),
{
    lemma_index_pos_bounds(idx, path);
    let r = index_add(idx, path, name);
    match index_pos(idx, path) {
        None => {
            assert(r[idx.len() as int] == (path, seq![name]));
            assert(seq![name][0] == name);
            assert forall|q: Seq<char>, m: Seq<char>| indexed(idx, q, m) implies #[trigger] indexed(r, q, m) by {
                let j = choose|j: int| 0 <= j < idx.len() && (#[trigger] idx[j]).0 == q && idx[j].1.contains(m);
                assert(r[j] == idx[j]);
            }
        },
        Some(i) => {
            if idx[i].1.contains(name) {
                assert(r[i] == idx[i]);
            } else {
                let names = idx[i].1.push(name);
                assert(r[i] == (path, names));
                assert(names[names.len() - 1] == name);
                assert forall|q: Seq<char>, m: Seq<char>| indexed(idx, q, m) implies #[trigger] indexed(r, q, m) by {
                    let j = choose|j: int| 0 <= j < idx.len() && (#[trigger] idx[j]).0 == q && idx[j].1.contains(m);
                    if j == i {
                        let k = choose|k: int| 0 <= k < idx[i].1.len() && idx[i].1[k] == m;
                        assert(names[k] == m);
                        assert(r[i].1.contains(m));
                    } else {
                        assert(r[j] == idx[j]);
                    }
                }
            }
        },
    }
}

proof fn lemma_index_paths_indexes(idx: SpecIndex, paths: Seq<Seq<char>>, name: Seq<char>)
    ensures
        forall|k: int| 0 <= k < paths.len() ==> indexed(index_paths(idx, paths, name), #[trigger] paths[k], name),
        forall|q: Seq<char>, m: Seq<char>| indexed(idx, q, m) ==> #[trigger] indexed(index_paths(idx, paths, name), q, m),
    decreases paths.len(),
{
    if paths.len() > 0 {
        let init = paths.drop_last();
        lemma_index_paths_indexes(idx, init, name);
        let mid = index_paths(idx, init, name);
        lemma_index_add_indexes(mid, paths.last(), name);
        assert forall|k: int| 0 <= k < paths.len() implies indexed(index_paths(idx, paths, name), #[trigger] paths[k], name) by {
            if k < paths.len() - 1 {
                assert(init[k] == paths[k]);
                assert(indexed(mid, init[k], name));
            }
        }
    }
}

proof fn lemma_files_index_indexes(keyed: SpecKeyed)
    ensures
        forall|g: int, k: int|
            0 <= g < keyed.len() && 0 <= k < keyed[g].1.len() ==> indexed(files_index(keyed), #[trigger] keyed[g].1[k], keyed[g].0),
    decreases keyed.len(),
{
    if keyed.len() > 0 {
        let init = keyed.drop_last();
        let last = keyed.last();
        lemma_files_index_indexes(init);
        lemma_index_paths_indexes(files_index(init), last.1, last.0);
        assert forall|g: int, k: int|
            0 <= g < keyed.len() && 0 <= k < keyed[g].1.len() implies indexed(files_index(keyed), #[trigger] keyed[g].1[k], keyed[g].0) by {
            if g < keyed.len() - 1 {
                assert(init[g] == keyed[g]);
                assert(indexed(files_index(init), init[g].1[k], init[g].0));
            } else {
                assert(keyed[g] == last);
            }
        }
    }
}

/// Every save file of every game is watched for that game: for each game
/// and each of its save paths, the index has an entry with exactly that
/// path whose games include the game (`indexed`).
pub proof fn law_every_save_file_is_indexed(games: Seq<GameStatus>)
    ensures
        forall|g: int, k: int|
            0 <= g < games.len() && 0 <= k < games[g].paths@.len() ==> indexed(
                files_index(games_keyed(games)),
                (#[trigger] games[g].paths@[k])@,
                games[g].name@,
            ),
{
    let keyed = games_keyed(games);
    lemma_files_index_indexes(keyed);
    assert forall|g: int, k: int| 0 <= g < games.len() && 0 <= k < games[g].paths@.len() implies indexed(
        files_index(keyed),
        (#[trigger] games[g].paths@[k])@,
        games[g].name@,
    ) by {
        assert(keyed[g] == (games[g].name@, strings_view(games[g].paths@)));
        assert(keyed[g].1[k] == games[g].paths@[k]@);
    }
}

/// The save-file index of `games`: each save path with the games whose
/// saves include it.
pub fn files_by_game(games: &Vec<GameStatus>) -> (r: FileIndex)
    ensures
        r.spec_index() == files_index(games_keyed(games@)),
{
    let mut keyed: Vec<(String, Vec<String>)> = Vec::new();
    let mut g: usize = 0;
    while g < games.len()
        invariant
            g <= games.len(),
            keyed_view(keyed@) == games_keyed(games@.take(g as int)),
        decreases games.len() - g,
    {
        let ghost before = keyed_view(keyed@);
        keyed.push((games[g].name.clone(), games[g].paths.clone()));
        assert(keyed_view(keyed@) =~= before.push((games@[g as int].name@, strings_view(games@[g as int].paths@))));
        assert(games_keyed(games@.take(g + 1)) =~= games_keyed(games@.take(g as int)).push(
            (games@[g as int].name@, strings_view(games@[g as int].paths@)),
        ));
        g = g + 1;
    }
    assert(games@.take(g as int) =~= games@);
    files_by_key(&keyed)
}

/// `acc` extended with the names not yet in it, in order.
pub open spec fn add_new(acc: Seq<Seq<char>>, names: Seq<Seq<char>>) -> Seq<Seq<char>>
    decreases names.len(),
{
    if names.len() == 0 {
        acc
    } else {
        let a = add_new(acc, names.drop_last());
        if a.contains(names.last()) {
            a
        } else {
            a.push(names.last())
        }
    }
}

/// The games touched by changes to the files `events`, each once, in order
/// of first mention.
pub open spec fn changed_for(idx: SpecIndex, events: Seq<Seq<char>>) -> Seq<Seq<char>>
    decreases events.len(),
{
    if events.len() == 0 {
        seq![]
    } else {
        let prev = changed_for(idx, events.drop_last());
        match index_pos(idx, events.last()) {
            None => prev,
            Some(i) => add_new(prev, idx[i].1),
        }
    }
}

fn push_new(acc: &mut Vec<String>, names: &Vec<String>)
    ensures
        strings_view(final(acc)@) == add_new(strings_view(old(acc)@), strings_view(names@)),
{
    let ghost a0 = strings_view(acc@);
    let ghost ns = strings_view(names@);
    let mut i: usize = 0;
    assert(ns.take(0) =~= Seq::<Seq<char>>::empty());
    while i < names.len()
        invariant
            i <= names.len(),
            ns == strings_view(names@),
            strings_view(acc@) == add_new(a0, ns.take(i as int)),
        decreases names.len() - i,
    {
        assert(ns.take(i + 1).drop_last() =~= ns.take(i as int));
        assert(ns.take(i + 1).last() == names@[i as int]@);
        if !contains_string(acc, &names[i]) {
            let ghost before = strings_view(acc@);
            acc.push(names[i].clone());
            assert(strings_view(acc@) =~= before.push(names@[i as int]@));
        }
        i = i + 1;
    }
    assert(ns.take(i as int) =~= ns);
}

/// The games whose save files are among the changed files, given by their
/// keys `events`.
pub fn changed_games(index: &FileIndex, events: &Vec<String>) -> (r: Vec<String>)
    ensures
        strings_view(r@) == changed_for(index.spec_index(), strings_view(events@)),
{
    let ghost ev = strings_view(events@);
    let mut out: Vec<String> = Vec::new();
    let mut i: usize = 0;
    assert(ev.take(0) =~= Seq::<Seq<char>>::empty());
    assert(strings_view(out@) =~= Seq::<Seq<char>>::empty());
    while i < events.len()
        invariant
            i <= events.len(),
            ev == strings_view(events@),
            strings_view(out@) == changed_for(index.spec_index(), ev.take(i as int)),
        decreases events.len() - i,
    {
        assert(ev.take(i + 1).drop_last() =~= ev.take(i as int));
        assert(ev.take(i + 1).last() == events@[i as int]@);
        match index.games_of(&events[i]) {
            Some(names) => push_new(&mut out, names),
            None => {},
        }
        i = i + 1;
    }
    assert(ev.take(i as int) =~= ev);
    out
}

proof fn lemma_add_new_distinct(acc: Seq<Seq<char>>, names: Seq<Seq<char>>)
    requires
        acc.no_duplicates(),
    ensures
        add_new(acc, names).no_duplicates(),
        forall|x: Seq<char>| #[trigger] add_new(acc, names).contains(x) ==> acc.contains(x) || names.contains(x),
    decreases names.len(),
{
    if names.len() > 0 {
        lemma_add_new_distinct(acc, names.drop_last());
        let a = add_new(acc, names.drop_last());
        if !a.contains(names.last()) {
            assert forall|i: int, j: int| 0 <= i < j < a.push(names.last()).len() implies a.push(
                names.last(),
            )[i] != a.push(names.last())[j] by {
                if j == a.len() {
                    assert(a.contains(a[i]));
                }
            }
        }
        assert forall|x: Seq<char>| #[trigger] add_new(acc, names).contains(x) implies acc.contains(x)
            || names.contains(x) by {
            if a.contains(x) {
                if names.drop_last().contains(x) {
                    let k = choose|k: int| 0 <= k < names.drop_last().len() && names.drop_last()[k] == x;
                    assert(names[k] == x);
                }
            } else {
                assert(x == names.last());
                assert(names[names.len() - 1] == x);
            }
        }
    }
}

/// Each touched game is pushed once per batch of changes, and only games
/// owning one of the changed files are pushed.
pub proof fn law_changed_games_distinct_and_owned(idx: SpecIndex, events: Seq<Seq<char>>)
    ensures
        changed_for(idx, events).no_duplicates(),
        forall|name: Seq<char>| #[trigger] changed_for(idx, events).contains(name) ==> exists|e: int, i: int|
            0 <= e < events.len() && index_pos(idx, events[e]) == Some(i) && idx[i].1.contains(name),
    decreases events.len(),
{
    if events.len() > 0 {
        law_changed_games_distinct_and_owned(idx, events.drop_last());
        let prev = changed_for(idx, events.drop_last());
        assert forall|name: Seq<char>| prev.contains(name) implies exists|e: int, i: int|
            0 <= e < events.len() && index_pos(idx, events[e]) == Some(i) && idx[i].1.contains(name) by {
            let (e, i) = choose|e: int, i: int|
                0 <= e < events.drop_last().len() && index_pos(idx, events.drop_last()[e]) == Some(i)
                    && idx[i].1.contains(name);
            assert(events[e] == events.drop_last()[e]);
        }
        match index_pos(idx, events.last()) {
            None => {},
            Some(i) => {
                lemma_add_new_distinct(prev, idx[i].1);
                assert forall|name: Seq<char>| #[trigger] changed_for(idx, events).contains(name) implies exists|e: int, j: int|
                    0 <= e < events.len() && index_pos(idx, events[e]) == Some(j) && idx[j].1.contains(name) by {
                    if !prev.contains(name) {
                        assert(index_pos(idx, events[events.len() - 1]) == Some(i));
                    }
                }
            },
        }
    }
}

/// Over the first `n` index entries in order: `acc` extended with the games
/// of each entry that `row` marks.
pub open spec fn add_matching(idx: SpecIndex, row: Seq<bool>, acc: Seq<Seq<char>>, n: int) -> Seq<Seq<char>>
    decreases n,
{
    if n <= 0 {
        acc
    } else {
        let a = add_matching(idx, row, acc, n - 1);
        if row[n - 1] {
            add_new(a, idx[n - 1].1)
        } else {
            a
        }
    }
}

/// The games touched by a batch of changed files, each once, where
/// `rows[e][j]` says whether changed file `e` is the save file of index
/// entry `j`.
pub open spec fn changed_matching(idx: SpecIndex, rows: Seq<Seq<bool>>) -> Seq<Seq<char>>
    decreases rows.len(),
{
    if rows.len() == 0 {
        seq![]
    } else {
        add_matching(idx, rows.last(), changed_matching(idx, rows.drop_last()), idx.len() as int)
    }
}

proof fn lemma_add_new_keeps(acc: Seq<Seq<char>>, names: Seq<Seq<char>>)
    ensures
        forall|x: Seq<char>| acc.contains(x) ==> #[trigger] add_new(acc, names).contains(x),
        forall|x: Seq<char>| names.contains(x) ==> #[trigger] add_new(acc, names).contains(x),
    decreases names.len(),
{
    if names.len() > 0 {
        lemma_add_new_keeps(acc, names.drop_last());
        let a = add_new(acc, names.drop_last());
        let l = names.last();
        let r = add_new(acc, names);
        assert(r == if a.contains(l) { a } else { a.push(l) });
        assert forall|x: Seq<char>| a.contains(x) implies r.contains(x) by {
            if !a.contains(l) {
                let k = choose|k: int| 0 <= k < a.len() && a[k] == x;
                assert(a.push(l)[k] == x);
            }
        }
        assert(r.contains(l)) by {
            if !a.contains(l) {
                assert(a.push(l)[a.len() as int] == l);
            }
        }
        assert forall|x: Seq<char>| names.contains(x) implies #[trigger] add_new(acc, names).contains(x) by {
            let k = choose|k: int| 0 <= k < names.len() && names[k] == x;
            if k < names.len() - 1 {
                assert(names.drop_last()[k] == x);
                assert(names.drop_last().contains(x));
                assert(a.contains(x));
            }
        }
        assert forall|x: Seq<char>| acc.contains(x) implies #[trigger] add_new(acc, names).contains(x) by {
            assert(a.contains(x));
        }
    }
}

proof fn lemma_add_matching(idx: SpecIndex, row: Seq<bool>, acc: Seq<Seq<char>>, n: int)
    requires
        acc.no_duplicates(),
        0 <= n <= idx.len(),
        n <= row.len(),
    ensures
        add_matching(idx, row, acc, n).no_duplicates(),
        forall|x: Seq<char>| acc.contains(x) ==> #[trigger] add_matching(idx, row, acc, n).contains(x),
        forall|j: int, x: Seq<char>|
            0 <= j < n && row[j] && #[trigger] idx[j].1.contains(x) ==> add_matching(idx, row, acc, n).contains(x),
        forall|x: Seq<char>| #[trigger] add_matching(idx, row, acc, n).contains(x) ==> acc.contains(x) || exists|j: int|
            0 <= j < n && row[j] && idx[j].1.contains(x),
    decreases n,
{
    if n > 0 {
        lemma_add_matching(idx, row, acc, n - 1);
        let a = add_matching(idx, row, acc, n - 1);
        if row[n - 1] {
            lemma_add_new_distinct(a, idx[n - 1].1);
            lemma_add_new_keeps(a, idx[n - 1].1);
        }
        assert forall|x: Seq<char>| #[trigger] add_matching(idx, row, acc, n).contains(x) implies acc.contains(x)
            || exists|j: int| 0 <= j < n && row[j] && idx[j].1.contains(x) by {
            if !a.contains(x) {
                assert(row[n - 1] && idx[n - 1].1.contains(x));
            }
        }
    }
}

/// A batch of changed files pushes each touched game once: every game of a
/// save file that changed, and only games of a save file that changed.
pub proof fn law_changed_files_push_their_games(idx: SpecIndex, rows: Seq<Seq<bool>>)
    requires
        forall|e: int| 0 <= e < rows.len() ==> (#[trigger] rows[e]).len() == idx.len(),
    ensures
        changed_matching(idx, rows).no_duplicates(),
        forall|e: int, j: int, x: Seq<char>|
            #![trigger rows[e][j], idx[j].1.contains(x)]
            0 <= e < rows.len() && 0 <= j < idx.len() && rows[e][j] && idx[j].1.contains(x)
                ==> changed_matching(idx, rows).contains(x),
        forall|x: Seq<char>| #[trigger] changed_matching(idx, rows).contains(x) ==> exists|e: int, j: int|
            0 <= e < rows.len() && 0 <= j < idx.len() && rows[e][j] && idx[j].1.contains(x),
    decreases rows.len(),
{
    if rows.len() > 0 {
        let init = rows.drop_last();
        assert forall|e: int| 0 <= e < init.len() implies (#[trigger] init[e]).len() == idx.len() by {
            assert(init[e] == rows[e]);
        }
        law_changed_files_push_their_games(idx, init);
        let prev = changed_matching(idx, init);
        let last = rows.last();
        assert(rows[rows.len() - 1] == last);
        lemma_add_matching(idx, last, prev, idx.len() as int);
        assert forall|e: int, j: int, x: Seq<char>|
            #![trigger rows[e][j], idx[j].1.contains(x)]
            0 <= e < rows.len() && 0 <= j < idx.len() && rows[e][j] && idx[j].1.contains(x)
                implies changed_matching(idx, rows).contains(x) by {
            if e < rows.len() - 1 {
                assert(init[e] == rows[e]);
                assert(prev.contains(x));
            }
        }
        assert forall|x: Seq<char>| #[trigger] changed_matching(idx, rows).contains(x) implies exists|e: int, j: int|
            0 <= e < rows.len() && 0 <= j < idx.len() && rows[e][j] && idx[j].1.contains(x) by {
            if prev.contains(x) {
                let (e, j) = choose|e: int, j: int|
                    0 <= e < init.len() && 0 <= j < idx.len() && init[e][j] && idx[j].1.contains(x);
                assert(rows[e] == init[e]);
            } else {
                let j = choose|j: int| 0 <= j < idx.len() && last[j] && idx[j].1.contains(x);
                assert(rows[rows.len() - 1][j]);
            }
        }
    }
}

pub open spec fn rows_view(rows: Seq<Vec<bool>>) -> Seq<Seq<bool>> {
    rows.map_values(|r: Vec<bool>| r@)
}

/// The games touched by a batch of changed files, given for each changed
/// file `e` and index entry `j` whether that file is the entry's save file
/// (`rows[e][j]`).
pub fn changed_games_given(index: &FileIndex, rows: &Vec<Vec<bool>>) -> (r: Vec<String>)
    requires
        forall|e: int| 0 <= e < rows@.len() ==> (#[trigger] rows@[e])@.len() == index.entries@.len(),
    ensures
        strings_view(r@) == changed_matching(index.spec_index(), rows_view(rows@)),
{
    let ghost idx = index.spec_index();
    let ghost rv = rows_view(rows@);
    let mut out: Vec<String> = Vec::new();
    let mut e: usize = 0;
    assert(rv.take(0) =~= Seq::<Seq<bool>>::empty());
    while e < rows.len()
        invariant
            e <= rows.len(),
            idx == index.spec_index(),
            rv == rows_view(rows@),
            forall|k: int| 0 <= k < rows@.len() ==> (#[trigger] rows@[k])@.len() == index.entries@.len(),
            strings_view(out@) == changed_matching(idx, rv.take(e as int)),
        decreases rows.len() - e,
    {
        assert(rv.take(e + 1).drop_last() =~= rv.take(e as int));
        assert(rv.take(e + 1).last() == rows@[e as int]@);
        let ghost base = strings_view(out@);
        let row = &rows[e];
        let mut j: usize = 0;
        while j < index.entries.len()
            invariant
                j <= index.entries.len(),
                idx == index.spec_index(),
                row@.len() == index.entries@.len(),
                strings_view(out@) == add_matching(idx, row@, base, j as int),
            decreases index.entries.len() - j,
        {
            if row[j] {
                assert(idx[j as int] == (index.entries@[j as int].0@, strings_view(index.entries@[j as int].1@)));
                push_new(&mut out, &index.entries[j].1);
            }
            j = j + 1;
        }
        e = e + 1;
    }
    assert(rv.take(e as int) =~= rv);
    out
}

/// The games whose save files are among the changed files at `paths` (as
/// the file watcher reports them), each once: a changed file is the save
/// file of an index entry when the two are the same path (`Path`'s `==`).
/// Stated of that comparison is what holds on every platform: a change at a
/// save path's own text reports that save's games, and every game reported
/// belongs to a save path that agrees with some changed path once
/// separators, dots and ASCII case are left out.
pub fn changed_games_at(index: &FileIndex, paths: &Vec<String>) -> (r: Vec<String>)
    ensures
        strings_view(r@).no_duplicates(),
        forall|e: int, j: int, x: Seq<char>|
            #![trigger paths@[e], index.spec_index()[j].1.contains(x)]
            0 <= e < paths@.len() && 0 <= j < index.spec_index().len() && index.spec_index()[j].0 == paths@[e]@
                && index.spec_index()[j].1.contains(x) ==> strings_view(r@).contains(x),
        forall|x: Seq<char>| #[trigger] strings_view(r@).contains(x) ==> exists|e: int, j: int|
            0 <= e < paths@.len() && 0 <= j < index.spec_index().len() && path_norm(index.spec_index()[j].0)
                == path_norm(paths@[e]@) && index.spec_index()[j].1.contains(x),
{
    let ghost idx = index.spec_index();
    let mut rows: Vec<Vec<bool>> = Vec::new();
    let mut e: usize = 0;
    while e < paths.len()
        invariant
            e <= paths.len(),
            idx == index.spec_index(),
            rows@.len() == e,
            forall|k: int| 0 <= k < e ==> (#[trigger] rows@[k])@.len() == index.entries@.len(),
            forall|k: int, j: int|
                0 <= k < e && 0 <= j < idx.len() ==> (#[trigger] rows@[k]@[j] ==> path_norm(idx[j].0) == path_norm(
                    paths@[k]@,
                )) && (idx[j].0 == paths@[k]@ ==> rows@[k]@[j]),
        decreases paths.len() - e,
    {
        let mut row: Vec<bool> = Vec::new();
        let mut j: usize = 0;
        while j < index.entries.len()
            invariant
                j <= index.entries.len(),
                e < paths.len(),
                idx == index.spec_index(),
                idx.len() == index.entries@.len(),
                row@.len() == j,
                forall|i: int|
                    0 <= i < j ==> (#[trigger] row@[i] ==> path_norm(idx[i].0) == path_norm(paths@[e as int]@))
                        && (idx[i].0 == paths@[e as int]@ ==> row@[i]),
            decreases index.entries.len() - j,
        {
            assert(idx[j as int].0 == index.entries@[j as int].0@);
            row.push(same_path(index.entries[j].0.as_str(), paths[e].as_str()));
            j = j + 1;
        }
        rows.push(row);
        e = e + 1;
    }
    let r = changed_games_given(index, &rows);
    proof {
        let rv = rows_view(rows@);
        assert forall|k: int| 0 <= k < rv.len() implies (#[trigger] rv[k]).len() == idx.len() by {
            assert(rv[k] == rows@[k]@);
        }
        law_changed_files_push_their_games(idx, rv);
        assert forall|k: int, j: int, x: Seq<char>|
            #![trigger paths@[k], idx[j].1.contains(x)]
            0 <= k < paths@.len() && 0 <= j < idx.len() && idx[j].0 == paths@[k]@ && idx[j].1.contains(x)
                implies strings_view(r@).contains(x) by {
            assert(rv[k] == rows@[k]@);
            assert(rv[k][j]);
        }
        assert forall|x: Seq<char>| #[trigger] strings_view(r@).contains(x) implies exists|k: int, j: int|
            0 <= k < paths@.len() && 0 <= j < idx.len() && path_norm(idx[j].0) == path_norm(paths@[k]@)
                && idx[j].1.contains(x) by {
            let (k, j) = choose|k: int, j: int| 0 <= k < rv.len() && 0 <= j < idx.len() && rv[k][j] && idx[j].1.contains(x);
            assert(rv[k] == rows@[k]@);
        }
    }
    r
}

/// The tray menu's pause entry: what clicking it would do.
pub fn pause_label(paused: bool) -> (r: &'static str)
    ensures
        r@ == if paused {
            "Resume syncing"@
        } else {
            "Pause syncing"@
        },
{
    if paused {
        "Resume syncing"
    } else {
        "Pause syncing"
    }
}

} // verus!
