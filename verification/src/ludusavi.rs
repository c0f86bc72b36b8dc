//! What Nimbus asks of Ludusavi and what it makes of the answers: command
//! lines, failure messages, the game list, the latest remote backup per
//! game, and whether a remote backup is newer than the local saves.

use vstd::prelude::*;
use crate::assoc::{assoc_map, pairs_view};
use crate::order::{chars_lt, str_lt, lemma_str_lt_total, lemma_str_lt_transitive, lemma_str_lt_asymmetric};
use crate::text::{chars_of, lossy_string, lowercase_chars, string_of, trim, trimmed, utf8_lossy, unicode_lowercase, decimal, decimal_chars};
use crate::timestamp::{parse_rfc3339, rfc3339, Rfc3339};

verus! {

/// Timestamps this close are "equal enough" (file-system mtime resolution,
/// clock skew), so neither side counts as newer.
pub const TOLERANCE_SECONDS: i128 = 3;

pub open spec fn tolerance_nanos() -> int {
    TOLERANCE_SECONDS * 1_000_000_000
}

/// Whether the remote backup taken at `remote` is genuinely newer than the
/// local saves last modified at `local` (nanoseconds since the epoch; `None`
/// when no save file exists locally). A timestamp that does not read is
/// never newer.
pub open spec fn remote_newer(remote: Seq<char>, local: Option<int>) -> bool {
    match rfc3339(remote) {
        Rfc3339::Epoch(r) => match local {
            None => true,
            Some(l) => r > l + tolerance_nanos(),
        },
        _ => false,
    }
}

/// The pull rule, in numbers: a remote backup that reads as `r`
/// nanoseconds is newer than local saves last written at `l` exactly when
/// it is more than three seconds later (`r > l + 3_000_000_000`); with no
/// local saves any readable remote is newer, and an unreadable one never is.
pub proof fn law_pull_rule_is_three_seconds(remote: Seq<char>, l: int)
    ensures
        rfc3339(remote) matches Rfc3339::Epoch(r) ==> (remote_newer(remote, Some(l)) <==> r > l + 3_000_000_000),
        rfc3339(remote) is Epoch ==> remote_newer(remote, None),
        !(rfc3339(remote) is Epoch) ==> !remote_newer(remote, Some(l)) && !remote_newer(remote, None),
{
}

/// True only when `remote` is newer than `local_epoch_nanos` by more than
/// the tolerance, i.e. pulling cannot overwrite something more current. A
/// remote timestamp that does not read (malformed, or out of range) is
/// silently never newer.
pub fn remote_is_newer(remote: &str, local_epoch_nanos: Option<i128>) -> (r: bool)
    ensures
        r == remote_newer(remote@, match local_epoch_nanos {
            Some(l) => Some(l as int),
            None => None,
        }),
{
    match parse_rfc3339(remote) {
        Rfc3339::Epoch(r) => match local_epoch_nanos {
            None => true,
            Some(l) => {
                let tol: i128 = TOLERANCE_SECONDS * 1_000_000_000;
                if l > i128::MAX - tol {
                    false
                } else {
                    r > l + tol
                }
            },
        },
        _ => false,
    }
}

// ---------------------------------------------------------------------------
// Command lines and their outcome
// ---------------------------------------------------------------------------

pub open spec fn strings_view(v: Seq<String>) -> Seq<Seq<char>> {
    v.map_values(|s: String| s@)
}

/// Arguments of `ludusavi backup`: one game's local saves to `sync_path`,
/// with Nimbus's own format and retention.
pub open spec fn backup_argv(sync_path: Seq<char>, format: Seq<char>, full_limit: u8, game: Seq<char>) -> Seq<Seq<char>> {
    seq![
        "backup"@,
        "--api"@,
        "--force"@,
        "--path"@,
        sync_path,
        "--format"@,
        format,
        "--full-limit"@,
        decimal(full_limit as nat),
        game,
    ]
}

/// Arguments of `ludusavi restore`: one game's saves from `sync_path`.
pub open spec fn restore_argv(sync_path: Seq<char>, game: Seq<char>) -> Seq<Seq<char>> {
    seq!["restore"@, "--api"@, "--force"@, "--path"@, sync_path, game]
}

fn push_str(v: &mut Vec<String>, s: &str)
    ensures
        strings_view(final(v)@) == strings_view(old(v)@).push(s@),
{
    let ghost before = strings_view(v@);
    v.push(s.to_owned());
    assert(strings_view(v@) =~= before.push(s@));
}

/// The leading arguments, the sync folder, the optional `flag value`
/// pair, the optional `--full-limit n`, then the game.
fn run_args(
    leading: [&str; 4],
    sync_path: &str,
    format: Option<(&str, &str)>,
    full_limit: Option<u8>,
    game: &str,
) -> (r: Vec<String>)
    ensures
        strings_view(r@) == seq![leading[0]@, leading[1]@, leading[2]@, leading[3]@, sync_path@]
            + match format {
            Some(p) => seq![p.0@, p.1@],
            None => Seq::<Seq<char>>::empty(),
        } + match full_limit {
            Some(n) => seq!["--full-limit"@, decimal(n as nat)],
            None => Seq::<Seq<char>>::empty(),
        } + seq![game@],
{
    let mut v: Vec<String> = Vec::new();
    push_str(&mut v, leading[0]);
    push_str(&mut v, leading[1]);
    push_str(&mut v, leading[2]);
    push_str(&mut v, leading[3]);
    push_str(&mut v, sync_path);
    let ghost base = strings_view(v@);
    if let Some((flag, value)) = format {
        push_str(&mut v, flag);
        push_str(&mut v, value);
    }
    let ghost mid = strings_view(v@);
    if let Some(limit) = full_limit {
        push_str(&mut v, "--full-limit");
        let digits = string_of(&decimal_chars(limit as u64));
        let ghost before = strings_view(v@);
        v.push(digits);
        assert(strings_view(v@) =~= before.push(decimal(limit as nat)));
    }
    push_str(&mut v, game);
    assert(strings_view(v@) =~= seq![leading[0]@, leading[1]@, leading[2]@, leading[3]@, sync_path@]
        + match format {
        Some(p) => seq![p.0@, p.1@],
        None => Seq::<Seq<char>>::empty(),
    } + match full_limit {
        Some(n) => seq!["--full-limit"@, decimal(n as nat)],
        None => Seq::<Seq<char>>::empty(),
    } + seq![game@]);
    v
}

/// Arguments that back up `game` to `sync_path`.
pub fn backup_args(sync_path: &str, format: &str, full_limit: u8, game: &str) -> (r: Vec<String>)
    ensures
        strings_view(r@) == backup_argv(sync_path@, format@, full_limit, game@),
{
    let r = run_args(["backup", "--api", "--force", "--path"], sync_path, Some(("--format", format)), Some(full_limit), game);
    assert(strings_view(r@) =~= backup_argv(sync_path@, format@, full_limit, game@));
    r
}

/// Arguments that restore `game` from `sync_path`.
pub fn restore_args(sync_path: &str, game: &str) -> (r: Vec<String>)
    ensures
        strings_view(r@) == restore_argv(sync_path@, game@),
{
    let r = run_args(["restore", "--api", "--force", "--path"], sync_path, None, None, game);
    assert(strings_view(r@) =~= restore_argv(sync_path@, game@));
    r
}

/// The message a failed run reports: its standard error, or its standard
/// output when standard error is blank, trimmed.
pub open spec fn failure_message(stderr: Seq<u8>, stdout: Seq<u8>) -> Seq<char> {
    if trim(utf8_lossy(stderr)).len() != 0 {
        trim(utf8_lossy(stderr))
    } else {
        trim(utf8_lossy(stdout))
    }
}

/// How a backup or restore run ended.
pub fn run_outcome(success: bool, stderr: &[u8], stdout: &[u8]) -> (r: Result<(), String>)
    ensures
        success <==> r is Ok,
        r matches Err(m) ==> m@ == failure_message(stderr@, stdout@),
{
    if success {
        return Ok(());
    }
    let e = trimmed(&chars_of(lossy_string(stderr).as_str()));
    if e.len() != 0 {
        Err(string_of(&e))
    } else {
        Err(string_of(&trimmed(&chars_of(lossy_string(stdout).as_str()))))
    }
}

/// The message of a failed query run: its standard error, trimmed.
pub fn query_failure(stderr: &[u8]) -> (r: String)
    ensures
        r@ == trim(utf8_lossy(stderr@)),
{
    string_of(&trimmed(&chars_of(lossy_string(stderr).as_str())))
}

// ---------------------------------------------------------------------------
// The game list
// ---------------------------------------------------------------------------

/// A game with local save data: its name, the total size of its save
/// files, and their paths.
#[derive(Debug, Clone)]
pub struct GameStatus {
    pub name: String,
    pub bytes: u64,
    pub paths: Vec<String>,
}

pub open spec fn sizes_total(files: Seq<(String, u64)>) -> int
    decreases files.len(),
{
    if files.len() == 0 {
        0
    } else {
        sizes_total(files.drop_last()) + files.last().1
    }
}

/// The total size of `files`, or `None` when it overflows `u64` (where
/// `Iterator::sum` panics).
pub fn files_total(files: &Vec<(String, u64)>) -> (r: Option<u64>)
    ensures
        match r {
            Some(t) => t == sizes_total(files@),
            None => sizes_total(files@) > u64::MAX,
        },
{
    let mut acc: u64 = 0;
    let mut i: usize = 0;
    assert(files@.take(0) =~= Seq::<(String, u64)>::empty());
    while i < files.len()
        invariant
            i <= files.len(),
            acc == sizes_total(files@.take(i as int)),
        decreases files.len() - i,
    {
        assert(files@.take(i + 1).drop_last() =~= files@.take(i as int));
        if acc > u64::MAX - files[i].1 {
            proof {
                lemma_sizes_total_prefix(files@, i + 1);
            }
            return None;
        }
        acc = acc + files[i].1;
        i = i + 1;
    }
    assert(files@.take(i as int) =~= files@);
    Some(acc)
}

proof fn lemma_sizes_total_prefix(files: Seq<(String, u64)>, k: int)
    requires
        0 <= k <= files.len(),
    ensures
        sizes_total(files.take(k)) <= sizes_total(files),
    decreases files.len() - k,
{
    if k < files.len() {
        lemma_sizes_total_prefix(files, k + 1);
        assert(files.take(k + 1).drop_last() =~= files.take(k));
    } else {
        assert(files.take(k) =~= files);
    }
}

/// A game's status from what the preview reports for it: each save file
/// with its size.
pub fn game_status(name: String, files: Vec<(String, u64)>) -> (r: GameStatus)
    requires
        sizes_total(files@) <= u64::MAX,
    ensures
        r.name == name,
        r.bytes == sizes_total(files@),
        r.paths@.map_values(|p: String| p@) == files@.map_values(|f: (String, u64)| f.0@),
{
    let bytes = match files_total(&files) {
        Some(t) => t,
        None => 0,
    };
    let mut paths: Vec<String> = Vec::new();
    let ghost target = files@.map_values(|f: (String, u64)| f.0@);
    let mut i: usize = 0;
    while i < files.len()
        invariant
            i <= files.len(),
            target == files@.map_values(|f: (String, u64)| f.0@),
            paths@.map_values(|p: String| p@) == target.take(i as int),
        decreases files.len() - i,
    {
        let ghost before = paths@.map_values(|p: String| p@);
        paths.push(files[i].0.clone());
        assert(paths@.map_values(|p: String| p@) =~= before.push(files@[i as int].0@));
        assert(target.take(i + 1) =~= target.take(i as int).push(files@[i as int].0@));
        i = i + 1;
    }
    assert(target.take(i as int) =~= target);
    GameStatus { name, bytes, paths }
}

/// The key games are listed by: the lowercase name.
pub open spec fn sort_key(g: GameStatus) -> Seq<char> {
    unicode_lowercase(g.name@)
}

pub open spec fn keys_of(s: Seq<GameStatus>) -> Seq<Seq<char>> {
    s.map_values(|g: GameStatus| sort_key(g))
}

/// Where a stable insertion puts key `k`: after the last key not above it,
/// looking from the end.
pub open spec fn insertion_point(keys: Seq<Seq<char>>, k: Seq<char>) -> int
    decreases keys.len(),
{
    if keys.len() == 0 {
        0
    } else if !str_lt(k, keys.last()) {
        keys.len() as int
    } else {
        insertion_point(keys.drop_last(), k)
    }
}

/// `games` ordered by lowercase name, keeping the given order between equal
/// names (what the stable `sort_by_key` produces).
pub open spec fn sorted_by_name(games: Seq<GameStatus>) -> Seq<GameStatus>
    decreases games.len(),
{
    if games.len() == 0 {
        games
    } else {
        let s = sorted_by_name(games.drop_last());
        s.insert(insertion_point(keys_of(s), sort_key(games.last())), games.last())
    }
}

pub proof fn lemma_insertion_point_bounds(keys: Seq<Seq<char>>, k: Seq<char>)
    ensures
        0 <= insertion_point(keys, k) <= keys.len(),
        forall|i: int| insertion_point(keys, k) <= i < keys.len() ==> str_lt(k, #[trigger] keys[i]),
        insertion_point(keys, k) > 0 ==> !str_lt(k, keys[insertion_point(keys, k) - 1]),
    decreases keys.len(),
{
    if keys.len() > 0 && str_lt(k, keys.last()) {
        lemma_insertion_point_bounds(keys.drop_last(), k);
        let p = insertion_point(keys, k);
        assert forall|i: int| p <= i < keys.len() implies str_lt(k, #[trigger] keys[i]) by {
            if i < keys.len() - 1 {
                assert(keys.drop_last()[i] == keys[i]);
            }
        }
    }
}

proof fn lemma_sorted_by_name_len(games: Seq<GameStatus>)
    ensures
        sorted_by_name(games).len() == games.len(),
    decreases games.len(),
{
    if games.len() > 0 {
        lemma_sorted_by_name_len(games.drop_last());
        lemma_insertion_point_bounds(keys_of(sorted_by_name(games.drop_last())), sort_key(games.last()));
    }
}

/// No game comes before one whose lowercase name is smaller.
pub open spec fn ordered_by_name(s: Seq<GameStatus>) -> bool {
    forall|i: int, j: int|
        0 <= i < j < s.len() ==> !str_lt(sort_key(#[trigger] s[j]), sort_key(#[trigger] s[i]))
}

/// Inserting a game where a stable insertion puts it keeps a list ordered.
#[verifier::rlimit(40)]
proof fn lemma_insert_keeps_order(s: Seq<GameStatus>, g: GameStatus)
    requires
        ordered_by_name(s),
    ensures
        ordered_by_name(s.insert(insertion_point(keys_of(s), sort_key(g)), g)),
{
    let ks = keys_of(s);
    let k = sort_key(g);
    lemma_insertion_point_bounds(ks, k);
    let p = insertion_point(ks, k);
    let t = s.insert(p, g);
    assert forall|i: int, j: int| 0 <= i < j < t.len() implies !str_lt(
        sort_key(#[trigger] t[j]),
        sort_key(#[trigger] t[i]),
    ) by {
        if i == p {
            assert(t[j] == s[j - 1]);
            assert(str_lt(k, ks[j - 1]));
            lemma_str_lt_asymmetric(k, ks[j - 1]);
        } else if j == p {
            assert(t[i] == s[i]);
            assert(!str_lt(k, ks[p - 1]));
            if i < p - 1 && str_lt(k, ks[i]) {
                assert(!str_lt(sort_key(s[p - 1]), sort_key(s[i])));
                lemma_str_lt_total(ks[i], ks[p - 1]);
                if str_lt(ks[i], ks[p - 1]) {
                    lemma_str_lt_transitive(k, ks[i], ks[p - 1]);
                }
            }
        } else if j < p {
            assert(t[i] == s[i] && t[j] == s[j]);
        } else if i < p {
            assert(t[i] == s[i] && t[j] == s[j - 1]);
        } else {
            assert(t[i] == s[i - 1] && t[j] == s[j - 1]);
        }
    }
}

/// The game list comes out ordered by lowercase name, and holds every game
/// of the input exactly as often as the input did.
pub proof fn law_sorted_games_ordered_permutation(games: Seq<GameStatus>)
    ensures
        ordered_by_name(sorted_by_name(games)),
        sorted_by_name(games).to_multiset() == games.to_multiset(),
    decreases games.len(),
{
    if games.len() > 0 {
        let init = games.drop_last();
        let g = games.last();
        law_sorted_games_ordered_permutation(init);
        lemma_sorted_by_name_len(init);
        let s = sorted_by_name(init);
        let p = insertion_point(keys_of(s), sort_key(g));
        lemma_insertion_point_bounds(keys_of(s), sort_key(g));
        lemma_insert_keeps_order(s, g);
        vstd::seq_lib::to_multiset_insert(s, p, g);
        assert(games =~= init.push(g));
        vstd::seq_lib::to_multiset_build(init, g);
    }
}

/// The games come out in the order of their whole lowercase names: no game
/// is listed after one whose full lowercased name is smaller, and none is
/// lost or added.
pub proof fn law_games_sorted_by_whole_lowercase_name(games: Seq<GameStatus>)
    ensures
        forall|i: int, j: int|
            0 <= i < j < sorted_by_name(games).len() ==> !str_lt(
                unicode_lowercase((#[trigger] sorted_by_name(games)[j]).name@),
                unicode_lowercase((#[trigger] sorted_by_name(games)[i]).name@),
            ),
        sorted_by_name(games).to_multiset() == games.to_multiset(),
{
    law_sorted_games_ordered_permutation(games);
}

/// Orders `games` by lowercase name, stably.
pub fn sort_games(games: Vec<GameStatus>) -> (r: Vec<GameStatus>)
    ensures
        r@ == sorted_by_name(games@),
        ordered_by_name(r@),
        r@.to_multiset() == games@.to_multiset(),
{
    proof {
        law_sorted_games_ordered_permutation(games@);
    }
    let ghost all = games@;
    assert(all.len() == games.len());
    let mut rest = games;
    let mut out: Vec<GameStatus> = Vec::new();
    let mut keys: Vec<Vec<char>> = Vec::new();
    let mut n: usize = 0;
    assert(all.take(0) =~= Seq::<GameStatus>::empty());
    while rest.len() > 0
        invariant
            n + rest.len() == all.len(),
            all.len() <= usize::MAX,
            rest@ == all.skip(n as int),
            out@ == sorted_by_name(all.take(n as int)),
            keys@.map_values(|k: Vec<char>| k@) == keys_of(out@),
        decreases rest.len(),
    {
        let g = rest.remove(0);
        assert(n < all.len());
        assert(all.take(n + 1).drop_last() =~= all.take(n as int));
        assert(all.take(n + 1).last() == g);
        assert(rest@ =~= all.skip(n + 1));
        let k = lowercase_chars(&chars_of(g.name.as_str()));
        let ghost kv = keys@.map_values(|k: Vec<char>| k@);
        let mut j = keys.len();
        assert(kv.take(j as int) =~= kv);
        while j > 0 && chars_lt(&k, &keys[j - 1])
            invariant
                j <= keys.len(),
                kv == keys@.map_values(|k: Vec<char>| k@),
                insertion_point(kv, k@) == insertion_point(kv.take(j as int), k@),
            decreases j,
        {
            assert(kv.take(j as int).drop_last() =~= kv.take(j - 1));
            assert(kv.take(j as int).last() == keys@[j - 1]@);
            j = j - 1;
        }
        proof {
            if j > 0 {
                assert(kv.take(j as int).last() == keys@[j - 1]@);
            }
            assert(insertion_point(kv.take(j as int), k@) == j);
            lemma_sorted_by_name_len(all.take(n as int));
        }
        let ghost old_out = out@;
        let ghost old_keys = keys@;
        let ghost gk = k@;
        assert(gk == sort_key(g));
        out.insert(j, g);
        keys.insert(j, k);
        proof {
            assert(keys@ == old_keys.insert(j as int, keys@[j as int]));
            assert(keys@.map_values(|k: Vec<char>| k@) =~= kv.insert(j as int, gk));
            assert(keys_of(out@) =~= keys_of(old_out).insert(j as int, gk));
        }
        n = n + 1;
    }
    assert(all.take(n as int) =~= all);
    out
}

// ---------------------------------------------------------------------------
// Remote backups
// ---------------------------------------------------------------------------

/// The instant of a backup timestamp: its time in nanoseconds when it
/// reads, `None` when it does not (such a timestamp counts as earlier than
/// every time).
pub open spec fn stamp_time(w: Seq<char>) -> Option<int> {
    match rfc3339(w) {
        Rfc3339::Epoch(n) => Some(n as int),
        _ => None,
    }
}

/// Instant `a` is earlier than instant `b`; a timestamp that does not read
/// is earlier than one that does.
pub open spec fn earlier(a: Option<int>, b: Option<int>) -> bool {
    match (a, b) {
        (None, Some(_)) => true,
        (Some(x), Some(y)) => x < y,
        _ => false,
    }
}

/// The most recent of `ws` in time (of several equally recent ones, the
/// last).
pub open spec fn latest(ws: Seq<Seq<char>>) -> Option<Seq<char>>
    decreases ws.len(),
{
    if ws.len() == 0 {
        None
    } else {
        match latest(ws.drop_last()) {
            None => Some(ws.last()),
            Some(m) => if earlier(stamp_time(ws.last()), stamp_time(m)) {
                Some(m)
            } else {
                Some(ws.last())
            },
        }
    }
}

/// The latest timestamp is one of them, and none is more recent; there is
/// one exactly when there is any timestamp at all.
#[verifier::rlimit(40)]
#[verifier::spinoff_prover]
pub proof fn law_latest_is_greatest(ws: Seq<Seq<char>>)
    ensures
        latest(ws) is Some <==> ws.len() > 0,
        latest(ws) matches Some(m) ==> ws.contains(m) && forall|i: int|
            0 <= i < ws.len() ==> !earlier(stamp_time(m), stamp_time(#[trigger] ws[i])),
    decreases ws.len(),
{
    if ws.len() > 0 {
        let init = ws.drop_last();
        law_latest_is_greatest(init);
        let w = ws.last();
        assert(ws[ws.len() - 1] == w);
        match latest(init) {
            None => {},
            Some(m) => {
                let k = choose|k: int| 0 <= k < init.len() && init[k] == m;
                assert(ws[k] == m);
                assert forall|i: int| 0 <= i < ws.len() implies !earlier(
                    stamp_time(latest(ws)->0),
                    stamp_time(#[trigger] ws[i]),
                ) by {
                    if i < ws.len() - 1 {
                        assert(ws[i] == init[i]);
                    }
                }
            },
        }
    }
}

/// The latest of a game's backup timestamps, by time; one that does not
/// read counts as earlier than any that does.
pub fn latest_when(whens: &Vec<String>) -> (r: Option<String>)
    ensures
        match latest(strings_view(whens@)) {
            Some(m) => r matches Some(x) && x@ == m,
            None => r is None,
        },
        r is Some <==> whens@.len() > 0,
        r matches Some(x) ==> strings_view(whens@).contains(x@) && forall|i: int|
            0 <= i < whens@.len() ==> !earlier(stamp_time(x@), stamp_time(#[trigger] whens@[i]@)),
{
    proof {
        law_latest_is_greatest(strings_view(whens@));
    }
    let ghost ws = strings_view(whens@);
    let mut best: Option<String> = None;
    let mut best_time: Option<i128> = None;
    let mut i: usize = 0;
    assert(ws.take(0) =~= Seq::<Seq<char>>::empty());
    while i < whens.len()
        invariant
            i <= whens.len(),
            ws == strings_view(whens@),
            match latest(ws.take(i as int)) {
                Some(m) => best matches Some(x) && x@ == m && match best_time {
                    Some(t) => stamp_time(m) == Some(t as int),
                    None => stamp_time(m) is None,
                },
                None => best is None,
            },
        decreases whens.len() - i,
    {
        assert(ws.take(i + 1).drop_last() =~= ws.take(i as int));
        assert(ws.take(i + 1).last() == whens@[i as int]@);
        let t = match parse_rfc3339(whens[i].as_str()) {
            Rfc3339::Epoch(n) => Some(n),
            _ => None,
        };
        let replace = match &best {
            None => true,
            Some(_) => !match (t, best_time) {
                (None, Some(_)) => true,
                (Some(x), Some(y)) => x < y,
                _ => false,
            },
        };
        if replace {
            best = Some(whens[i].clone());
            best_time = t;
        }
        i = i + 1;
    }
    assert(ws.take(i as int) =~= ws);
    proof {
        if best is Some {
            assert forall|k: int| 0 <= k < whens@.len() implies !earlier(
                stamp_time(best->0@),
                stamp_time(#[trigger] whens@[k]@),
            ) by {
                assert(ws[k] == whens@[k]@);
            }
        }
    }
    best
}

/// The latest of a game's local save modification times (nanoseconds since
/// the epoch), or `None` when none of its save files exists locally.
pub fn latest_mtime(times: &Vec<i128>) -> (r: Option<i128>)
    ensures
        r is None <==> times@.len() == 0,
        r matches Some(m) ==> times@.contains(m) && forall|i: int| 0 <= i < times@.len() ==> times@[i] <= m,
{
    let mut best: Option<i128> = None;
    let mut i: usize = 0;
    while i < times.len()
        invariant
            i <= times.len(),
            best is None <==> i == 0,
            best matches Some(m) ==> (exists|k: int| 0 <= k < i && times@[k] == m) && forall|k: int|
                0 <= k < i ==> times@[k] <= m,
        decreases times.len() - i,
    {
        let t = times[i];
        best = match best {
            None => Some(t),
            Some(m) => if t > m {
                Some(t)
            } else {
                Some(m)
            },
        };
        i = i + 1;
    }
    best
}

/// Per game with at least one remote backup, its latest timestamp; from
/// what `ludusavi backups` reports (each game with its backup timestamps).
pub fn latest_backups(games: &Vec<(String, Vec<String>)>) -> (r: Vec<(String, String)>)
    ensures
        pairs_view(r@) == latest_pairs(games@),
{
    let mut out: Vec<(String, String)> = Vec::new();
    let mut i: usize = 0;
    assert(games@.take(0) =~= Seq::<(String, Vec<String>)>::empty());
    while i < games.len()
        invariant
            i <= games.len(),
            pairs_view(out@) == latest_pairs(games@.take(i as int)),
        decreases games.len() - i,
    {
        assert(games@.take(i + 1).drop_last() =~= games@.take(i as int));
        assert(games@.take(i + 1).last() == games@[i as int]);
        let ghost before = pairs_view(out@);
        match latest_when(&games[i].1) {
            Some(w) => {
                let ghost kv = (games@[i as int].0@, w@);
                out.push((games[i].0.clone(), w));
                assert(pairs_view(out@) =~= before.push(kv));
            },
            None => {},
        }
        i = i + 1;
    }
    assert(games@.take(i as int) =~= games@);
    out
}

pub open spec fn latest_pairs(games: Seq<(String, Vec<String>)>) -> Seq<(Seq<char>, Seq<char>)>
    decreases games.len(),
{
    if games.len() == 0 {
        seq![]
    } else {
        let g = games.last();
        match latest(strings_view(g.1@)) {
            Some(m) => latest_pairs(games.drop_last()).push((g.0@, m)),
            None => latest_pairs(games.drop_last()),
        }
    }
}

/// A game's entry in `latest_backups`: its name with its latest backup, or
/// none when it has no backup.
pub open spec fn game_latest(g: (String, Vec<String>)) -> Option<(Seq<char>, Seq<char>)> {
    match latest(strings_view(g.1@)) {
        Some(m) => Some((g.0@, m)),
        None => None,
    }
}

/// `latest_backups` is `latest_when` taken per game, in order, leaving out
/// the games without a backup.
pub proof fn law_latest_backups_per_game(games: Seq<(String, Vec<String>)>)
    ensures
        latest_pairs(games) == games.filter_map(|g: (String, Vec<String>)| game_latest(g)),
    decreases games.len(),
{
    if games.len() > 0 {
        law_latest_backups_per_game(games.drop_last());
        let f = |g: (String, Vec<String>)| game_latest(g);
        match latest(strings_view(games.last().1@)) {
            Some(m) => {
                assert(games.drop_last().filter_map(f).push((games.last().0@, m)) =~= games.drop_last().filter_map(f)
                    + seq![(games.last().0@, m)]);
            },
            None => {},
        }
    }
}


/// No two games share a name (as in `ludusavi backups`, keyed by name).
pub open spec fn names_distinct(games: Seq<(String, Vec<String>)>) -> bool {
    forall|i: int, j: int| 0 <= i < j < games.len() ==> (#[trigger] games[i]).0@ != (#[trigger] games[j]).0@
}

/// The listing of all games agrees with looking up one game at a time: for
/// games with distinct names, looking up a game's name in `latest_backups`
/// gives exactly what `latest_when` gives for that game's own backups (no
/// entry when it has none), and every name listed is one of the games.
pub proof fn law_all_games_listing_matches_lookup(games: Seq<(String, Vec<String>)>)
    requires
        names_distinct(games),
    ensures
        forall|i: int| 0 <= i < games.len() ==> match latest(strings_view((#[trigger] games[i]).1@)) {
            Some(m) => assoc_map(latest_pairs(games)).contains_key(games[i].0@) && assoc_map(
                latest_pairs(games),
            )[games[i].0@] == m,
            None => !assoc_map(latest_pairs(games)).contains_key(games[i].0@),
        },
        forall|k: Seq<char>| #[trigger] assoc_map(latest_pairs(games)).contains_key(k) ==> exists|i: int|
            0 <= i < games.len() && games[i].0@ == k,
    decreases games.len(),
{
    if games.len() > 0 {
        let init = games.drop_last();
        let g = games.last();
        let n = games.len() - 1;
        assert(games[n] == g);
        assert forall|i: int, j: int| 0 <= i < j < init.len() implies (#[trigger] init[i]).0@ != (
        #[trigger] init[j]).0@ by {
            assert(init[i] == games[i] && init[j] == games[j]);
        }
        law_all_games_listing_matches_lookup(init);
        let before = assoc_map(latest_pairs(init));
        let after = assoc_map(latest_pairs(games));
        assert(!before.contains_key(g.0@)) by {
            if before.contains_key(g.0@) {
                let i = choose|i: int| 0 <= i < init.len() && init[i].0@ == g.0@;
                assert(games[i] == init[i]);
            }
        }
        match latest(strings_view(g.1@)) {
            Some(m) => {
                assert(latest_pairs(games) == latest_pairs(init).push((g.0@, m)));
                crate::assoc::lemma_assoc_map_push(latest_pairs(init), g.0@, m);
                assert(after == before.insert(g.0@, m));
            },
            None => {
                assert(after == before);
            },
        }
        assert forall|i: int| 0 <= i < games.len() implies match latest(strings_view((#[trigger] games[i]).1@)) {
            Some(m) => after.contains_key(games[i].0@) && after[games[i].0@] == m,
            None => !after.contains_key(games[i].0@),
        } by {
            if i < n {
                assert(games[i] == init[i]);
                assert(games[i].0@ != g.0@);
            }
        }
        assert forall|k: Seq<char>| #[trigger] after.contains_key(k) implies exists|i: int|
            0 <= i < games.len() && games[i].0@ == k by {
            if k != g.0@ {
                assert(before.contains_key(k));
                let i = choose|i: int| 0 <= i < init.len() && init[i].0@ == k;
                assert(games[i] == init[i]);
            }
        }
    }
}

} // verus!
