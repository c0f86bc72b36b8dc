//! Adding Nimbus's own folder to the user's `PATH` value, so Launch Options
//! can just say `nimbus %command%`. The computation of the new value lives
//! here; the registry write is the program's.

use vstd::prelude::*;
use crate::gameid::slash_path;
use crate::text::{
    ascii_lower, chars_of, free_of, is_ws, lemma_split_on_free, lemma_split_on_join, split_chars, split_on,
    string_of, to_ascii_lower, trim, trim_end, trim_start, trimmed, trimmed_end,
};

verus! {

/// `str::eq_ignore_ascii_case`.
pub open spec fn eq_ignore_ascii_case(a: Seq<char>, b: Seq<char>) -> bool {
    a.len() == b.len() && forall|i: int| 0 <= i < a.len() ==> ascii_lower(#[trigger] a[i]) == ascii_lower(b[i])
}

fn eq_ignore_ascii_case_exec(a: &Vec<char>, b: &Vec<char>) -> (r: bool)
    ensures
        r == eq_ignore_ascii_case(a@, b@),
{
    if a.len() != b.len() {
        return false;
    }
    let mut i: usize = 0;
    while i < a.len()
        invariant
            a.len() == b.len(),
            i <= a.len(),
            forall|j: int| 0 <= j < i ==> ascii_lower(#[trigger] a@[j]) == ascii_lower(b@[j]),
        decreases a.len() - i,
    {
        if to_ascii_lower(a[i]) != to_ascii_lower(b[i]) {
            return false;
        }
        i = i + 1;
    }
    true
}

/// The `;`-separated entries of a `PATH` value.
pub open spec fn path_entries(current: Seq<char>) -> Seq<Seq<char>> {
    split_on(current, ';')
}

/// Whether entry `i` already names `dir` by text: equal after trimming,
/// ignoring ASCII case (as Windows path matching does).
pub open spec fn entry_names_dir(current: Seq<char>, i: int, dir: Seq<char>) -> bool {
    eq_ignore_ascii_case(trim(path_entries(current)[i]), dir)
}

/// Whether entry `i` already is `dir`, by path (`same`) or by text.
pub open spec fn entry_is_dir(current: Seq<char>, i: int, dir: Seq<char>, same: bool) -> bool {
    same || entry_names_dir(current, i, dir)
}

/// `current` with `dir` appended as a new entry.
pub open spec fn appended_path(current: Seq<char>, dir: Seq<char>) -> Seq<char> {
    if trim(current).len() == 0 {
        dir
    } else if trim_end(current).len() > 0 && trim_end(current).last() == ';' {
        current + dir
    } else {
        current + seq![';'] + dir
    }
}

/// The new `PATH` value given, for each entry, whether it is the same path
/// as `dir` (`path_matches[i]`): `None` when some entry already is `dir`,
/// by path or by text, else `current` with `dir` appended.
pub fn updated_path_given(current: &str, dir: &str, path_matches: &Vec<bool>) -> (r: Option<String>)
    requires
        path_matches.len() == path_entries(current@).len(),
    ensures
        (exists|i: int| 0 <= i < path_matches.len() && #[trigger] entry_is_dir(current@, i, dir@, path_matches@[i]))
            ==> r is None,
        (forall|i: int| 0 <= i < path_matches.len() ==> !#[trigger] entry_is_dir(current@, i, dir@, path_matches@[i]))
            ==> (r matches Some(s) && s@ == appended_path(current@, dir@)),
{
    let cur = chars_of(current);
    let d = chars_of(dir);
    let entries = split_chars(&cur, ';');
    let ghost ev = entries@.map_values(|v: Vec<char>| v@);
    assert(ev.len() == entries.len());
    let mut i: usize = 0;
    while i < entries.len()
        invariant
            i <= entries.len(),
            cur@ == current@,
            d@ == dir@,
            ev == entries@.map_values(|v: Vec<char>| v@),
            ev == path_entries(current@),
            path_matches.len() == ev.len(),
            forall|j: int| 0 <= j < i ==> !#[trigger] entry_is_dir(current@, j, dir@, path_matches@[j]),
        decreases entries.len() - i,
    {
        let t = trimmed(&entries[i]);
        assert(ev[i as int] == entries@[i as int]@);
        if path_matches[i] || eq_ignore_ascii_case_exec(&t, &d) {
            assert(entry_is_dir(current@, i as int, dir@, path_matches@[i as int]));
            return None;
        }
        assert(!entry_is_dir(current@, i as int, dir@, path_matches@[i as int]));
        i = i + 1;
    }
    let whole = trimmed(&cur);
    let mut out = chars_of(current);
    if whole.len() == 0 {
        return Some(string_of(&d));
    }
    let end = trimmed_end(&cur);
    if !(end.len() > 0 && end[end.len() - 1] == ';') {
        out.push(';');
    }
    crate::text::append_chars(&mut out, &d);
    Some(string_of(&out))
}

/// `s` as compared loosely: ASCII letters lowercased, every `/`, `\\` and
/// `.` left out.
pub open spec fn path_norm(s: Seq<char>) -> Seq<char>
    decreases s.len(),
{
    if s.len() == 0 {
        seq![]
    } else {
        let r = path_norm(s.drop_last());
        let c = s.last();
        if c == '/' || c == '\\' || c == '.' {
            r
        } else {
            r.push(ascii_lower(c))
        }
    }
}

/// A `/`-path (`gameid::slash_path`) that does not end in `/` and has no
/// `:` (no Windows drive prefix): adding a `/` to it names the same path on
/// every platform.
pub open spec fn plain_dir_path(b: Seq<char>) -> bool {
    &&& slash_path(b)
    &&& b.len() > 0
    &&& b.last() != '/'
    &&& forall|i: int| 0 <= i < b.len() ==> #[trigger] b[i] != ':'
}

/// `Path::new(a) == Path::new(b)`: component-wise path equality, whose
/// rules depend on the platform (separators, prefixes, drive-letter case).
/// Stated is what holds on every platform: a path equals itself and itself
/// with one trailing `/` (for a plain `/`-path), and equal paths differ
/// only in separators, `.` components and ASCII case, so they agree once
/// those are left out (`path_norm`).
#[verifier::external_body]
pub(crate) fn same_path(a: &str, b: &str) -> (r: bool)
    ensures
        a@ == b@ ==> r,
        plain_dir_path(b@) && a@ == b@.push('/') ==> r,
        r ==> path_norm(a@) == path_norm(b@),
{
    std::path::Path::new(a) == std::path::Path::new(b)
}

proof fn lemma_ascii_case_norm(a: Seq<char>, b: Seq<char>)
    requires
        eq_ignore_ascii_case(a, b),
    ensures
        path_norm(a) == path_norm(b),
    decreases a.len(),
{
    if a.len() > 0 {
        assert(eq_ignore_ascii_case(a.drop_last(), b.drop_last())) by {
            assert forall|i: int| 0 <= i < a.drop_last().len() implies ascii_lower(#[trigger] a.drop_last()[i])
                == ascii_lower(b.drop_last()[i]) by {
                assert(ascii_lower(a[i]) == ascii_lower(b[i]));
            }
        }
        lemma_ascii_case_norm(a.drop_last(), b.drop_last());
        assert(ascii_lower(a[a.len() - 1]) == ascii_lower(b[b.len() - 1]));
    }
}

/// The new `PATH` value to write for adding `dir`, or `None` when `dir` is
/// already on it: an entry names it by text ignoring ASCII case, or is the
/// same path. Stated of the path comparison is what holds on every
/// platform: an entry that is `dir` with one trailing `/` is the same
/// path, and when no entry agrees with `dir` once separators, dots and
/// ASCII case are left out, `dir` is appended.
pub fn compute_updated_path(current: &str, dir: &str) -> (r: Option<String>)
    ensures
        (exists|i: int| 0 <= i < path_entries(current@).len() && entry_names_dir(current@, i, dir@))
            ==> r is None,
        plain_dir_path(dir@) && (exists|i: int|
            0 <= i < path_entries(current@).len() && trim(#[trigger] path_entries(current@)[i])
                == dir@.push('/')) ==> r is None,
        (forall|i: int|
            0 <= i < path_entries(current@).len() ==> path_norm(trim(#[trigger] path_entries(current@)[i]))
                != path_norm(dir@)) ==> (r matches Some(s) && s@ == appended_path(current@, dir@)),
        r matches Some(s) ==> s@ == appended_path(current@, dir@),
{
    let cur = chars_of(current);
    let entries = split_chars(&cur, ';');
    let ghost ev = entries@.map_values(|v: Vec<char>| v@);
    assert(ev.len() == entries.len());
    let mut matches: Vec<bool> = Vec::new();
    let mut i: usize = 0;
    while i < entries.len()
        invariant
            i <= entries.len(),
            matches.len() == i,
            ev == entries@.map_values(|v: Vec<char>| v@),
            forall|j: int| 0 <= j < i ==> (#[trigger] matches@[j] ==> path_norm(trim(ev[j])) == path_norm(dir@)),
            forall|j: int|
                0 <= j < i ==> (plain_dir_path(dir@) && trim(ev[j]) == dir@.push('/') ==> #[trigger] matches@[j]),
        decreases entries.len() - i,
    {
        let t = string_of(&trimmed(&entries[i]));
        assert(ev[i as int] == entries@[i as int]@);
        matches.push(same_path(t.as_str(), dir));
        i = i + 1;
    }
    assert(ev == path_entries(current@));
    let r = updated_path_given(current, dir, &matches);
    proof {
        if exists|i: int| 0 <= i < path_entries(current@).len() && entry_names_dir(current@, i, dir@) {
            let i = choose|i: int| 0 <= i < path_entries(current@).len() && entry_names_dir(current@, i, dir@);
            assert(entry_is_dir(current@, i, dir@, matches@[i]));
        }
        if plain_dir_path(dir@) && (exists|i: int|
            0 <= i < path_entries(current@).len() && trim(#[trigger] path_entries(current@)[i]) == dir@.push('/')) {
            let i = choose|i: int|
                0 <= i < path_entries(current@).len() && trim(#[trigger] path_entries(current@)[i]) == dir@.push('/');
            assert(matches@[i]);
            assert(entry_is_dir(current@, i, dir@, matches@[i]));
        }
        if forall|i: int|
            0 <= i < path_entries(current@).len() ==> path_norm(trim(#[trigger] path_entries(current@)[i]))
                != path_norm(dir@) {
            assert forall|j: int| 0 <= j < matches.len() implies !#[trigger] entry_is_dir(current@, j, dir@, matches@[j]) by {
                assert(path_norm(trim(path_entries(current@)[j])) != path_norm(dir@));
                if entry_names_dir(current@, j, dir@) {
                    lemma_ascii_case_norm(trim(path_entries(current@)[j]), dir@);
                }
            }
        }
        if r is Some {
            assert forall|j: int| 0 <= j < matches.len() implies !#[trigger] entry_is_dir(current@, j, dir@, matches@[j]) by {
                if entry_is_dir(current@, j, dir@, matches@[j]) {
                    assert(exists|i: int| 0 <= i < matches.len() && #[trigger] entry_is_dir(current@, i, dir@, matches@[i]));
                }
            }
        }
    }
    r
}

proof fn lemma_trim_start_after_space(w: Seq<char>, d: Seq<char>)
    requires
        forall|j: int| 0 <= j < w.len() ==> is_ws(#[trigger] w[j]),
    ensures
        trim_start(w + d) == trim_start(d),
    decreases w.len(),
{
    if w.len() == 0 {
        assert(w + d =~= d);
    } else {
        assert((w + d)[0] == w[0]);
        assert((w + d).drop_first() =~= w.drop_first() + d);
        assert forall|j: int| 0 <= j < w.drop_first().len() implies is_ws(#[trigger] w.drop_first()[j]) by {
            assert(w.drop_first()[j] == w[j + 1]);
        }
        lemma_trim_start_after_space(w.drop_first(), d);
    }
}

/// `trim_end(s)` is a prefix of `s` followed only by whitespace.
proof fn lemma_trim_end_split(s: Seq<char>)
    ensures
        trim_end(s).len() <= s.len(),
        s == trim_end(s) + s.skip(trim_end(s).len() as int),
        forall|j: int| 0 <= j < s.skip(trim_end(s).len() as int).len() ==> is_ws(
            #[trigger] s.skip(trim_end(s).len() as int)[j],
        ),
    decreases s.len(),
{
    if s.len() > 0 && is_ws(s.last()) {
        lemma_trim_end_split(s.drop_last());
        let e = trim_end(s.drop_last());
        assert(trim_end(s) == e);
        let w = s.drop_last().skip(e.len() as int);
        assert(s.drop_last() == e + w);
        assert(s =~= s.drop_last().push(s.last()));
        assert((e + w).push(s.last()) =~= e + w.push(s.last()));
        assert(s.skip(e.len() as int) =~= w.push(s.last()));
        assert(s =~= e + s.skip(e.len() as int));
        assert forall|j: int| 0 <= j < s.skip(e.len() as int).len() implies is_ws(#[trigger] s.skip(e.len() as int)[j]) by {
            if j < w.len() {
                assert(s.skip(e.len() as int)[j] == w[j]);
            } else {
                assert(s.skip(e.len() as int)[j] == s.last());
            }
        }
    } else {
        assert(s.skip(s.len() as int) =~= Seq::<char>::empty());
        assert(s =~= s + Seq::<char>::empty());
    }
}

/// Adding a folder to `PATH` a second time changes nothing: the value
/// written the first time already has an entry naming it. (For a folder
/// written without surrounding whitespace and without `;`.)
#[verifier::rlimit(40)]
pub proof fn law_adding_to_path_twice_changes_nothing(current: Seq<char>, dir: Seq<char>)
    requires
        trim(dir) == dir,
        free_of(dir, ';'),
    ensures
        exists|i: int|
            0 <= i < path_entries(appended_path(current, dir)).len() && entry_names_dir(
                appended_path(current, dir),
                i,
                dir,
            ),
{
    let a = appended_path(current, dir);
    assert(eq_ignore_ascii_case(dir, dir));
    if trim(current).len() == 0 {
        lemma_split_on_free(dir, ';');
        assert(entry_names_dir(a, 0, dir));
    } else if trim_end(current).len() > 0 && trim_end(current).last() == ';' {
        let e = trim_end(current);
        lemma_trim_end_split(current);
        let w = current.skip(e.len() as int);
        let y = e.drop_last();
        assert(a =~= y + seq![';'] + (w + dir));
        assert(free_of(w + dir, ';')) by {
            assert forall|j: int| 0 <= j < (w + dir).len() implies #[trigger] (w + dir)[j] != ';' by {
                if j < w.len() {
                    assert(is_ws(w[j]));
                } else {
                    assert((w + dir)[j] == dir[j - w.len()]);
                }
            }
        }
        lemma_split_on_join(y, w + dir, ';');
        lemma_split_on_free(w + dir, ';');
        lemma_trim_start_after_space(w, dir);
        let n = path_entries(a).len() - 1;
        assert(path_entries(a)[n] == w + dir);
        assert(trim(w + dir) == dir);
        assert(entry_names_dir(a, n, dir));
    } else {
        lemma_split_on_join(current, dir, ';');
        lemma_split_on_free(dir, ';');
        let n = path_entries(a).len() - 1;
        assert(path_entries(a)[n] == dir);
        assert(entry_names_dir(a, n, dir));
    }
}

} // verus!
