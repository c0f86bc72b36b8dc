//! Which game a launch is for: the identity handed to `ludusavi wrap`, and
//! the clean-up of directory and executable names before they are matched
//! against Ludusavi's manifest.

use vstd::prelude::*;
use crate::config::Config;
use crate::text::{
    chars_of, is_ascii_alnum, is_ascii_alphanumeric, is_whitespace, is_ws, join_with,
    string_of, ascii_lower, to_ascii_lower,
};

verus! {

/// How to hand game identity to `ludusavi wrap`.
#[derive(Debug, Clone)]
pub enum Identity {
    /// Let Ludusavi resolve the name from launcher context (Steam's
    /// `SteamAppId`, which it reads the same way Nimbus would).
    Infer(&'static str),
    /// A manifest-recognized game name resolved by Nimbus.
    Named(String),
}

/// Resolution order, cheapest and most reliable first: Steam launched it
/// (`SteamAppId` is set), an explicit `NIMBUS_GAME_NAME`, then a previously
/// confirmed executable-to-name mapping. `None` when the game is unknown.
pub fn resolve(steam_app_id_set: bool, name_override: Option<String>, exe: &str, config: &Config) -> (r: Option<Identity>)
    ensures
        steam_app_id_set ==> (r matches Some(Identity::Infer(l)) && l@ == "steam"@),
        !steam_app_id_set && name_override is Some ==> (r matches Some(Identity::Named(n)) && n
            == name_override->0),
        !steam_app_id_set && name_override is None ==> match config.name_of(exe@) {
            Some(n) => (r matches Some(Identity::Named(m)) && m@ == n),
            None => r is None,
        },
{
    if steam_app_id_set {
        return Some(Identity::Infer("steam"));
    }
    if let Some(name) = name_override {
        return Some(Identity::Named(name));
    }
    match config.name_for_exe(exe) {
        Some(n) => Some(Identity::Named(n.to_owned())),
        None => None,
    }
}

// ---------------------------------------------------------------------------
// Cleaning release names
// ---------------------------------------------------------------------------

/// `_`, `.` and `-` become spaces.
pub open spec fn separators_to_spaces(s: Seq<char>) -> Seq<char> {
    s.map_values(|c: char| if c == '_' || c == '.' || c == '-' {
        ' '
    } else {
        c
    })
}

/// Packaging noise that shows up in release directory names, stripped in
/// this order.
pub open spec fn junk_words() -> Seq<Seq<char>> {
    seq![
        "repack"@, "codex"@, "plaza"@, "fitgirl"@, "dodi"@, "skidrow"@, "razor1911"@, "empress"@,
        "goldberg"@, "gog"@, "elamigos"@, "rune"@, "tenoke"@, "flt"@, "setup"@, "win64"@, "win32"@,
        "x64"@, "x86"@, "bin"@, "game"@, "launcher"@,
    ]
}

/// Whether `p` occurs in `h` at `i`.
pub open spec fn occurs_at(h: Seq<char>, p: Seq<char>, i: int) -> bool {
    0 <= i && i + p.len() <= h.len() && h.subrange(i, i + p.len()) == p
}

/// The first occurrence of `p` in `h` (`str::find`, counted in characters).
#[verifier::opaque]
pub open spec fn find_sub(h: Seq<char>, p: Seq<char>) -> Option<int> {
    if exists|i: int| occurs_at(h, p, i) {
        Some(choose|i: int| occurs_at(h, p, i) && forall|j: int| 0 <= j < i ==> !occurs_at(h, p, j))
    } else {
        None
    }
}

/// Whether the junk word `junk` (lowercase) stands in `s` at `i` as a whole
/// word: the characters there are `junk` ignoring ASCII case, and no ASCII
/// letter or digit comes right before or right after.
pub open spec fn junk_at(s: Seq<char>, junk: Seq<char>, i: int) -> bool {
    &&& junk.len() > 0
    &&& 0 <= i
    &&& i + junk.len() <= s.len()
    &&& forall|k: int| 0 <= k < junk.len() ==> ascii_lower(#[trigger] s[i + k]) == junk[k]
    &&& (i == 0 || !is_ascii_alnum(s[i - 1]))
    &&& (i + junk.len() >= s.len() || !is_ascii_alnum(s[i + junk.len()]))
}

/// `s` from position `i` on, with every whole-word occurrence of `junk`
/// (scanning from the left) replaced by one space.
pub open spec fn strip_from(s: Seq<char>, junk: Seq<char>, i: int) -> Seq<char>
    decreases s.len() - i,
{
    if i < 0 || i >= s.len() {
        seq![]
    } else if junk_at(s, junk, i) {
        seq![' '] + strip_from(s, junk, i + junk.len())
    } else {
        seq![s[i]] + strip_from(s, junk, i + 1)
    }
}

/// `s` with every whole-word occurrence of `junk` replaced by one space.
pub open spec fn strip_word(s: Seq<char>, junk: Seq<char>) -> Seq<char> {
    strip_from(s, junk, 0)
}

/// `s` with the junk words `words` stripped one after another.
pub open spec fn strip_words(s: Seq<char>, words: Seq<Seq<char>>) -> Seq<char>
    decreases words.len(),
{
    if words.len() == 0 {
        s
    } else {
        strip_word(strip_words(s, words.drop_last()), words.last())
    }
}

/// `str::split_whitespace`.
pub open spec fn words_of(s: Seq<char>) -> Seq<Seq<char>>
    decreases s.len(),
{
    if s.len() == 0 {
        seq![]
    } else {
        let w = words_of(s.drop_last());
        let c = s.last();
        if is_ws(c) {
            w
        } else if s.len() >= 2 && !is_ws(s[s.len() - 2]) {
            w.update(w.len() - 1, w.last().push(c))
        } else {
            w.push(seq![c])
        }
    }
}

/// A release name cleaned for fuzzy matching: separators become spaces,
/// every junk word standing as a whole word goes, whitespace collapses.
pub open spec fn cleaned(raw: Seq<char>) -> Seq<char> {
    join_with(words_of(strip_words(separators_to_spaces(raw), junk_words())), seq![' '])
}

/// A non-empty word of ASCII letters and digits.
pub open spec fn alnum_word(j: Seq<char>) -> bool {
    j.len() > 0 && forall|k: int| 0 <= k < j.len() ==> is_ascii_alnum(#[trigger] j[k])
}

/// Stripping after a prefix that ends in a character other than a letter
/// or digit goes on as if the prefix were not there.
proof fn lemma_strip_shift(p: Seq<char>, y: Seq<char>, j: Seq<char>, k: int)
    requires
        alnum_word(j),
        p.len() > 0 ==> !is_ascii_alnum(p.last()),
        0 <= k,
    ensures
        strip_from(p + y, j, p.len() + k) == strip_from(y, j, k),
    decreases y.len() - k,
{
    let s = p + y;
    let i = p.len() + k;
    if k < y.len() {
        assert forall|t: int| 0 <= t < j.len() && k + t < y.len() implies #[trigger] s[i + t] == y[k + t] by {}
        assert(junk_at(s, j, i) == junk_at(y, j, k)) by {
            if junk_at(y, j, k) {
                assert forall|t: int| 0 <= t < j.len() implies ascii_lower(#[trigger] s[i + t]) == j[t] by {
                    assert(s[i + t] == y[k + t]);
                }
                if k > 0 {
                    assert(s[i - 1] == y[k - 1]);
                } else if p.len() > 0 {
                    assert(s[i - 1] == p.last());
                }
                if k + j.len() < y.len() {
                    assert(s[i + j.len()] == y[k + j.len()]);
                }
            }
            if junk_at(s, j, i) {
                assert forall|t: int| 0 <= t < j.len() implies ascii_lower(#[trigger] y[k + t]) == j[t] by {
                    assert(s[i + t] == y[k + t]);
                }
                if k > 0 {
                    assert(s[i - 1] == y[k - 1]);
                }
                if k + j.len() < y.len() {
                    assert(s[i + j.len()] == y[k + j.len()]);
                }
            }
        }
        if junk_at(y, j, k) {
            lemma_strip_shift(p, y, j, k + j.len());
        } else {
            assert(s[i] == y[k]);
            lemma_strip_shift(p, y, j, k + 1);
        }
    }
}

/// A space splits stripping in two: no whole word crosses it.
proof fn lemma_strip_split(x: Seq<char>, y: Seq<char>, j: Seq<char>, i: int)
    requires
        alnum_word(j),
        0 <= i <= x.len(),
    ensures
        strip_from(x + seq![' '] + y, j, i) == strip_from(x, j, i) + seq![' '] + strip_from(y, j, 0),
    decreases x.len() - i,
{
    let s = x + seq![' '] + y;
    assert(!is_ascii_alnum(' '));
    assert(ascii_lower(' ') == ' ');
    assert(is_ascii_alnum(j[0]));
    if i == x.len() {
        assert(s[i] == ' ');
        assert(!junk_at(s, j, i)) by {
            assert(ascii_lower(s[i + 0]) != j[0]);
        }
        lemma_strip_shift(x + seq![' '], y, j, 0);
        assert(x + seq![' '] + y == s);
        assert(strip_from(x, j, i) =~= Seq::<char>::empty());
        assert(strip_from(s, j, i) == seq![' '] + strip_from(s, j, i + 1));
        assert(seq![' '] + strip_from(y, j, 0) =~= Seq::<char>::empty() + seq![' '] + strip_from(y, j, 0));
    } else {
        assert(s[i] == x[i]);
        assert(junk_at(s, j, i) == junk_at(x, j, i)) by {
            if junk_at(x, j, i) {
                assert forall|t: int| 0 <= t < j.len() implies ascii_lower(#[trigger] s[i + t]) == j[t] by {
                    assert(s[i + t] == x[i + t]);
                }
                if i > 0 {
                    assert(s[i - 1] == x[i - 1]);
                }
                if i + j.len() < x.len() {
                    assert(s[i + j.len()] == x[i + j.len()]);
                } else {
                    assert(s[i + j.len()] == ' ');
                }
            }
            if junk_at(s, j, i) {
                if i + j.len() > x.len() {
                    let t = x.len() - i;
                    assert(s[i + t] == ' ');
                    assert(ascii_lower(s[i + t]) == j[t]);
                    assert(is_ascii_alnum(j[t]));
                    assert(false);
                }
                assert forall|t: int| 0 <= t < j.len() implies ascii_lower(#[trigger] x[i + t]) == j[t] by {
                    assert(s[i + t] == x[i + t]);
                }
                if i > 0 {
                    assert(s[i - 1] == x[i - 1]);
                }
                if i + j.len() < x.len() {
                    assert(s[i + j.len()] == x[i + j.len()]);
                }
            }
        }
        if junk_at(x, j, i) {
            lemma_strip_split(x, y, j, i + j.len());
            assert(seq![' '] + strip_from(x, j, i + j.len()) + seq![' '] + strip_from(y, j, 0) =~= seq![' ']
                + (strip_from(x, j, i + j.len()) + seq![' '] + strip_from(y, j, 0)));
        } else {
            lemma_strip_split(x, y, j, i + 1);
            assert(seq![x[i]] + strip_from(x, j, i + 1) + seq![' '] + strip_from(y, j, 0) =~= seq![x[i]] + (
            strip_from(x, j, i + 1) + seq![' '] + strip_from(y, j, 0)));
        }
    }
}

proof fn lemma_strip_words_split(x: Seq<char>, y: Seq<char>, ws: Seq<Seq<char>>)
    requires
        forall|n: int| 0 <= n < ws.len() ==> alnum_word(#[trigger] ws[n]),
    ensures
        strip_words(x + seq![' '] + y, ws) == strip_words(x, ws) + seq![' '] + strip_words(y, ws),
    decreases ws.len(),
{
    if ws.len() > 0 {
        let init = ws.drop_last();
        assert forall|n: int| 0 <= n < init.len() implies alnum_word(#[trigger] init[n]) by {
            assert(init[n] == ws[n]);
        }
        lemma_strip_words_split(x, y, init);
        assert(alnum_word(ws[ws.len() - 1]));
        lemma_strip_split(strip_words(x, init), strip_words(y, init), ws.last(), 0);
    }
}

/// Whether `u` is the word `w` up to ASCII case.
pub open spec fn folds_to(u: Seq<char>, w: Seq<char>) -> bool {
    u.len() == w.len() && forall|k: int| 0 <= k < u.len() ==> ascii_lower(#[trigger] u[k]) == w[k]
}

proof fn lemma_strip_other_word(u: Seq<char>, w: Seq<char>, j: Seq<char>, i: int)
    requires
        alnum_word(w),
        alnum_word(j),
        folds_to(u, w),
        j != w,
        0 <= i <= u.len(),
    ensures
        strip_from(u, j, i) == u.skip(i),
    decreases u.len() - i,
{
    if i < u.len() {
        assert(is_ascii_alnum(u[i])) by {
            assert(ascii_lower(u[i]) == w[i]);
            assert(is_ascii_alnum(w[i]));
        }
        assert(!junk_at(u, j, i)) by {
            if junk_at(u, j, i) {
                if i > 0 {
                    assert(ascii_lower(u[i - 1]) == w[i - 1]);
                    assert(is_ascii_alnum(w[i - 1]));
                    assert(is_ascii_alnum(u[i - 1]));
                } else if j.len() < u.len() {
                    assert(ascii_lower(u[j.len() as int]) == w[j.len() as int]);
                    assert(is_ascii_alnum(w[j.len() as int]));
                } else {
                    assert forall|k: int| 0 <= k < j.len() implies j[k] == w[k] by {
                        assert(ascii_lower(u[0 + k]) == j[k]);
                    }
                    assert(j =~= w);
                }
            }
        }
        lemma_strip_other_word(u, w, j, i + 1);
        assert(seq![u[i]] + u.skip(i + 1) =~= u.skip(i));
    } else {
        assert(u.skip(i) =~= Seq::<char>::empty());
    }
}

proof fn lemma_strip_words_of_word(u: Seq<char>, w: Seq<char>, ws: Seq<Seq<char>>)
    requires
        alnum_word(w),
        folds_to(u, w),
        forall|n: int| 0 <= n < ws.len() ==> alnum_word(#[trigger] ws[n]),
    ensures
        strip_words(u, ws) == if ws.contains(w) {
            seq![' ']
        } else {
            u
        },
    decreases ws.len(),
{
    if ws.len() > 0 {
        let init = ws.drop_last();
        let j = ws.last();
        assert forall|n: int| 0 <= n < init.len() implies alnum_word(#[trigger] init[n]) by {
            assert(init[n] == ws[n]);
        }
        lemma_strip_words_of_word(u, w, init);
        assert(alnum_word(ws[ws.len() - 1]));
        assert(ws.contains(w) == (init.contains(w) || j == w)) by {
            if ws.contains(w) && j != w {
                let n = choose|n: int| 0 <= n < ws.len() && ws[n] == w;
                assert(init[n] == w);
            }
            if init.contains(w) {
                let n = choose|n: int| 0 <= n < init.len() && init[n] == w;
                assert(ws[n] == w);
            }
        }
        assert(ascii_lower(' ') == ' ');
        if init.contains(w) {
            assert(!junk_at(seq![' '], j, 0)) by {
                assert(is_ascii_alnum(j[0]));
                assert(seq![' '][0int + 0int] == ' ');
            }
            assert(strip_from(seq![' '], j, 1) =~= Seq::<char>::empty());
            assert(strip_word(seq![' '], j) =~= seq![' ']);
        } else if j == w {
            assert(junk_at(u, w, 0)) by {
                assert forall|k: int| 0 <= k < w.len() implies ascii_lower(#[trigger] u[0 + k]) == w[k] by {
                    assert(u[0 + k] == u[k]);
                }
            }
            assert(strip_from(u, w, w.len() as int) =~= Seq::<char>::empty());
            assert(strip_word(u, w) =~= seq![' ']);
        } else {
            lemma_strip_other_word(u, w, j, 0);
            assert(u.skip(0) =~= u);
        }
    }
}

proof fn lemma_junk_words_alnum()
    ensures
        forall|n: int| 0 <= n < junk_words().len() ==> alnum_word(#[trigger] junk_words()[n]),
{
    reveal_strlit("repack");
    reveal_strlit("codex");
    reveal_strlit("plaza");
    reveal_strlit("fitgirl");
    reveal_strlit("dodi");
    reveal_strlit("skidrow");
    reveal_strlit("razor1911");
    reveal_strlit("empress");
    reveal_strlit("goldberg");
    reveal_strlit("gog");
    reveal_strlit("elamigos");
    reveal_strlit("rune");
    reveal_strlit("tenoke");
    reveal_strlit("flt");
    reveal_strlit("setup");
    reveal_strlit("win64");
    reveal_strlit("win32");
    reveal_strlit("x64");
    reveal_strlit("x86");
    reveal_strlit("bin");
    reveal_strlit("game");
    reveal_strlit("launcher");
    assert(alnum_word("repack"@));
    assert(alnum_word("codex"@));
    assert(alnum_word("plaza"@));
    assert(alnum_word("fitgirl"@));
    assert(alnum_word("dodi"@));
    assert(alnum_word("skidrow"@));
    assert(alnum_word("razor1911"@));
    assert(alnum_word("empress"@));
    assert(alnum_word("goldberg"@));
    assert(alnum_word("gog"@));
    assert(alnum_word("elamigos"@));
    assert(alnum_word("rune"@));
    assert(alnum_word("tenoke"@));
    assert(alnum_word("flt"@));
    assert(alnum_word("setup"@));
    assert(alnum_word("win64"@));
    assert(alnum_word("win32"@));
    assert(alnum_word("x64"@));
    assert(alnum_word("x86"@));
    assert(alnum_word("bin"@));
    assert(alnum_word("game"@));
    assert(alnum_word("launcher"@));
}

proof fn lemma_trailing_spaces(x: Seq<char>)
    ensures
        words_of(x + seq![' ', ' ']) == words_of(x),
{
    let z = x + seq![' ', ' '];
    assert(is_ws(' '));
    let y = x + seq![' '];
    assert(z.drop_last() =~= y);
    assert(z.last() == ' ');
    assert(words_of(z) == words_of(y));
    assert(y.drop_last() =~= x);
    assert(y.last() == ' ');
    assert(words_of(y) == words_of(x));
}

/// Scene-group and release words never survive as words of their own:
/// appending any of them (repack, codex, plaza, fitgirl, dodi, skidrow,
/// razor1911, empress, goldberg, gog, elamigos, rune, tenoke, flt, setup,
/// win64, win32, x64, x86, bin, game, launcher), in any ASCII case, after
/// a separator (`_`, `.`, `-` or a space) leaves the cleaned name as it was.
pub proof fn law_release_words_are_stripped(a: Seq<char>, c: char, u: Seq<char>, w: Seq<char>)
    requires
        c == '_' || c == '.' || c == '-' || c == ' ',
        seq!["repack"@, "codex"@, "plaza"@, "fitgirl"@, "dodi"@, "skidrow"@, "razor1911"@, "empress"@, "goldberg"@, "gog"@, "elamigos"@, "rune"@, "tenoke"@, "flt"@, "setup"@, "win64"@, "win32"@, "x64"@, "x86"@, "bin"@, "game"@, "launcher"@].contains(w),
        folds_to(u, w),
    ensures
        cleaned(a + seq![c] + u) == cleaned(a),
{
    assert(junk_words() =~= seq!["repack"@, "codex"@, "plaza"@, "fitgirl"@, "dodi"@, "skidrow"@, "razor1911"@, "empress"@, "goldberg"@, "gog"@, "elamigos"@, "rune"@, "tenoke"@, "flt"@, "setup"@, "win64"@, "win32"@, "x64"@, "x86"@, "bin"@, "game"@, "launcher"@]);
    lemma_junk_words_alnum();
    let n = choose|n: int| 0 <= n < junk_words().len() && junk_words()[n] == w;
    assert(alnum_word(junk_words()[n]));
    assert forall|k: int| 0 <= k < u.len() implies is_ascii_alnum(#[trigger] u[k]) by {
        assert(ascii_lower(u[k]) == w[k]);
        assert(is_ascii_alnum(w[k]));
    }
    let sa = separators_to_spaces(a);
    assert(separators_to_spaces(a + seq![c] + u) =~= sa + seq![' '] + u) by {
        assert forall|k: int| 0 <= k < u.len() implies u[k] != '_' && u[k] != '.' && u[k] != '-' by {
            assert(is_ascii_alnum(u[k]));
        }
    }
    lemma_strip_words_split(sa, u, junk_words());
    lemma_strip_words_of_word(u, w, junk_words());
    assert(junk_words().contains(w));
    let x = strip_words(sa, junk_words());
    assert(x + seq![' '] + seq![' '] =~= x + seq![' ', ' ']);
    lemma_trailing_spaces(x);
}

fn junk_list() -> (v: Vec<&'static str>)
    ensures
        v@.map_values(|s: &str| s@) == junk_words(),
{
    let mut v: Vec<&'static str> = Vec::new();
    v.push("repack");
    v.push("codex");
    v.push("plaza");
    v.push("fitgirl");
    v.push("dodi");
    v.push("skidrow");
    v.push("razor1911");
    v.push("empress");
    v.push("goldberg");
    v.push("gog");
    v.push("elamigos");
    v.push("rune");
    v.push("tenoke");
    v.push("flt");
    v.push("setup");
    v.push("win64");
    v.push("win32");
    v.push("x64");
    v.push("x86");
    v.push("bin");
    v.push("game");
    v.push("launcher");
    assert(v@.map_values(|s: &str| s@) =~= junk_words());
    v
}

fn separators_replaced(raw: &str) -> (r: Vec<char>)
    ensures
        r@ == separators_to_spaces(raw@),
{
    let cs = chars_of(raw);
    let mut out: Vec<char> = Vec::new();
    let mut i: usize = 0;
    while i < cs.len()
        invariant
            i <= cs.len(),
            cs@ == raw@,
            out@ == separators_to_spaces(raw@).take(i as int),
        decreases cs.len() - i,
    {
        let c = cs[i];
        out.push(
            if c == '_' || c == '.' || c == '-' {
                ' '
            } else {
                c
            },
        );
        i = i + 1;
        assert(out@ =~= separators_to_spaces(raw@).take(i as int));
    }
    assert(separators_to_spaces(raw@).take(i as int) =~= separators_to_spaces(raw@));
    out
}

fn occurs_at_exec(h: &Vec<char>, p: &Vec<char>, i: usize) -> (r: bool)
    ensures
        r == occurs_at(h@, p@, i as int),
{
    if i > h.len() || p.len() > h.len() - i {
        return false;
    }
    let mut k: usize = 0;
    while k < p.len()
        invariant
            i + p.len() <= h.len(),
            k <= p.len(),
            forall|j: int| 0 <= j < k ==> h@[i + j] == p@[j],
        decreases p.len() - k,
    {
        if h[i + k] != p[k] {
            assert(h@.subrange(i as int, i + p.len())[k as int] != p@[k as int]);
            return false;
        }
        k = k + 1;
    }
    assert(h@.subrange(i as int, i + p.len()) =~= p@);
    true
}

pub(crate) fn find_sub_exec(h: &Vec<char>, p: &Vec<char>) -> (r: Option<usize>)
    ensures
        match find_sub(h@, p@) {
            Some(i) => r == Some(i as usize) && occurs_at(h@, p@, i),
            None => r is None,
        },
{
    reveal(find_sub);
    if p.len() > h.len() {
        assert forall|j: int| !#[trigger] occurs_at(h@, p@, j) by {}
        return None;
    }
    let last = h.len() - p.len();
    let mut i: usize = 0;
    while i <= last
        invariant
            last == h.len() - p.len(),
            i <= last + 1,
            forall|j: int| 0 <= j < i ==> !#[trigger] occurs_at(h@, p@, j),
        decreases last + 1 - i,
    {
        if occurs_at_exec(h, p, i) {
            proof {
                reveal(find_sub);
                assert(occurs_at(h@, p@, i as int));
                let k = choose|k: int| occurs_at(h@, p@, k) && forall|j: int| 0 <= j < k ==> !#[trigger] occurs_at(h@, p@, j);
                assert(occurs_at(h@, p@, k));
                if k < i {
                    assert(!occurs_at(h@, p@, k));
                } else if k > i {
                    assert(!occurs_at(h@, p@, i as int));
                }
                assert(k == i);
            }
            return Some(i);
        }
        if i == last {
            reveal(find_sub);
            assert forall|j: int| !#[trigger] occurs_at(h@, p@, j) by {
                if j > last {
                } else if j < i {
                } else {
                    assert(j == i);
                }
            }
            return None;
        }
        i = i + 1;
    }
    None
}

fn junk_at_exec(s: &Vec<char>, pat: &Vec<char>, i: usize) -> (r: bool)
    requires
        i <= s.len(),
    ensures
        r == junk_at(s@, pat@, i as int),
{
    if pat.len() == 0 || pat.len() > s.len() - i {
        return false;
    }
    let mut k: usize = 0;
    while k < pat.len()
        invariant
            i + pat.len() <= s.len(),
            k <= pat.len(),
            forall|j: int| 0 <= j < k ==> ascii_lower(#[trigger] s@[i + j]) == pat@[j],
        decreases pat.len() - k,
    {
        if to_ascii_lower(s[i + k]) != pat[k] {
            return false;
        }
        k = k + 1;
    }
    let before_ok = i == 0 || !is_ascii_alphanumeric(s[i - 1]);
    let end = i + pat.len();
    let after_ok = end >= s.len() || !is_ascii_alphanumeric(s[end]);
    before_ok && after_ok
}

fn strip_word_exec(s: &Vec<char>, junk: &str) -> (r: Vec<char>)
    ensures
        r@ == strip_word(s@, junk@),
{
    let pat = chars_of(junk);
    let mut out: Vec<char> = Vec::new();
    let mut i: usize = 0;
    while i < s.len()
        invariant
            i <= s.len(),
            pat@ == junk@,
            out@ + strip_from(s@, pat@, i as int) == strip_from(s@, pat@, 0),
        decreases s.len() - i,
    {
        let ghost before = out@;
        if junk_at_exec(s, &pat, i) {
            out.push(' ');
            assert(before + strip_from(s@, pat@, i as int) =~= out@ + strip_from(s@, pat@, i + pat@.len()));
            i = i + pat.len();
        } else {
            out.push(s[i]);
            assert(before + strip_from(s@, pat@, i as int) =~= out@ + strip_from(s@, pat@, i + 1));
            i = i + 1;
        }
    }
    assert(out@ + strip_from(s@, pat@, i as int) =~= out@);
    out
}

/// `s.split_whitespace().collect::<Vec<_>>().join(" ")`.
fn collapse_whitespace(s: &Vec<char>) -> (r: Vec<char>)
    ensures
        r@ == join_with(words_of(s@), seq![' ']),
{
    let mut words: Vec<Vec<char>> = Vec::new();
    let mut i: usize = 0;
    assert(s@.take(0) =~= Seq::<char>::empty());
    while i < s.len()
        invariant
            i <= s.len(),
            words@.map_values(|w: Vec<char>| w@) == words_of(s@.take(i as int)),
        decreases s.len() - i,
    {
        let ghost before = words@.map_values(|w: Vec<char>| w@);
        assert(s@.take(i + 1).drop_last() =~= s@.take(i as int));
        assert(s@.take(i + 1).last() == s@[i as int]);
        let c = s[i];
        if is_whitespace(c) {
        } else if i >= 1 && !is_whitespace(s[i - 1]) {
            assert(s@.take(i + 1)[i - 1] == s@[i - 1]);
            proof {
                lemma_words_nonempty_after_word(s@.take(i as int));
                assert(s@.take(i as int).last() == s@[i - 1]);
            }
            let n = words.len();
            let mut w = words.remove(n - 1);
            let ghost wv = w@;
            w.push(c);
            words.push(w);
            assert(words@.map_values(|w: Vec<char>| w@) =~= before.update(n - 1, wv.push(c)));
        } else {
            let mut w: Vec<char> = Vec::new();
            w.push(c);
            words.push(w);
            assert(words@.map_values(|w: Vec<char>| w@) =~= before.push(seq![c]));
        }
        i = i + 1;
    }
    assert(s@.take(i as int) =~= s@);
    let ghost ws = words@.map_values(|w: Vec<char>| w@);
    let mut out: Vec<char> = Vec::new();
    let mut k: usize = 0;
    assert(ws.take(0) =~= Seq::<Seq<char>>::empty());
    while k < words.len()
        invariant
            k <= words.len(),
            ws == words@.map_values(|w: Vec<char>| w@),
            out@ == join_with(ws.take(k as int), seq![' ']),
        decreases words.len() - k,
    {
        assert(ws.take(k + 1).drop_last() =~= ws.take(k as int));
        assert(ws.take(k + 1).last() == words@[k as int]@);
        if k > 0 {
            out.push(' ');
        }
        crate::text::append_chars(&mut out, &words[k]);
        proof {
            if k == 0 {
                assert(out@ =~= ws.take(1)[0]);
            } else {
                assert(out@ =~= join_with(ws.take(k as int), seq![' ']) + seq![' '] + ws[k as int]);
            }
        }
        k = k + 1;
    }
    assert(ws.take(k as int) =~= ws);
    out
}

proof fn lemma_words_nonempty_after_word(s: Seq<char>)
    requires
        s.len() > 0,
        !is_ws(s.last()),
    ensures
        words_of(s).len() > 0,
    decreases s.len(),
{
    if s.len() >= 2 && !is_ws(s[s.len() - 2]) {
        assert(s.drop_last().last() == s[s.len() - 2]);
        lemma_words_nonempty_after_word(s.drop_last());
    }
}

/// Strips the packaging noise from a directory or executable name so the
/// fuzzy matcher sees something closer to an actual title: separators
/// become spaces, scene-group and release words go wherever they stand as
/// whole words, whitespace collapses.
pub fn clean(raw: &str) -> (r: String)
    ensures
        r@ == cleaned(raw@),
{
    let words = junk_list();
    let ghost jw = words@.map_values(|s: &str| s@);
    let mut s = separators_replaced(raw);
    let mut i: usize = 0;
    assert(jw.take(0) =~= Seq::<Seq<char>>::empty());
    while i < words.len()
        invariant
            i <= words.len(),
            jw == words@.map_values(|s: &str| s@),
            jw == junk_words(),
            strip_words(separators_to_spaces(raw@), jw.take(i as int)) == s@,
        decreases words.len() - i,
    {
        assert(jw.take(i + 1).drop_last() =~= jw.take(i as int));
        assert(jw.take(i + 1).last() == words@[i as int]@);
        s = strip_word_exec(&s, words[i]);
        i = i + 1;
    }
    assert(jw.take(i as int) =~= jw);
    string_of(&collapse_whitespace(&s))
}

// ---------------------------------------------------------------------------
// Guessing a name for an unrecognized executable
// ---------------------------------------------------------------------------

/// A path that is one plain component on every platform: not empty, not
/// `.` or `..`, and without `/`, `\` (the separators) or `:` (which starts
/// a Windows drive prefix).
pub open spec fn single_component(p: Seq<char>) -> bool {
    &&& p.len() > 0
    &&& p != "."@
    &&& p != ".."@
    &&& forall|i: int| 0 <= i < p.len() ==> #[trigger] p[i] != '/' && p[i] != '\\' && p[i] != ':'
}

/// A path written with `/` only, read the same way on every platform: no
/// `\`, and not starting with `//` (which Windows reads as a share or
/// device prefix, where `/` need not separate).
pub open spec fn slash_path(p: Seq<char>) -> bool {
    &&& forall|i: int| 0 <= i < p.len() ==> #[trigger] p[i] != '\\'
    &&& !(p.len() >= 2 && p[0] == '/' && p[1] == '/')
}

/// Whether `p` ends in the component `..`: `..` itself, or a `/`-path
/// (`slash_path`) ending in `/..`.
pub open spec fn ends_in_parent_dir(p: Seq<char>) -> bool {
    p == ".."@ || (slash_path(p) && p.len() >= 3 && p.subrange(p.len() - 3, p.len() as int) == "/.."@)
}

/// The position of the last `/` in `p`.
pub open spec fn last_slash(p: Seq<char>) -> Option<int>
    decreases p.len(),
{
    if p.len() == 0 {
        None
    } else if p.last() == '/' {
        Some(p.len() - 1)
    } else {
        last_slash(p.drop_last())
    }
}

/// The part of `p` after its last `/` (all of `p` without one).
pub open spec fn last_part(p: Seq<char>) -> Seq<char> {
    match last_slash(p) {
        Some(k) => p.skip(k + 1),
        None => p,
    }
}

/// A `/`-path of at least two components whose last two are plain: `p` is
/// `q/f` with `q` not ending in `/` and both `f` and the last part of `q`
/// single components.
pub open spec fn two_plain_tail(p: Seq<char>) -> bool {
    &&& slash_path(p)
    &&& last_slash(p) matches Some(k)
    &&& k > 0
    &&& single_component(last_part(p))
    &&& single_component(last_part(p.take(k)))
}

/// The directory part `q` of a path `q/f` (`two_plain_tail`).
pub open spec fn dir_part(p: Seq<char>) -> Seq<char> {
    p.take(last_slash(p)->0)
}

/// The position of the last `.` in `name`.
pub open spec fn last_dot(name: Seq<char>) -> Option<int>
    decreases name.len(),
{
    if name.len() == 0 {
        None
    } else if name.last() == '.' {
        Some(name.len() - 1)
    } else {
        last_dot(name.drop_last())
    }
}

/// The stem of a file name, as `Path::file_stem` documents it: the whole
/// name if it has no `.`, or if its only `.` is its first character;
/// otherwise the part before the last `.`.
pub open spec fn stem_of(name: Seq<char>) -> Seq<char> {
    match last_dot(name) {
        None => name,
        Some(k) => if k == 0 {
            name
        } else {
            name.take(k)
        },
    }
}

/// The parent of `path` (`Path::parent`: the path without its final
/// component). How a path splits depends on the platform's separators;
/// stated are only the cases that hold on every platform: the empty path
/// has none, a relative path of one component has the empty path, and a
/// `/`-path whose last two components are plain has the part before its
/// last `/`.
#[verifier::external_body]
fn path_parent(path: &str) -> (r: Option<String>)
    ensures
        path@.len() == 0 ==> r.is_none(),
        single_component(path@) ==> r.is_some() && r.unwrap()@.len() == 0,
        two_plain_tail(path@) ==> r.is_some() && r.unwrap()@ == dir_part(path@),
{
    std::path::Path::new(path).parent().map(|p| p.to_string_lossy().into_owned())
}

/// The last component of `path` (`Path::file_name`). Platform-dependent;
/// stated are only the cases that hold on every platform: none for the
/// empty path (it has no final component) or one ending in `..`, the path
/// itself when it is one plain component, and the part after the last `/`
/// of a `/`-path when that part is plain.
#[verifier::external_body]
pub(crate) fn path_file_name(path: &str) -> (r: Option<String>)
    ensures
        path@.len() == 0 ==> r.is_none(),
        ends_in_parent_dir(path@) ==> r.is_none(),
        single_component(path@) ==> r.is_some() && r.unwrap()@ == path@,
        slash_path(path@) && single_component(last_part(path@)) ==> r.is_some() && r.unwrap()@
            == last_part(path@),
{
    std::path::Path::new(path).file_name().map(|p| p.to_string_lossy().into_owned())
}

/// The last component of `path` without its extension
/// (`Path::file_stem`). Platform-dependent; stated are only the cases that
/// hold on every platform: none for the empty path (it has no file name),
/// and the stem of the last component when it is plain (a path of one
/// plain component, or a `/`-path whose part after the last `/` is plain).
#[verifier::external_body]
fn path_file_stem(path: &str) -> (r: Option<String>)
    ensures
        path@.len() == 0 ==> r.is_none(),
        single_component(path@) ==> r.is_some() && r.unwrap()@ == stem_of(path@),
        slash_path(path@) && single_component(last_part(path@)) ==> r.is_some() && r.unwrap()@
            == stem_of(last_part(path@)),
{
    std::path::Path::new(path).file_stem().map(|p| p.to_string_lossy().into_owned())
}

/// The names to guess a game from, best signal first: the name of the
/// directory that holds the executable (its own name is often meaningless,
/// `game.exe`), then the executable's stem; either may be missing.
pub fn candidates_given(dir_name: Option<String>, stem: Option<String>) -> (r: Vec<String>)
    ensures
        r@.map_values(|s: String| s@) == match (dir_name, stem) {
            (Some(d), Some(s)) => seq![d@, s@],
            (Some(d), None) => seq![d@],
            (None, Some(s)) => seq![s@],
            (None, None) => Seq::<Seq<char>>::empty(),
        },
        r@.len() <= 2,
{
    let mut v: Vec<String> = Vec::new();
    if let Some(d) = dir_name {
        v.push(d);
    }
    if let Some(s) = stem {
        v.push(s);
    }
    assert(v@.map_values(|s: String| s@) =~= match (dir_name, stem) {
        (Some(d), Some(s)) => seq![d@, s@],
        (Some(d), None) => seq![d@],
        (None, Some(s)) => seq![s@],
        (None, None) => Seq::<Seq<char>>::empty(),
    });
    v
}

proof fn lemma_last_slash_bounds(p: Seq<char>)
    ensures
        last_slash(p) matches Some(k) ==> 0 <= k < p.len() && p[k] == '/',
    decreases p.len(),
{
    if p.len() > 0 && p.last() != '/' {
        lemma_last_slash_bounds(p.drop_last());
    }
}

proof fn lemma_dir_part_slash_path(p: Seq<char>)
    requires
        two_plain_tail(p),
    ensures
        slash_path(dir_part(p)),
{
    lemma_last_slash_bounds(p);
    let q = dir_part(p);
    assert forall|i: int| 0 <= i < q.len() implies #[trigger] q[i] != '\\' by {
        assert(q[i] == p[i]);
    }
    if q.len() >= 2 {
        assert(q[0] == p[0] && q[1] == p[1]);
    }
}

/// `candidates_given` for `exe`, with the directory name and stem the
/// platform's path rules find: nothing for the empty path, the stem alone
/// for a bare executable name (its directory is the empty path, which has
/// no name), and for a `/`-path whose last two components are plain the
/// directory's name then the executable's stem; for other paths which
/// names, is not stated.
pub fn guess_candidates(exe: &str) -> (r: Vec<String>)
    ensures
        r@.len() <= 2,
        exe@.len() == 0 ==> r@.len() == 0,
        single_component(exe@) ==> r@.map_values(|s: String| s@) == seq![stem_of(exe@)],
        two_plain_tail(exe@) ==> r@.map_values(|s: String| s@) == seq![
            last_part(dir_part(exe@)),
            stem_of(last_part(exe@)),
        ],
{
    let dir_name = match path_parent(exe) {
        Some(parent) => {
            proof {
                if two_plain_tail(exe@) {
                    lemma_dir_part_slash_path(exe@);
                }
            }
            path_file_name(parent.as_str())
        },
        None => None,
    };
    let r = candidates_given(dir_name, path_file_stem(exe));
    assert(r@.map_values(|s: String| s@).len() == r@.len());
    r
}

/// The cleaned candidates, in order, leaving out those that clean to
/// nothing.
pub open spec fn queries_of(candidates: Seq<Seq<char>>) -> Seq<Seq<char>>
    decreases candidates.len(),
{
    if candidates.len() == 0 {
        seq![]
    } else {
        let rest = queries_of(candidates.drop_last());
        let c = cleaned(candidates.last());
        if c.len() == 0 {
            rest
        } else {
            rest.push(c)
        }
    }
}

/// The fuzzy-search queries for `candidates`.
pub fn find_queries(candidates: &Vec<String>) -> (r: Vec<String>)
    ensures
        r@.map_values(|s: String| s@) == queries_of(candidates@.map_values(|s: String| s@)),
{
    let ghost cs = candidates@.map_values(|s: String| s@);
    let mut out: Vec<String> = Vec::new();
    let mut i: usize = 0;
    while i < candidates.len()
        invariant
            i <= candidates.len(),
            cs == candidates@.map_values(|s: String| s@),
            out@.map_values(|s: String| s@) == queries_of(cs.take(i as int)),
        decreases candidates.len() - i,
    {
        assert(cs.take(i + 1).drop_last() =~= cs.take(i as int));
        assert(cs.take(i + 1).last() == candidates@[i as int]@);
        let c = clean(candidates[i].as_str());
        if !c.as_str().is_empty() {
            let ghost before = out@.map_values(|s: String| s@);
            out.push(c);
            assert(out@.map_values(|s: String| s@) =~= before.push(cleaned(candidates@[i as int]@)));
        }
        i = i + 1;
    }
    assert(cs.take(i as int) =~= cs);
    out
}

/// Arguments of `ludusavi find` for a fuzzy, normalized search by name.
pub fn find_args(query: &str) -> (r: Vec<String>)
    ensures
        r@.map_values(|s: String| s@) == seq!["find"@, "--fuzzy"@, "--normalized"@, "--api"@, query@],
{
    let v = vec![
        "find".to_owned(),
        "--fuzzy".to_owned(),
        "--normalized".to_owned(),
        "--api".to_owned(),
        query.to_owned(),
    ];
    assert(v@.map_values(|s: String| s@) =~= seq!["find"@, "--fuzzy"@, "--normalized"@, "--api"@, query@]);
    v
}

} // verus!
