//! A deliberately small reader for `ludusavi config show` output: it tracks
//! section nesting by indentation alone and collects every `a.b.c: value`
//! leaf. No lists, no multi-line scalars, no anchors.

use vstd::prelude::*;
use crate::assoc::{assoc_get, assoc_map, pairs_view};
use crate::text::{
    append_chars, char_width, chars_of, find_char, first_index_of, join_with, leading_ws_count,
    free_of, lemma_split_on_free, lemma_split_on_join, lemma_split_on_nonempty, slice_of, split_chars, split_on, string_of, trim, trim_char,
    trim_start, trimmed, trimmed_char, utf8_len,
};

verus! {

/// Removes one trailing `'\r'`.
pub open spec fn strip_cr(s: Seq<char>) -> Seq<char> {
    if s.len() > 0 && s.last() == '\r' {
        s.drop_last()
    } else {
        s
    }
}

/// `str::lines`: the text split at `'\n'`, with a `'\r'` before a `'\n'`
/// removed; a final empty piece (text empty or ending in `'\n'`) is no line.
pub open spec fn lines_of(t: Seq<char>) -> Seq<Seq<char>> {
    let pieces = split_on(t, '\n');
    let n = pieces.len();
    let ended = pieces.take(n - 1).map_values(|p: Seq<char>| strip_cr(p));
    if pieces[n - 1].len() == 0 {
        ended
    } else {
        ended.push(pieces[n - 1])
    }
}

/// A section that is still open: its indentation (in bytes) and its key.
pub type SpecSection = (nat, Seq<char>);

/// Reader state: open sections, innermost last, and the leaves found so far.
pub type SpecScan = (Seq<SpecSection>, Seq<(Seq<char>, Seq<char>)>);

/// Closes every open section indented at least `indent`.
pub open spec fn close_sections(stack: Seq<SpecSection>, indent: nat) -> Seq<SpecSection>
    decreases stack.len(),
{
    if stack.len() > 0 && stack.last().0 >= indent {
        close_sections(stack.drop_last(), indent)
    } else {
        stack
    }
}

/// The dotted path of a leaf `key` under the open sections.
pub open spec fn leaf_path(stack: Seq<SpecSection>, key: Seq<char>) -> Seq<char> {
    join_with(stack.map_values(|s: SpecSection| s.1).push(key), seq!['.'])
}

/// Whether a line is skipped outright: blank, a comment, a document marker
/// or a list item.
pub open spec fn skipped_line(t: Seq<char>) -> bool {
    t.len() == 0 || t[0] == '#' || t[0] == '-'
}

/// What one line does to the reader state.
pub open spec fn scan_line(st: SpecScan, raw: Seq<char>) -> SpecScan {
    let t = trim_start(raw);
    if skipped_line(t) {
        st
    } else {
        match first_index_of(t, ':') {
            None => st,
            Some(colon) => {
                let indent = utf8_len(raw.take(raw.len() - t.len()));
                let key = trim(t.take(colon));
                let rest = trim(t.skip(colon + 1));
                let stack = close_sections(st.0, indent);
                if rest.len() == 0 {
                    (stack.push((indent, key)), st.1)
                } else {
                    (stack, st.1.push((leaf_path(stack, key), trim_char(rest, '"'))))
                }
            },
        }
    }
}

pub open spec fn scan_lines(lines: Seq<Seq<char>>) -> SpecScan
    decreases lines.len(),
{
    if lines.len() == 0 {
        (seq![], seq![])
    } else {
        scan_line(scan_lines(lines.drop_last()), lines.last())
    }
}

/// Every leaf of `text`, in the order the lines give them.
pub open spec fn yaml_leaves(text: Seq<char>) -> Seq<(Seq<char>, Seq<char>)> {
    scan_lines(lines_of(text)).1
}

/// The leaves of a document: dotted path to value.
pub struct YamlLeaves {
    pub entries: Vec<(String, String)>,
}

impl View for YamlLeaves {
    type V = Map<Seq<char>, Seq<char>>;

    open spec fn view(&self) -> Map<Seq<char>, Seq<char>> {
        assoc_map(pairs_view(self.entries@))
    }
}

impl YamlLeaves {
    /// The value of the leaf at `path`.
    pub fn get(&self, path: &str) -> (r: Option<&String>)
        ensures
            match r {
                Some(v) => self@.contains_key(path@) && v@ == self@[path@],
                None => !self@.contains_key(path@),
            },
    {
        assoc_get(&self.entries, path)
    }
}

/// The lines of `t`, as `str::lines` gives them.
pub fn text_lines(t: &Vec<char>) -> (r: Vec<Vec<char>>)
    ensures
        r@.map_values(|v: Vec<char>| v@) == lines_of(t@),
{
    let pieces = split_chars(t, '\n');
    let ghost pv = pieces@.map_values(|v: Vec<char>| v@);
    proof {
        lemma_split_on_nonempty(t@, '\n');
    }
    let n = pieces.len();
    let mut out: Vec<Vec<char>> = Vec::new();
    let mut i: usize = 0;
    while i + 1 < n
        invariant
            n == pieces.len(),
            n >= 1,
            pv == pieces@.map_values(|v: Vec<char>| v@),
            i + 1 <= n,
            out@.map_values(|v: Vec<char>| v@) == pv.take(i as int).map_values(
                |p: Seq<char>| strip_cr(p),
            ),
        decreases n - i,
    {
        let p = &pieces[i];
        let line = if p.len() > 0 && p[p.len() - 1] == '\r' {
            slice_of(p, 0, p.len() - 1)
        } else {
            slice_of(p, 0, p.len())
        };
        proof {
            assert(p@.subrange(0, p.len() - 1) =~= p@.drop_last());
            assert(p@.subrange(0, p.len() as int) =~= p@);
            assert(line@ == strip_cr(pv[i as int]));
        }
        let ghost before = out@.map_values(|v: Vec<char>| v@);
        out.push(line);
        i = i + 1;
        proof {
            assert(out@.map_values(|v: Vec<char>| v@) =~= before.push(line@));
            assert(pv.take(i as int).map_values(|p: Seq<char>| strip_cr(p)) =~= pv.take(
                i - 1,
            ).map_values(|p: Seq<char>| strip_cr(p)).push(strip_cr(pv[i - 1])));
        }
    }
    let last = &pieces[n - 1];
    if last.len() > 0 {
        let ghost before = out@.map_values(|v: Vec<char>| v@);
        let l = slice_of(last, 0, last.len());
        assert(l@ =~= last@);
        out.push(l);
        assert(out@.map_values(|v: Vec<char>| v@) =~= before.push(pv[n - 1]));
    }
    out
}

/// An open section of the exec reader.
struct Section {
    indent: u128,
    key: Vec<char>,
}

spec fn stack_view(s: Seq<Section>) -> Seq<SpecSection> {
    s.map_values(|x: Section| (x.indent as nat, x.key@))
}

pub proof fn lemma_utf8_len_bound(s: Seq<char>)
    ensures
        utf8_len(s) <= 4 * s.len(),
    decreases s.len(),
{
    if s.len() > 0 {
        lemma_utf8_len_bound(s.drop_last());
    }
}

/// UTF-8 byte length of `s[..k]`.
fn prefix_byte_len(s: &Vec<char>, k: usize) -> (r: u128)
    requires
        k <= s.len(),
    ensures
        r == utf8_len(s@.take(k as int)),
{
    let mut acc: u128 = 0;
    let mut i: usize = 0;
    assert(s@.take(0) =~= Seq::<char>::empty());
    while i < k
        invariant
            i <= k <= s.len(),
            acc == utf8_len(s@.take(i as int)),
        decreases k - i,
    {
        proof {
            lemma_utf8_len_bound(s@.take(i as int));
            assert(s@.take(i + 1).drop_last() =~= s@.take(i as int));
        }
        acc = acc + char_width(s[i]) as u128;
        i = i + 1;
    }
    acc
}

fn close_deeper(stack: &mut Vec<Section>, indent: u128)
    ensures
        stack_view(final(stack)@) == close_sections(stack_view(old(stack)@), indent as nat),
{
    while stack.len() > 0 && stack[stack.len() - 1].indent >= indent
        invariant
            close_sections(stack_view(stack@), indent as nat) == close_sections(
                stack_view(old(stack)@),
                indent as nat,
            ),
        decreases stack.len(),
    {
        let ghost before = stack@;
        stack.pop();
        assert(stack_view(stack@) =~= stack_view(before).drop_last());
    }
}

fn path_of(stack: &Vec<Section>, key: &Vec<char>) -> (r: Vec<char>)
    ensures
        r@ == leaf_path(stack_view(stack@), key@),
{
    let ghost parts = stack_view(stack@).map_values(|s: SpecSection| s.1).push(key@);
    let mut acc: Vec<char> = Vec::new();
    let mut i: usize = 0;
    while i < stack.len()
        invariant
            i <= stack.len(),
            parts == stack_view(stack@).map_values(|s: SpecSection| s.1).push(key@),
            acc@ == join_with(parts.take(i as int), seq!['.']),
        decreases stack.len() - i,
    {
        assert(parts.take(i + 1).drop_last() =~= parts.take(i as int));
        if i > 0 {
            acc.push('.');
        }
        append_chars(&mut acc, &stack[i].key);
        proof {
            assert(parts[i as int] == stack@[i as int].key@);
            if i == 0 {
                assert(acc@ =~= parts.take(1)[0]);
            } else {
                assert(acc@ =~= join_with(parts.take(i as int), seq!['.']) + seq!['.'] + parts[i as int]);
            }
        }
        i = i + 1;
    }
    assert(parts.take(stack.len() + 1).drop_last() =~= parts.take(stack.len() as int));
    if i > 0 {
        acc.push('.');
    }
    append_chars(&mut acc, key);
    proof {
        assert(parts.take(stack.len() + 1) =~= parts);
        if i == 0 {
            assert(acc@ =~= parts[0]);
        } else {
            assert(acc@ =~= join_with(parts.take(i as int), seq!['.']) + seq!['.'] + parts[i as int]);
        }
    }
    acc
}

fn scan_one_line(stack: &mut Vec<Section>, out: &mut Vec<(String, String)>, raw: &Vec<char>)
    ensures
        (stack_view(final(stack)@), pairs_view(final(out)@)) == scan_line(
            (stack_view(old(stack)@), pairs_view(old(out)@)),
            raw@,
        ),
{
    let lead = leading_ws_count(raw);
    let t = slice_of(raw, lead, raw.len());
    assert(t@ =~= raw@.skip(lead as int));
    if t.len() == 0 || t[0] == '#' || t[0] == '-' {
        return;
    }
    let colon = match find_char(&t, ':') {
        None => {
            return;
        },
        Some(c) => c,
    };
    let indent = prefix_byte_len(raw, lead);
    assert(raw@.take(raw.len() - t.len()) =~= raw@.take(lead as int));
    let key_raw = slice_of(&t, 0, colon);
    let rest_raw = slice_of(&t, colon + 1, t.len());
    assert(key_raw@ =~= t@.take(colon as int));
    assert(rest_raw@ =~= t@.skip(colon + 1));
    let key = trimmed(&key_raw);
    let rest = trimmed(&rest_raw);
    close_deeper(stack, indent);
    if rest.len() == 0 {
        let ghost before = stack@;
        let ghost kv = key@;
        stack.push(Section { indent, key });
        assert(stack_view(stack@) =~= stack_view(before).push((indent as nat, kv)));
    } else {
        let path = path_of(stack, &key);
        let value = trimmed_char(&rest, '"');
        let ghost before = out@;
        let entry = (string_of(&path), string_of(&value));
        out.push(entry);
        assert(pairs_view(out@) =~= pairs_view(before).push((path@, value@)));
    }
}

/// Every `a.b.c: value` leaf of `text`, in order of appearance.
pub fn scan_yaml_leaves(text: &str) -> (r: YamlLeaves)
    ensures
        pairs_view(r.entries@) == yaml_leaves(text@),
{
    let chars = chars_of(text);
    let lines = text_lines(&chars);
    let ghost lv = lines@.map_values(|v: Vec<char>| v@);
    let mut stack: Vec<Section> = Vec::new();
    let mut out: Vec<(String, String)> = Vec::new();
    let mut i: usize = 0;
    assert(lv.take(0) =~= Seq::<Seq<char>>::empty());
    assert(stack_view(stack@) =~= Seq::<SpecSection>::empty());
    assert(pairs_view(out@) =~= Seq::<(Seq<char>, Seq<char>)>::empty());
    while i < lines.len()
        invariant
            i <= lines.len(),
            lv == lines@.map_values(|v: Vec<char>| v@),
            (stack_view(stack@), pairs_view(out@)) == scan_lines(lv.take(i as int)),
        decreases lines.len() - i,
    {
        assert(lv.take(i + 1).drop_last() =~= lv.take(i as int));
        assert(lv.take(i + 1).last() == lines@[i as int]@);
        scan_one_line(&mut stack, &mut out, &lines[i]);
        i = i + 1;
    }
    assert(lv.take(lines.len() as int) =~= lv);
    YamlLeaves { entries: out }
}


/// Whether a line leaves the reader as it was: blank, a comment, a list item
/// or document marker, or without a `:`.
pub open spec fn inert_line(m: Seq<char>) -> bool {
    skipped_line(trim_start(m)) || first_index_of(trim_start(m), ':') is None
}

proof fn lemma_lines_after_newline(x: Seq<char>, y: Seq<char>)
    ensures
        lines_of(x + seq!['\n'] + y) == lines_of(x + seq!['\n']) + lines_of(y),
{
    let e = Seq::<char>::empty();
    lemma_split_on_join(x, y, '\n');
    lemma_split_on_join(x, e, '\n');
    assert(x + seq!['\n'] + e =~= x + seq!['\n']);
    lemma_split_on_nonempty(y, '\n');
    lemma_split_on_nonempty(x, '\n');
    assert(split_on(e, '\n') =~= seq![e]);
    let sx = split_on(x, '\n');
    let sy = split_on(y, '\n');
    let whole = lines_of(x + seq!['\n'] + y);
    let front = lines_of(x + seq!['\n']);
    let back = lines_of(y);
    assert(front.len() == sx.len());
    assert forall|i: int| 0 <= i < sx.len() implies #[trigger] front[i] == strip_cr(sx[i]) by {
        assert((sx + seq![e])[i] == sx[i]);
    }
    assert forall|i: int| 0 <= i < sx.len() implies #[trigger] whole[i] == strip_cr(sx[i]) by {
        assert((sx + sy)[i] == sx[i]);
    }
    assert forall|i: int| 0 <= i < back.len() implies #[trigger] whole[sx.len() + i] == back[i] by {
        assert((sx + sy)[sx.len() + i] == sy[i]);
    }
    assert(whole =~= front + back);
}

proof fn lemma_scan_skips(p: Seq<Seq<char>>, m: Seq<char>, q: Seq<Seq<char>>)
    requires
        inert_line(m),
    ensures
        scan_lines(p + seq![m] + q) == scan_lines(p + q),
    decreases q.len(),
{
    if q.len() == 0 {
        assert((p + seq![m] + q).drop_last() =~= p);
        assert(p + q =~= p);
    } else {
        lemma_scan_skips(p, m, q.drop_last());
        assert((p + seq![m] + q).drop_last() =~= p + seq![m] + q.drop_last());
        assert((p + q).drop_last() =~= p + q.drop_last());
    }
}

/// Lines the reader skips change nothing: inserting, at the start of a line
/// of a document, one line (as `str::lines` gives it) that is blank, a
/// comment, a list item or document marker, or without a `:`, leaves the
/// leaves and the section nesting of the rest as they were.
pub proof fn law_skipped_lines_change_nothing(a: Seq<char>, l: Seq<char>, b: Seq<char>)
    requires
        a.len() == 0 || a.last() == '\n',
        free_of(l, '\n'),
        inert_line(strip_cr(l)),
    ensures
        scan_lines(lines_of(a + l + seq!['\n'] + b)) == scan_lines(lines_of(a + b)),
        yaml_leaves(a + l + seq!['\n'] + b) == yaml_leaves(a + b),
{
    let e = Seq::<char>::empty();
    lemma_split_on_join(l, e, '\n');
    lemma_split_on_free(l, '\n');
    assert(l + seq!['\n'] + e =~= l + seq!['\n']);
    assert(split_on(e, '\n') =~= seq![e]);
    assert(lines_of(l + seq!['\n']) =~= seq![strip_cr(l)]);
    lemma_lines_after_newline(l, b);
    if a.len() == 0 {
        assert(a + l + seq!['\n'] + b =~= l + seq!['\n'] + b);
        assert(a + b =~= b);
        let empty = Seq::<Seq<char>>::empty();
        lemma_scan_skips(empty, strip_cr(l), lines_of(b));
        assert(empty + seq![strip_cr(l)] + lines_of(b) =~= seq![strip_cr(l)] + lines_of(b));
        assert(empty + lines_of(b) =~= lines_of(b));
    } else {
        let a0 = a.drop_last();
        assert(a + l + seq!['\n'] + b =~= a0 + seq!['\n'] + (l + seq!['\n'] + b));
        assert(a + b =~= a0 + seq!['\n'] + b);
        lemma_lines_after_newline(a0, l + seq!['\n'] + b);
        lemma_lines_after_newline(a0, b);
        let front = lines_of(a0 + seq!['\n']);
        lemma_scan_skips(front, strip_cr(l), lines_of(b));
        assert(front + (seq![strip_cr(l)] + lines_of(b)) =~= front + seq![strip_cr(l)] + lines_of(b));
    }
}

} // verus!
