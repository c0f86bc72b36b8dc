//! Association lists of strings: a `Vec` of key/value pairs read the way a
//! map is read after inserting the pairs in order, so a later pair for a key
//! hides every earlier one.

use vstd::prelude::*;

verus! {

/// The pairs of `es`, each string taken by its characters.
pub open spec fn pairs_view(es: Seq<(String, String)>) -> Seq<(Seq<char>, Seq<char>)> {
    es.map_values(|p: (String, String)| (p.0@, p.1@))
}

/// The map obtained by inserting the pairs of `ps` in order.
pub open spec fn assoc_map(ps: Seq<(Seq<char>, Seq<char>)>) -> Map<Seq<char>, Seq<char>>
    decreases ps.len(),
{
    if ps.len() == 0 {
        Map::empty()
    } else {
        assoc_map(ps.drop_last()).insert(ps.last().0, ps.last().1)
    }
}

pub proof fn lemma_assoc_map_push(ps: Seq<(Seq<char>, Seq<char>)>, k: Seq<char>, v: Seq<char>)
    ensures
        assoc_map(ps.push((k, v))) == assoc_map(ps).insert(k, v),
{
    assert(ps.push((k, v)).drop_last() =~= ps);
}

pub proof fn lemma_assoc_map_update_last(
    ps: Seq<(Seq<char>, Seq<char>)>,
    j: int,
    k: Seq<char>,
    v: Seq<char>,
)
    requires
        0 <= j < ps.len(),
        ps[j].0 == k,
        forall|i: int| j < i < ps.len() ==> (#[trigger] ps[i]).0 != k,
    ensures
        assoc_map(ps.update(j, (k, v))) == assoc_map(ps).insert(k, v),
    decreases ps.len(),
{
    let qs = ps.update(j, (k, v));
    if j == ps.len() - 1 {
        assert(qs.drop_last() =~= ps.drop_last());
        assert(assoc_map(qs) =~= assoc_map(ps).insert(k, v));
    } else {
        assert(qs.drop_last() =~= ps.drop_last().update(j, (k, v)));
        lemma_assoc_map_update_last(ps.drop_last(), j, k, v);
        assert(ps.last().0 != k);
        assert(assoc_map(qs) =~= assoc_map(ps).insert(k, v));
    }
}

/// The value for `key`, as a map built from `es` would give it.
pub fn assoc_get<'a>(es: &'a Vec<(String, String)>, key: &str) -> (r: Option<&'a String>)
    ensures
        ({
            let m = assoc_map(pairs_view(es@));
            match r {
                Some(v) => m.contains_key(key@) && v@ == m[key@],
                None => !m.contains_key(key@),
            }
        }),
{
    let ghost ps = pairs_view(es@);
    let k = key.to_owned();
    let mut i = es.len();
    assert(ps.take(es.len() as int) =~= ps);
    while i > 0
        invariant
            i <= es.len(),
            ps == pairs_view(es@),
            k@ == key@,
            assoc_map(ps).contains_key(key@) == assoc_map(ps.take(i as int)).contains_key(key@),
            assoc_map(ps).contains_key(key@) ==> assoc_map(ps)[key@] == assoc_map(
                ps.take(i as int),
            )[key@],
        decreases i,
    {
        assert(ps.take(i as int).drop_last() =~= ps.take(i - 1));
        assert(ps.take(i as int).last() == ps[i - 1]);
        if es[i - 1].0 == k {
            return Some(&es[i - 1].1);
        }
        i = i - 1;
    }
    assert(ps.take(0) =~= Seq::<(Seq<char>, Seq<char>)>::empty());
    None
}

/// Sets the value for `key`: replaces the value of the last pair for `key`,
/// or appends a new pair.
pub fn assoc_set(es: &mut Vec<(String, String)>, key: String, value: String)
    ensures
        assoc_map(pairs_view(final(es)@)) == assoc_map(pairs_view(old(es)@)).insert(key@, value@),
{
    let ghost ps = pairs_view(es@);
    let mut i = es.len();
    while i > 0
        invariant
            i <= es.len(),
            es@ == old(es)@,
            ps == pairs_view(es@),
            forall|j: int| i <= j < es.len() ==> (#[trigger] ps[j]).0 != key@,
        decreases i,
    {
        if es[i - 1].0 == key {
            let ghost kv = (key@, value@);
            es.set(i - 1, (key, value));
            proof {
                lemma_assoc_map_update_last(ps, i - 1, kv.0, kv.1);
                assert(pairs_view(es@) =~= ps.update(i - 1, kv));
            }
            return;
        }
        i = i - 1;
    }
    let ghost kv = (key@, value@);
    es.push((key, value));
    proof {
        assert(pairs_view(es@) =~= ps.push(kv));
        lemma_assoc_map_push(ps, kv.0, kv.1);
    }
}

/// Whether `s` is one of `items`.
pub fn contains_string(items: &Vec<String>, s: &String) -> (r: bool)
    ensures
        r == items@.map_values(|x: String| x@).contains(s@),
{
    let ghost vs = items@.map_values(|x: String| x@);
    let mut i: usize = 0;
    while i < items.len()
        invariant
            i <= items.len(),
            vs == items@.map_values(|x: String| x@),
            forall|j: int| 0 <= j < i ==> vs[j] != s@,
        decreases items.len() - i,
    {
        if items[i] == *s {
            assert(vs[i as int] == s@);
            return true;
        }
        i = i + 1;
    }
    false
}

} // verus!
