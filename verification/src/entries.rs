//! Sequences of key-value entries and the map that applying them in order gives.
use vstd::prelude::*;

use crate::keys::{bytes_equal, copy_bytes};

verus! {

/// An entry as bytes: a key and its value.
pub type EntryView = (Seq<u8>, Seq<u8>);

/// The view of a sequence of owned entries.
pub open spec fn entries_view(s: Seq<(Vec<u8>, Vec<u8>)>) -> Seq<EntryView> {
    s.map_values(|e: (Vec<u8>, Vec<u8>)| (e.0@, e.1@))
}

/// The map obtained by writing the entries one after the other: a later entry for a key
/// overrides an earlier one.
pub open spec fn entries_to_map<V>(s: Seq<(Seq<u8>, V)>) -> Map<Seq<u8>, V>
    decreases s.len(),
{
    if s.len() == 0 {
        Map::empty()
    } else {
        entries_to_map(s.drop_last()).insert(s.last().0, s.last().1)
    }
}

/// No key occurs twice among the entries.
pub open spec fn keys_distinct<V>(s: Seq<(Seq<u8>, V)>) -> bool {
    forall|i: int, j: int| 0 <= i < j < s.len() ==> s[i].0 != s[j].0
}

/// A key is written by the entries exactly when some entry carries it.
pub proof fn lemma_entries_to_map_dom<V>(s: Seq<(Seq<u8>, V)>, k: Seq<u8>)
    ensures
        entries_to_map(s).contains_key(k) <==> exists|i: int| 0 <= i < s.len() && s[i].0 == k,
    decreases s.len(),
{
    if s.len() > 0 {
        lemma_entries_to_map_dom(s.drop_last(), k);
        if entries_to_map(s.drop_last()).contains_key(k) {
            let i = choose|i: int| 0 <= i < s.drop_last().len() && s.drop_last()[i].0 == k;
            assert(s[i].0 == k);
        }
        if exists|i: int| 0 <= i < s.len() && s[i].0 == k {
            let i = choose|i: int| 0 <= i < s.len() && s[i].0 == k;
            if i < s.len() - 1 {
                assert(s.drop_last()[i].0 == k);
            }
        }
    }
}

/// With distinct keys, each entry's key maps to that entry's value.
pub proof fn lemma_distinct_lookup<V>(s: Seq<(Seq<u8>, V)>, i: int)
    requires
        keys_distinct(s),
        0 <= i < s.len(),
    ensures
        entries_to_map(s).contains_key(s[i].0),
        entries_to_map(s)[s[i].0] == s[i].1,
    decreases s.len(),
{
    if i < s.len() - 1 {
        assert(keys_distinct(s.drop_last()));
        lemma_distinct_lookup(s.drop_last(), i);
        assert(s.drop_last()[i] == s[i]);
    }
}

/// Writing `a` then `b` gives the map of `a` overridden by the map of `b`.
pub proof fn lemma_entries_to_map_concat<V>(a: Seq<(Seq<u8>, V)>, b: Seq<(Seq<u8>, V)>)
    ensures
        entries_to_map(a + b) == entries_to_map(a).union_prefer_right(entries_to_map(b)),
    decreases b.len(),
{
    if b.len() == 0 {
        assert(a + b =~= a);
        assert(entries_to_map(a).union_prefer_right(entries_to_map(b)) =~= entries_to_map(a));
    } else {
        lemma_entries_to_map_concat(a, b.drop_last());
        assert((a + b).drop_last() =~= a + b.drop_last());
        assert(entries_to_map(a + b) =~= entries_to_map(a).union_prefer_right(
            entries_to_map(b),
        ));
    }
}

/// Replacing the value of an entry whose key is unique updates that key in the map.
pub proof fn lemma_distinct_update<V>(s: Seq<(Seq<u8>, V)>, i: int, v: V)
    requires
        keys_distinct(s),
        0 <= i < s.len(),
    ensures
        keys_distinct(s.update(i, (s[i].0, v))),
        entries_to_map(s.update(i, (s[i].0, v))) == entries_to_map(s).insert(s[i].0, v),
{
    let t = s.update(i, (s[i].0, v));
    let k = s[i].0;
    assert forall|x: Seq<u8>| #[trigger] entries_to_map(t).contains_key(x) == entries_to_map(
        s,
    ).insert(k, v).contains_key(x) by {
        lemma_entries_to_map_dom(t, x);
        lemma_entries_to_map_dom(s, x);
        if exists|j: int| 0 <= j < s.len() && s[j].0 == x {
            let j = choose|j: int| 0 <= j < s.len() && s[j].0 == x;
            assert(t[j].0 == x);
        }
        if exists|j: int| 0 <= j < t.len() && t[j].0 == x {
            let j = choose|j: int| 0 <= j < t.len() && t[j].0 == x;
            assert(s[j].0 == x);
        }
    }
    assert forall|x: Seq<u8>| #[trigger] entries_to_map(t).contains_key(x) implies entries_to_map(
        t,
    )[x] == entries_to_map(s).insert(k, v)[x] by {
        lemma_entries_to_map_dom(t, x);
        let j = choose|j: int| 0 <= j < t.len() && t[j].0 == x;
        lemma_distinct_lookup(t, j);
        if j != i {
            lemma_distinct_lookup(s, j);
        }
    }
    assert(entries_to_map(t) =~= entries_to_map(s).insert(k, v));
}

/// Appending an entry for a new key keeps the keys distinct.
pub proof fn lemma_distinct_push<V>(s: Seq<(Seq<u8>, V)>, e: (Seq<u8>, V))
    requires
        keys_distinct(s),
        forall|j: int| 0 <= j < s.len() ==> s[j].0 != e.0,
    ensures
        keys_distinct(s.push(e)),
        entries_to_map(s.push(e)) == entries_to_map(s).insert(e.0, e.1),
{
    assert(s.push(e).drop_last() =~= s);
}

/// The position of the entry for `key`, if there is one.
pub fn find_key(entries: &Vec<(Vec<u8>, Vec<u8>)>, key: &[u8]) -> (r: Option<usize>)
    ensures
        match r {
            Some(i) => i < entries@.len() && entries@[i as int].0@ == key@,
            None => forall|i: int| 0 <= i < entries@.len() ==> entries@[i].0@ != key@,
        },
{
    let mut i: usize = 0;
    while i < entries.len()
        invariant
            i <= entries@.len(),
            forall|j: int| 0 <= j < i ==> entries@[j].0@ != key@,
        decreases entries@.len() - i,
    {
        if bytes_equal(entries[i].0.as_slice(), key) {
            return Some(i);
        }
        i = i + 1;
    }
    None
}

/// Writes `value` for `key`: replaces the value of the entry for `key` where there is one,
/// and appends a new entry otherwise.
pub fn upsert(entries: &mut Vec<(Vec<u8>, Vec<u8>)>, key: Vec<u8>, value: Vec<u8>)
    requires
        keys_distinct(entries_view(old(entries)@)),
    ensures
        keys_distinct(entries_view(final(entries)@)),
        entries_to_map(entries_view(final(entries)@)) == entries_to_map(
            entries_view(old(entries)@),
        ).insert(key@, value@),
        entries_to_map(entries_view(old(entries)@)).contains_key(key@) ==> final(entries)@.len()
            == old(entries)@.len(),
{
    let ghost s = entries_view(entries@);
    match find_key(entries, key.as_slice()) {
        Some(i) => {
            proof {
                lemma_distinct_update(s, i as int, value@);
            }
            entries.set(i, (key, value));
            proof {
                assert(entries_view(entries@) =~= s.update(i as int, (s[i as int].0, value@)));
            }
        },
        None => {
            proof {
                lemma_distinct_push(s, (key@, value@));
                lemma_entries_to_map_dom(s, key@);
            }
            entries.push((key, value));
            proof {
                assert(entries_view(entries@) =~= s.push((key@, value@)));
            }
        },
    }
}

/// A copy of the entries.
pub fn copy_entries(entries: &Vec<(Vec<u8>, Vec<u8>)>) -> (r: Vec<(Vec<u8>, Vec<u8>)>)
    ensures
        entries_view(r@) == entries_view(entries@),
{
    let mut r: Vec<(Vec<u8>, Vec<u8>)> = Vec::new();
    let mut i: usize = 0;
    while i < entries.len()
        invariant
            i <= entries@.len(),
            entries_view(r@) =~= entries_view(entries@).take(i as int),
        decreases entries@.len() - i,
    {
        let k = copy_bytes(entries[i].0.as_slice());
        let v = copy_bytes(entries[i].1.as_slice());
        let ghost before = r@;
        r.push((k, v));
        proof {
            assert(r@ =~= before.push((k, v)));
            assert(entries_view(r@) =~= entries_view(before).push((k@, v@)));
            assert(entries_view(entries@).take(i + 1) =~= entries_view(entries@).take(
                i as int,
            ).push((k@, v@)));
        }
        i = i + 1;
    }
    assert(entries_view(entries@).take(entries@.len() as int) =~= entries_view(entries@));
    r
}

} // verus!
