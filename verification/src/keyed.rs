//! Tables keyed by text: a vector of `(key, value)` entries in which no key
//! occurs twice, read as a map from each key to its value.

use vstd::prelude::*;
use crate::text::same_text;

verus! {

/// No key occurs twice among the entries.
pub open spec fn keys_distinct<W>(e: Seq<(Seq<char>, W)>) -> bool {
    forall|i: int, j: int| 0 <= i < j < e.len() ==> #[trigger] e[i].0 != #[trigger] e[j].0
}

/// The map the entries stand for.
pub open spec fn as_map<W>(e: Seq<(Seq<char>, W)>) -> Map<Seq<char>, W>
    decreases e.len(),
{
    if e.len() == 0 {
        Map::empty()
    } else {
        as_map(e.drop_last()).insert(e.last().0, e.last().1)
    }
}

/// A key is in the map exactly when an entry holds it, and then the map
/// gives that entry's value.
pub proof fn lemma_as_map_lookup<W>(e: Seq<(Seq<char>, W)>, k: Seq<char>)
    requires
        keys_distinct(e),
    ensures
        as_map(e).contains_key(k) <==> exists|i: int| 0 <= i < e.len() && #[trigger] e[i].0 == k,
        forall|i: int| 0 <= i < e.len() && #[trigger] e[i].0 == k ==> as_map(e)[k] == e[i].1,
    decreases e.len(),
{
    if e.len() > 0 {
        let d = e.drop_last();
        assert(keys_distinct(d));
        lemma_as_map_lookup(d, k);
        if as_map(e).contains_key(k) && k != e.last().0 {
            let i = choose|i: int| 0 <= i < d.len() && #[trigger] d[i].0 == k;
            assert(e[i].0 == k);
        }
        if k == e.last().0 {
            assert(e[e.len() - 1].0 == k);
        }
        assert forall|i: int| 0 <= i < e.len() && #[trigger] e[i].0 == k implies as_map(e)[k]
            == e[i].1 by {
            if i < e.len() - 1 {
                assert(d[i].0 == k);
            }
        }
        assert forall|i: int| 0 <= i < e.len() && #[trigger] e[i].0 == k implies as_map(
            e,
        ).contains_key(k) by {
            if i < e.len() - 1 {
                assert(d[i].0 == k);
            }
        }
    }
}

/// Changing the value of an entry changes the map at its key only.
pub proof fn lemma_as_map_update<W>(e: Seq<(Seq<char>, W)>, i: int, w: W)
    requires
        keys_distinct(e),
        0 <= i < e.len(),
    ensures
        keys_distinct(e.update(i, (e[i].0, w))),
        as_map(e.update(i, (e[i].0, w))) =~= as_map(e).insert(e[i].0, w),
{
    let u = e.update(i, (e[i].0, w));
    assert(keys_distinct(u)) by {
        assert forall|a: int, b: int| 0 <= a < b < u.len() implies #[trigger] u[a].0
            != #[trigger] u[b].0 by {
            assert(u[a].0 == e[a].0 && u[b].0 == e[b].0);
        }
    }
    assert forall|k: Seq<char>| #[trigger] as_map(u).contains_key(k) <==> as_map(e).insert(
        e[i].0,
        w,
    ).contains_key(k) by {
        lemma_as_map_lookup(u, k);
        lemma_as_map_lookup(e, k);
        if as_map(e).contains_key(k) {
            let j = choose|j: int| 0 <= j < e.len() && #[trigger] e[j].0 == k;
            assert(u[j].0 == k);
        }
        if as_map(u).contains_key(k) {
            let j = choose|j: int| 0 <= j < u.len() && #[trigger] u[j].0 == k;
            assert(e[j].0 == k);
        }
        assert(u[i].0 == e[i].0);
    }
    assert forall|k: Seq<char>| #[trigger] as_map(u).contains_key(k) implies as_map(u)[k]
        == as_map(e).insert(e[i].0, w)[k] by {
        lemma_as_map_lookup(u, k);
        lemma_as_map_lookup(e, k);
        let j = choose|j: int| 0 <= j < u.len() && #[trigger] u[j].0 == k;
        assert(e[j].0 == k);
    }
}

/// Adding an entry with a new key adds that key to the map.
pub proof fn lemma_as_map_push<W>(e: Seq<(Seq<char>, W)>, k: Seq<char>, w: W)
    requires
        keys_distinct(e),
        forall|i: int| 0 <= i < e.len() ==> #[trigger] e[i].0 != k,
    ensures
        keys_distinct(e.push((k, w))),
        as_map(e.push((k, w))) == as_map(e).insert(k, w),
{
    assert(e.push((k, w)).drop_last() =~= e);
}

/// The index of the entry holding `key`, if there is one.
pub fn find_key<V: DeepView>(entries: &Vec<(String, V)>, key: &str) -> (r: Option<usize>)
    ensures
        match r {
            Some(i) => i < entries@.len() && entries.deep_view()[i as int].0 == key@,
            None => forall|i: int| 0 <= i < entries@.len() ==> #[trigger] entries.deep_view()[i].0 != key@,
        },
{
    let mut i: usize = 0;
    while i < entries.len()
        invariant
            i <= entries@.len(),
            forall|j: int| 0 <= j < i ==> #[trigger] entries.deep_view()[j].0 != key@,
        decreases entries@.len() - i,
    {
        if same_text(entries[i].0.as_str(), key) {
            return Some(i);
        }
        i += 1;
    }
    None
}

/// Sets `key` to `value`: the entry holding it changes, or a new one is
/// added.
pub fn insert_entry<V: DeepView>(entries: &mut Vec<(String, V)>, key: String, value: V)
    requires
        keys_distinct(old(entries).deep_view()),
    ensures
        keys_distinct(final(entries).deep_view()),
        final(entries)@.len() > 0,
        as_map(final(entries).deep_view()) == as_map(old(entries).deep_view()).insert(
            key@,
            value.deep_view(),
        ),
{
    let ghost before = entries.deep_view();
    let ghost kw = (key@, value.deep_view());
    match find_key(entries, key.as_str()) {
        Some(i) => {
            entries.set(i, (key, value));
            assert(entries.deep_view() =~= before.update(i as int, (before[i as int].0, kw.1)));
            proof {
                lemma_as_map_update(before, i as int, kw.1);
            }
        },
        None => {
            entries.push((key, value));
            assert(entries.deep_view() =~= before.push(kw));
            proof {
                lemma_as_map_push(before, kw.0, kw.1);
            }
        },
    }
}

} // verus!
