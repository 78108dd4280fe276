//! Ordered key/value entries, the representation of every ordered mapping of
//! the library (object values, object schemas, selections, conditions).
//! Lookups find the first entry with a key; inserting a present key replaces
//! its value in place, so keys stay unique and insertion order is kept.

use vstd::prelude::*;

verus! {

/// The index of the first entry whose key is `k`, if any.
pub open spec fn find_key<V>(es: Seq<(String, V)>, k: Seq<char>) -> Option<int>
    decreases es.len(),
{
    if es.len() == 0 {
        None
    } else {
        match find_key(es.drop_last(), k) {
            Some(i) => Some(i),
            None => if es.last().0@ == k {
                Some(es.len() - 1)
            } else {
                None
            },
        }
    }
}

/// The value of the first entry whose key is `k`, if any.
pub open spec fn lookup<V>(es: Seq<(String, V)>, k: Seq<char>) -> Option<V> {
    match find_key(es, k) {
        Some(i) => Some(es[i].1),
        None => None,
    }
}

/// The keys of some entries.
pub open spec fn keys_of<V>(es: Seq<(String, V)>) -> Seq<Seq<char>> {
    es.map_values(|e: (String, V)| e.0@)
}

/// The entries with each key as its characters.
pub open spec fn entries_view<V>(es: Seq<(String, V)>) -> Seq<(Seq<char>, V)> {
    es.map_values(|e: (String, V)| (e.0@, e.1))
}

/// The entries after putting `v` under `k`: the first entry with that key
/// gets the new value, or the pair is appended.
pub open spec fn put<V>(es: Seq<(String, V)>, k: Seq<char>, v: V) -> Seq<(Seq<char>, V)> {
    match find_key(es, k) {
        Some(i) => entries_view(es).update(i, (k, v)),
        None => entries_view(es).push((k, v)),
    }
}

/// What `find_key` finds: the first entry with the key, and only that one.
pub proof fn lemma_find_key<V>(es: Seq<(String, V)>, k: Seq<char>)
    ensures
        match find_key(es, k) {
            Some(i) => 0 <= i < es.len() && es[i].0@ == k && forall|j: int|
                0 <= j < i ==> es[j].0@ != k,
            None => forall|j: int| 0 <= j < es.len() ==> es[j].0@ != k,
        },
    decreases es.len(),
{
    if es.len() > 0 {
        let init = es.drop_last();
        lemma_find_key(init, k);
        assert forall|j: int| 0 <= j < init.len() implies init[j] == es[j] by {}
    }
}

/// An entry whose key is `k` at `i`, with none before it, is what
/// `find_key` finds.
pub proof fn lemma_find_key_at<V>(es: Seq<(String, V)>, k: Seq<char>, i: int)
    requires
        0 <= i < es.len(),
        es[i].0@ == k,
        forall|j: int| 0 <= j < i ==> es[j].0@ != k,
    ensures
        find_key(es, k) == Some(i),
{
    lemma_find_key(es, k);
}

/// A key that no entry holds is not found.
pub proof fn lemma_find_key_none<V>(es: Seq<(String, V)>, k: Seq<char>)
    requires
        forall|j: int| 0 <= j < es.len() ==> es[j].0@ != k,
    ensures
        find_key(es, k) is None,
{
    lemma_find_key(es, k);
}

/// The position of the first entry whose key is `k`.
pub fn position<V>(es: &Vec<(String, V)>, k: &str) -> (r: Option<usize>)
    ensures
        match r {
            Some(i) => find_key(es@, k@) == Some(i as int),
            None => find_key(es@, k@) is None,
        },
{
    let key = k.to_owned();
    let mut i: usize = 0;
    while i < es.len()
        invariant
            i <= es.len(),
            key@ == k@,
            forall|j: int| 0 <= j < i ==> es@[j].0@ != k@,
        decreases es.len() - i,
    {
        if es[i].0 == key {
            proof {
                lemma_find_key_at(es@, k@, i as int);
            }
            return Some(i);
        }
        i = i + 1;
    }
    proof {
        lemma_find_key_none(es@, k@);
    }
    None
}

/// Puts `v` under `k`: replaces the value of the first entry with that key,
/// or appends the pair. Returns the value that was replaced.
pub fn put_entry<V>(es: &mut Vec<(String, V)>, k: String, v: V) -> (r: Option<V>)
    ensures
        entries_view(final(es)@) == put(old(es)@, k@, v),
        match find_key(old(es)@, k@) {
            Some(i) => r == Some(old(es)@[i].1),
            None => r is None,
        },
{
    match position(es, k.as_str()) {
        Some(i) => {
            proof {
                lemma_find_key(es@, k@);
            }
            let (_, previous) = es.remove(i);
            es.insert(i, (k, v));
            proof {
                assert(es@ =~= old(es)@.update(i as int, (k, v)));
                assert(entries_view(es@) =~= put(old(es)@, k@, v));
            }
            Some(previous)
        },
        None => {
            es.push((k, v));
            proof {
                assert(entries_view(es@) =~= put(old(es)@, k@, v));
            }
            None
        },
    }
}

/// The index of the first entry whose key is `k`, over keys as characters.
pub open spec fn find_view<V>(es: Seq<(Seq<char>, V)>, k: Seq<char>) -> Option<int>
    decreases es.len(),
{
    if es.len() == 0 {
        None
    } else {
        match find_view(es.drop_last(), k) {
            Some(i) => Some(i),
            None => if es.last().0 == k {
                Some(es.len() - 1)
            } else {
                None
            },
        }
    }
}

/// Putting `v` under `k`, over keys as characters.
pub open spec fn put_view<V>(es: Seq<(Seq<char>, V)>, k: Seq<char>, v: V) -> Seq<(Seq<char>, V)> {
    match find_view(es, k) {
        Some(i) => es.update(i, (k, v)),
        None => es.push((k, v)),
    }
}

/// The entries that putting each pair in turn into an empty mapping gives:
/// a later pair with a key already present replaces the value in place.
pub open spec fn merge<V>(ls: Seq<(Seq<char>, V)>) -> Seq<(Seq<char>, V)>
    decreases ls.len(),
{
    if ls.len() == 0 {
        Seq::empty()
    } else {
        put_view(merge(ls.drop_last()), ls.last().0, ls.last().1)
    }
}

/// Finding a key is the same over keys as strings and as characters.
pub proof fn lemma_find_view<V>(es: Seq<(String, V)>, k: Seq<char>)
    ensures
        find_key(es, k) == find_view(entries_view(es), k),
    decreases es.len(),
{
    if es.len() > 0 {
        lemma_find_view(es.drop_last(), k);
        assert(entries_view(es.drop_last()) =~= entries_view(es).drop_last());
    }
}

/// What `find_view` finds: the first entry with the key.
pub proof fn lemma_find_view_spec<V>(es: Seq<(Seq<char>, V)>, k: Seq<char>)
    ensures
        match find_view(es, k) {
            Some(i) => 0 <= i < es.len() && es[i].0 == k && forall|j: int|
                0 <= j < i ==> es[j].0 != k,
            None => forall|j: int| 0 <= j < es.len() ==> es[j].0 != k,
        },
    decreases es.len(),
{
    if es.len() > 0 {
        let init = es.drop_last();
        lemma_find_view_spec(init, k);
        assert forall|j: int| 0 <= j < init.len() implies init[j] == es[j] by {}
    }
}

/// Every entry of a merge comes from one of the merged pairs, and no two
/// of its entries share a key.
pub proof fn lemma_merge<V>(ls: Seq<(Seq<char>, V)>)
    ensures
        forall|j: int|
            0 <= j < merge(ls).len() ==> exists|i: int|
                0 <= i < ls.len() && #[trigger] merge(ls)[j] == ls[i],
        forall|i: int, j: int|
            0 <= i < merge(ls).len() && 0 <= j < merge(ls).len() && i != j ==> merge(ls)[i].0
                != merge(ls)[j].0,
    decreases ls.len(),
{
    if ls.len() > 0 {
        let init = ls.drop_last();
        lemma_merge(init);
        let m = merge(init);
        lemma_find_view_spec(m, ls.last().0);
        assert forall|j: int| 0 <= j < merge(ls).len() implies exists|i: int|
            0 <= i < ls.len() && #[trigger] merge(ls)[j] == ls[i] by {
            if merge(ls)[j] == ls.last() {
                assert(merge(ls)[j] == ls[ls.len() - 1]);
            } else {
                assert(0 <= j < m.len() && merge(ls)[j] == m[j]);
                let i = choose|i: int| 0 <= i < init.len() && #[trigger] m[j] == init[i];
                assert(ls[i] == init[i]);
            }
        }
    }
}

} // verus!
