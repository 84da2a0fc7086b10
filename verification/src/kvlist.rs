//! Association lists with unique keys, viewed as maps.
//!
//! The persistent stores of the ledger are kept as vectors of key-value
//! pairs; contracts speak of them through the map each list denotes.

use vstd::prelude::*;

verus! {

/// The map denoted by an association list; later entries win, though the
/// lists of this crate always carry pairwise-distinct keys.
pub open spec fn map_of<K, V>(s: Seq<(K, V)>) -> Map<K, V>
    decreases s.len(),
{
    if s.len() == 0 {
        Map::empty()
    } else {
        map_of(s.drop_last()).insert(s.last().0, s.last().1)
    }
}

/// No two entries share a key.
pub open spec fn keys_unique<K, V>(s: Seq<(K, V)>) -> bool {
    forall|i: int, j: int| 0 <= i < j < s.len() ==> (#[trigger] s[i]).0 != (#[trigger] s[j]).0
}

/// An entry of a list with unique keys is what the map gives for its key.
pub proof fn lemma_map_of_index<K, V>(s: Seq<(K, V)>, i: int)
    requires
        keys_unique(s),
        0 <= i < s.len(),
    ensures
        map_of(s).contains_key(s[i].0),
        map_of(s)[s[i].0] == s[i].1,
    decreases s.len(),
{
    if i == s.len() - 1 {
    } else {
        assert(forall|x: int| 0 <= x < s.len() - 1 ==> s.drop_last()[x] == s[x]);
        lemma_map_of_index(s.drop_last(), i);
        assert(s[s.len() - 1].0 != s[i].0);
    }
}

/// A key under no entry is not in the map.
pub proof fn lemma_map_of_absent<K, V>(s: Seq<(K, V)>, k: K)
    requires
        forall|i: int| 0 <= i < s.len() ==> (#[trigger] s[i]).0 != k,
    ensures
        !map_of(s).contains_key(k),
    decreases s.len(),
{
    if s.len() == 0 {
    } else {
        assert(forall|x: int| 0 <= x < s.len() - 1 ==> s.drop_last()[x] == s[x]);
        lemma_map_of_absent(s.drop_last(), k);
        assert(s[s.len() - 1].0 != k);
    }
}

/// A key in the map is the key of some entry.
pub proof fn lemma_map_of_contains<K, V>(s: Seq<(K, V)>, k: K)
    requires
        map_of(s).contains_key(k),
    ensures
        exists|i: int| 0 <= i < s.len() && (#[trigger] s[i]).0 == k,
    decreases s.len(),
{
    if s.len() == 0 {
    } else {
        if s.last().0 == k {
            assert(s[s.len() - 1].0 == k);
        } else {
            lemma_map_of_contains(s.drop_last(), k);
            let i = choose|i: int| 0 <= i < s.drop_last().len() && (#[trigger] s.drop_last()[i]).0 == k;
            assert(s[i].0 == k);
        }
    }
}

/// Appending an entry inserts its binding.
pub proof fn lemma_map_of_push<K, V>(s: Seq<(K, V)>, k: K, v: V)
    ensures
        map_of(s.push((k, v))) == map_of(s).insert(k, v),
{
    assert(s.push((k, v)).drop_last() =~= s);
}

/// Replacing the value of the entry at `i`, keeping its key, updates that
/// key's binding and nothing else.
pub proof fn lemma_map_of_update<K, V>(s: Seq<(K, V)>, i: int, v: V)
    requires
        keys_unique(s),
        0 <= i < s.len(),
    ensures
        map_of(s.update(i, (s[i].0, v))) == map_of(s).insert(s[i].0, v),
    decreases s.len(),
{
    let k = s[i].0;
    let s2 = s.update(i, (k, v));
    if i == s.len() - 1 {
        assert(s2.drop_last() =~= s.drop_last());
        assert(map_of(s.drop_last()).insert(k, s.last().1).insert(k, v) =~= map_of(
            s.drop_last(),
        ).insert(k, v));
    } else {
        assert(forall|x: int| 0 <= x < s.len() - 1 ==> s.drop_last()[x] == s[x]);
        lemma_map_of_update(s.drop_last(), i, v);
        assert(s2.drop_last() =~= s.drop_last().update(i, (k, v)));
        assert(s2.last() == s.last());
        let lk = s.last().0;
        let lv = s.last().1;
        assert(lk != k);
        assert(map_of(s.drop_last()).insert(k, v).insert(lk, lv) =~= map_of(
            s.drop_last(),
        ).insert(lk, lv).insert(k, v));
    }
}

/// A list with unique keys denotes a map with exactly one binding per entry.
pub proof fn lemma_map_of_len<K, V>(s: Seq<(K, V)>)
    requires
        keys_unique(s),
    ensures
        map_of(s).dom().finite(),
        map_of(s).dom().len() == s.len(),
    decreases s.len(),
{
    if s.len() == 0 {
        assert(map_of(s).dom() =~= Set::<K>::empty());
    } else {
        assert(forall|x: int| 0 <= x < s.len() - 1 ==> s.drop_last()[x] == s[x]);
        lemma_map_of_len(s.drop_last());
        lemma_map_of_absent(s.drop_last(), s.last().0);
        assert(map_of(s).dom() =~= map_of(s.drop_last()).dom().insert(s.last().0));
    }
}

} // verus!
