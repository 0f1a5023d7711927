//! Association lists as maps: the map an entry list denotes, and what
//! holds of it when no two entries share a key.

use vstd::prelude::*;

verus! {

/// The map denoted by an association list; a later entry would win, though
/// the lists in this crate never repeat a key.
pub open spec fn assoc_map<K, V>(s: Seq<(K, V)>) -> Map<K, V>
    decreases s.len(),
{
    if s.len() == 0 {
        Map::empty()
    } else {
        assoc_map(s.drop_last()).insert(s.last().0, s.last().1)
    }
}

/// No two entries share a key.
pub open spec fn distinct_keys<K, V>(s: Seq<(K, V)>) -> bool {
    forall|i: int, j: int|
        0 <= i < j < s.len() ==> (#[trigger] s[i]).0 != (#[trigger] s[j]).0
}

/// The denoted map's domain is exactly the set of keys in the list.
pub proof fn lemma_assoc_contains<K, V>(s: Seq<(K, V)>, k: K)
    ensures
        assoc_map(s).contains_key(k) <==> exists|i: int|
            0 <= i < s.len() && (#[trigger] s[i]).0 == k,
    decreases s.len(),
{
    if s.len() > 0 {
        lemma_assoc_contains(s.drop_last(), k);
        if s.last().0 == k {
            assert((s[s.len() - 1]).0 == k);
        } else if assoc_map(s).contains_key(k) {
            let i = choose|i: int| 0 <= i < s.drop_last().len() && (#[trigger] s.drop_last()[i]).0
                == k;
            assert((s[i]).0 == k);
        } else {
            assert forall|i: int| 0 <= i < s.len() implies (#[trigger] s[i]).0 != k by {
                if i < s.len() - 1 {
                    assert(s.drop_last()[i] == s[i]);
                }
            }
        }
    }
}

/// With distinct keys, each entry is exactly what the denoted map holds at
/// its key.
pub proof fn lemma_assoc_index<K, V>(s: Seq<(K, V)>, i: int)
    requires
        distinct_keys(s),
        0 <= i < s.len(),
    ensures
        assoc_map(s).contains_key(s[i].0),
        assoc_map(s)[s[i].0] == s[i].1,
    decreases s.len(),
{
    if i == s.len() - 1 {
    } else {
        assert(distinct_keys(s.drop_last())) by {
            assert forall|x: int, y: int|
                0 <= x < y < s.drop_last().len() implies (#[trigger] s.drop_last()[x]).0 != (
            #[trigger] s.drop_last()[y]).0 by {
                assert(s.drop_last()[x] == s[x] && s.drop_last()[y] == s[y]);
            }
        }
        lemma_assoc_index(s.drop_last(), i);
        assert(s.drop_last()[i] == s[i]);
        assert(s[i].0 != s.last().0) by {
            assert((s[i]).0 != (s[s.len() - 1]).0);
        }
    }
}

/// Appending a fresh entry denotes an insertion.
pub proof fn lemma_assoc_push<K, V>(s: Seq<(K, V)>, k: K, v: V)
    ensures
        assoc_map(s.push((k, v))) == assoc_map(s).insert(k, v),
{
    assert(s.push((k, v)).drop_last() =~= s);
}

/// With distinct keys, updating the value at one index denotes an
/// insertion at that entry's key.
pub proof fn lemma_assoc_update<K, V>(s: Seq<(K, V)>, i: int, v: V)
    requires
        distinct_keys(s),
        0 <= i < s.len(),
    ensures
        assoc_map(s.update(i, (s[i].0, v))) == assoc_map(s).insert(s[i].0, v),
    decreases s.len(),
{
    let t = s.update(i, (s[i].0, v));
    if i == s.len() - 1 {
        assert(t.drop_last() =~= s.drop_last());
        assert(t.last() == (s[i].0, v));
        assert(assoc_map(s.drop_last()).insert(s[i].0, s[i].1).insert(s[i].0, v) =~= assoc_map(
            s.drop_last(),
        ).insert(s[i].0, v));
    } else {
        assert(distinct_keys(s.drop_last())) by {
            assert forall|x: int, y: int|
                0 <= x < y < s.drop_last().len() implies (#[trigger] s.drop_last()[x]).0 != (
            #[trigger] s.drop_last()[y]).0 by {
                assert(s.drop_last()[x] == s[x] && s.drop_last()[y] == s[y]);
            }
        }
        assert(s.drop_last()[i] == s[i]);
        lemma_assoc_update(s.drop_last(), i, v);
        assert(t.drop_last() =~= s.drop_last().update(i, (s[i].0, v)));
        assert(t.last() == s.last());
        assert(s[i].0 != s.last().0) by {
            assert((s[i]).0 != (s[s.len() - 1]).0);
        }
        assert(assoc_map(s.drop_last()).insert(s[i].0, v).insert(s.last().0, s.last().1) =~=
            assoc_map(s.drop_last()).insert(s.last().0, s.last().1).insert(s[i].0, v));
    }
}

/// With distinct keys, removing one entry denotes removing its key.
pub proof fn lemma_assoc_remove<K, V>(s: Seq<(K, V)>, i: int)
    requires
        distinct_keys(s),
        0 <= i < s.len(),
    ensures
        assoc_map(s.remove(i)) == assoc_map(s).remove(s[i].0),
    decreases s.len(),
{
    if i == s.len() - 1 {
        assert(s.remove(i) =~= s.drop_last());
        lemma_assoc_contains(s.drop_last(), s[i].0);
        assert(!assoc_map(s.drop_last()).contains_key(s[i].0)) by {
            if exists|x: int| 0 <= x < s.drop_last().len() && (#[trigger] s.drop_last()[x]).0
                == s[i].0 {
                let x = choose|x: int|
                    0 <= x < s.drop_last().len() && (#[trigger] s.drop_last()[x]).0 == s[i].0;
                assert(s[x] == s.drop_last()[x]);
                assert((s[x]).0 != (s[i]).0);
            }
        }
        assert(assoc_map(s.drop_last()).insert(s[i].0, s[i].1).remove(s[i].0) =~= assoc_map(
            s.drop_last(),
        ));
    } else {
        assert(distinct_keys(s.drop_last())) by {
            assert forall|x: int, y: int|
                0 <= x < y < s.drop_last().len() implies (#[trigger] s.drop_last()[x]).0 != (
            #[trigger] s.drop_last()[y]).0 by {
                assert(s.drop_last()[x] == s[x] && s.drop_last()[y] == s[y]);
            }
        }
        assert(s.drop_last()[i] == s[i]);
        lemma_assoc_remove(s.drop_last(), i);
        assert(s.remove(i).drop_last() =~= s.drop_last().remove(i));
        assert(s.remove(i).len() > 0 && s.remove(i).last() == s.last());
        assert(s[i].0 != s.last().0) by {
            assert((s[i]).0 != (s[s.len() - 1]).0);
        }
        assert(assoc_map(s.drop_last()).remove(s[i].0).insert(s.last().0, s.last().1) =~=
            assoc_map(s.drop_last()).insert(s.last().0, s.last().1).remove(s[i].0));
    }
}

/// With distinct keys, the denoted map has exactly one member per entry.
pub proof fn lemma_assoc_len<K, V>(s: Seq<(K, V)>)
    requires
        distinct_keys(s),
    ensures
        assoc_map(s).dom().finite(),
        assoc_map(s).dom().len() == s.len(),
    decreases s.len(),
{
    if s.len() > 0 {
        assert(distinct_keys(s.drop_last())) by {
            assert forall|x: int, y: int|
                0 <= x < y < s.drop_last().len() implies (#[trigger] s.drop_last()[x]).0 != (
            #[trigger] s.drop_last()[y]).0 by {
                assert(s.drop_last()[x] == s[x] && s.drop_last()[y] == s[y]);
            }
        }
        lemma_assoc_len(s.drop_last());
        lemma_assoc_contains(s.drop_last(), s.last().0);
        assert(!assoc_map(s.drop_last()).contains_key(s.last().0)) by {
            if exists|i: int| 0 <= i < s.drop_last().len() && (#[trigger] s.drop_last()[i]).0
                == s.last().0 {
                let i = choose|i: int|
                    0 <= i < s.drop_last().len() && (#[trigger] s.drop_last()[i]).0 == s.last().0;
                assert(s[i] == s.drop_last()[i]);
                assert((s[i]).0 != (s[s.len() - 1]).0);
            }
        }
    }
}

} // verus!
