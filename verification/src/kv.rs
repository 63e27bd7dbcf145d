//! Association lists with unique keys, viewed as maps. Both the rate
//! limiter (buckets keyed by scope) and the entity store (records keyed
//! by name) keep their entries this way.

use vstd::prelude::*;

verus! {

/// The map an association list denotes; a later entry for the same key
/// wins.
pub open spec fn map_of<K: View, V: View>(s: Seq<(K, V)>) -> Map<K::V, V::V>
    decreases s.len(),
{
    if s.len() == 0 {
        Map::empty()
    } else {
        map_of(s.drop_last()).insert(s.last().0@, s.last().1@)
    }
}

/// No two entries share a key.
pub open spec fn unique_keys<K: View, V: View>(s: Seq<(K, V)>) -> bool {
    forall|i: int, j: int| 0 <= i < j < s.len() ==> (#[trigger] s[i]).0@ != (#[trigger] s[j]).0@
}

/// A key is in the map exactly when some entry carries it.
pub proof fn lemma_map_contains<K: View, V: View>(s: Seq<(K, V)>, k: K::V)
    ensures
        map_of(s).contains_key(k) <==> exists|i: int| 0 <= i < s.len() && (#[trigger] s[i]).0@ == k,
    decreases s.len(),
{
    if s.len() > 0 {
        lemma_map_contains(s.drop_last(), k);
        if s.last().0@ == k {
            assert((s[s.len() - 1]).0@ == k);
        } else if map_of(s).contains_key(k) {
            let i = choose|i: int| 0 <= i < s.drop_last().len() && (#[trigger] s.drop_last()[i]).0@ == k;
            assert((s[i]).0@ == k);
        } else {
            assert forall|i: int| 0 <= i < s.len() && (#[trigger] s[i]).0@ == k implies false by {
                if i < s.len() - 1 {
                    assert((s.drop_last()[i]).0@ == k);
                }
            }
        }
    }
}

/// Under unique keys, the entry at `i` gives the map's value at its key.
pub proof fn lemma_map_at<K: View, V: View>(s: Seq<(K, V)>, i: int)
    requires
        unique_keys(s),
        0 <= i < s.len(),
    ensures
        map_of(s).contains_key(s[i].0@),
        map_of(s)[s[i].0@] == s[i].1@,
    decreases s.len(),
{
    if i == s.len() - 1 {
    } else {
        assert(unique_keys(s.drop_last()));
        assert((s.drop_last()[i]).0@ == s[i].0@);
        lemma_map_at(s.drop_last(), i);
        assert(s[i].0@ != s[s.len() - 1].0@);
    }
}

/// Removing the entry at `i` removes exactly its key from the map.
pub proof fn lemma_map_remove<K: View, V: View>(s: Seq<(K, V)>, i: int)
    requires
        unique_keys(s),
        0 <= i < s.len(),
    ensures
        unique_keys(s.remove(i)),
        map_of(s.remove(i)) == map_of(s).remove(s[i].0@),
    decreases s.len(),
{
    let k = s[i].0@;
    assert(unique_keys(s.remove(i))) by {
        assert forall|a: int, b: int| 0 <= a < b < s.remove(i).len() implies
            (#[trigger] s.remove(i)[a]).0@ != (#[trigger] s.remove(i)[b]).0@ by {
            let a0 = if a < i { a } else { a + 1 };
            let b0 = if b < i { b } else { b + 1 };
            assert(s.remove(i)[a] == s[a0]);
            assert(s.remove(i)[b] == s[b0]);
        }
    }
    if i == s.len() - 1 {
        assert(s.remove(i) =~= s.drop_last());
        assert(!map_of(s.drop_last()).contains_key(k)) by {
            lemma_map_contains(s.drop_last(), k);
            if exists|j: int| 0 <= j < s.drop_last().len() && (#[trigger] s.drop_last()[j]).0@ == k {
                let j = choose|j: int| 0 <= j < s.drop_last().len()
                    && (#[trigger] s.drop_last()[j]).0@ == k;
                assert((s[j]).0@ == k);
            }
        }
        assert(map_of(s.remove(i)) =~= map_of(s).remove(k));
    } else {
        assert(unique_keys(s.drop_last()));
        lemma_map_remove(s.drop_last(), i);
        assert(s.remove(i).drop_last() =~= s.drop_last().remove(i));
        assert(s.remove(i).last() == s.last());
        assert(s[i].0@ == s.drop_last()[i].0@);
        assert(k != s.last().0@);
        assert(map_of(s.remove(i)) =~= map_of(s).remove(k));
    }
}

} // verus!
