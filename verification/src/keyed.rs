//! Lists of (key, value) pairs with no key twice, read as maps: the model of
//! the string-keyed tables of this crate.
use vstd::prelude::*;

verus! {

/// Whether some pair of `s` has the key `k`.
pub open spec fn has_key<K, V>(s: Seq<(K, V)>, k: K) -> bool {
    exists|i: int| 0 <= i < s.len() && #[trigger] s[i].0 == k
}

/// No two pairs of `s` share a key.
pub open spec fn keys_unique<K, V>(s: Seq<(K, V)>) -> bool {
    forall|i: int, j: int| 0 <= i < j < s.len() ==> #[trigger] s[i].0 != #[trigger] s[j].0
}

/// The map that the pairs of `s` make up.
pub open spec fn pairs_map<K, V>(s: Seq<(K, V)>) -> Map<K, V> {
    Map::new(|k: K| has_key(s, k), |k: K| s[choose|i: int| 0 <= i < s.len() && #[trigger] s[i].0 == k].1)
}

/// No pairs make the empty map.
pub proof fn lemma_pairs_empty<K, V>(s: Seq<(K, V)>)
    requires
        s.len() == 0,
    ensures
        keys_unique(s),
        pairs_map(s) == Map::<K, V>::empty(),
{
    assert(pairs_map(s) =~= Map::<K, V>::empty());
}

/// Writing a pair over the pair of the same key updates the map there.
pub proof fn lemma_pairs_update<K, V>(s: Seq<(K, V)>, i: int, x: (K, V))
    requires
        keys_unique(s),
        0 <= i < s.len(),
        s[i].0 == x.0,
    ensures
        keys_unique(s.update(i, x)),
        pairs_map(s.update(i, x)) == pairs_map(s).insert(x.0, x.1),
{
    let t = s.update(i, x);
    assert forall|j: int| 0 <= j < t.len() implies #[trigger] t[j].0 == s[j].0 by {}
    assert forall|k: K| #[trigger] has_key(t, k) == has_key(s, k) by {
        if has_key(s, k) {
            let j = choose|j: int| 0 <= j < s.len() && #[trigger] s[j].0 == k;
            assert(t[j].0 == k);
        }
        if has_key(t, k) {
            let j = choose|j: int| 0 <= j < t.len() && #[trigger] t[j].0 == k;
            assert(s[j].0 == k);
        }
    }
    assert(pairs_map(t) =~= pairs_map(s).insert(x.0, x.1)) by {
        assert(t[i].0 == x.0);
        assert forall|k: K| has_key(t, k) implies #[trigger] pairs_map(t)[k] == pairs_map(s).insert(x.0, x.1)[k] by {
            let j = choose|j: int| 0 <= j < t.len() && #[trigger] t[j].0 == k;
            let j2 = choose|j: int| 0 <= j < s.len() && #[trigger] s[j].0 == k;
            assert(t[j2].0 == k);
            assert(j == j2);
        }
    }
}

/// Adding a pair of a new key adds it to the map.
pub proof fn lemma_pairs_push<K, V>(s: Seq<(K, V)>, x: (K, V))
    requires
        keys_unique(s),
        !has_key(s, x.0),
    ensures
        keys_unique(s.push(x)),
        pairs_map(s.push(x)) == pairs_map(s).insert(x.0, x.1),
{
    let t = s.push(x);
    let n = s.len() as int;
    assert forall|j: int| 0 <= j < n implies #[trigger] t[j].0 == s[j].0 by {}
    assert forall|j: int| 0 <= j < n implies #[trigger] s[j].0 != x.0 by {}
    assert(t[n].0 == x.0);
    assert forall|k: K| #[trigger] has_key(t, k) == (has_key(s, k) || k == x.0) by {
        if has_key(s, k) {
            let j = choose|j: int| 0 <= j < s.len() && #[trigger] s[j].0 == k;
            assert(t[j].0 == k);
        }
        if has_key(t, k) {
            let j = choose|j: int| 0 <= j < t.len() && #[trigger] t[j].0 == k;
            if j < n {
                assert(s[j].0 == k);
            }
        }
    }
    assert(pairs_map(t) =~= pairs_map(s).insert(x.0, x.1)) by {
        assert forall|k: K| has_key(t, k) implies #[trigger] pairs_map(t)[k] == pairs_map(s).insert(x.0, x.1)[k] by {
            let j = choose|j: int| 0 <= j < t.len() && #[trigger] t[j].0 == k;
            if k != x.0 {
                let j2 = choose|j: int| 0 <= j < s.len() && #[trigger] s[j].0 == k;
                assert(t[j2].0 == k);
                assert(j == j2);
            }
        }
    }
}

/// The value of a key that the pair at `i` holds.
pub proof fn lemma_pairs_at<K, V>(s: Seq<(K, V)>, i: int)
    requires
        keys_unique(s),
        0 <= i < s.len(),
    ensures
        pairs_map(s).contains_key(s[i].0),
        pairs_map(s)[s[i].0] == s[i].1,
{
    assert(has_key(s, s[i].0));
}

} // verus!
