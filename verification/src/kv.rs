//! Association lists keyed by byte paths, and the maps they denote.
//!
//! The cache's resident set and its access counter both store their entries
//! in vectors of key/value pairs with pairwise-distinct keys.  The spec-level
//! view of such a vector is the `Map` built by inserting the pairs in order;
//! the lemmas here relate the usual vector operations to that map.

use vstd::prelude::*;

verus! {

/// Whether some pair in `s` has key `k`.
pub open spec fn kv_has<V>(s: Seq<(Seq<u8>, V)>, k: Seq<u8>) -> bool {
    exists|i: int| 0 <= i < s.len() && s[i].0 == k
}

/// Whether the keys of `s` are pairwise distinct.
pub open spec fn kv_distinct<V>(s: Seq<(Seq<u8>, V)>) -> bool {
    forall|i: int, j: int| 0 <= i < j < s.len() ==> s[i].0 != s[j].0
}

/// The map an association list denotes; a later pair wins over an earlier
/// one with the same key.
pub open spec fn kv_map<V>(s: Seq<(Seq<u8>, V)>) -> Map<Seq<u8>, V>
    decreases s.len(),
{
    if s.len() == 0 {
        Map::empty()
    } else {
        kv_map(s.drop_last()).insert(s.last().0, s.last().1)
    }
}

/// The denoted map contains exactly the keys that occur in the list.
pub proof fn lemma_kv_dom<V>(s: Seq<(Seq<u8>, V)>)
    ensures
        forall|k: Seq<u8>| #[trigger] kv_map(s).contains_key(k) <==> kv_has(s, k),
    decreases s.len(),
{
    if s.len() > 0 {
        lemma_kv_dom(s.drop_last());
        assert forall|k: Seq<u8>| #[trigger] kv_map(s).contains_key(k) implies kv_has(s, k) by {
            if k == s.last().0 {
                assert(s[s.len() - 1].0 == k);
            } else {
                assert(kv_map(s.drop_last()).contains_key(k));
                assert(kv_has(s.drop_last(), k));
                let i = choose|i: int| 0 <= i < s.drop_last().len() && s.drop_last()[i].0 == k;
                assert(s.drop_last()[i] == s[i]);
                assert(s[i].0 == k);
            }
        }
        assert forall|k: Seq<u8>| kv_has(s, k) implies #[trigger] kv_map(s).contains_key(k) by {
            let i = choose|i: int| 0 <= i < s.len() && s[i].0 == k;
            if i < s.len() - 1 {
                assert(s.drop_last()[i] == s[i]);
                assert(kv_has(s.drop_last(), k));
                assert(kv_map(s.drop_last()).contains_key(k));
            } else {
                assert(k == s.last().0);
            }
        }
    }
}

/// With distinct keys, the pair at index `i` gives the value the map holds
/// under its key.
pub proof fn lemma_kv_index<V>(s: Seq<(Seq<u8>, V)>, i: int)
    requires
        kv_distinct(s),
        0 <= i < s.len(),
    ensures
        kv_map(s).contains_key(s[i].0),
        kv_map(s)[s[i].0] == s[i].1,
    decreases s.len(),
{
    if i < s.len() - 1 {
        assert(kv_distinct(s.drop_last()));
        lemma_kv_index(s.drop_last(), i);
        assert(s.drop_last()[i] == s[i]);
        assert(s[i].0 != s.last().0);
    }
}

/// Appending a pair inserts it into the denoted map.
pub proof fn lemma_kv_push<V>(s: Seq<(Seq<u8>, V)>, p: (Seq<u8>, V))
    ensures
        kv_map(s.push(p)) == kv_map(s).insert(p.0, p.1),
{
    assert(s.push(p).drop_last() =~= s);
    assert(s.push(p).last() == p);
}

/// Replacing the value at index `i` updates the denoted map at that key.
pub proof fn lemma_kv_update<V>(s: Seq<(Seq<u8>, V)>, i: int, v: V)
    requires
        kv_distinct(s),
        0 <= i < s.len(),
    ensures
        kv_map(s.update(i, (s[i].0, v))) == kv_map(s).insert(s[i].0, v),
    decreases s.len(),
{
    let t = s.update(i, (s[i].0, v));
    if i == s.len() - 1 {
        assert(t.drop_last() =~= s.drop_last());
        assert(t.last() == (s[i].0, v));
        assert(kv_map(t) =~= kv_map(s).insert(s[i].0, v));
    } else {
        assert(kv_distinct(s.drop_last()));
        assert(s.drop_last()[i] == s[i]);
        lemma_kv_update(s.drop_last(), i, v);
        assert(t.drop_last() =~= s.drop_last().update(i, (s[i].0, v)));
        assert(t.last() == s.last());
        assert(s[i].0 != s.last().0);
        assert(kv_map(t) =~= kv_map(s).insert(s[i].0, v));
    }
}

/// Removing the pair at index `i` removes its key from the denoted map.
pub proof fn lemma_kv_remove<V>(s: Seq<(Seq<u8>, V)>, i: int)
    requires
        kv_distinct(s),
        0 <= i < s.len(),
    ensures
        kv_map(s.remove(i)) == kv_map(s).remove(s[i].0),
    decreases s.len(),
{
    if i == s.len() - 1 {
        assert(s.remove(i) =~= s.drop_last());
        lemma_kv_dom(s.drop_last());
        assert(forall|j: int| 0 <= j < s.len() - 1 ==> s.drop_last()[j] == s[j]);
        assert(!kv_has(s.drop_last(), s[i].0));
        assert(kv_map(s.remove(i)) =~= kv_map(s).remove(s[i].0));
    } else {
        assert(kv_distinct(s.drop_last()));
        assert(s.drop_last()[i] == s[i]);
        lemma_kv_remove(s.drop_last(), i);
        assert(s.remove(i).drop_last() =~= s.drop_last().remove(i));
        assert(s.remove(i).last() == s.last());
        assert(s[i].0 != s.last().0);
        assert(kv_map(s.remove(i)) =~= kv_map(s).remove(s[i].0));
    }
}

/// With distinct keys, the denoted map has as many keys as the list has
/// pairs.
pub proof fn lemma_kv_len<V>(s: Seq<(Seq<u8>, V)>)
    requires
        kv_distinct(s),
    ensures
        kv_map(s).dom().finite(),
        kv_map(s).dom().len() == s.len(),
    decreases s.len(),
{
    if s.len() > 0 {
        assert(kv_distinct(s.drop_last()));
        lemma_kv_len(s.drop_last());
        lemma_kv_dom(s.drop_last());
        assert(forall|j: int| 0 <= j < s.len() - 1 ==> s.drop_last()[j] == s[j]);
        assert(!kv_has(s.drop_last(), s.last().0));
        assert(kv_map(s).dom() =~= kv_map(s.drop_last()).dom().insert(s.last().0));
    }
}

} // verus!
