use std::collections::HashMap;
use std::hash::Hash;
use vstd::prelude::*;
use vstd::std_specs::hash::obeys_key_model;

verus! {

/// Swap keys and values. Every value becomes a key, mapped to one of the keys that held it;
/// where several keys held the same value, which of them is kept depends on the map's order.
pub fn invert<K: Copy + Eq + Hash, V: Copy + Eq + Hash>(hmap: HashMap<K, V>) -> (inv: HashMap<V, K>)
    requires
        obeys_key_model::<K>(),
        obeys_key_model::<V>(),
    ensures
        forall|v: V| #[trigger]
            inv@.contains_key(v) <==> exists|k: K| hmap@.contains_key(k) && hmap@[k] == v,
        forall|v: V| #[trigger]
            inv@.contains_key(v) ==> hmap@.contains_key(inv@[v]) && hmap@[inv@[v]] == v,
        (forall|k1: K, k2: K|
            hmap@.contains_key(k1) && hmap@.contains_key(k2) && hmap@[k1] == hmap@[k2] ==> k1
                == k2) ==> forall|k: K| #[trigger]
            hmap@.contains_key(k) ==> inv@[hmap@[k]] == k,
{
    broadcast use vstd::std_specs::hash::group_hash_axioms;

    let mut inv: HashMap<V, K> = HashMap::new();
    for k in it: hmap.keys()
        invariant
            obeys_key_model::<K>(),
            obeys_key_model::<V>(),
            it.seq().unref().to_set() == hmap@.dom(),
            forall|w: V| #[trigger]
                inv@.contains_key(w) ==> hmap@.contains_key(inv@[w]) && hmap@[inv@[w]] == w,
            forall|x: K| #[trigger]
                hmap@.contains_key(x) ==> inv@.contains_key(hmap@[x]) || exists|i: int|
                    it.index() <= i < it.seq().len() && *(#[trigger] it.seq()[i]) == x,
    {
        proof {
            if it.index() == 0 {
                assert forall|x: K| #[trigger] hmap@.contains_key(x) implies exists|i: int|
                    it.index() <= i < it.seq().len() && *(#[trigger] it.seq()[i]) == x by {
                    assert(it.seq().unref().to_set().contains(x));
                    assert(it.seq().unref().contains(x));
                    let i = choose|i: int| 0 <= i < it.seq().unref().len() && it.seq().unref()[i] == x;
                    assert(*it.seq()[i] == x);
                }
            }
            assert(it.seq().unref().to_set().contains(*k));
        }
        let v = *hmap.get(k).unwrap();
        inv.insert(v, *k);
    }
    inv
}

} // verus!
