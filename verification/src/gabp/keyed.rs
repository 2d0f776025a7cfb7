//! A map kept as two parallel sequences, keys and values, with no key twice:
//! the view that the registry and the completion table give their vectors.

use vstd::prelude::*;

verus! {

/// No key occurs twice.
pub open spec fn keys_unique<K>(keys: Seq<K>) -> bool {
    forall|i: int, j: int| 0 <= i < keys.len() && 0 <= j < keys.len() && i != j ==> keys[i] != keys[j]
}

/// The map from each key to the value at the same position.
pub open spec fn keyed_map<K, V>(keys: Seq<K>, vals: Seq<V>) -> Map<K, V> {
    Map::new(|k: K| keys.contains(k), |k: K| vals[keys.index_of(k)])
}

/// With unique keys, the key at position `i` maps to the value at `i`.
pub proof fn lemma_keyed_lookup<K, V>(keys: Seq<K>, vals: Seq<V>, i: int)
    requires
        keys_unique(keys),
        0 <= i < keys.len(),
    ensures
        keyed_map(keys, vals).contains_key(keys[i]),
        keyed_map(keys, vals)[keys[i]] == vals[i],
{
    assert(keys.contains(keys[i]));
    let j = keys.index_of(keys[i]);
    assert(keys[j] == keys[i]);
}

/// A key that no position holds is not in the map.
pub proof fn lemma_keyed_absent<K, V>(keys: Seq<K>, vals: Seq<V>, k: K)
    requires
        forall|i: int| 0 <= i < keys.len() ==> keys[i] != k,
    ensures
        !keyed_map(keys, vals).contains_key(k),
{
}

/// Inserting a new key at any position adds it to the map.
pub proof fn lemma_keyed_insert<K, V>(keys: Seq<K>, vals: Seq<V>, pos: int, k: K, v: V)
    requires
        keys_unique(keys),
        keys.len() == vals.len(),
        0 <= pos <= keys.len(),
        !keys.contains(k),
    ensures
        keys_unique(keys.insert(pos, k)),
        keyed_map(keys.insert(pos, k), vals.insert(pos, v)) == keyed_map(keys, vals).insert(k, v),
{
    let nk = keys.insert(pos, k);
    let nv = vals.insert(pos, v);
    assert forall|i: int, j: int|
        0 <= i < nk.len() && 0 <= j < nk.len() && i != j implies nk[i] != nk[j] by {
        if i != pos && j != pos {
            let oi = if i < pos {
                i
            } else {
                i - 1
            };
            let oj = if j < pos {
                j
            } else {
                j - 1
            };
            assert(nk[i] == keys[oi]);
            assert(nk[j] == keys[oj]);
        } else if i == pos {
            let oj = if j < pos {
                j
            } else {
                j - 1
            };
            assert(nk[j] == keys[oj]);
        } else {
            let oi = if i < pos {
                i
            } else {
                i - 1
            };
            assert(nk[i] == keys[oi]);
        }
    }
    let m_new = keyed_map(nk, nv);
    let m_old = keyed_map(keys, vals).insert(k, v);
    assert forall|x: K| #[trigger] m_new.contains_key(x) <==> m_old.contains_key(x) by {
        if nk.contains(x) {
            let i = choose|i: int| 0 <= i < nk.len() && nk[i] == x;
            if i != pos {
                let oi = if i < pos {
                    i
                } else {
                    i - 1
                };
                assert(keys[oi] == x);
            }
        }
        if keys.contains(x) {
            let i = choose|i: int| 0 <= i < keys.len() && keys[i] == x;
            let ni = if i < pos {
                i
            } else {
                i + 1
            };
            assert(nk[ni] == x);
        }
        if x == k {
            assert(nk[pos] == k);
        }
    }
    assert forall|x: K| #[trigger] m_new.contains_key(x) implies m_new[x] == m_old[x] by {
        let i = choose|i: int| 0 <= i < nk.len() && nk[i] == x;
        lemma_keyed_lookup(nk, nv, i);
        if i == pos {
        } else {
            let oi = if i < pos {
                i
            } else {
                i - 1
            };
            assert(keys[oi] == x);
            assert(nv[i] == vals[oi]);
            lemma_keyed_lookup(keys, vals, oi);
        }
    }
    assert(m_new =~= m_old);
}

/// Replacing the value at the position of key `keys[i]` updates the map there.
pub proof fn lemma_keyed_update<K, V>(keys: Seq<K>, vals: Seq<V>, i: int, v: V)
    requires
        keys_unique(keys),
        keys.len() == vals.len(),
        0 <= i < keys.len(),
    ensures
        keyed_map(keys, vals.update(i, v)) == keyed_map(keys, vals).insert(keys[i], v),
{
    let m_new = keyed_map(keys, vals.update(i, v));
    let m_old = keyed_map(keys, vals).insert(keys[i], v);
    assert forall|x: K| #[trigger] m_new.contains_key(x) implies m_new[x] == m_old[x] by {
        let j = choose|j: int| 0 <= j < keys.len() && keys[j] == x;
        lemma_keyed_lookup(keys, vals.update(i, v), j);
        lemma_keyed_lookup(keys, vals, j);
    }
    assert forall|x: K| #[trigger] m_old.contains_key(x) implies m_new.contains_key(x) by {
        if x == keys[i] {
            assert(keys.contains(x));
        }
    }
    assert(m_new =~= m_old);
}

/// Removing position `i` removes its key from the map.
pub proof fn lemma_keyed_remove<K, V>(keys: Seq<K>, vals: Seq<V>, i: int)
    requires
        keys_unique(keys),
        keys.len() == vals.len(),
        0 <= i < keys.len(),
    ensures
        keys_unique(keys.remove(i)),
        keyed_map(keys.remove(i), vals.remove(i)) == keyed_map(keys, vals).remove(keys[i]),
{
    let nk = keys.remove(i);
    let nv = vals.remove(i);
    assert forall|a: int, b: int|
        0 <= a < nk.len() && 0 <= b < nk.len() && a != b implies nk[a] != nk[b] by {
        let oa = if a < i {
            a
        } else {
            a + 1
        };
        let ob = if b < i {
            b
        } else {
            b + 1
        };
        assert(nk[a] == keys[oa]);
        assert(nk[b] == keys[ob]);
    }
    let m_new = keyed_map(nk, nv);
    let m_old = keyed_map(keys, vals).remove(keys[i]);
    assert forall|x: K| #[trigger] m_new.contains_key(x) <==> m_old.contains_key(x) by {
        if nk.contains(x) {
            let a = choose|a: int| 0 <= a < nk.len() && nk[a] == x;
            let oa = if a < i {
                a
            } else {
                a + 1
            };
            assert(keys[oa] == x);
        }
        if keys.contains(x) && x != keys[i] {
            let a = choose|a: int| 0 <= a < keys.len() && keys[a] == x;
            let na = if a < i {
                a
            } else {
                a - 1
            };
            assert(nk[na] == x);
        }
    }
    assert forall|x: K| #[trigger] m_new.contains_key(x) implies m_new[x] == m_old[x] by {
        let a = choose|a: int| 0 <= a < nk.len() && nk[a] == x;
        lemma_keyed_lookup(nk, nv, a);
        let oa = if a < i {
            a
        } else {
            a + 1
        };
        assert(keys[oa] == x);
        assert(nv[a] == vals[oa]);
        lemma_keyed_lookup(keys, vals, oa);
    }
    assert(m_new =~= m_old);
}

} // verus!
