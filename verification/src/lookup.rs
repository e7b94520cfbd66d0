use vstd::prelude::*;

verus! {

/// Index of the first key in `keys` equal to `key`; `keys.len()` or more
/// when no key matches. Both the registry's databases and each database's
/// targets are collections keyed by a unique name, so every lookup in this
/// crate reduces to this one spec function over the sequence of names.
pub open spec fn first_key_idx(keys: Seq<Seq<char>>, key: Seq<char>) -> int
    decreases keys.len(),
{
    if keys.len() == 0 {
        0
    } else if keys[0] == key {
        0
    } else {
        1 + first_key_idx(keys.drop_first(), key)
    }
}

pub open spec fn has_key(keys: Seq<Seq<char>>, key: Seq<char>) -> bool {
    first_key_idx(keys, key) < keys.len()
}

/// No two keys are equal: the uniqueness invariant of every named
/// collection in the registry.
pub open spec fn unique_keys(keys: Seq<Seq<char>>) -> bool {
    forall|i: int, j: int| 0 <= i < j < keys.len() ==> keys[i] != keys[j]
}

pub proof fn lemma_first_key_idx_bounds(keys: Seq<Seq<char>>, key: Seq<char>)
    ensures
        0 <= first_key_idx(keys, key),
        first_key_idx(keys, key) <= keys.len(),
        has_key(keys, key) ==> keys[first_key_idx(keys, key)] == key,
    decreases keys.len(),
{
    if keys.len() != 0 && keys[0] != key {
        lemma_first_key_idx_bounds(keys.drop_first(), key);
    }
}

/// A key is present exactly when some index holds it.
pub proof fn lemma_has_key_exists(keys: Seq<Seq<char>>, key: Seq<char>)
    ensures
        has_key(keys, key) <==> exists|i: int| 0 <= i < keys.len() && keys[i] == key,
    decreases keys.len(),
{
    lemma_first_key_idx_bounds(keys, key);
    if keys.len() != 0 && keys[0] != key {
        lemma_has_key_exists(keys.drop_first(), key);
        if has_key(keys, key) {
            let i = first_key_idx(keys, key);
            assert(keys[i] == key);
        }
        if exists|i: int| 0 <= i < keys.len() && keys[i] == key {
            let i = choose|i: int| 0 <= i < keys.len() && keys[i] == key;
            assert(keys.drop_first()[i - 1] == key);
            assert(has_key(keys.drop_first(), key));
        }
    }
}

/// When every index below `i` misses, a hit at `i` is the first one, and a
/// scan that ran off the end proves the key absent. This is the bridge from
/// a linear-search loop invariant to `first_key_idx`.
pub proof fn lemma_first_key_idx_prefix(keys: Seq<Seq<char>>, key: Seq<char>, i: int)
    requires
        0 <= i <= keys.len(),
        forall|k: int| 0 <= k < i ==> keys[k] != key,
    ensures
        i < keys.len() && keys[i] == key ==> first_key_idx(keys, key) == i,
        i == keys.len() ==> !has_key(keys, key),
    decreases keys.len(),
{
    if keys.len() == 0 {
    } else if keys[0] == key {
        assert(i == 0) by {
            if i > 0 {
                assert(keys[0] != key);
            }
        }
    } else if i > 0 {
        let tail = keys.drop_first();
        assert(forall|k: int| 0 <= k < i - 1 ==> tail[k] == keys[k + 1] && tail[k] != key);
        lemma_first_key_idx_prefix(tail, key, i - 1);
        if i < keys.len() && keys[i] == key {
            assert(tail[i - 1] == key);
        }
    }
}

} // verus!
