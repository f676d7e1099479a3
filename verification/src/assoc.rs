//! Positions of keys in lists without duplicates.

use vstd::prelude::*;

verus! {

/// The position of key `k` in `ks`, if it occurs.
pub open spec fn key_index<K>(ks: Seq<K>, k: K) -> Option<int> {
    if exists|j: int| 0 <= j < ks.len() && #[trigger] ks[j] == k {
        Some(choose|j: int| 0 <= j < ks.len() && #[trigger] ks[j] == k)
    } else {
        None
    }
}

/// In a list without duplicates, a key occurring at `i` has position `i`.
pub proof fn lemma_key_index<K>(ks: Seq<K>, k: K, i: int)
    requires
        ks.no_duplicates(),
        0 <= i < ks.len(),
        ks[i] == k,
    ensures
        key_index(ks, k) == Some(i),
{
    let j = choose|j: int| 0 <= j < ks.len() && #[trigger] ks[j] == k;
    assert(ks[i] == k);
    if j != i {
        assert(ks[j] != ks[i]);
    }
}

} // verus!
