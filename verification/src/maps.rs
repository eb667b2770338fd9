//! The keys of a hash map, as a list.
use std::collections::HashMap;
use std::hash::Hash;

use vstd::prelude::*;
use vstd::std_specs::hash::obeys_key_model;
use vstd::std_specs::iter::IteratorSpec;

verus! {

/// The keys of `m`, each once, in some order.
pub fn keys_of<K: Copy + Eq + Hash, V>(m: &HashMap<K, V>) -> (r: Vec<K>)
    requires
        obeys_key_model::<K>(),
    ensures
        r@.no_duplicates(),
        r@.len() == m@.dom().len(),
        forall|k: K| #[trigger] r@.contains(k) <==> m@.contains_key(k),
{
    broadcast use vstd::std_specs::hash::group_hash_axioms;

    let mut out: Vec<K> = Vec::new();
    let ghost all: Seq<&K> = m.keys().remaining();
    for key in it: m.keys()
        invariant
            it.seq() == all,
            out.len() == it.index(),
            forall|i: int| 0 <= i < out.len() ==> #[trigger] out@[i] == *all[i],
    {
        out.push(*key);
    }
    proof {
        assert(out@ =~= all.unref());
        assert forall|k: K| #[trigger] out@.contains(k) <==> m@.contains_key(k) by {
            assert(all.unref().to_set().contains(k) <==> all.unref().contains(k));
        }
        assert forall|i: int, j: int| 0 <= i < out.len() && 0 <= j < out.len() && i != j implies
            out@[i] != out@[j] by {
            assert(all[i] != all[j]);
        }
    }
    out
}

} // verus!
