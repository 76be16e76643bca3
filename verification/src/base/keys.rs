//! The keys of a hash map, in the order in which the map gives them out.
use std::collections::HashMap;
use vstd::prelude::*;
use vstd::std_specs::iter::IteratorSpec;

verus! {

broadcast use vstd::std_specs::hash::group_hash_axioms;

/// `order` holds each key once.
pub open spec fn orders<V>(m: Map<u64, V>, order: Seq<u64>) -> bool {
    &&& order.no_duplicates()
    &&& forall|k: u64| #[trigger] m.contains_key(k) <==> order.contains(k)
}

/// The keys of a map. In which order they come is not fixed.
pub(crate) fn map_keys<V>(m: &HashMap<u64, V>) -> (res: Vec<u64>)
    ensures
        orders(m@, res@),
{
    let mut keys: Vec<u64> = Vec::new();
    for k in it: m.keys()
        invariant
            it.index() == keys@.len(),
            forall|j: int| 0 <= j < keys@.len() ==> keys@[j] == *it.seq()[j],
            it.seq() == m.keys().remaining(),
    {
        keys.push(*k);
    }
    proof {
        let all = m.keys().remaining().unref();
        assert(all =~= keys@);
    }
    keys
}

} // verus!
