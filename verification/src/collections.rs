//! Walking hash maps with integer keys.

use std::collections::HashMap;

use vstd::prelude::*;

verus! {

broadcast use vstd::std_specs::hash::group_hash_axioms;

/// The keys of a map, each once, in no particular order.
pub fn keys_of<V>(map: &HashMap<u64, V>) -> (keys: Vec<u64>)
    ensures
        keys@.no_duplicates(),
        keys@.to_set() == map@.dom(),
        keys@.len() == map@.dom().len(),
{
    let mut keys: Vec<u64> = Vec::new();
    for key in it: map.keys()
        invariant
            it.seq().no_duplicates(),
            it.seq().len() == map@.dom().len(),
            it.seq().unref().to_set() == map@.dom(),
            keys@ == it.seq().take(it.index()).unref(),
            it.index() == it.seq().len() ==> keys@ == it.seq().unref(),
    {
        keys.push(*key);
        assert(keys@ =~= it.seq().take(it.index() + 1).unref());
        assert(it.index() + 1 == it.seq().len() ==> keys@ =~= it.seq().unref());
    }
    keys
}

} // verus!
