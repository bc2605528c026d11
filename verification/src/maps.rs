//! Helpers over `HashMap`s keyed by numeric ids.

use std::collections::HashMap;
use vstd::prelude::*;
use vstd::std_specs::iter::IteratorSpec;

verus! {

broadcast use vstd::std_specs::hash::group_hash_axioms;

/// Lists the keys of `m`, each once, in the map's iteration order.
pub fn map_keys<V>(m: &HashMap<u64, V>) -> (r: Vec<u64>)
    ensures
        r@.no_duplicates(),
        forall|k: u64| r@.contains(k) <==> m@.contains_key(k),
{
    let mut r: Vec<u64> = Vec::new();
    let ghost all = vstd::std_specs::hash::spec_keys_iter(m).remaining();
    for k in it: m.keys()
        invariant
            all == vstd::std_specs::hash::spec_keys_iter(m).remaining(),
            it.seq() == all,
            all.unref().to_set() == m@.dom(),
            all.no_duplicates(),
            r@ == all.take(it.index() as int).unref(),
    {
        r.push(*k);
        assert(all.take(it.index() as int + 1).unref() =~= all.take(it.index() as int).unref().push(*k));
    }
    proof {
        assert(r@ =~= all.unref());
        assert forall|k: u64| r@.contains(k) <==> m@.contains_key(k) by {
            assert(all.unref().to_set().contains(k) <==> r@.contains(k));
        }
        assert(r@.no_duplicates()) by {
            assert forall|i: int, j: int| 0 <= i < j < r@.len() implies r@[i] != r@[j] by {
                assert(all[i] != all[j]);
            }
        }
    }
    r
}

/// `HashMap::get_mut`: a mutable reference to the value kept for `k`, if
/// any; whatever is written through it becomes the value kept for `k`.
#[verifier::external_body]
pub(crate) fn map_get_mut<V>(m: &mut HashMap<u64, V>, k: u64) -> (r: Option<&mut V>)
    ensures
        match r {
            Some(v) => {
                &&& old(m)@.contains_key(k)
                &&& *v == old(m)@[k]
                &&& final(m)@ == old(m)@.insert(k, *final(v))
            },
            None => !old(m)@.contains_key(k) && final(m)@ == old(m)@,
        },
{
    m.get_mut(&k)
}

/// `HashMap::iter_mut`: each key of `m` once, in the map's iteration order,
/// with a mutable reference to its value; whatever is written through a
/// reference becomes the value kept for its key.
#[verifier::external_body]
pub(crate) fn map_iter_mut<V>(m: &mut HashMap<u64, V>) -> (r: Vec<(u64, &mut V)>)
    ensures
        r@.len() == old(m)@.len(),
        forall|i: int, j: int| 0 <= i < j < r@.len() ==> r@[i].0 != r@[j].0,
        forall|i: int| 0 <= i < r@.len() ==> old(m)@.contains_key(#[trigger] r@[i].0) && *r@[i].1 == old(m)@[r@[i].0],
        final(m)@.dom() == old(m)@.dom(),
        forall|i: int| 0 <= i < r@.len() ==> final(m)@[#[trigger] r@[i].0] == *final(r@[i].1),
{
    m.iter_mut().map(|(k, v)| (*k, v)).collect()
}

} // verus!
