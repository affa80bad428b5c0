//! The order in which a `BTreeMap` with `u64` keys yields its entries.

use vstd::prelude::*;
use vstd::std_specs::btree::increasing_seq;
use vstd::std_specs::cmp::OrdSpec;

verus! {

/// Keys that a `BTreeMap` yields in increasing order are strictly increasing
/// integers.
pub proof fn lemma_increasing_keys(ks: Seq<u64>)
    requires
        increasing_seq(ks),
    ensures
        forall|i: int, j: int| 0 <= i < j < ks.len() ==> ks[i] < ks[j],
{
    assert(vstd::laws_cmp::obeys_cmp::<u64>());
    assert forall|i: int, j: int| 0 <= i < j < ks.len() implies ks[i] < ks[j] by {
        assert(ks[i].cmp_spec(&ks[j]) is Less);
    }
}


/// A `BTreeMap` with `u64` keys reports as its length the number of its keys.
pub proof fn lemma_u64_table_len<V>(m: &std::collections::BTreeMap<u64, V>)
    ensures
        vstd::std_specs::btree::spec_btree_map_len(m) == m@.len(),
{
    assert(vstd::laws_cmp::obeys_cmp::<u64>());
    assert(vstd::std_specs::btree::key_obeys_cmp_spec::<u64>());
}

} // verus!
