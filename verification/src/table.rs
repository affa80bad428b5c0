//! Entries keyed by id, read in id order.

use std::collections::BTreeMap;
use vstd::prelude::*;
use vstd::std_specs::btree::increasing_seq;
use vstd::std_specs::iter::IteratorSpec;
use crate::messages::{Entry, EntryModel};
use crate::order::lemma_increasing_keys;

verus! {

/// The models of a table's entries.
pub open spec fn table_model(m: Map<u64, Entry>) -> Map<u64, EntryModel> {
    m.map_values(|e: Entry| e@)
}

/// `items` are the entries of `m`, each once, in increasing id order.
pub open spec fn in_id_order(m: Map<u64, EntryModel>, items: Seq<EntryModel>) -> bool {
    &&& items.len() == m.dom().len()
    &&& forall|i: int, j: int| 0 <= i < j < items.len() ==> items[i].id < items[j].id
    &&& forall|i: int|
        0 <= i < items.len() ==> m.contains_key(#[trigger] items[i].id) && m[items[i].id]
            == items[i]
    &&& forall|k: u64| m.contains_key(k) ==> exists|i: int| 0 <= i < items.len() && #[trigger] items[i].id == k
}

/// Two listings of the same entries in increasing id order are the same.
pub proof fn lemma_id_order_unique(m: Map<u64, EntryModel>, s: Seq<EntryModel>, t: Seq<EntryModel>)
    requires
        in_id_order(m, s),
        in_id_order(m, t),
    ensures
        s == t,
{
    assert forall|i: int| 0 <= i < s.len() implies s[i] == t[i] by {
        lemma_id_order_agree(m, s, t, i);
    }
    assert(s =~= t);
}

proof fn lemma_id_order_agree(m: Map<u64, EntryModel>, s: Seq<EntryModel>, t: Seq<EntryModel>, i: int)
    requires
        in_id_order(m, s),
        in_id_order(m, t),
        0 <= i < s.len(),
    ensures
        s[i] == t[i],
    decreases i,
{
    assert forall|j: int| 0 <= j < i implies s[j] == t[j] by {
        lemma_id_order_agree(m, s, t, j);
    }
    assert(m.contains_key(s[i].id));
    assert(m.contains_key(t[i].id));
    let a = choose|a: int| 0 <= a < t.len() && #[trigger] t[a].id == s[i].id;
    let b = choose|b: int| 0 <= b < s.len() && #[trigger] s[b].id == t[i].id;
    if s[i].id < t[i].id {
        assert(a < i);
        assert(s[a] == t[a]);
    } else if t[i].id < s[i].id {
        assert(b < i);
        assert(s[b] == t[b]);
    }
}

/// The entries of `m` in increasing id order.
pub open spec fn id_ordered(m: Map<u64, EntryModel>) -> Seq<EntryModel> {
    choose|s: Seq<EntryModel>| in_id_order(m, s)
}

/// Any listing in increasing id order is the one [`id_ordered`] names.
pub proof fn lemma_id_ordered(m: Map<u64, EntryModel>, s: Seq<EntryModel>)
    requires
        in_id_order(m, s),
    ensures
        id_ordered(m) == s,
{
    lemma_id_order_unique(m, id_ordered(m), s);
}

/// Every finite set of entries stored under their ids has a listing in
/// increasing id order.
pub proof fn lemma_id_order_exists(m: Map<u64, EntryModel>)
    requires
        m.dom().finite(),
        keyed_by_id(m),
    ensures
        in_id_order(m, id_ordered(m)),
    decreases m.dom().len(),
{
    if m.dom().len() == 0 {
        let s = Seq::<EntryModel>::empty();
        assert forall|k: u64| m.contains_key(k) implies exists|i: int|
            0 <= i < s.len() && #[trigger] s[i].id == k by {
            assert(m.dom().contains(k));
        }
        lemma_id_ordered(m, s);
    } else {
        let leq = |a: u64, b: u64| a <= b;
        assert(vstd::relations::total_ordering(leq));
        m.dom().find_unique_maximal_ensures(leq);
        let k = m.dom().find_unique_maximal(leq);
        let rest = m.remove(k);
        assert(rest.dom() =~= m.dom().remove(k));
        lemma_id_order_exists(rest);
        let front = id_ordered(rest);
        let s = front.push(m[k]);
        assert forall|i: int| 0 <= i < front.len() implies front[i].id < k by {
            assert(rest.contains_key(front[i].id));
            let x = front[i].id;
            assert(m.dom().contains(x));
            if k <= x {
                assert(leq(k, x));
                assert(leq(x, k));
            }
            assert(x != k);
        }
        assert forall|i: int, j: int| 0 <= i < j < s.len() implies s[i].id < s[j].id by {
            if j < front.len() {
                assert(s[i] == front[i] && s[j] == front[j]);
            } else {
                assert(s[i] == front[i]);
            }
        }
        assert forall|i: int| 0 <= i < s.len() implies m.contains_key(#[trigger] s[i].id)
            && m[s[i].id] == s[i] by {
            if i < front.len() {
                assert(s[i] == front[i]);
                assert(rest.contains_key(front[i].id));
            }
        }
        assert forall|x: u64| m.contains_key(x) implies exists|i: int|
            0 <= i < s.len() && #[trigger] s[i].id == x by {
            if x == k {
                assert(s[s.len() - 1].id == x);
            } else {
                assert(rest.contains_key(x));
                let i = choose|i: int| 0 <= i < front.len() && #[trigger] front[i].id == x;
                assert(s[i] == front[i]);
            }
        }
        lemma_id_ordered(m, s);
    }
}

/// `items` are the `n` smallest ids of `m`: `n` entries in increasing id
/// order, each as `m` stores it, with no id of `m` below a listed one left
/// out.
#[verifier::opaque]
pub open spec fn lists_first(m: Map<u64, EntryModel>, items: Seq<EntryModel>, n: int) -> bool {
    &&& items.len() == n
    &&& forall|i: int, j: int| 0 <= i < j < n ==> items[i].id < items[j].id
    &&& forall|i: int|
        0 <= i < n ==> m.contains_key(#[trigger] items[i].id) && m[items[i].id] == items[i]
    &&& forall|k: u64, i: int|
        #![trigger m.contains_key(k), items[i]]
        m.contains_key(k) && 0 <= i < n && k < items[i].id ==> exists|j: int|
            0 <= j < i && items[j].id == k
}

/// The first `n` entries of `m` in increasing id order are its `n` smallest
/// ids.
#[verifier::rlimit(40)]
pub proof fn lemma_id_ordered_prefix(m: Map<u64, EntryModel>, n: int)
    requires
        in_id_order(m, id_ordered(m)),
        0 <= n <= m.dom().len(),
    ensures
        lists_first(m, id_ordered(m).take(n), n),
{
    let all = id_ordered(m);
    let items = all.take(n);
    assert forall|i: int, j: int| 0 <= i < j < n implies items[i].id < items[j].id by {
        assert(items[i] == all[i] && items[j] == all[j]);
    }
    assert forall|i: int| 0 <= i < n implies m.contains_key(#[trigger] items[i].id) && m[items[i].id]
        == items[i] by {
        assert(items[i] == all[i]);
    }
    assert forall|k: u64, i: int| m.contains_key(k) && 0 <= i < n && k < items[i].id implies exists|
        j: int,
    | 0 <= j < i && items[j].id == k by {
        let j = choose|j: int| 0 <= j < all.len() && #[trigger] all[j].id == k;
        assert(items[i] == all[i]);
        if j >= i {
            if j > i {
                assert(all[i].id < all[j].id);
            }
        }
        assert(items[j] == all[j]);
    }
    assert(items.len() == n);
    reveal(lists_first);
}

/// Every entry of `m` is stored under its own id.
pub open spec fn keyed_by_id(m: Map<u64, EntryModel>) -> bool {
    forall|k: u64| m.contains_key(k) ==> (#[trigger] m[k]).id == k
}

/// The models of a sequence of owned entries.
pub open spec fn models(items: Seq<Entry>) -> Seq<EntryModel> {
    items.map_values(|e: Entry| e@)
}

/// The smaller of two counts.
pub open spec fn min_count(a: int, b: int) -> int {
    if a < b { a } else { b }
}

/// Copies of the first `n` entries of `table` in increasing id order (all of
/// them when it holds fewer).
pub fn first_entries(table: &BTreeMap<u64, Entry>, n: usize) -> (v: Vec<Entry>)
    requires
        keyed_by_id(table_model(table@)),
    ensures
        in_id_order(table_model(table@), id_ordered(table_model(table@))),
        models(v@) == id_ordered(table_model(table@)).take(
            min_count(n as int, table_model(table@).dom().len() as int),
        ),
{
    let mut v: Vec<Entry> = Vec::new();
    let vals = table.values();
    let ghost ks = choose|ks: Seq<u64>|
        increasing_seq(ks) && ks.to_set() == table@.dom() && ks.no_duplicates() && vals.remaining()
            == ks.map(|i: int, k: u64| &table@[k]);
    proof {
        lemma_increasing_keys(ks);
    }
    for e in it: vals
        invariant
            it.seq() == ks.map(|i: int, k: u64| &table@[k]),
            v@.len() == min_count(it.index() as int, n as int),
            forall|i: int| 0 <= i < v@.len() ==> (#[trigger] v@[i])@ == table@[ks[i]]@,
    {
        if v.len() < n {
            v.push(e.clone());
        }
    }
    proof {
        ks.unique_seq_to_set();
        let mm = table_model(table@);
        assert(mm.dom() =~= table@.dom());
        let all = Seq::new(ks.len(), |i: int| mm[ks[i]]);
        assert forall|i: int| 0 <= i < all.len() implies all[i].id == ks[i] && mm.contains_key(
            #[trigger] all[i].id,
        ) && mm[all[i].id] == all[i] by {
            assert(ks.to_set().contains(ks[i]));
        }
        assert forall|k: u64| mm.contains_key(k) implies exists|i: int|
            0 <= i < all.len() && #[trigger] all[i].id == k by {
            assert(ks.to_set().contains(k));
            let i = choose|i: int| 0 <= i < ks.len() && ks[i] == k;
            assert(ks.to_set().contains(ks[i]));
            assert(all[i].id == k);
        }
        assert forall|i: int, j: int| 0 <= i < j < all.len() implies all[i].id < all[j].id by {
            assert(ks.to_set().contains(ks[i]));
            assert(ks.to_set().contains(ks[j]));
        }
        assert(in_id_order(mm, all));
        lemma_id_ordered(mm, all);
        assert forall|i: int| 0 <= i < v@.len() implies models(v@)[i] == all[i] by {
            assert(ks.to_set().contains(ks[i]));
        }
        assert(models(v@) =~= all.take(min_count(n as int, mm.dom().len() as int)));
    }
    v
}

} // verus!
