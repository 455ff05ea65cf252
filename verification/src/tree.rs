//! Walking the ordered collections of the standard library.
use std::collections::{BTreeMap, BTreeSet};
use vstd::prelude::*;

verus! {

/// The numbers ascend strictly.
pub open spec fn ascending(s: Seq<u64>) -> bool {
    forall|i: int, j: int| 0 <= i < j < s.len() ==> #[trigger] s[i] < #[trigger] s[j]
}

/// The keys of a map, in ascending order.
pub fn sorted_keys<V>(m: &BTreeMap<u64, V>) -> (r: Vec<u64>)
    ensures
        r@.to_set() == m@.dom(),
        r@.no_duplicates(),
        r@.len() == m@.len(),
        m@.dom().finite(),
        ascending(r@),
{
    let mut r: Vec<u64> = Vec::new();
    let ghost all = vstd::std_specs::iter::IteratorSpec::remaining(
        &vstd::std_specs::btree::spec_btree_map_iter(m),
    );
    for kv in it: m.iter()
        invariant
            it.seq() == all,
            all.no_duplicates(),
            vstd::std_specs::btree::increasing_seq(all.map_values(|kv: (&u64, &V)| *kv.0)),
            r@ == all.map_values(|kv: (&u64, &V)| *kv.0).take(it.index()),
    {
        r.push(*kv.0);
    }
    proof {
        let keys = all.map_values(|kv: (&u64, &V)| *kv.0);
        assert(r@ =~= keys);
        assert(ascending(r@)) by {
            assert forall|i: int, j: int| 0 <= i < j < r@.len() implies #[trigger] r@[i]
                < #[trigger] r@[j] by {
                assert(vstd::laws_cmp::obeys_cmp::<u64>());
                assert(vstd::std_specs::cmp::OrdSpec::cmp_spec(&keys[i], &keys[j]) is Less);
            }
        }
        assert forall|k: u64| #[trigger] m@.dom().contains(k) implies r@.to_set().contains(k) by {
            let i = choose|i: int| 0 <= i < all.len() && all[i] == (&k, &m@[k]);
            assert(all.contains((&k, &m@[k])));
            assert(r@[i] == k);
        }
        assert forall|k: u64| r@.to_set().contains(k) implies #[trigger] m@.dom().contains(k) by {
            let i = choose|i: int| 0 <= i < r@.len() && r@[i] == k;
            assert(m@.contains_key(*all[i].0));
        }
        assert(r@.to_set() =~= m@.dom());
    }
    r
}

/// The members of a set that lie below `bound`.
pub fn members_below(s: &BTreeSet<u64>, bound: u64) -> (r: Vec<u64>)
    ensures
        forall|x: u64| #[trigger] r@.contains(x) <==> s@.contains(x) && x < bound,
{
    let mut r: Vec<u64> = Vec::new();
    let ghost all = vstd::std_specs::iter::IteratorSpec::remaining(
        &vstd::std_specs::btree::spec_btree_keys_iter(s),
    );
    for k in it: s.iter()
        invariant
            it.seq() == all,
            forall|x: u64| #[trigger]
                r@.contains(x) <==> all.unref().take(it.index()).contains(x) && x < bound,
    {
        let ghost before = r@;
        let ghost seen = all.unref().take(it.index());
        proof {
            assert(all.unref().take(it.index() + 1) =~= seen.push(*k));
            assert forall|x: u64| #[trigger] seen.push(*k).contains(x) <==> seen.contains(x) || x
                == *k by {
                broadcast use vstd::seq_lib::group_seq_properties;

            }
        }
        if *k < bound {
            r.push(*k);
            proof {
                broadcast use vstd::seq_lib::group_seq_properties;

                assert forall|x: u64| #[trigger] r@.contains(x) <==> before.contains(x) || x
                    == *k by {}
            }
        }
    }
    proof {
        assert(all.unref().take(all.len() as int) =~= all.unref());
        assert forall|x: u64| #[trigger] r@.contains(x) <==> s@.contains(x) && x < bound by {
            assert(all.unref().to_set().contains(x) <==> all.unref().contains(x));
        }
    }
    r
}

} // verus!
