//! What iterating over an ordered map of `u64` keys yields, stated over plain
//! sequences so that the scans elsewhere in the crate can reason about it.

use std::collections::BTreeMap;
use vstd::laws_cmp::*;
use vstd::prelude::*;
use vstd::std_specs::btree::*;
use vstd::std_specs::cmp::OrdSpec;
use vstd::std_specs::iter::IteratorSpec;

verus! {

broadcast use {group_btree_axioms, group_laws_cmp};

/// `s` lists the entries of `m`, each once, in strictly ascending key order.
pub open spec fn is_listing<V>(s: Seq<(u64, V)>, m: Map<u64, V>) -> bool {
    &&& forall|i: int, j: int| 0 <= i < j < s.len() ==> s[i].0 < s[j].0
    &&& forall|i: int|
        0 <= i < s.len() ==> m.contains_key((#[trigger] s[i]).0) && m[s[i].0] == s[i].1
    &&& forall|k: u64| #[trigger]
        m.contains_key(k) ==> exists|i: int| 0 <= i < s.len() && (#[trigger] s[i]).0 == k
}

/// The keys that an iterator over an ordered map yields.
pub open spec fn keys_of<V>(s: Seq<(&u64, &V)>) -> Seq<u64> {
    s.map_values(|kv: (&u64, &V)| *kv.0)
}

/// An ordered map's iterator yields a listing of the map: the sequence that
/// `iter` hands out ascends by key and holds exactly the map's entries.
pub proof fn lemma_iter_listing<V>(m: &BTreeMap<u64, V>, s: Seq<(&u64, &V)>)
    requires
        s == m.iter().remaining(),
        increasing_seq(keys_of(s)),
    ensures
        is_listing(s.unref(), m@),
        s.unref().len() == s.len(),
{
    let keys = keys_of(s);
    let u = s.unref();
    assert forall|i: int, j: int| 0 <= i < j < u.len() implies u[i].0 < u[j].0 by {
        assert(keys[i].cmp_spec(&keys[j]) is Less);
    }
    assert forall|i: int| 0 <= i < u.len() implies m@.contains_key((#[trigger] u[i]).0) && m@[u[i].0]
        == u[i].1 by {
        assert(m@.contains_key(*s[i].0));
    }
    assert forall|k: u64| #[trigger] m@.contains_key(k) implies exists|i: int|
        0 <= i < u.len() && (#[trigger] u[i]).0 == k by {
        assert(s.contains((&k, &m@[k])));
        let x = choose|x: int| 0 <= x < s.len() && s[x] == (&k, &m@[k]);
        assert(u[x].0 == k);
    }
}

/// In a listing, the entry just before position `i` is the closest one below
/// the key at `i`, and no key lies strictly between the two.
pub proof fn lemma_listing_neighbours<V>(s: Seq<(u64, V)>, m: Map<u64, V>, i: int, k: u64)
    requires
        is_listing(s, m),
        0 <= i < s.len(),
        m.contains_key(k),
    ensures
        k < s[i].0 ==> i > 0 && k <= s[i - 1].0,
        k > s[i].0 ==> i + 1 < s.len() && k >= s[i + 1].0,
{
    let x = choose|x: int| 0 <= x < s.len() && (#[trigger] s[x]).0 == k;
    if k < s[i].0 {
        if x > i {
            assert(s[i].0 < s[x].0);
        }
        if x < i - 1 {
            assert(s[x].0 < s[i - 1].0);
        }
    }
    if k > s[i].0 {
        if x < i {
            assert(s[x].0 < s[i].0);
        }
        if x > i + 1 {
            assert(s[i + 1].0 < s[x].0);
        }
    }
}

} // verus!
