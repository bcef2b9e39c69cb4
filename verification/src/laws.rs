//! Properties of the map as a whole, stated over its entries and its view.
use crate::entries::{lemma_map_of_key, lemma_sorted_lookup, lemma_sorted_unique};
use crate::map::RedBlackTreeMap;
use crate::node::{bh, height, lemma_balanced, lemma_path_len_height};
use crate::order::{key_lt, key_order_lawful};
use vstd::arithmetic::power2::{lemma_pow2_strictly_increases, pow2};
use vstd::prelude::*;

verus! {

/// Iterating over a map visits each of its keys exactly once, in strictly
/// increasing order, each with the value the map holds under it; so the map
/// has as many keys as the iteration has steps, which is its `size()`.
pub proof fn lemma_entries_are_the_map<K: Ord, V>(m: RedBlackTreeMap<K, V>)
    requires
        key_order_lawful::<K>(),
        m.wf(),
    ensures
        forall|i: int, j: int|
            0 <= i < j < m.entries().len() ==> key_lt(
                #[trigger] m.entries()[i].0,
                #[trigger] m.entries()[j].0,
            ),
        forall|i: int|
            0 <= i < m.entries().len() ==> #[trigger] m@.contains_key(m.entries()[i].0)
                && m@[m.entries()[i].0] == m.entries()[i].1,
        forall|k: K|
            #[trigger] m@.contains_key(k) ==> exists|i: int|
                0 <= i < m.entries().len() && m.entries()[i].0 == k,
        m@.dom().finite(),
        m@.len() == m.entries().len(),
{
    m.lemma_entries_view();
    assert forall|i: int| 0 <= i < m.entries().len() implies #[trigger] m@.contains_key(
        m.entries()[i].0,
    ) && m@[m.entries()[i].0] == m.entries()[i].1 by {
        lemma_sorted_lookup(m.entries(), i);
    }
    assert forall|k: K| #[trigger] m@.contains_key(k) implies exists|i: int|
        0 <= i < m.entries().len() && m.entries()[i].0 == k by {
        lemma_map_of_key(m.entries(), k);
    }
}

/// `first()` gives the least key of a non-empty map.
pub proof fn lemma_first_is_least<K: Ord, V>(m: RedBlackTreeMap<K, V>, k: K)
    requires
        key_order_lawful::<K>(),
        m.wf(),
        m@.contains_key(k),
    ensures
        m.entries().len() > 0,
        k == m.entries()[0].0 || key_lt(m.entries()[0].0, k),
{
    lemma_entries_are_the_map(m);
    let i = choose|i: int| 0 <= i < m.entries().len() && m.entries()[i].0 == k;
    if i > 0 {
        assert(key_lt(m.entries()[0].0, m.entries()[i].0));
    }
}

/// `last()` gives the greatest key of a non-empty map.
pub proof fn lemma_last_is_greatest<K: Ord, V>(m: RedBlackTreeMap<K, V>, k: K)
    requires
        key_order_lawful::<K>(),
        m.wf(),
        m@.contains_key(k),
    ensures
        m.entries().len() > 0,
        k == m.entries().last().0 || key_lt(k, m.entries().last().0),
{
    lemma_entries_are_the_map(m);
    let n = m.entries().len() as int;
    let i = choose|i: int| 0 <= i < n && m.entries()[i].0 == k;
    if i < n - 1 {
        assert(key_lt(m.entries()[i].0, m.entries()[n - 1].0));
    }
}

/// The tree stays balanced: no path down it is longer than twice the base-2
/// logarithm of `size() + 1`, which is what `conservative_height` computes.
/// So every operation that walks one path takes a logarithmic number of steps.
pub proof fn lemma_height_is_logarithmic<K: Ord, V>(m: RedBlackTreeMap<K, V>, k: nat)
    requires
        m.wf(),
        m.entries().len() + 1 < pow2(k + 1),
    ensures
        m.height() <= 2 * k,
{
    m.lemma_wf();
    m.lemma_reveal();
    lemma_balanced(m.root);
    if bh(m.root) > k {
        lemma_pow2_strictly_increases(k, bh(m.root));
        if bh(m.root) > k + 1 {
            lemma_pow2_strictly_increases(k + 1, bh(m.root));
        }
    }
}

/// A search for any key meets at most `2k` nodes when `size() + 1 < 2^(k+1)`:
/// no more than the height of the tree. The lookups and updates walk that one
/// path, so their work grows with the logarithm of the size.
pub proof fn lemma_search_is_logarithmic<K: Ord, V>(m: RedBlackTreeMap<K, V>, key: K, k: nat)
    requires
        m.wf(),
        m.entries().len() + 1 < pow2(k + 1),
    ensures
        m.search_len(key) <= m.height(),
        m.search_len(key) <= 2 * k,
{
    m.lemma_reveal();
    m.lemma_reveal_search(key);
    lemma_path_len_height(m.root, key);
    lemma_height_is_logarithmic(m, k);
}

/// Two maps with the same keys and values have the same entries in the same
/// order, so they iterate alike and have the same size, however they were built.
pub proof fn lemma_entries_determined<K: Ord, V>(m1: RedBlackTreeMap<K, V>, m2: RedBlackTreeMap<K, V>)
    requires
        key_order_lawful::<K>(),
        m1.wf(),
        m2.wf(),
        m1@ == m2@,
    ensures
        m1.entries() == m2.entries(),
{
    m1.lemma_entries_view();
    m2.lemma_entries_view();
    lemma_sorted_unique(m1.entries(), m2.entries());
}

/// Removing a key that was not in `m` from `m.insert(k, v)` gives a map with the
/// entries of `m`: `m1` is what `insert` returns, `m2` what `remove` returns on it.
pub proof fn lemma_remove_undoes_insert<K: Ord, V>(
    m: RedBlackTreeMap<K, V>,
    m1: RedBlackTreeMap<K, V>,
    m2: RedBlackTreeMap<K, V>,
    k: K,
    v: V,
)
    requires
        key_order_lawful::<K>(),
        m.wf(),
        m1.wf(),
        m2.wf(),
        !m@.contains_key(k),
        m1@ == m@.insert(k, v),
        m2@ == m1@.remove(k),
    ensures
        m2.entries() == m.entries(),
{
    assert(m2@ =~= m@);
    lemma_entries_determined(m2, m);
}

/// Removing a key that is not in `m` gives a map with the entries of `m`.
pub proof fn lemma_remove_absent<K: Ord, V>(
    m: RedBlackTreeMap<K, V>,
    m1: RedBlackTreeMap<K, V>,
    k: K,
)
    requires
        key_order_lawful::<K>(),
        m.wf(),
        m1.wf(),
        !m@.contains_key(k),
        m1@ == m@.remove(k),
    ensures
        m1.entries() == m.entries(),
{
    assert(m1@ =~= m@);
    lemma_entries_determined(m1, m);
}

/// Inserting a key again with the value it has gives a map with the same
/// entries; inserting a key twice leaves the entries of inserting the second
/// value once.
pub proof fn lemma_insert_twice<K: Ord, V>(
    m: RedBlackTreeMap<K, V>,
    m1: RedBlackTreeMap<K, V>,
    m2: RedBlackTreeMap<K, V>,
    m3: RedBlackTreeMap<K, V>,
    k: K,
    v1: V,
    v2: V,
)
    requires
        key_order_lawful::<K>(),
        m.wf(),
        m1.wf(),
        m2.wf(),
        m3.wf(),
        m1@ == m@.insert(k, v1),
        m2@ == m1@.insert(k, v2),
        m3@ == m@.insert(k, v2),
    ensures
        m@.contains_key(k) && m@[k] == v1 ==> m1.entries() == m.entries(),
        m2.entries() == m3.entries(),
{
    if m@.contains_key(k) && m@[k] == v1 {
        assert(m1@ =~= m@);
        lemma_entries_determined(m1, m);
    }
    assert(m2@ =~= m3@);
    lemma_entries_determined(m2, m3);
}

} // verus!
