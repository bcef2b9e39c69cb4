//! A persistent map with structural sharing, kept as a red-black tree.
use crate::entries::{
    lemma_sorted_map_len, lemma_with_value, map_of, sorted, with_entry, with_value,
};
use crate::node::{elems, height, is_red, lemma_unfold, path_len, valid, Node};
use crate::order::key_order_lawful;
use crate::shared::{make_mut, share};
use std::sync::Arc;
use vstd::prelude::*;

verus! {

/// Cloning a `T` gives back an equal value.
pub open spec fn clone_is_exact<T: Clone>() -> bool {
    forall|a: T, b: T| #[trigger] cloned::<T>(a, b) ==> a == b
}

/// A persistent map with structural sharing.  This implementation uses a
/// red-black tree as described in "Purely Functional Data Structures" by Chris
/// Okasaki, page 27; deletion follows "Red-Black Trees with Types" by Stefan Kahrs.
///
/// Versions of a map share the nodes they have in common: `insert` and `remove`
/// copy only the path down to the key, and `clone` copies nothing.
#[derive(Debug)]
pub struct RedBlackTreeMap<K, V> {
    pub(crate) root: Option<Arc<Node<K, V>>>,
    pub(crate) size: usize,
}

impl<K, V> View for RedBlackTreeMap<K, V> {
    type V = Map<K, V>;

    /// The keys of the map with their values.
    closed spec fn view(&self) -> Map<K, V> {
        map_of(elems(self.root))
    }
}

impl<K, V> RedBlackTreeMap<K, V> {
    /// The entries of the map in increasing order of their keys.
    pub closed spec fn entries(self) -> Seq<(K, V)> {
        elems(self.root)
    }

    /// The number of nodes on the longest path down the tree.
    pub closed spec fn height(self) -> nat {
        height(self.root)
    }

    pub(crate) proof fn lemma_reveal(self)
        ensures
            self.entries() == elems(self.root),
            self@ == map_of(elems(self.root)),
            self.height() == height(self.root),
    {
    }
}

impl<K: Ord, V> RedBlackTreeMap<K, V> {
    /// The map is a red-black tree with a black root whose entries increase
    /// strictly by key, and whose recorded size is their number.
    pub closed spec fn wf(self) -> bool {
        &&& valid(self.root)
        &&& !is_red(self.root)
        &&& sorted(elems(self.root))
        &&& self.size == elems(self.root).len()
        &&& self.size < usize::MAX
    }

    /// The number of nodes that a search for `key` compares it with, on the one
    /// path down that it follows. `get`, `contains_key`, `get_mut`, `insert` and
    /// `remove` each descend that path, one call per node; `remove` then joins
    /// the two subtrees of the node it removes along their inner spines.
    pub closed spec fn search_len(self, key: K) -> nat {
        path_len(self.root, key)
    }

    pub(crate) proof fn lemma_reveal_search(self, key: K)
        ensures
            self.search_len(key) == path_len(self.root, key),
    {
    }

    pub(crate) proof fn lemma_wf(self)
        requires
            self.wf(),
        ensures
            valid(self.root),
            sorted(elems(self.root)),
            self.size == elems(self.root).len(),
            self.size < usize::MAX,
            self.entries().len() < usize::MAX,
            !is_red(self.root),
    {
    }

    /// The entries hold each key of the map once, in increasing order.
    pub(crate) proof fn lemma_entries_view(self)
        requires
            key_order_lawful::<K>(),
            self.wf(),
        ensures
            sorted(self.entries()),
            map_of(self.entries()) == self@,
            self@.dom().finite(),
            self@.len() == self.entries().len(),
    {
        lemma_sorted_map_len(elems(self.root));
    }

    pub fn new() -> (m: RedBlackTreeMap<K, V>)
        ensures
            m.wf(),
            m@ == Map::<K, V>::empty(),
            m.entries() == Seq::<(K, V)>::empty(),
    {
        RedBlackTreeMap { root: None, size: 0 }
    }

    /// The value under `key`, if any.
    pub fn get(&self, key: &K) -> (r: Option<&V>)
        requires
            key_order_lawful::<K>(),
            self.wf(),
        ensures
            match r {
                Some(v) => self@.contains_key(*key) && self@[*key] == *v,
                None => !self@.contains_key(*key),
            },
    {
        match &self.root {
            Some(r) => match r.get(key) {
                Some(e) => Some(&e.value),
                None => None,
            },
            None => None,
        }
    }

    /// The entry with the least key, if the map is not empty.
    pub fn first(&self) -> (r: Option<(&K, &V)>)
        requires
            self.wf(),
        ensures
            match r {
                Some((k, v)) => self.entries().len() > 0 && (*k, *v) == self.entries()[0],
                None => self.entries().len() == 0,
            },
    {
        match &self.root {
            Some(r) => {
                let e = r.first();
                Some((&e.key, &e.value))
            },
            None => None,
        }
    }

    /// The entry with the greatest key, if the map is not empty.
    pub fn last(&self) -> (r: Option<(&K, &V)>)
        requires
            self.wf(),
        ensures
            match r {
                Some((k, v)) => self.entries().len() > 0 && (*k, *v) == self.entries().last(),
                None => self.entries().len() == 0,
            },
    {
        match &self.root {
            Some(r) => {
                let e = r.last();
                Some((&e.key, &e.value))
            },
            None => None,
        }
    }

    /// A new version of the map with `key` bound to `value`; `self` is unchanged.
    pub fn insert(&self, key: K, value: V) -> (m: RedBlackTreeMap<K, V>)
        requires
            key_order_lawful::<K>(),
            self.wf(),
            self.entries().len() + 1 < usize::MAX,
        ensures
            m.wf(),
            m@ == self@.insert(key, value),
    {
        let mut new_map = self.clone();

        new_map.insert_mut(key, value);

        new_map
    }

    /// Binds `key` to `value`, replacing the entry of an equal key.
    pub fn insert_mut(&mut self, key: K, value: V)
        requires
            key_order_lawful::<K>(),
            old(self).wf(),
            old(self).entries().len() + 1 < usize::MAX,
        ensures
            final(self).wf(),
            final(self)@ == old(self)@.insert(key, value),
            final(self).entries().len() == old(self).entries().len() + if old(self)@.contains_key(
                key,
            ) {
                0int
            } else {
                1int
            },
    {
        let is_new_key = Node::insert(&mut self.root, key, value);

        if is_new_key {
            self.size += 1;
        }
    }

    /// A new version of the map without `key`; `self` is unchanged.
    pub fn remove(&self, key: &K) -> (m: RedBlackTreeMap<K, V>)
        requires
            key_order_lawful::<K>(),
            self.wf(),
        ensures
            m.wf(),
            m@ == self@.remove(*key),
            !self@.contains_key(*key) ==> m == *self,
    {
        let mut new_map = self.clone();

        if new_map.remove_mut(key) {
            new_map
        } else {
            // We want to keep maximum sharing so in case of no change we just `clone()` ourselves.
            self.clone()
        }
    }

    /// Removes `key`; returns whether it was in the map.
    pub fn remove_mut(&mut self, key: &K) -> (removed: bool)
        requires
            key_order_lawful::<K>(),
            old(self).wf(),
        ensures
            final(self).wf(),
            final(self)@ == old(self)@.remove(*key),
            removed == old(self)@.contains_key(*key),
            final(self).entries().len() + if removed {
                1int
            } else {
                0int
            } == old(self).entries().len(),
    {
        let removed = Node::remove(&mut self.root, key);

        // Note that unfortunately, even if nothing was removed, we still might have cloned some
        // part of the tree unnecessarily.

        if removed {
            self.size -= 1;
        }

        removed
    }

    pub fn contains_key(&self, key: &K) -> (r: bool)
        requires
            key_order_lawful::<K>(),
            self.wf(),
        ensures
            r == self@.contains_key(*key),
    {
        self.get(key).is_some()
    }

    /// The number of entries.
    pub fn size(&self) -> (r: usize)
        requires
            self.wf(),
        ensures
            r == self.entries().len(),
            key_order_lawful::<K>() ==> r == self@.len(),
    {
        proof {
            if key_order_lawful::<K>() {
                lemma_sorted_map_len(elems(self.root));
            }
        }
        self.size
    }

    pub fn is_empty(&self) -> (r: bool)
        requires
            self.wf(),
        ensures
            r == (self.entries().len() == 0),
            key_order_lawful::<K>() ==> (r == (self@.len() == 0)),
    {
        self.size() == 0
    }
}

impl<K, V> Clone for RedBlackTreeMap<K, V> {
    /// Another handle on the same tree: no node is copied.
    fn clone(&self) -> (m: RedBlackTreeMap<K, V>)
        ensures
            m == *self,
    {
        RedBlackTreeMap {
            root: match &self.root {
                Some(r) => Some(share(r)),
                None => None,
            },
            size: self.size,
        }
    }
}

impl<K: Ord, V> Default for RedBlackTreeMap<K, V> {
    fn default() -> (m: RedBlackTreeMap<K, V>)
        ensures
            m.wf(),
            m@ == Map::<K, V>::empty(),
    {
        RedBlackTreeMap::new()
    }
}

impl<K: Ord + Clone, V: Clone> RedBlackTreeMap<K, V> {
    /// A mutable reference to the value under `key`, if any. The nodes on the way
    /// down that other versions share are copied first, so other versions do not
    /// see the change.
    ///
    /// The entry under `key` is copied too when shared, key included: the key
    /// the map holds afterwards is `k2`, a clone of `key`. For a key type whose
    /// clones are equal (`clone_is_exact`), that is `key` itself.
    pub fn get_mut(&mut self, key: &K) -> (r: Option<&mut V>)
        requires
            key_order_lawful::<K>(),
            old(self).wf(),
        ensures
            match r {
                Some(v) => {
                    &&& old(self)@.contains_key(*key)
                    &&& cloned::<V>(old(self)@[*key], *v)
                    &&& exists|k2: K|
                        {
                            &&& cloned::<K>(*key, k2)
                            &&& final(self).entries() == with_entry(
                                old(self).entries(),
                                *key,
                                (k2, *final(v)),
                            )
                            &&& k2 == *key ==> final(self).wf() && final(self)@ == old(
                                self,
                            )@.insert(*key, *final(v))
                        }
                },
                None => !old(self)@.contains_key(*key) && *final(self) == *old(self),
            },
            clone_is_exact::<K>() ==> final(self).wf(),
    {
        let ghost before = elems(self.root);
        match self.root.as_mut() {
            Some(r) => {
                let n = make_mut(r);
                proof {
                    lemma_unfold(*n);
                }
                match n.get_mut(key) {
                    Some(e) => {
                        proof {
                            let k2 = e.key;
                            if k2 == *key {
                                assert(with_entry(before, *key, (k2, final(e).value)) =~= with_value(
                                    before,
                                    *key,
                                    final(e).value,
                                ));
                                lemma_with_value(before, *key, final(e).value);
                            }
                        }
                        Some(&mut e.value)
                    },
                    None => None,
                }
            },
            None => None,
        }
    }
}

impl<K: Ord, V> RedBlackTreeMap<K, V> {
    /// The map holding the given pairs, inserted in order: of two pairs with
    /// equal keys, the later one wins.
    pub fn from_iter(entries: Vec<(K, V)>) -> (m: RedBlackTreeMap<K, V>)
        requires
            key_order_lawful::<K>(),
            entries@.len() < usize::MAX,
        ensures
            m.wf(),
            m@ == map_of(entries@),
    {
        let ghost pairs = entries@;
        let mut map = RedBlackTreeMap::new();

        for p in it: entries.into_iter()
            invariant
                key_order_lawful::<K>(),
                pairs.len() < usize::MAX,
                it.seq() == pairs,
                map.wf(),
                map.entries().len() <= it.index(),
                map@ == map_of(pairs.take(it.index() as int)),
        {
            let (k, v) = p;
            proof {
                let i = it.index() as int;
                assert(pairs.take(i + 1).drop_last() =~= pairs.take(i));
                assert(pairs.take(i + 1).last() == (k, v));
            }
            map.insert_mut(k, v);
        }
        proof {
            assert(pairs.take(pairs.len() as int) =~= pairs);
        }
        map
    }
}

} // verus!
