//! Sorted sequences of key-value pairs and the maps they stand for.
use crate::order::{
    key_lt, key_order_lawful, lemma_key_lt_asymmetric, lemma_key_lt_irreflexive,
    lemma_key_lt_transitive,
};
use vstd::prelude::*;

verus! {

/// The map that a sequence of pairs stands for; a later pair wins over an earlier one.
pub open spec fn map_of<K, V>(s: Seq<(K, V)>) -> Map<K, V>
    decreases s.len(),
{
    if s.len() == 0 {
        Map::empty()
    } else {
        map_of(s.drop_last()).insert(s.last().0, s.last().1)
    }
}

/// The keys of `s` increase strictly from first to last.
pub open spec fn sorted<K: Ord, V>(s: Seq<(K, V)>) -> bool {
    forall|i: int, j: int| 0 <= i < j < s.len() ==> key_lt(#[trigger] s[i].0, #[trigger] s[j].0)
}

/// Every key of `s` sorts before `b`.
pub open spec fn all_lt<K: Ord, V>(s: Seq<(K, V)>, b: K) -> bool {
    forall|i: int| 0 <= i < s.len() ==> key_lt(#[trigger] s[i].0, b)
}

/// Every key of `s` sorts after `b`.
pub open spec fn all_gt<K: Ord, V>(s: Seq<(K, V)>, b: K) -> bool {
    forall|i: int| 0 <= i < s.len() ==> key_lt(b, #[trigger] s[i].0)
}

/// Every key of `m` sorts before `b`.
pub open spec fn keys_lt<K: Ord, V>(m: Map<K, V>, b: K) -> bool {
    forall|x: K| #[trigger] m.dom().contains(x) ==> key_lt(x, b)
}

/// Every key of `m` sorts after `b`.
pub open spec fn keys_gt<K: Ord, V>(m: Map<K, V>, b: K) -> bool {
    forall|x: K| #[trigger] m.dom().contains(x) ==> key_lt(b, x)
}

pub proof fn lemma_map_of_concat<K, V>(a: Seq<(K, V)>, b: Seq<(K, V)>)
    ensures
        map_of(a + b) == map_of(a).union_prefer_right(map_of(b)),
    decreases b.len(),
{
    if b.len() == 0 {
        assert(a + b =~= a);
        assert(map_of(a).union_prefer_right(map_of(b)) =~= map_of(a));
    } else {
        assert((a + b).drop_last() =~= a + b.drop_last());
        assert((a + b).last() == b.last());
        lemma_map_of_concat(a, b.drop_last());
        assert(map_of(a + b) =~= map_of(a).union_prefer_right(map_of(b)));
    }
}

/// The map of a node's pairs: its left pairs, then its own, then its right pairs.
pub proof fn lemma_map_of_node<K, V>(l: Seq<(K, V)>, e: (K, V), r: Seq<(K, V)>)
    ensures
        map_of(l + seq![e] + r) == map_of(l).insert(e.0, e.1).union_prefer_right(map_of(r)),
{
    lemma_map_of_concat(l + seq![e], r);
    assert((l + seq![e]).drop_last() =~= l);
}

pub proof fn lemma_map_of_has<K, V>(s: Seq<(K, V)>, i: int)
    requires
        0 <= i < s.len(),
    ensures
        map_of(s).dom().contains(s[i].0),
    decreases s.len(),
{
    if i < s.len() - 1 {
        lemma_map_of_has(s.drop_last(), i);
    }
}

pub proof fn lemma_map_of_key<K, V>(s: Seq<(K, V)>, x: K)
    requires
        map_of(s).dom().contains(x),
    ensures
        exists|i: int| 0 <= i < s.len() && s[i].0 == x,
    decreases s.len(),
{
    if s.len() > 0 && s.last().0 != x {
        lemma_map_of_key(s.drop_last(), x);
        let i = choose|i: int| 0 <= i < s.len() - 1 && s.drop_last()[i].0 == x;
        assert(s[i].0 == x);
    }
}

pub proof fn lemma_all_lt_keys_lt<K: Ord, V>(s: Seq<(K, V)>, b: K)
    ensures
        all_lt(s, b) <==> keys_lt(map_of(s), b),
        all_gt(s, b) <==> keys_gt(map_of(s), b),
{
    assert forall|i: int| 0 <= i < s.len() implies map_of(s).dom().contains(#[trigger] s[i].0) by {
        lemma_map_of_has(s, i);
    }
    assert forall|x: K| #[trigger] map_of(s).dom().contains(x) implies exists|i: int|
        0 <= i < s.len() && s[i].0 == x by {
        lemma_map_of_key(s, x);
    }
}

/// A node's pairs are sorted exactly when both sides are sorted and lie on
/// their own side of the node's key.
pub proof fn lemma_sorted_node<K: Ord, V>(l: Seq<(K, V)>, e: (K, V), r: Seq<(K, V)>)
    requires
        key_order_lawful::<K>(),
    ensures
        sorted(l + seq![e] + r) <==> (sorted(l) && sorted(r) && all_lt(l, e.0) && all_gt(r, e.0)),
{
    let s = l + seq![e] + r;
    let n = l.len() as int;
    if sorted(s) {
        assert forall|i: int, j: int| 0 <= i < j < l.len() implies key_lt(
            #[trigger] l[i].0,
            #[trigger] l[j].0,
        ) by {
            assert(s[i] == l[i] && s[j] == l[j]);
        }
        assert forall|i: int, j: int| 0 <= i < j < r.len() implies key_lt(
            #[trigger] r[i].0,
            #[trigger] r[j].0,
        ) by {
            assert(s[n + 1 + i] == r[i] && s[n + 1 + j] == r[j]);
        }
        assert forall|i: int| 0 <= i < l.len() implies key_lt(#[trigger] l[i].0, e.0) by {
            assert(s[i] == l[i] && s[n] == e);
        }
        assert forall|i: int| 0 <= i < r.len() implies key_lt(e.0, #[trigger] r[i].0) by {
            assert(s[n + 1 + i] == r[i] && s[n] == e);
        }
    }
    if sorted(l) && sorted(r) && all_lt(l, e.0) && all_gt(r, e.0) {
        assert forall|i: int, j: int| 0 <= i < j < s.len() implies key_lt(
            #[trigger] s[i].0,
            #[trigger] s[j].0,
        ) by {
            if j < n {
                assert(s[i] == l[i] && s[j] == l[j]);
            } else if j == n {
                assert(s[i] == l[i] && s[j] == e);
            } else if i > n {
                assert(s[i] == r[i - n - 1] && s[j] == r[j - n - 1]);
            } else if i == n {
                assert(s[i] == e && s[j] == r[j - n - 1]);
            } else {
                assert(s[i] == l[i] && s[j] == r[j - n - 1]);
                lemma_key_lt_transitive(l[i].0, e.0, r[j - n - 1].0);
            }
        }
    }
}

/// A sorted sequence has as many pairs as its map has keys.
pub proof fn lemma_sorted_map_len<K: Ord, V>(s: Seq<(K, V)>)
    requires
        key_order_lawful::<K>(),
        sorted(s),
    ensures
        map_of(s).dom().finite(),
        map_of(s).dom().len() == s.len(),
    decreases s.len(),
{
    if s.len() > 0 {
        let t = s.drop_last();
        assert(sorted(t)) by {
            assert forall|i: int, j: int| 0 <= i < j < t.len() implies key_lt(
                #[trigger] t[i].0,
                #[trigger] t[j].0,
            ) by {
                assert(t[i] == s[i] && t[j] == s[j]);
            }
        }
        lemma_sorted_map_len(t);
        if map_of(t).dom().contains(s.last().0) {
            lemma_map_of_key(t, s.last().0);
            let i = choose|i: int| 0 <= i < t.len() && t[i].0 == s.last().0;
            assert(s[i] == t[i]);
            assert(key_lt(s[i].0, s[s.len() - 1].0));
            lemma_key_lt_irreflexive(s.last().0);
        }
    }
}

/// Looking a key up in a sorted node: the node's own key, or the side the key sorts to.
pub proof fn lemma_lookup_node<K: Ord, V>(l: Seq<(K, V)>, e: (K, V), r: Seq<(K, V)>, key: K)
    requires
        key_order_lawful::<K>(),
        sorted(l + seq![e] + r),
    ensures
        map_of(l + seq![e] + r) == map_of(l).insert(e.0, e.1).union_prefer_right(map_of(r)),
        key == e.0 ==> !map_of(l).dom().contains(key) && !map_of(r).dom().contains(key),
        key_lt(key, e.0) ==> !map_of(r).dom().contains(key),
        key_lt(e.0, key) ==> !map_of(l).dom().contains(key),
        key == e.0 ==> map_of(l + seq![e] + r).dom().contains(key) && map_of(l + seq![e] + r)[key]
            == e.1,
        key_lt(key, e.0) ==> (map_of(l + seq![e] + r).dom().contains(key) == map_of(l).dom().contains(
            key,
        ) && (map_of(l).dom().contains(key) ==> map_of(l + seq![e] + r)[key] == map_of(l)[key])),
        key_lt(e.0, key) ==> (map_of(l + seq![e] + r).dom().contains(key) == map_of(r).dom().contains(
            key,
        ) && (map_of(r).dom().contains(key) ==> map_of(l + seq![e] + r)[key] == map_of(r)[key])),
{
    lemma_map_of_node(l, e, r);
    lemma_sorted_node(l, e, r);
    lemma_all_lt_keys_lt(l, e.0);
    lemma_all_lt_keys_lt(r, e.0);
    lemma_key_lt_irreflexive(e.0);
    if key_lt(key, e.0) {
        lemma_key_lt_asymmetric(key, e.0);
    }
    if key_lt(e.0, key) {
        lemma_key_lt_asymmetric(e.0, key);
    }
}

/// Dropping a node's own pair keeps its other pairs sorted.
pub proof fn lemma_sorted_concat<K: Ord, V>(l: Seq<(K, V)>, e: (K, V), r: Seq<(K, V)>)
    requires
        key_order_lawful::<K>(),
        sorted(l + seq![e] + r),
    ensures
        sorted(l + r),
{
    lemma_sorted_node(l, e, r);
    let s = l + r;
    let n = l.len() as int;
    assert forall|i: int, j: int| 0 <= i < j < s.len() implies key_lt(
        #[trigger] s[i].0,
        #[trigger] s[j].0,
    ) by {
        if j < n {
            assert(s[i] == l[i] && s[j] == l[j]);
        } else if i >= n {
            assert(s[i] == r[i - n] && s[j] == r[j - n]);
        } else {
            assert(s[i] == l[i] && s[j] == r[j - n]);
            lemma_key_lt_transitive(l[i].0, e.0, r[j - n].0);
        }
    }
}

/// What removing `k` from the pairs `before` gives: `after`, still sorted, with
/// `k` gone, and `removed` telling whether it was there.
pub open spec fn removed_pairs<K: Ord, V>(
    before: Seq<(K, V)>,
    after: Seq<(K, V)>,
    k: K,
    removed: bool,
) -> bool {
    &&& sorted(after)
    &&& map_of(after) == map_of(before).remove(k)
    &&& removed == map_of(before).dom().contains(k)
    &&& after.len() + (if removed {
        1int
    } else {
        0int
    }) == before.len()
}

pub proof fn lemma_removed_empty<K: Ord, V>(k: K)
    ensures
        removed_pairs(Seq::<(K, V)>::empty(), Seq::<(K, V)>::empty(), k, false),
{
    assert(map_of(Seq::<(K, V)>::empty()) =~= map_of(Seq::<(K, V)>::empty()).remove(k));
}

/// Removing a node's own key leaves its two sides.
pub proof fn lemma_removed_here<K: Ord, V>(l: Seq<(K, V)>, e: (K, V), r: Seq<(K, V)>)
    requires
        key_order_lawful::<K>(),
        sorted(l + seq![e] + r),
    ensures
        removed_pairs(l + seq![e] + r, l + r, e.0, true),
{
    lemma_sorted_concat(l, e, r);
    lemma_lookup_node(l, e, r, e.0);
    lemma_map_of_concat(l, r);
    assert(map_of(l + r) =~= map_of(l + seq![e] + r).remove(e.0));
}

/// Removing a key that sorts before a node's key from the node's left side.
pub proof fn lemma_removed_left<K: Ord, V>(
    l: Seq<(K, V)>,
    e: (K, V),
    r: Seq<(K, V)>,
    l2: Seq<(K, V)>,
    k: K,
    removed: bool,
)
    requires
        key_order_lawful::<K>(),
        sorted(l + seq![e] + r),
        key_lt(k, e.0),
        removed_pairs(l, l2, k, removed),
    ensures
        removed_pairs(l + seq![e] + r, l2 + seq![e] + r, k, removed),
{
    lemma_lookup_node(l, e, r, k);
    lemma_sorted_node(l, e, r);
    lemma_all_lt_keys_lt(l, e.0);
    lemma_all_lt_keys_lt(l2, e.0);
    lemma_sorted_node(l2, e, r);
    lemma_map_of_node(l2, e, r);
    lemma_key_lt_asymmetric(k, e.0);
    assert(map_of(l2 + seq![e] + r) =~= map_of(l + seq![e] + r).remove(k));
}

/// Removing a key that sorts after a node's key from the node's right side.
pub proof fn lemma_removed_right<K: Ord, V>(
    l: Seq<(K, V)>,
    e: (K, V),
    r: Seq<(K, V)>,
    r2: Seq<(K, V)>,
    k: K,
    removed: bool,
)
    requires
        key_order_lawful::<K>(),
        sorted(l + seq![e] + r),
        key_lt(e.0, k),
        removed_pairs(r, r2, k, removed),
    ensures
        removed_pairs(l + seq![e] + r, l + seq![e] + r2, k, removed),
{
    lemma_lookup_node(l, e, r, k);
    lemma_sorted_node(l, e, r);
    lemma_all_lt_keys_lt(r, e.0);
    lemma_all_lt_keys_lt(r2, e.0);
    lemma_sorted_node(l, e, r2);
    lemma_map_of_node(l, e, r2);
    lemma_key_lt_asymmetric(e.0, k);
    assert(map_of(l + seq![e] + r2) =~= map_of(l + seq![e] + r).remove(k));
}

/// The pairs `s` with the pair under `key` replaced by `p`.
pub open spec fn with_entry<K, V>(s: Seq<(K, V)>, key: K, p: (K, V)) -> Seq<(K, V)> {
    s.map_values(|q: (K, V)| if q.0 == key { p } else { q })
}

/// The pairs `s` with the value under `key` replaced by `v`.
pub open spec fn with_value<K, V>(s: Seq<(K, V)>, key: K, v: V) -> Seq<(K, V)> {
    s.map_values(|p: (K, V)| if p.0 == key { (p.0, v) } else { p })
}

/// Replacing the value under a key changes the map at that key only, and keeps
/// the keys and their order.
pub proof fn lemma_with_value<K: Ord, V>(s: Seq<(K, V)>, k: K, v: V)
    ensures
        with_value(s, k, v).len() == s.len(),
        sorted(s) ==> sorted(with_value(s, k, v)),
        map_of(with_value(s, k, v)) == if map_of(s).dom().contains(k) {
            map_of(s).insert(k, v)
        } else {
            map_of(s)
        },
    decreases s.len(),
{
    let w = with_value(s, k, v);
    assert forall|i: int| 0 <= i < s.len() implies #[trigger] w[i].0 == s[i].0 by {}
    if s.len() > 0 {
        let t = s.drop_last();
        lemma_with_value(t, k, v);
        assert(w.drop_last() =~= with_value(t, k, v));
        assert(map_of(w) =~= if map_of(s).dom().contains(k) {
            map_of(s).insert(k, v)
        } else {
            map_of(s)
        });
    } else {
        assert(map_of(w) =~= map_of(s));
    }
}

/// In a sorted sequence each pair is what the map holds under its key.
pub proof fn lemma_sorted_lookup<K: Ord, V>(s: Seq<(K, V)>, i: int)
    requires
        key_order_lawful::<K>(),
        sorted(s),
        0 <= i < s.len(),
    ensures
        map_of(s).dom().contains(s[i].0),
        map_of(s)[s[i].0] == s[i].1,
{
    let l = s.take(i);
    let r = s.skip(i + 1);
    assert(s =~= l + seq![s[i]] + r);
    lemma_lookup_node(l, s[i], r, s[i].0);
}

/// A sorted sequence is the only sorted sequence with its map: the map fixes
/// the pairs and their order.
pub proof fn lemma_sorted_unique<K: Ord, V>(s1: Seq<(K, V)>, s2: Seq<(K, V)>)
    requires
        key_order_lawful::<K>(),
        sorted(s1),
        sorted(s2),
        map_of(s1) == map_of(s2),
    ensures
        s1 == s2,
    decreases s1.len(),
{
    lemma_sorted_map_len(s1);
    lemma_sorted_map_len(s2);
    if s1.len() > 0 {
        let n = s1.len() as int;
        let k1 = s1[n - 1].0;
        let k2 = s2[n - 1].0;
        lemma_map_of_has(s1, n - 1);
        lemma_map_of_has(s2, n - 1);
        lemma_map_of_key(s2, k1);
        lemma_map_of_key(s1, k2);
        let j2 = choose|j: int| 0 <= j < s2.len() && s2[j].0 == k1;
        let j1 = choose|j: int| 0 <= j < s1.len() && s1[j].0 == k2;
        if k1 != k2 {
            assert(j2 < n - 1 && j1 < n - 1);
            assert(key_lt(s2[j2].0, s2[n - 1].0));
            assert(key_lt(s1[j1].0, s1[n - 1].0));
            lemma_key_lt_asymmetric(k1, k2);
        }
        let t1 = s1.drop_last();
        let t2 = s2.drop_last();
        assert(sorted(t1)) by {
            assert forall|i: int, j: int| 0 <= i < j < t1.len() implies key_lt(
                #[trigger] t1[i].0,
                #[trigger] t1[j].0,
            ) by {
                assert(t1[i] == s1[i] && t1[j] == s1[j]);
            }
        }
        assert(sorted(t2)) by {
            assert forall|i: int, j: int| 0 <= i < j < t2.len() implies key_lt(
                #[trigger] t2[i].0,
                #[trigger] t2[j].0,
            ) by {
                assert(t2[i] == s2[i] && t2[j] == s2[j]);
            }
        }
        assert(!map_of(t1).dom().contains(k1)) by {
            if map_of(t1).dom().contains(k1) {
                lemma_map_of_key(t1, k1);
                let i = choose|i: int| 0 <= i < t1.len() && t1[i].0 == k1;
                assert(s1[i].0 == k1);
                lemma_key_lt_irreflexive(k1);
            }
        }
        assert(!map_of(t2).dom().contains(k1)) by {
            if map_of(t2).dom().contains(k1) {
                lemma_map_of_key(t2, k1);
                let i = choose|i: int| 0 <= i < t2.len() && t2[i].0 == k1;
                assert(s2[i].0 == k1);
                lemma_key_lt_irreflexive(k1);
            }
        }
        assert(map_of(t1) =~= map_of(s1).remove(k1));
        assert(map_of(t2) =~= map_of(s2).remove(k1));
        lemma_sorted_unique(t1, t2);
        assert(s1.last().1 == map_of(s1)[k1]);
        assert(s2.last().1 == map_of(s2)[k1]);
        assert(s1 =~= t1.push(s1.last()));
        assert(s2 =~= t2.push(s2.last()));
    }
}

} // verus!
