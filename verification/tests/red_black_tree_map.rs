use rpds::iter_utils::{conservative_height, lg_floor};
use rpds::{IterArc, RedBlackTreeMap};
use std::collections::BTreeMap;

fn collect<'a, K: Ord, V>(mut it: IterArc<'a, K, V>) -> Vec<(&'a K, &'a V)> {
    let mut out = Vec::new();
    while let Some(e) = it.next() {
        out.push(e);
    }
    out
}

fn collect_back<'a, K: Ord, V>(mut it: IterArc<'a, K, V>) -> Vec<(&'a K, &'a V)> {
    let mut out = Vec::new();
    while let Some(e) = it.next_back() {
        out.push(e);
    }
    out
}

/// A deterministic sequence of pseudo-random numbers.
fn numbers(seed: u64, n: usize, modulus: u64) -> Vec<u64> {
    let mut x = seed;
    let mut out = Vec::with_capacity(n);
    for _ in 0..n {
        x = x.wrapping_mul(6364136223846793005).wrapping_add(1442695040888963407);
        out.push((x >> 33) % modulus);
    }
    out
}

#[test]
fn new_map_is_empty() {
    let m: RedBlackTreeMap<i32, i32> = RedBlackTreeMap::new();
    assert_eq!(m.size(), 0);
    assert!(m.is_empty());
    assert_eq!(m.get(&1), None);
    assert!(!m.contains_key(&1));
    assert_eq!(m.first(), None);
    assert_eq!(m.last(), None);
    assert!(collect(m.iter()).is_empty());
    let d: RedBlackTreeMap<i32, i32> = RedBlackTreeMap::default();
    assert!(d.is_empty());
}

#[test]
fn insert_is_persistent() {
    let m = RedBlackTreeMap::new().insert(1, "one").insert(2, "two").insert(3, "three");
    let m2 = m.insert(4, "four");
    assert_eq!(m.size(), 3);
    assert_eq!(m2.size(), 4);
    assert_eq!(m.get(&4), None);
    assert_eq!(m2.get(&4), Some(&"four"));
    assert_eq!(m2.get(&1), Some(&"one"));
    assert_eq!(collect(m.iter()), vec![(&1, &"one"), (&2, &"two"), (&3, &"three")]);
}

#[test]
fn insert_replaces_value_of_equal_key() {
    let mut m = RedBlackTreeMap::new();
    m.insert_mut(5, 50);
    m.insert_mut(5, 55);
    assert_eq!(m.size(), 1);
    assert_eq!(m.get(&5), Some(&55));
    let same = m.insert(5, 55);
    assert_eq!(collect(same.iter()), collect(m.iter()));
}

#[test]
fn insert_in_increasing_and_decreasing_order() {
    let mut up = RedBlackTreeMap::new();
    let mut down = RedBlackTreeMap::new();
    for i in 0..300 {
        up.insert_mut(i, i);
        down.insert_mut(299 - i, 299 - i);
    }
    assert_eq!(collect(up.iter()), collect(down.iter()));
    assert_eq!(up.size(), 300);
    assert_eq!(up.first(), Some((&0, &0)));
    assert_eq!(down.last(), Some((&299, &299)));
    for i in (0..300).step_by(2) {
        assert!(up.remove_mut(&i));
    }
    let keys: Vec<i32> = up.keys().into_iter().copied().collect();
    assert_eq!(keys, (0..300).filter(|i| i % 2 == 1).collect::<Vec<i32>>());
}

#[test]
fn remove_is_persistent() {
    let m = RedBlackTreeMap::new().insert("a", 1).insert("b", 2).insert("c", 3);
    let m2 = m.remove(&"b");
    assert_eq!(m.size(), 3);
    assert_eq!(m.get(&"b"), Some(&2));
    assert_eq!(m2.size(), 2);
    assert_eq!(m2.get(&"b"), None);
    assert_eq!(collect(m2.iter()), vec![(&"a", &1), (&"c", &3)]);
}

#[test]
fn remove_absent_key_changes_nothing() {
    let mut m = RedBlackTreeMap::new().insert(1, 'x').insert(2, 'y');
    let m2 = m.remove(&7);
    assert_eq!(collect(m2.iter()), collect(m.iter()));
    assert!(!m.remove_mut(&7));
    assert_eq!(m.size(), 2);
    assert!(m.remove_mut(&1));
    assert!(!m.remove_mut(&1));
    assert_eq!(m.size(), 1);
}

#[test]
fn remove_undoes_insert_of_new_key() {
    let base: RedBlackTreeMap<u32, u32> = RedBlackTreeMap::from_iter((0..20).map(|i| (i * 3, i)).collect());
    let round = base.insert(10, 99).remove(&10);
    assert_eq!(collect(round.iter()), collect(base.iter()));
}

#[test]
fn first_and_last_are_least_and_greatest() {
    let mut m = RedBlackTreeMap::new();
    for k in [17, 3, 99, -4, 25] {
        m.insert_mut(k, k * 10);
    }
    assert_eq!(m.first(), Some((&-4, &-40)));
    assert_eq!(m.last(), Some((&99, &990)));
}

#[test]
fn iterates_in_key_order_from_both_ends() {
    let m = RedBlackTreeMap::from_iter(vec![(3, 'c'), (1, 'a'), (4, 'd'), (2, 'b'), (5, 'e')]);
    assert_eq!(
        collect(m.iter()),
        vec![(&1, &'a'), (&2, &'b'), (&3, &'c'), (&4, &'d'), (&5, &'e')]
    );
    assert_eq!(
        collect_back(m.iter()),
        vec![(&5, &'e'), (&4, &'d'), (&3, &'c'), (&2, &'b'), (&1, &'a')]
    );
}

#[test]
fn iterator_meets_in_the_middle() {
    let m = RedBlackTreeMap::from_iter((0..10).map(|i| (i, i * i)).collect());
    let mut it = m.iter();
    assert_eq!(it.size_hint(), (10, Some(10)));
    assert_eq!(it.next(), Some((&0, &0)));
    assert_eq!(it.next_back(), Some((&9, &81)));
    assert_eq!(it.next(), Some((&1, &1)));
    assert_eq!(it.next_back(), Some((&8, &64)));
    assert_eq!(it.size_hint(), (6, Some(6)));
    let mut rest = Vec::new();
    while let Some((k, _)) = it.next() {
        rest.push(*k);
    }
    assert_eq!(rest, vec![2, 3, 4, 5, 6, 7]);
    assert_eq!(it.next_back(), None);
    assert_eq!(it.size_hint(), (0, Some(0)));
}

#[test]
fn keys_and_values_in_key_order() {
    let m = RedBlackTreeMap::from_iter(vec![("b", 2), ("a", 1), ("c", 3)]);
    assert_eq!(m.keys(), vec![&"a", &"b", &"c"]);
    assert_eq!(m.values(), vec![&1, &2, &3]);
}

#[test]
fn from_iter_later_pair_wins() {
    let m = RedBlackTreeMap::from_iter(vec![(1, "x"), (2, "y"), (1, "z")]);
    assert_eq!(m.size(), 2);
    assert_eq!(m.get(&1), Some(&"z"));
}

#[test]
fn get_mut_changes_only_this_version() {
    let m = RedBlackTreeMap::from_iter((0..50).map(|i| (i, i)).collect());
    let mut m2 = m.clone();
    *m2.get_mut(&20).unwrap() = 1000;
    assert_eq!(m2.get(&20), Some(&1000));
    assert_eq!(m.get(&20), Some(&20));
    assert!(m2.get_mut(&77).is_none());
    assert_eq!(m2.size(), 50);
}

#[test]
fn clone_has_same_entries() {
    let m = RedBlackTreeMap::from_iter(vec![(2, 'b'), (1, 'a')]);
    let c = m.clone();
    assert_eq!(collect(c.iter()), collect(m.iter()));
}

#[test]
fn clone_survives_insert_mut_and_remove_mut() {
    let mut m = RedBlackTreeMap::from_iter((0..40).map(|i| (i, i)).collect());
    let before = m.clone();
    m.insert_mut(100, 100);
    m.insert_mut(5, 500);
    assert!(m.remove_mut(&7));
    assert_eq!(before.size(), 40);
    assert_eq!(before.get(&5), Some(&5));
    assert_eq!(before.get(&7), Some(&7));
    assert_eq!(before.get(&100), None);
    assert_eq!(m.size(), 40);
    assert_eq!(m.get(&5), Some(&500));
    assert_eq!(m.get(&7), None);
}

#[test]
fn interleaved_ends_take_each_entry_once() {
    let n: usize = 25;
    let m = RedBlackTreeMap::from_iter((0..n as u32).map(|i| (i, i + 1000)).collect());
    let mut it = m.iter();
    let mut front: usize = 0;
    let mut back: usize = 0;
    let mut seen = Vec::new();
    for step in 0..(n + 3) {
        if step % 3 == 1 {
            let got = it.next_back();
            if front + back < n {
                let k = (n - 1 - back) as u32;
                assert_eq!(got, Some((&k, &(k + 1000))));
                back += 1;
                seen.push(k);
            } else {
                assert_eq!(got, None);
            }
        } else {
            let got = it.next();
            if front + back < n {
                let k = front as u32;
                assert_eq!(got, Some((&k, &(k + 1000))));
                front += 1;
                seen.push(k);
            } else {
                assert_eq!(got, None);
            }
        }
        assert_eq!(it.size_hint(), (n - front - back, Some(n - front - back)));
    }
    seen.sort();
    assert_eq!(seen, (0..n as u32).collect::<Vec<u32>>());
}

#[test]
fn agrees_with_btree_map_under_many_operations() {
    let mut m = RedBlackTreeMap::new();
    let mut reference = BTreeMap::new();
    let ops = numbers(7, 4000, 500);
    for (i, x) in ops.iter().enumerate() {
        if i % 3 == 2 {
            assert_eq!(m.remove_mut(x), reference.remove(x).is_some());
        } else {
            m.insert_mut(*x, i);
            reference.insert(*x, i);
        }
        assert_eq!(m.size(), reference.len());
    }
    let ours: Vec<(u64, usize)> = collect(m.iter()).into_iter().map(|(k, v)| (*k, *v)).collect();
    let theirs: Vec<(u64, usize)> = reference.iter().map(|(k, v)| (*k, *v)).collect();
    assert_eq!(ours, theirs);
    for k in 0..500 {
        assert_eq!(m.get(&k), reference.get(&k));
        assert_eq!(m.contains_key(&k), reference.contains_key(&k));
    }
}

#[test]
fn remove_everything_in_random_order() {
    let keys = numbers(11, 1000, 1_000_000);
    let mut m = RedBlackTreeMap::new();
    for k in &keys {
        m.insert_mut(*k, ());
    }
    let mut distinct = keys.clone();
    distinct.sort();
    distinct.dedup();
    assert_eq!(m.size(), distinct.len());
    for k in keys.iter().rev() {
        m.remove_mut(k);
    }
    assert!(m.is_empty());
    assert_eq!(m.first(), None);
}

#[test]
fn lg_floor_values() {
    assert_eq!(lg_floor(1), 0);
    assert_eq!(lg_floor(2), 1);
    assert_eq!(lg_floor(3), 1);
    assert_eq!(lg_floor(4), 2);
    assert_eq!(lg_floor(1023), 9);
    assert_eq!(lg_floor(1024), 10);
    assert_eq!(lg_floor(usize::MAX), (usize::BITS - 1) as usize);
}

#[test]
fn conservative_height_values() {
    assert_eq!(conservative_height(0), 0);
    assert_eq!(conservative_height(1), 2);
    assert_eq!(conservative_height(2), 2);
    assert_eq!(conservative_height(3), 4);
    assert_eq!(conservative_height(6), 4);
    assert_eq!(conservative_height(7), 6);
}
