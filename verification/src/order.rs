//! The order on keys: a strict total order read off `Ord::cmp`.
use std::cmp::Ordering;
use vstd::laws_cmp::{
    obeys_cmp, obeys_cmp_ord, obeys_cmp_partial_ord, obeys_partial_cmp_spec_properties,
};
use vstd::laws_eq::obeys_concrete_eq;
use vstd::prelude::*;
use vstd::std_specs::cmp::{OrdSpec, PartialEqSpec, PartialOrdSpec};

verus! {

/// The key type's `Ord` follows the laws of a total order, and its equality is
/// equality of values.
///
/// The second half is a real restriction: two keys that `==` calls equal must be
/// the same value. A key type whose `Eq` is coarser than that (say, a string
/// compared without regard to case) is a lawful `Ord`, and the map works with it
/// at run time, but these contracts do not speak of it: they identify a key in
/// the map by its value.
pub open spec fn key_order_lawful<K: Ord>() -> bool {
    &&& obeys_cmp::<K>()
    &&& obeys_concrete_eq::<K>()
}

/// `a` sorts strictly before `b`.
pub open spec fn key_lt<K: Ord>(a: K, b: K) -> bool {
    a.cmp_spec(&b) == Ordering::Less
}

/// The outcome of comparing two keys.
pub enum KeyOrder {
    Less,
    Equal,
    Greater,
}

proof fn lemma_cmp_facts<K: Ord>(a: K, b: K)
    requires
        key_order_lawful::<K>(),
    ensures
        K::obeys_cmp_spec(),
        a.cmp_spec(&b) == Ordering::Equal <==> a == b,
        a.cmp_spec(&b) == Ordering::Less <==> b.cmp_spec(&a) == Ordering::Greater,
{
    reveal(obeys_cmp_ord);
    reveal(obeys_cmp_partial_ord);
    reveal(obeys_partial_cmp_spec_properties);
    reveal(obeys_concrete_eq);
    assert(a.partial_cmp_spec(&b) == Some(a.cmp_spec(&b)));
    assert(b.partial_cmp_spec(&a) == Some(b.cmp_spec(&a)));
    assert(a.partial_cmp_spec(&b) == Some(Ordering::Equal) <==> a.eq_spec(&b));
    assert(a.eq_spec(&b) <==> a == b);
    assert(a.partial_cmp_spec(&b) == Some(Ordering::Less) <==> b.partial_cmp_spec(&a) == Some(
        Ordering::Greater,
    ));
}

/// Compares two keys with `Ord::cmp`.
pub fn compare_keys<K: Ord>(a: &K, b: &K) -> (r: KeyOrder)
    requires
        key_order_lawful::<K>(),
    ensures
        r is Less <==> key_lt(*a, *b),
        r is Equal <==> *a == *b,
        r is Greater <==> key_lt(*b, *a),
{
    proof {
        lemma_cmp_facts(*a, *b);
        lemma_cmp_facts(*b, *a);
    }
    match a.cmp(b) {
        Ordering::Less => KeyOrder::Less,
        Ordering::Equal => KeyOrder::Equal,
        Ordering::Greater => KeyOrder::Greater,
    }
}

/// No key sorts before itself.
pub proof fn lemma_key_lt_irreflexive<K: Ord>(a: K)
    requires
        key_order_lawful::<K>(),
    ensures
        !key_lt(a, a),
{
    lemma_cmp_facts(a, a);
}

/// Two keys are never before each other both ways, and a key before another differs from it.
pub proof fn lemma_key_lt_asymmetric<K: Ord>(a: K, b: K)
    requires
        key_order_lawful::<K>(),
        key_lt(a, b),
    ensures
        !key_lt(b, a),
        a != b,
{
    lemma_cmp_facts(a, b);
    lemma_cmp_facts(b, a);
}

/// The order on keys is transitive.
pub proof fn lemma_key_lt_transitive<K: Ord>(a: K, b: K, c: K)
    requires
        key_order_lawful::<K>(),
        key_lt(a, b),
        key_lt(b, c),
    ensures
        key_lt(a, c),
{
    reveal(obeys_cmp_ord);
    reveal(obeys_partial_cmp_spec_properties);
    assert(a.partial_cmp_spec(&b) == Some(a.cmp_spec(&b)));
    assert(b.partial_cmp_spec(&c) == Some(b.cmp_spec(&c)));
    assert(a.partial_cmp_spec(&c) == Some(a.cmp_spec(&c)));
}

} // verus!
