//! Sharing nodes between versions of a map: the calls into `std::sync::Arc`
//! that the tree needs besides `Arc::new`.
use std::sync::Arc;
use vstd::prelude::*;

verus! {

/// `Arc::clone`: a second pointer to the same allocation, so to the same value.
#[verifier::external_body]
pub(crate) fn share<T>(a: &Arc<T>) -> (r: Arc<T>)
    ensures
        r == *a,
{
    Arc::clone(a)
}

/// `Arc::make_mut`: a mutable reference to the value behind `a`, which is first
/// replaced by a clone of itself when other pointers share it. Either way the
/// reference starts out at a value that `cloned` relates to the old one, and
/// what is written through it is what `a` points to afterwards.
#[verifier::external_body]
pub(crate) fn make_mut<T: Clone>(a: &mut Arc<T>) -> (r: &mut T)
    ensures
        cloned::<T>(**old(a), *r),
        **final(a) == *final(r),
{
    Arc::make_mut(a)
}

} // verus!
