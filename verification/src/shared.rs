//! Trusted facts about reference-counted sharing of label sets.
use vstd::prelude::*;
use std::sync::Arc;

verus! {

/// Relies on `std::sync::Arc::ptr_eq`: its documentation says it returns
/// `true` if the two `Arc`s point to the same allocation, and one allocation
/// holds one value.
#[verifier::external_body]
pub(crate) fn arc_ptr_eq<T>(this: &Arc<T>, other: &Arc<T>) -> (r: bool)
    ensures
        r ==> *this == *other,
{
    Arc::ptr_eq(this, other)
}

/// Relies on `<Arc<T> as Clone>::clone`: its documentation says the clone
/// points to the same allocation as the original, so it holds the same value.
#[verifier::external_body]
pub(crate) fn arc_clone<T>(this: &Arc<T>) -> (res: Arc<T>)
    ensures
        res == *this,
{
    Arc::clone(this)
}

} // verus!
