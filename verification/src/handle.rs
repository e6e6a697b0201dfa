//! Shared handles.

use std::sync::Arc;
use vstd::prelude::*;

verus! {

/// A second handle to the value that `a` points to, by `Arc::clone`: both
/// handles share one value, which is not copied.
#[verifier::external_body]
pub(crate) fn share<T>(a: &Arc<T>) -> (r: Arc<T>)
    ensures
        r == *a,
{
    Arc::clone(a)
}

/// The value behind the handle where it is the only handle to it, and else
/// the handle back, by `Arc::try_unwrap`.
#[verifier::external_body]
pub(crate) fn unwrap_or_keep<T>(a: Arc<T>) -> (r: Result<T, Arc<T>>)
    ensures
        match r {
            Ok(t) => t == *a,
            Err(e) => e == a,
        },
{
    Arc::try_unwrap(a)
}

/// Whether the two handles point to one value, by `Arc::ptr_eq`: handles
/// that do hold equal values. Two handles to equal values that were made
/// apart are not the same.
#[verifier::external_body]
pub(crate) fn same_handle<T>(a: &Arc<T>, b: &Arc<T>) -> (r: bool)
    ensures
        r ==> *a == *b,
{
    Arc::ptr_eq(a, b)
}

} // verus!
