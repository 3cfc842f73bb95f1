//! Shared ownership of a container by the handles on it. The calls of a
//! container take it by exclusive reference, so the threads that share one
//! take turns at a lock.

use std::sync::Arc;
use std::sync::Mutex;
use vstd::prelude::*;

verus! {

/// `std::sync::Mutex`: the lock that the handles of one container share.
/// Nothing is stated of what it guards.
#[verifier::external_type_specification]
#[verifier::external_body]
#[verifier::reject_recursive_types(T)]
pub struct ExMutex<T: ?Sized>(Mutex<T>);

/// Another owner of what `shared` owns.
///
/// Calls `Arc::clone`, which hands out a second pointer to the same
/// allocation: the value behind the result is the value behind `shared`.
#[verifier::external_body]
pub(crate) fn share<T>(shared: &Arc<T>) -> (r: Arc<T>)
    ensures
        *r == **shared,
{
    shared.clone()
}

} // verus!
