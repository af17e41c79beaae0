use std::sync::Arc;

use crossbeam::sync::ShardedLock;
use vstd::prelude::*;

verus! {

#[verifier::external_type_specification]
#[verifier::external_body]
#[verifier::reject_recursive_types(T)]
pub struct ExShardedLock<T: ?Sized>(ShardedLock<T>);

/// Relies on crossbeam's ShardedLock::new: a lock that holds `value`.
#[verifier::external_body]
fn lock_new<P>(value: P) -> (r: ShardedLock<P>) {
    ShardedLock::new(value)
}

/// Relies on crossbeam's ShardedLock::try_read: a copy of the value when no
/// writer holds the lock, None when one does (or the lock is poisoned).
#[verifier::external_body]
fn lock_try_read<P: Clone>(lock: &ShardedLock<P>) -> (r: Option<P>) {
    match lock.try_read() {
        Ok(guard) => Some((*guard).clone()),
        Err(_) => None,
    }
}

/// Relies on crossbeam's ShardedLock::try_write: stores `value` when nobody
/// holds the lock and returns true; returns false otherwise.
#[verifier::external_body]
fn lock_try_write<P>(lock: &ShardedLock<P>, value: P) -> (r: bool) {
    match lock.try_write() {
        Ok(mut guard) => {
            *guard = value;
            true
        },
        Err(_) => false,
    }
}

/// Relies on Arc::clone: the clone points to the same allocation.
#[verifier::external_body]
fn arc_clone<T>(a: &Arc<T>) -> (r: Arc<T>)
    ensures
        r == *a,
{
    Arc::clone(a)
}

/// A payload behind a readers-writer lock; clones of the handle share the
/// payload and may be sent to other threads.
#[verifier::reject_recursive_types(P)]
pub struct Shared<P> {
    lock: Arc<ShardedLock<P>>,
}

impl<P> Shared<P> {
    /// Puts `value` behind a fresh lock.
    pub fn new(value: P) -> (r: Self) {
        Shared { lock: Arc::new(lock_new(value)) }
    }

    /// Another handle to the same payload.
    pub fn share(&self) -> (r: Self)
        ensures
            r == *self,
    {
        Shared { lock: arc_clone(&self.lock) }
    }

    /// Stores `value` unless the lock is held; fails with `BorrowViolated`
    /// when it is.
    pub fn try_write(&self, value: P) -> (r: Result<(), crate::error::Error>)
        ensures
            r matches Err(e) ==> e == crate::error::Error::BorrowViolated,
    {
        if lock_try_write(&*self.lock, value) {
            Ok(())
        } else {
            Err(crate::error::Error::BorrowViolated)
        }
    }
}

impl<P: Clone> Shared<P> {
    /// A copy of the payload, unless a writer holds the lock; fails with
    /// `BorrowViolated` when one does.
    pub fn try_read(&self) -> (r: Result<P, crate::error::Error>)
        ensures
            r matches Err(e) ==> e == crate::error::Error::BorrowViolated,
    {
        match lock_try_read(&*self.lock) {
            Some(v) => Ok(v),
            None => Err(crate::error::Error::BorrowViolated),
        }
    }
}

} // verus!
