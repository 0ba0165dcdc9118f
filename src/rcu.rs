//! A cell that publishes immutable snapshots to concurrent readers.

use vstd::prelude::*;
use std::sync::{Arc, RwLock};

verus! {

#[verifier::external_type_specification]
#[verifier::external_body]
#[verifier::reject_recursive_types(T)]
pub struct ExRwLock<T: ?Sized>(RwLock<T>);

/// Relies on `std::sync::RwLock::new`: a lock that holds `value`.
#[verifier::external_body]
fn lock_new<T>(value: Arc<T>) -> RwLock<Arc<T>> {
    RwLock::new(value)
}

/// Relies on `std::sync::RwLock::read`: a second handle to the value that the
/// lock holds when the read lock is taken. A poisoned lock still holds a whole
/// handle, since writers only swap handles, so poisoning is passed over.
#[verifier::external_body]
fn lock_read<T>(lock: &RwLock<Arc<T>>) -> Arc<T> {
    match lock.read() {
        Ok(guard) => Arc::clone(&guard),
        Err(poisoned) => Arc::clone(&poisoned.into_inner()),
    }
}

/// Relies on `std::sync::RwLock::write`: stores `value` in the lock and hands
/// back the handle it held, so that it is released outside the lock.
#[verifier::external_body]
fn lock_swap<T>(lock: &RwLock<Arc<T>>, value: Arc<T>) -> Arc<T> {
    let mut guard = match lock.write() {
        Ok(guard) => guard,
        Err(poisoned) => poisoned.into_inner(),
    };
    std::mem::replace(&mut *guard, value)
}

/// A published value that many readers share while one writer replaces it.
///
/// A reader gets a reference-counted handle to the whole value current at the
/// time of the call, and keeps seeing that value for as long as it holds the
/// handle, whatever is published meanwhile. The lock is held only to clone or
/// swap a handle, never while a value is built or dropped.
#[verifier::reject_recursive_types(T)]
pub struct ReadCopyUpdate<T> {
    current: RwLock<Arc<T>>,
}

impl<T> ReadCopyUpdate<T> {
    /// A cell that publishes `value`.
    pub fn new(value: T) -> (r: Self) {
        ReadCopyUpdate { current: lock_new(Arc::new(value)) }
    }

    /// A handle to the value published now.
    pub fn read(&self) -> (r: Arc<T>) {
        lock_read(&self.current)
    }

    /// Publishes `value` in place of the current value. The value it replaces
    /// lives on until its last reader drops its handle.
    pub fn update(&self, value: T) {
        let _previous = lock_swap(&self.current, Arc::new(value));
    }
}

} // verus!
