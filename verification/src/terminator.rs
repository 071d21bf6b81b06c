//! A flag shared between threads that tells them to stop.
use vstd::prelude::*;
use std::sync::{Arc, Mutex};

verus! {

#[verifier::external_type_specification]
#[verifier::external_body]
#[verifier::reject_recursive_types(T)]
pub struct ExMutex<T: ?Sized>(Mutex<T>);

/// `std::sync::Mutex::new`: a lock holding `value`.
#[verifier::external_body]
fn new_flag(value: bool) -> Mutex<bool> {
    Mutex::new(value)
}

/// Locks the flag with `std::sync::Mutex::lock` and writes `true` (a lock that
/// a panicking thread left poisoned is taken all the same). Other threads may
/// write the flag too, so nothing is stated of it afterwards.
#[verifier::external_body]
fn raise_flag(flag: &Mutex<bool>) {
    match flag.lock() {
        Ok(mut guard) => *guard = true,
        Err(poisoned) => *poisoned.into_inner() = true,
    }
}

/// Locks the flag with `std::sync::Mutex::lock` and reads it (a lock that a
/// panicking thread left poisoned is taken all the same). Other threads share
/// the flag, so nothing is stated of the value read.
#[verifier::external_body]
fn read_flag(flag: &Mutex<bool>) -> bool {
    match flag.lock() {
        Ok(guard) => *guard,
        Err(poisoned) => *poisoned.into_inner(),
    }
}

/// A flag, shared by every clone, that tells the worker threads to stop.
#[derive(Clone, Debug)]
pub struct Terminator {
    should_terminate: Arc<Mutex<bool>>,
}

impl Terminator {
    /// A flag that is not raised.
    pub fn new() -> Self {
        Terminator { should_terminate: Arc::new(new_flag(false)) }
    }

    /// Raises the flag for every clone.
    pub fn terminate(&self) {
        raise_flag(&self.should_terminate);
    }

    /// Whether some clone has raised the flag.
    pub fn should_terminate(&self) -> bool {
        read_flag(&self.should_terminate)
    }
}

} // verus!
