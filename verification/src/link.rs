//! A plain channel between threads.
use vstd::prelude::*;
use crossbeam_channel::{Sender as CrossSender, Receiver as CrossReceiver};
use crate::cross::{cross_bounded, cross_unbounded, cross_send, cross_recv, cross_try_recv};

verus! {

/// The receiving side of a plain channel.
#[derive(Clone, Debug)]
#[verifier::reject_recursive_types(T)]
pub struct LinkReceiver<T> {
    pub(crate) inner: CrossReceiver<T>,
}

impl<T> LinkReceiver<T> {
    /// Waits for a message; `None` once every sender is gone.
    pub fn recv(&self) -> Option<T> {
        match cross_recv(&self.inner) {
            Ok(t) => Some(t),
            Err(_) => None,
        }
    }

    /// Takes a waiting message without waiting, if there is one.
    pub fn try_recv(&self) -> Option<T> {
        match cross_try_recv(&self.inner) {
            Ok(t) => Some(t),
            Err(_) => None,
        }
    }
}

/// The sending side of a plain channel.
#[derive(Clone, Debug)]
#[verifier::reject_recursive_types(T)]
pub struct LinkSender<T> {
    pub(crate) inner: CrossSender<T>,
}

impl<T> LinkSender<T> {
    /// Sends `data`; fails once every receiver is gone.
    pub fn send(&self, data: T) -> Result<(), ()> {
        match cross_send(&self.inner, data) {
            Ok(_) => Ok(()),
            Err(_) => Err(()),
        }
    }
}

/// A new plain channel without a capacity limit.
pub fn channel<T>() -> (LinkSender<T>, LinkReceiver<T>) {
    let (s, r) = cross_unbounded();
    (LinkSender { inner: s }, LinkReceiver { inner: r })
}

/// A new plain channel that holds at most `bound` messages; sending waits while it is full.
pub fn bounded_channel<T>(bound: usize) -> (LinkSender<T>, LinkReceiver<T>) {
    let (s, r) = cross_bounded(bound);
    (LinkSender { inner: s }, LinkReceiver { inner: r })
}

} // verus!
