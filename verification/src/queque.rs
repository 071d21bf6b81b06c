//! A queue with two priorities over two plain channels.
use vstd::prelude::*;
use crate::cross::{cross_select, RecvError};
use crate::link::{LinkSender, LinkReceiver, channel};

verus! {

/// A queue with two priorities: important messages are received first.
#[derive(Clone, Debug)]
#[verifier::reject_recursive_types(T)]
pub struct Queque<T> {
    sender_0: LinkSender<T>,
    receiver_0: LinkReceiver<T>,
    sender_1: LinkSender<T>,
    receiver_1: LinkReceiver<T>,
}

impl<T> Queque<T> {
    /// An empty queue.
    pub fn new() -> Self {
        let (sender_0, receiver_0) = channel();
        let (sender_1, receiver_1) = channel();
        Queque { sender_0, receiver_0, sender_1, receiver_1 }
    }

    /// Queues `t`, as important or not.
    pub fn send(&self, t: T, important: bool) -> Result<(), ()> {
        if important {
            self.sender_0.send(t)
        } else {
            self.sender_1.send(t)
        }
    }

    /// Waits for a message, taking an important one first where one is waiting;
    /// `None` once nothing more can come. What arrives depends on other threads;
    /// the choice is made by `take_important` and `after_select`.
    pub fn recv(&self) -> Option<T> {
        match self.recv_with_meta() {
            Some((t, _)) => Some(t),
            None => None,
        }
    }

    /// Like `recv`, and tells whether the message was queued as important.
    pub fn recv_with_meta(&self) -> Option<(T, bool)> {
        match take_important(self.receiver_0.try_recv()) {
            Some(r) => Some(r),
            None => {
                let (got, from_important) = cross_select(&self.receiver_0.inner, &self.receiver_1.inner);
                after_select(got, from_important)
            }
        }
    }

    /// Takes a waiting message without waiting, an important one first. What is
    /// waiting depends on other threads; the choice is made by `take_important`
    /// and `take_other`.
    pub fn try_recv(&self) -> Option<T> {
        match self.try_recv_with_meta() {
            Some((t, _)) => Some(t),
            None => None,
        }
    }

    /// Like `try_recv`, and tells whether the message was queued as important.
    pub fn try_recv_with_meta(&self) -> Option<(T, bool)> {
        match take_important(self.receiver_0.try_recv()) {
            Some(r) => Some(r),
            None => take_other(self.receiver_1.try_recv()),
        }
    }
}

/// What the important queue's outcome decides: a message from it is taken,
/// marked important; where it has none, the other queue is to be asked (`None`).
pub fn take_important<T>(first: Option<T>) -> (r: Option<(T, bool)>)
    ensures
        first matches Some(t) ==> r == Some((t, true)),
        first is None ==> r is None,
{
    match first {
        Some(t) => Some((t, true)),
        None => None,
    }
}

/// What the other queue's outcome gives once the important one had nothing: its
/// message, marked not important, or nothing.
pub fn take_other<T>(second: Option<T>) -> (r: Option<(T, bool)>)
    ensures
        second matches Some(t) ==> r == Some((t, false)),
        second is None ==> r is None,
{
    match second {
        Some(t) => Some((t, false)),
        None => None,
    }
}

/// What waiting on both queues gives: the message, marked with whether it came
/// from the important queue, or nothing once nothing more can come.
pub fn after_select<T>(got: Result<T, RecvError>, from_important: bool) -> (r: Option<(T, bool)>)
    ensures
        got matches Ok(t) ==> r == Some((t, from_important)),
        got is Err ==> r is None,
{
    match got {
        Ok(t) => Some((t, from_important)),
        Err(_) => None,
    }
}

} // verus!
