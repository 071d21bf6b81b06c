//! A channel with two priorities: messages sent as important are received first.
use vstd::prelude::*;
use crossbeam_channel::{Sender as CrossSender, Receiver as CrossReceiver};
use crate::cross::{SendError, RecvError, TryRecvError, cross_bounded, cross_unbounded, cross_send, cross_recv, cross_try_recv, cross_select};

verus! {

/// The sending side of a channel with two priorities.
#[derive(Clone, Debug)]
#[verifier::reject_recursive_types(T)]
pub struct PrioritySender<T> {
    sender_0: CrossSender<T>,
    sender_1: CrossSender<T>,
}

/// The receiving side of a channel with two priorities.
#[derive(Clone, Debug)]
#[verifier::reject_recursive_types(T)]
pub struct PriorityReceiver<T> {
    receiver_0: CrossReceiver<T>,
    receiver_1: CrossReceiver<T>,
}

/// A new channel with two priorities; each priority holds at most `bound`
/// messages where a bound is given.
pub fn channel<T>(bound: Option<usize>) -> (PrioritySender<T>, PriorityReceiver<T>) {
    let ((sender_0, receiver_0), (sender_1, receiver_1)) = match bound {
        Some(b) => (cross_bounded(b), cross_bounded(b)),
        None => (cross_unbounded(), cross_unbounded()),
    };
    (PrioritySender { sender_0, sender_1 }, PriorityReceiver { receiver_0, receiver_1 })
}

impl<T> PrioritySender<T> {
    /// Sends `t`, as important or not; on failure `t` comes back.
    pub fn send(&self, t: T, important: bool) -> (r: Result<(), SendError<T>>)
        ensures
            r matches Err(SendError(u)) ==> u == t,
    {
        if important {
            cross_send(&self.sender_0, t)
        } else {
            cross_send(&self.sender_1, t)
        }
    }
}

/// What the important channel's outcome decides in a receive that does not wait:
/// a message from it is taken, marked important; where that channel is closed,
/// the receive fails as closed; where it is only empty, the other channel is to
/// be asked (`None`).
pub fn after_important<T>(first: Result<T, TryRecvError>) -> (r: Option<Result<(T, bool), TryRecvError>>)
    ensures
        first matches Ok(t) ==> r == Some(Ok::<(T, bool), TryRecvError>((t, true))),
        first matches Err(TryRecvError::Disconnected) ==> r == Some(Err::<(T, bool), TryRecvError>(TryRecvError::Disconnected)),
        first matches Err(TryRecvError::Empty) ==> r is None,
{
    match first {
        Ok(t) => Some(Ok((t, true))),
        Err(e) => if !e.is_disconnected() {
            None
        } else {
            Some(Err(e))
        },
    }
}

/// What the other channel's outcome gives once the important one was empty: its
/// message, marked not important, or its failure.
pub fn after_unimportant<T>(second: Result<T, TryRecvError>) -> (r: Result<(T, bool), TryRecvError>)
    ensures
        second matches Ok(t) ==> r == Ok::<(T, bool), TryRecvError>((t, false)),
        second matches Err(e) ==> r == Err::<(T, bool), TryRecvError>(e),
{
    match second {
        Ok(t) => Ok((t, false)),
        Err(e) => Err(e),
    }
}

/// What the important channel's outcome decides in a receive that waits: a
/// message from it is taken, marked important; where that channel is closed,
/// the receive fails; where it is only empty, both channels are to be waited on
/// (`None`).
pub fn after_important_waiting<T>(first: Result<T, TryRecvError>) -> (r: Option<Result<(T, bool), RecvError>>)
    ensures
        first matches Ok(t) ==> r == Some(Ok::<(T, bool), RecvError>((t, true))),
        first matches Err(TryRecvError::Disconnected) ==> r == Some(Err::<(T, bool), RecvError>(RecvError)),
        first matches Err(TryRecvError::Empty) ==> r is None,
{
    match first {
        Ok(t) => Some(Ok((t, true))),
        Err(e) => if !e.is_disconnected() {
            None
        } else {
            Some(Err(RecvError))
        },
    }
}

/// What waiting on both channels gives: the message, marked with whether it came
/// from the important channel, or the failure.
pub fn after_waiting<T>(got: Result<T, RecvError>, from_important: bool) -> (r: Result<(T, bool), RecvError>)
    ensures
        got matches Ok(t) ==> r == Ok::<(T, bool), RecvError>((t, from_important)),
        got is Err ==> r == Err::<(T, bool), RecvError>(RecvError),
{
    match got {
        Ok(t) => Ok((t, from_important)),
        Err(_) => Err(RecvError),
    }
}

/// A received message without its mark, or the same failure.
pub fn unmarked<T, E>(r: Result<(T, bool), E>) -> (s: Result<T, E>)
    ensures
        r matches Ok((t, _)) ==> s == Ok::<T, E>(t),
        r matches Err(e) ==> s == Err::<T, E>(e),
{
    match r {
        Ok((t, _)) => Ok(t),
        Err(e) => Err(e),
    }
}

impl<T> PriorityReceiver<T> {
    /// Waits for a message, taking an important one first where one is waiting.
    /// Which message arrives, if any, depends on other threads; the choice is made
    /// by `after_important_waiting` and `after_waiting`.
    pub fn recv(&self) -> Result<T, RecvError> {
        unmarked(self.recv_with_meta())
    }

    /// Like `recv`, and tells whether the message was sent as important.
    pub fn recv_with_meta(&self) -> Result<(T, bool), RecvError> {
        match after_important_waiting(cross_try_recv(&self.receiver_0)) {
            Some(r) => r,
            None => {
                let (got, from_important) = cross_select(&self.receiver_0, &self.receiver_1);
                after_waiting(got, from_important)
            }
        }
    }

    /// Takes a waiting message without waiting, an important one first. What is
    /// waiting depends on other threads; the choice is made by `after_important`
    /// and `after_unimportant`.
    pub fn try_recv(&self) -> Result<T, TryRecvError> {
        unmarked(self.try_recv_with_meta())
    }

    /// Like `try_recv`, and tells whether the message was sent as important.
    pub fn try_recv_with_meta(&self) -> Result<(T, bool), TryRecvError> {
        match after_important(cross_try_recv(&self.receiver_0)) {
            Some(r) => r,
            None => after_unimportant(cross_try_recv(&self.receiver_1)),
        }
    }
}

/// The receiving side of a channel with two priorities that keeps the record of
/// every message it took, with whether it was sent as important.
#[verifier::reject_recursive_types(T)]
pub struct TakingReceiver<T> {
    receiver: PriorityReceiver<T>,
    taken: Ghost<Seq<(T, bool)>>,
}

impl<T> TakingReceiver<T> {
    /// Every message taken so far, in the order taken.
    pub closed spec fn taken(&self) -> Seq<(T, bool)> {
        self.taken@
    }

    /// A receiver that has taken nothing yet.
    pub fn new(receiver: PriorityReceiver<T>) -> (r: TakingReceiver<T>)
        ensures
            r.taken() == Seq::<(T, bool)>::empty(),
    {
        TakingReceiver { receiver, taken: Ghost(Seq::empty()) }
    }

    /// Takes a waiting message without waiting, an important one first, as
    /// `PriorityReceiver::try_recv_with_meta` does; a message taken is added to
    /// the record, and nothing else is.
    pub fn take(&mut self) -> (r: Option<(T, bool)>)
        ensures
            r matches Some(m) ==> final(self).taken() == old(self).taken().push(m),
            r is None ==> final(self).taken() == old(self).taken(),
    {
        match self.receiver.try_recv_with_meta() {
            Ok(m) => {
                proof {
                    self.taken@ = self.taken@.push(m);
                }
                Some(m)
            }
            Err(_) => None,
        }
    }
}

} // verus!
