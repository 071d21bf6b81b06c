//! The calls into `crossbeam_channel` that the channels of this crate are built on.
use vstd::prelude::*;

verus! {

#[verifier::external_type_specification]
#[verifier::external_body]
#[verifier::reject_recursive_types(T)]
pub struct ExCrossSender<T>(crossbeam_channel::Sender<T>);

#[verifier::external_type_specification]
#[verifier::external_body]
#[verifier::reject_recursive_types(T)]
pub struct ExCrossReceiver<T>(crossbeam_channel::Receiver<T>);

/// `Clone` of `crossbeam_channel::Sender`: another handle to the same channel.
pub assume_specification<T> [<crossbeam_channel::Sender<T> as std::clone::Clone>::clone] (s: &crossbeam_channel::Sender<T>) -> crossbeam_channel::Sender<T>;

/// `Clone` of `crossbeam_channel::Receiver`: another handle to the same channel.
pub assume_specification<T> [<crossbeam_channel::Receiver<T> as std::clone::Clone>::clone] (r: &crossbeam_channel::Receiver<T>) -> crossbeam_channel::Receiver<T>;

/// A message could not be sent because every receiver is gone; it is handed back.
#[derive(Debug)]
pub struct SendError<T>(pub T);

/// Nothing can be received any more: the channel is empty and every sender is gone.
#[derive(Clone, Copy, Debug, PartialEq, Eq, Structural)]
pub struct RecvError;

/// Why nothing was received without waiting.
#[derive(Clone, Copy, Debug, PartialEq, Eq, Structural)]
pub enum TryRecvError {
    /// Nothing is waiting, but a sender is still there.
    Empty,
    /// Nothing is waiting and every sender is gone.
    Disconnected,
}

impl TryRecvError {
    /// Whether every sender is gone.
    pub fn is_disconnected(&self) -> (r: bool)
        ensures
            r == (*self == TryRecvError::Disconnected),
    {
        match self {
            TryRecvError::Empty => false,
            TryRecvError::Disconnected => true,
        }
    }
}

/// `crossbeam_channel::unbounded`: a new channel without a capacity limit.
#[verifier::external_body]
pub(crate) fn cross_unbounded<T>() -> (crossbeam_channel::Sender<T>, crossbeam_channel::Receiver<T>) {
    crossbeam_channel::unbounded()
}

/// `crossbeam_channel::bounded`: a new channel that holds at most `cap` messages.
#[verifier::external_body]
pub(crate) fn cross_bounded<T>(cap: usize) -> (crossbeam_channel::Sender<T>, crossbeam_channel::Receiver<T>) {
    crossbeam_channel::bounded(cap)
}

/// `crossbeam_channel::Sender::send`; on failure the message comes back. Whether it
/// fails depends on other threads, so nothing else is stated.
#[verifier::external_body]
pub(crate) fn cross_send<T>(s: &crossbeam_channel::Sender<T>, t: T) -> (r: Result<(), SendError<T>>)
    ensures
        r matches Err(SendError(u)) ==> u == t,
{
    match s.send(t) {
        Ok(()) => Ok(()),
        Err(crossbeam_channel::SendError(u)) => Err(SendError(u)),
    }
}

/// `crossbeam_channel::Receiver::recv`: waits for a message. What arrives depends
/// on other threads, so nothing is stated of it.
#[verifier::external_body]
pub(crate) fn cross_recv<T>(r: &crossbeam_channel::Receiver<T>) -> Result<T, RecvError> {
    match r.recv() {
        Ok(t) => Ok(t),
        Err(_) => Err(RecvError),
    }
}

/// `crossbeam_channel::Receiver::try_recv`: takes a waiting message without
/// waiting. What is waiting depends on other threads, so nothing is stated of it.
#[verifier::external_body]
pub(crate) fn cross_try_recv<T>(r: &crossbeam_channel::Receiver<T>) -> Result<T, TryRecvError> {
    match r.try_recv() {
        Ok(t) => Ok(t),
        Err(crossbeam_channel::TryRecvError::Empty) => Err(TryRecvError::Empty),
        Err(crossbeam_channel::TryRecvError::Disconnected) => Err(TryRecvError::Disconnected),
    }
}

/// `crossbeam_channel::Select` over two receivers: waits until one of them is
/// ready, receives from it, and tells whether it was the first. Which one is
/// ready depends on other threads, so nothing is stated of the outcome.
#[verifier::external_body]
pub(crate) fn cross_select<T>(r0: &crossbeam_channel::Receiver<T>, r1: &crossbeam_channel::Receiver<T>) -> (Result<T, RecvError>, bool) {
    let mut sel = crossbeam_channel::Select::new();
    let first = sel.recv(r0);
    sel.recv(r1);
    let op = sel.select();
    let from_first = op.index() == first;
    let got = if from_first { op.recv(r0) } else { op.recv(r1) };
    (got.map_err(|_| RecvError), from_first)
}

} // verus!
