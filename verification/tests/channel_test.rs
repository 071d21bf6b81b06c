use voxel::channel::{after_important, after_important_waiting, after_unimportant, after_waiting, channel, unmarked};
use voxel::cross::{RecvError, SendError, TryRecvError};
use voxel::link;
use voxel::queque::{after_select, take_important, take_other, Queque};
use voxel::terminator::Terminator;

#[test]
fn important_messages_come_first() {
    let (tx, rx) = channel(None);
    tx.send(1, false).unwrap();
    tx.send(2, true).unwrap();
    assert_eq!(rx.try_recv_with_meta().unwrap(), (2, true));
    assert_eq!(rx.recv_with_meta().unwrap(), (1, false));
    assert_eq!(rx.try_recv().unwrap_err(), TryRecvError::Empty);
}

#[test]
fn sending_without_receiver_hands_the_message_back() {
    let (tx, rx) = channel::<u32>(Some(4));
    drop(rx);
    match tx.send(7, false) {
        Err(SendError(v)) => assert_eq!(v, 7),
        Ok(()) => panic!("sent to nobody"),
    }
}

#[test]
fn receiving_after_every_sender_is_gone() {
    let (tx, rx) = channel::<u32>(None);
    tx.send(3, true).unwrap();
    drop(tx);
    assert_eq!(rx.recv().unwrap(), 3);
    assert!(rx.recv().is_err());
    assert!(rx.try_recv().unwrap_err().is_disconnected());
}

#[test]
fn queque_takes_important_first() {
    let q = Queque::new();
    q.send("a", false).unwrap();
    q.send("b", true).unwrap();
    assert_eq!(q.try_recv_with_meta(), Some(("b", true)));
    assert_eq!(q.recv(), Some("a"));
    assert_eq!(q.try_recv(), None);
}

#[test]
fn plain_channel() {
    let (tx, rx) = link::channel();
    tx.send(5).unwrap();
    assert_eq!(rx.try_recv(), Some(5));
    assert_eq!(rx.try_recv(), None);
    drop(rx);
    assert!(tx.send(6).is_err());
    let (btx, brx) = link::bounded_channel(1);
    btx.send(1).unwrap();
    assert_eq!(brx.recv(), Some(1));
}

#[test]
fn terminator_is_shared_by_clones() {
    let t = Terminator::new();
    let u = t.clone();
    assert!(!u.should_terminate());
    t.terminate();
    assert!(u.should_terminate());
}

#[test]
fn important_outcome_decides_the_receive() {
    assert_eq!(after_important(Ok::<u8, TryRecvError>(4)), Some(Ok((4, true))));
    assert_eq!(after_important(Err::<u8, TryRecvError>(TryRecvError::Disconnected)), Some(Err(TryRecvError::Disconnected)));
    assert_eq!(after_important(Err::<u8, TryRecvError>(TryRecvError::Empty)), None);
    assert_eq!(after_unimportant(Ok::<u8, TryRecvError>(5)), Ok((5, false)));
    assert_eq!(after_unimportant(Err::<u8, TryRecvError>(TryRecvError::Empty)), Err(TryRecvError::Empty));
    assert_eq!(after_important_waiting(Err::<u8, TryRecvError>(TryRecvError::Disconnected)), Some(Err(RecvError)));
    assert_eq!(after_important_waiting(Ok::<u8, TryRecvError>(1)), Some(Ok((1, true))));
    assert_eq!(after_important_waiting(Err::<u8, TryRecvError>(TryRecvError::Empty)), None);
    assert_eq!(after_waiting(Ok::<u8, RecvError>(6), false), Ok((6, false)));
    assert_eq!(after_waiting(Err::<u8, RecvError>(RecvError), true), Err(RecvError));
    assert_eq!(unmarked(Ok::<(u8, bool), RecvError>((9, true))), Ok(9));
}

#[test]
fn queue_outcomes_decide_the_receive() {
    assert_eq!(take_important(Some(1u8)), Some((1, true)));
    assert_eq!(take_important(None::<u8>), None);
    assert_eq!(take_other(Some(2u8)), Some((2, false)));
    assert_eq!(take_other(None::<u8>), None);
    assert_eq!(after_select(Ok::<u8, RecvError>(3), true), Some((3, true)));
    assert_eq!(after_select(Err::<u8, RecvError>(RecvError), false), None);
    let q = Queque::new();
    q.send(1u8, false).unwrap();
    q.send(2u8, true).unwrap();
    assert_eq!(q.try_recv_with_meta(), Some((2, true)));
    assert_eq!(q.recv_with_meta(), Some((1, false)));
    assert_eq!(q.try_recv(), None);
}
