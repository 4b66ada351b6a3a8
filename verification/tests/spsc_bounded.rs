use pantograph::wf_wf::spsc_bounded::{channel, TryRecvError, TrySendError};
use std::sync::Arc;

#[test]
fn spsc_bounded_basic() {
    let (mut tx, mut rx) = channel::<u64>(4);

    tx.try_send(1).unwrap();
    tx.try_send(2).unwrap();
    tx.try_send(3).unwrap();
    tx.try_send(4).unwrap();
    assert!(matches!(tx.try_send(5), Err(TrySendError::Full(_))));

    assert_eq!(rx.try_recv(), Ok(1));
    assert_eq!(rx.try_recv(), Ok(2));
    assert_eq!(rx.try_recv(), Ok(3));
    assert_eq!(rx.try_recv(), Ok(4));
    assert_eq!(rx.try_recv(), Err(TryRecvError::Empty));
}

#[test]
fn spsc_bounded_capacity_one() {
    let (mut tx, mut rx) = channel::<u64>(1);

    tx.try_send(1).unwrap();
    assert_eq!(tx.try_send(2), Err(TrySendError::Full(2)));
    assert_eq!(rx.try_recv(), Ok(1));

    tx.try_send(2).unwrap();
    assert_eq!(rx.try_recv(), Ok(2));
    assert_eq!(rx.try_recv(), Err(TryRecvError::Empty));
}

#[test]
fn spsc_bounded_drops() {
    let a = Arc::new(1);
    let b = Arc::new(2);

    {
        let (mut tx, mut rx) = channel(2);

        tx.try_send(a.clone()).unwrap();
        tx.try_send(b.clone()).unwrap();
        assert_eq!(Arc::strong_count(&a), 2);
        assert_eq!(Arc::strong_count(&b), 2);

        // Channel full, value is returned.
        assert!(matches!(tx.try_send(a.clone()), Err(TrySendError::Full(_))));
        assert_eq!(Arc::strong_count(&a), 2);

        // Consume a. Moves it out of the channel.
        assert_eq!(*rx.try_recv().unwrap(), 1);
        assert_eq!(Arc::strong_count(&a), 1);
        assert_eq!(Arc::strong_count(&b), 2);
    }

    assert_eq!(Arc::strong_count(&a), 1);
    assert_eq!(Arc::strong_count(&b), 1);
}

#[test]
fn spsc_bounded_sender_disconnect() {
    let (mut tx, mut rx) = channel::<u64>(4);

    tx.try_send(1).unwrap();
    tx.try_send(2).unwrap();
    drop(tx);

    assert_eq!(rx.try_recv(), Ok(1));
    assert_eq!(rx.try_recv(), Ok(2));
    assert_eq!(rx.try_recv(), Err(TryRecvError::Disconnected));
}

#[test]
fn spsc_bounded_receiver_disconnect() {
    let (mut tx, rx) = channel::<u64>(4);

    tx.try_send(1).unwrap();
    drop(rx);

    assert!(!tx.is_connected());
    assert_eq!(tx.try_send(2), Err(TrySendError::Disconnected(2)));
}
