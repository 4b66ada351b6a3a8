use pantograph::bounded::lending::accumulate::{
    channel, channel_with, TryPublishError, TryRecvError, TrySendError,
};
use std::sync::Arc;

#[test]
fn accumulate_basic() {
    let (mut tx, mut rx) = channel::<u64>(4);

    tx.try_send(1).unwrap();
    tx.try_send(2).unwrap();
    tx.try_send(3).unwrap();
    tx.try_send(4).unwrap();
    assert!(matches!(tx.try_send(5), Err(TrySendError::Full(_))));

    assert_eq!(*rx.try_recv().unwrap(), 1);
    assert_eq!(*rx.try_recv().unwrap(), 2);
    assert_eq!(*rx.try_recv().unwrap(), 3);
    assert_eq!(*rx.try_recv().unwrap(), 4);
    assert_eq!(rx.try_recv(), Err(TryRecvError::Empty));
}

#[test]
fn accumulate_capacity_one() {
    let (mut tx, mut rx) = channel::<u64>(1);

    tx.try_send(1).unwrap();
    assert_eq!(tx.try_send(2), Err(TrySendError::Full(2)));
    assert_eq!(*rx.try_recv().unwrap(), 1);

    tx.try_send(2).unwrap();
    assert_eq!(*rx.try_recv().unwrap(), 2);
    assert_eq!(rx.try_recv(), Err(TryRecvError::Empty));
}

#[test]
fn accumulate_drops() {
    let a = Arc::new(1);
    let b = Arc::new(2);

    {
        let (mut tx, mut rx) = channel_with(2, || Arc::new(0));

        tx.try_send(a.clone()).unwrap();
        tx.try_send(b.clone()).unwrap();
        assert_eq!(Arc::strong_count(&a), 2);
        assert_eq!(Arc::strong_count(&b), 2);

        // Channel full, value is returned.
        assert!(matches!(tx.try_send(a.clone()), Err(TrySendError::Full(_))));
        assert_eq!(Arc::strong_count(&a), 2);

        // Consume a. The lending channel still holds a in the slot.
        let received = rx.try_recv().unwrap();
        assert_eq!(**received, 1);
        assert_eq!(Arc::strong_count(&a), 2);
        assert_eq!(Arc::strong_count(&b), 2);
    }

    // Dropping the channel drops all slot values.
    assert_eq!(Arc::strong_count(&a), 1);
    assert_eq!(Arc::strong_count(&b), 1);
}

#[test]
fn accumulate_sender_disconnect() {
    let (mut tx, mut rx) = channel::<u64>(4);

    tx.try_send(1).unwrap();
    tx.try_send(2).unwrap();
    drop(tx);

    assert_eq!(*rx.try_recv().unwrap(), 1);
    assert_eq!(*rx.try_recv().unwrap(), 2);
    assert_eq!(rx.try_recv(), Err(TryRecvError::Disconnected));
}

#[test]
fn accumulate_receiver_disconnect() {
    let (mut tx, rx) = channel::<u64>(4);

    tx.try_send(1).unwrap();
    drop(rx);

    assert!(!tx.is_connected());
    assert_eq!(tx.try_send(2), Err(TrySendError::Disconnected(2)));
}

#[test]
fn publish() {
    let (mut tx, mut rx) = channel::<u64>(4);

    // Publish the default staged value.
    tx.publish().unwrap();
    assert_eq!(*rx.try_recv().unwrap(), 0);

    // Mutate staged value in place, then publish.
    *tx.get_mut() = 42;
    tx.publish().unwrap();
    assert_eq!(*rx.try_recv().unwrap(), 42);

    // Fill the channel to capacity, then publish should fail with Full.
    tx.try_send(1).unwrap();
    tx.try_send(2).unwrap();
    tx.try_send(3).unwrap();
    tx.try_send(4).unwrap();
    assert_eq!(tx.publish(), Err(TryPublishError::Full));

    // Drain one slot, publish succeeds again.
    assert_eq!(*rx.try_recv().unwrap(), 1);
    *tx.get_mut() = 99;
    tx.publish().unwrap();
    assert_eq!(*rx.try_recv().unwrap(), 2);
    assert_eq!(*rx.try_recv().unwrap(), 3);
    assert_eq!(*rx.try_recv().unwrap(), 4);
    assert_eq!(*rx.try_recv().unwrap(), 99);
    assert_eq!(rx.try_recv(), Err(TryRecvError::Empty));

    // Publish after receiver disconnect returns Disconnected.
    drop(rx);
    assert_eq!(tx.publish(), Err(TryPublishError::Disconnected));
}
