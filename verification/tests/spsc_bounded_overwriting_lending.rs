use pantograph::wf_wf::spsc_bounded_overwriting_lending::{channel, channel_with, TryRecvError};
use std::sync::Arc;

#[test]
fn spsc_bounded_overwriting_lending_basic() {
    let (mut tx, mut rx) = channel::<u64>(4);

    assert_eq!(rx.try_recv(), Err(TryRecvError::Empty));
    tx.send(10);
    assert_eq!(*rx.try_recv().unwrap(), 10);
    assert_eq!(rx.try_recv(), Err(TryRecvError::Empty));
}

#[test]
fn fill_to_capacity() {
    let (mut tx, mut rx) = channel::<u64>(4);

    tx.send(1);
    tx.send(2);
    tx.send(3);
    tx.send(4);

    assert_eq!(*rx.try_recv().unwrap(), 1);
    assert_eq!(*rx.try_recv().unwrap(), 2);
    assert_eq!(*rx.try_recv().unwrap(), 3);
    assert_eq!(*rx.try_recv().unwrap(), 4);
    assert_eq!(rx.try_recv(), Err(TryRecvError::Empty));
}

#[test]
fn overwrite() {
    let (mut tx, mut rx) = channel::<u64>(2);

    tx.send(1);
    tx.send(2);
    tx.send(3);
    tx.send(4);

    // Oldest surviving values are 3 and 4.
    assert_eq!(*rx.try_recv().unwrap(), 3);
    assert_eq!(*rx.try_recv().unwrap(), 4);
    assert_eq!(rx.try_recv(), Err(TryRecvError::Empty));
}

#[test]
fn interleaved() {
    let (mut tx, mut rx) = channel::<u64>(2);

    tx.send(1);
    assert_eq!(*rx.try_recv().unwrap(), 1);

    tx.send(2);
    tx.send(3);
    assert_eq!(*rx.try_recv().unwrap(), 2);
    assert_eq!(*rx.try_recv().unwrap(), 3);

    tx.send(4);
    tx.send(5);
    tx.send(6); // overwrites 4
    assert_eq!(*rx.try_recv().unwrap(), 5);
    assert_eq!(*rx.try_recv().unwrap(), 6);
    assert_eq!(rx.try_recv(), Err(TryRecvError::Empty));
}

#[test]
fn send_returns_old_staged() {
    let (mut tx, _rx) = channel::<u64>(4);

    // The sender's initial staged value is T::default() = 0.
    let old = tx.send(10);
    assert_eq!(old, 0);

    // After publish, the sender gets back a free-pool slot (also default).
    let old = tx.send(20);
    assert_eq!(old, 0);
}

#[test]
fn spsc_bounded_overwriting_lending_drops() {
    let a = Arc::new(1);
    let b = Arc::new(2);
    let c = Arc::new(3);

    {
        let (mut tx, mut rx) = channel_with(2, || Arc::new(0));

        tx.send(a.clone());
        tx.send(b.clone());
        assert_eq!(Arc::strong_count(&a), 2);
        assert_eq!(Arc::strong_count(&b), 2);

        // Overwrites the oldest entry.
        tx.send(c.clone());
        assert_eq!(Arc::strong_count(&a), 2);
        assert_eq!(Arc::strong_count(&b), 2);
        assert_eq!(Arc::strong_count(&c), 2);

        let received = rx.try_recv().unwrap();
        assert_eq!(**received, *b);
    }

    assert_eq!(Arc::strong_count(&a), 1);
    assert_eq!(Arc::strong_count(&b), 1);
    assert_eq!(Arc::strong_count(&c), 1);
}

#[test]
fn sender_disconnect_drain_then_error() {
    let (mut tx, mut rx) = channel::<u64>(4);

    tx.send(1);
    tx.send(2);
    drop(tx);

    // Drain remaining values.
    assert_eq!(*rx.try_recv().unwrap(), 1);
    assert_eq!(*rx.try_recv().unwrap(), 2);

    // The channel is now disconnected with nothing left.
    assert_eq!(rx.try_recv(), Err(TryRecvError::Disconnected));
}
