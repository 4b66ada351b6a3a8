use pantograph::watch::lending::swap::{channel, channel_with, TryRecvError};
use std::sync::Arc;

#[test]
fn swap_basic() {
    let (mut tx, mut rx) = channel::<u128>(42);

    assert_eq!(*rx.get(), 42);
    assert_eq!(rx.try_recv().err(), Some(TryRecvError::Empty));
    tx.send(128);
    assert_eq!(rx.try_recv().copied(), Ok(128));
}

#[test]
fn swap_drops() {
    let init = Arc::new(0);
    let staged = Arc::new(1);
    let back = Arc::new(2);
    let a = Arc::new(3);
    let b = Arc::new(4);

    {
        let (mut tx, mut rx) = channel_with(init.clone(), staged.clone(), back.clone());
        assert_eq!(Arc::strong_count(&init), 2);
        assert_eq!(Arc::strong_count(&staged), 2);
        assert_eq!(Arc::strong_count(&back), 2);

        // First send returns the old staged value. The back-buffer becomes the staged value.
        assert_eq!(*tx.send(a.clone()), *staged);
        assert_eq!(Arc::strong_count(&init), 2);
        assert_eq!(Arc::strong_count(&staged), 1);
        assert_eq!(Arc::strong_count(&a), 2);

        // Second send returns that now-staged old back-buffer value. The first value we sent
        // becomes staged.
        assert_eq!(*tx.send(b.clone()), *back);
        assert_eq!(Arc::strong_count(&init), 2);
        assert_eq!(Arc::strong_count(&back), 1);
        assert_eq!(Arc::strong_count(&b), 2);

        // Third send returns the first-sent value.
        assert_eq!(*tx.send(a.clone()), *a);
        assert_eq!(Arc::strong_count(&init), 2);
        assert_eq!(Arc::strong_count(&a), 2);
        assert_eq!(Arc::strong_count(&b), 2);

        // The receiver receives the latest value sent by the sender. The `init` value the
        // receiver was sitting on becomes the back-buffer.
        assert_eq!(**rx.try_recv().unwrap(), *a);
        assert_eq!(Arc::strong_count(&init), 2);
        assert_eq!(Arc::strong_count(&a), 2);
        assert_eq!(Arc::strong_count(&b), 2);

        // Send returns `b`.
        assert_eq!(*tx.send(b.clone()), *b);
        assert_eq!(Arc::strong_count(&init), 2);
        assert_eq!(Arc::strong_count(&a), 2);
        assert_eq!(Arc::strong_count(&b), 2);

        // Send returns `init`.
        assert_eq!(*tx.send(a.clone()), *init);
        assert_eq!(Arc::strong_count(&init), 1);
        assert_eq!(Arc::strong_count(&a), 3);
        assert_eq!(Arc::strong_count(&b), 2);
    }

    // Dropping both sides of the channel cleans everything up.
    assert_eq!(Arc::strong_count(&init), 1);
    assert_eq!(Arc::strong_count(&staged), 1);
    assert_eq!(Arc::strong_count(&back), 1);
    assert_eq!(Arc::strong_count(&a), 1);
    assert_eq!(Arc::strong_count(&b), 1);
}

#[test]
fn swap_drops_disconnect() {
    let init = Arc::new(0);
    let staged = Arc::new(1);
    let back = Arc::new(2);
    let a = Arc::new(3);

    let mut rx = {
        let (mut tx, rx) = channel_with(init.clone(), staged.clone(), back.clone());

        assert_eq!(Arc::strong_count(&init), 2);
        let prev = tx.send(a.clone());
        assert_eq!(*prev, *staged);
        assert_eq!(Arc::strong_count(&a), 2);
        drop(prev);
        drop(tx);
        rx
    };

    // The sent value survives `tx` drop.
    assert_eq!(**rx.try_recv().unwrap(), *a);
    assert_eq!(rx.try_recv().err(), Some(TryRecvError::Disconnected));
    drop(rx);

    // Dropping both sides of the channel cleans everything up.
    assert_eq!(Arc::strong_count(&init), 1);
    assert_eq!(Arc::strong_count(&staged), 1);
    assert_eq!(Arc::strong_count(&back), 1);
    assert_eq!(Arc::strong_count(&a), 1);
}
