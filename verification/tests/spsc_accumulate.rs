use pantograph::wf_wf::spsc_accumulate::{
    channel, channel_with, TryPublishError, TryRecvError, TrySendError,
};
use std::sync::Arc;

#[test]
fn spsc_accumulate_basic() {
    let (mut tx, mut rx) = channel::<u64>();

    assert_eq!(rx.try_recv(), Err(TryRecvError::Empty));

    *tx.get_mut() += 10;
    *tx.get_mut() += 5;
    tx.publish().unwrap();

    *tx.get_mut() = 42;
    assert_eq!(tx.publish(), Err(TryPublishError::Full));

    assert_eq!(*rx.try_recv().unwrap(), 15);
    assert_eq!(rx.try_recv(), Err(TryRecvError::Empty));

    tx.publish().unwrap();
    assert_eq!(*rx.try_recv().unwrap(), 42);
}

#[test]
fn spsc_accumulate_drops() {
    let a = Arc::new(1);
    let b = Arc::new(2);

    {
        let (mut tx, mut rx) = channel_with(|| Arc::new(0));

        tx.try_send(a.clone()).unwrap();
        assert_eq!(Arc::strong_count(&a), 2);

        let received = rx.try_recv().unwrap();
        assert_eq!(**received, 1);
        assert_eq!(Arc::strong_count(&a), 2);

        tx.try_send(b.clone()).unwrap();
        assert_eq!(Arc::strong_count(&b), 2);
    }

    assert_eq!(Arc::strong_count(&a), 1);
    assert_eq!(Arc::strong_count(&b), 1);
}

#[test]
fn spsc_accumulate_sender_disconnect() {
    let (mut tx, mut rx) = channel::<u64>();

    *tx.get_mut() = 42;
    tx.publish().unwrap();
    drop(tx);

    assert!(!rx.is_connected());
    assert_eq!(*rx.try_recv().unwrap(), 42);
    assert_eq!(rx.try_recv(), Err(TryRecvError::Disconnected));
}

#[test]
fn spsc_accumulate_receiver_disconnect() {
    let (mut tx, rx) = channel::<u64>();

    drop(rx);

    assert!(!tx.is_connected());
    assert_eq!(tx.publish(), Err(TryPublishError::Disconnected));
    assert_eq!(tx.try_send(1), Err(TrySendError::Disconnected(1)));
}
