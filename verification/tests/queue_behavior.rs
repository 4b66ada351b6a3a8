use pantograph::bounded::moving::queue::{channel, Receiver, Sender, TryRecvError, TrySendError};
use std::cell::RefCell;
use std::rc::Rc;
use std::sync::Arc;

fn assert_send<T: Send>() {}

#[derive(Debug, PartialEq)]
struct Opaque(u8);

#[test]
fn queue_sides_can_be_sent_to_other_threads() {
    assert_send::<Sender<String>>();
    assert_send::<Receiver<String>>();
}

#[test]
fn queue_keeps_order_over_many_rounds() {
    let (mut tx, mut rx) = channel::<u32>(3);
    let mut sent = 0;
    let mut received = 0;
    for round in 0..1000 {
        let burst = round % 5;
        for _ in 0..burst {
            if tx.try_send(sent).is_ok() {
                sent += 1;
            }
        }
        for _ in 0..(round % 4) {
            match rx.try_recv() {
                Ok(value) => {
                    assert_eq!(value, received);
                    received += 1;
                }
                Err(e) => assert_eq!(e, TryRecvError::Empty),
            }
        }
        assert!(received <= sent && sent <= received + 3);
    }
    assert!(received > 500);
}

#[test]
fn queue_holds_no_more_than_its_capacity() {
    for capacity in 1..8 {
        let (mut tx, mut rx) = channel::<usize>(capacity);
        for value in 0..capacity {
            assert!(!tx.is_full());
            assert_eq!(tx.try_send(value), Ok(()));
        }
        assert!(tx.is_full());
        assert_eq!(tx.try_send(99), Err(TrySendError::Full(99)));
        assert_eq!(rx.try_recv(), Ok(0));
        assert!(!tx.is_full());
        assert_eq!(tx.try_send(100), Ok(()));
        assert!(tx.is_full());
    }
}

#[test]
fn queue_is_not_disconnected_before_it_is_drained() {
    let (mut tx, mut rx) = channel::<u8>(2);
    assert_eq!(rx.try_recv(), Err(TryRecvError::Empty));
    assert!(rx.is_connected());
    tx.try_send(7).unwrap();
    drop(tx);
    assert!(!rx.is_connected());
    assert_eq!(rx.try_recv(), Ok(7));
    assert_eq!(rx.try_recv(), Err(TryRecvError::Disconnected));
    assert_eq!(rx.try_recv(), Err(TryRecvError::Disconnected));
}

#[test]
fn queue_reports_a_disconnect_before_a_full_channel() {
    let (mut tx, rx) = channel::<u8>(1);
    tx.try_send(1).unwrap();
    assert!(tx.is_connected());
    drop(rx);
    assert!(tx.is_full());
    assert_eq!(tx.try_send(2), Err(TrySendError::Disconnected(2)));
}

#[test]
fn queue_moves_values_without_a_default() {
    let (mut tx, mut rx) = channel(1);
    tx.try_send(Opaque(1)).unwrap();
    assert_eq!(tx.try_send(Opaque(2)), Err(TrySendError::Full(Opaque(2))));
    assert_eq!(rx.try_recv(), Ok(Opaque(1)));
}

#[test]
fn queue_drops_waiting_values_once() {
    let value = Arc::new(());
    let (mut tx, mut rx) = channel(4);
    for _ in 0..4 {
        tx.try_send(value.clone()).unwrap();
    }
    assert_eq!(Arc::strong_count(&value), 5);
    drop(rx.try_recv());
    assert_eq!(Arc::strong_count(&value), 4);
    drop(tx);
    assert_eq!(Arc::strong_count(&value), 4);
    drop(rx);
    assert_eq!(Arc::strong_count(&value), 1);
}

#[test]
fn queue_room_that_was_seen_is_there() {
    let (mut tx, mut rx) = channel::<u32>(3);
    for val in 0..100 {
        while !tx.is_full() {
            assert_eq!(tx.try_send(val), Ok(()));
        }
        assert_eq!(tx.try_send(val), Err(TrySendError::Full(val)));
        while rx.try_recv().is_ok() {}
        assert!(!tx.is_full());
    }
}

#[test]
fn queue_drops_the_oldest_first() {
    struct Noisy(u32, Rc<RefCell<Vec<u32>>>);
    impl Drop for Noisy {
        fn drop(&mut self) {
            self.1.borrow_mut().push(self.0);
        }
    }
    let dropped = Rc::new(RefCell::new(Vec::new()));
    let (mut tx, mut rx) = channel(3);
    for value in 1..4 {
        assert!(tx.try_send(Noisy(value, dropped.clone())).is_ok());
    }
    drop(rx.try_recv());
    drop(rx.try_recv());
    assert_eq!(*dropped.borrow(), vec![1, 2]);
    for value in 4..6 {
        assert!(tx.try_send(Noisy(value, dropped.clone())).is_ok());
    }
    drop(rx);
    assert_eq!(*dropped.borrow(), vec![1, 2]);
    drop(tx);
    assert_eq!(*dropped.borrow(), vec![1, 2, 3, 4, 5]);
}

#[test]
fn queue_sides_are_connected_until_the_other_goes() {
    let (tx, rx) = channel::<u32>(1);
    assert!(tx.is_connected() && rx.is_connected());
    drop(tx);
    assert!(!rx.is_connected());
    assert!(!rx.is_connected());
}
