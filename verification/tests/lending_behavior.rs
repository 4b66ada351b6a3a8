use crossbeam_utils::atomic::AtomicCell;
use pantograph::bounded::lending::accumulate as ring;
use pantograph::bounded::lending::overwrite;
use pantograph::watch::lending::accumulate as handoff;
use pantograph::watch::lending::swap;
use pantograph::wf_wf::spsc_watch;
use std::sync::Arc;

fn assert_send<T: Send>() {}

#[derive(Debug, PartialEq)]
struct Opaque(u8);

/// Hands out 0, 1, 2 and so on.
fn counting() -> impl FnMut() -> u32 {
    let mut count = 0;
    move || {
        count += 1;
        count - 1
    }
}

#[test]
fn lending_sides_can_be_sent_to_other_threads() {
    assert_send::<ring::Sender<String>>();
    assert_send::<ring::Receiver<String>>();
    assert_send::<overwrite::Sender<String>>();
    assert_send::<overwrite::Receiver<String>>();
    assert_send::<handoff::Sender<String>>();
    assert_send::<handoff::Receiver<String>>();
    assert_send::<swap::Sender<String>>();
    assert_send::<swap::Receiver<String>>();
    assert_send::<spsc_watch::Sender<String>>();
    assert_send::<spsc_watch::Receiver<String>>();
}

#[test]
fn ring_values_go_round() {
    let (mut tx, mut rx) = ring::channel_with(1, counting());
    assert_eq!(*rx.get(), 0);
    assert_eq!(*tx.get(), 1);
    assert_eq!(tx.try_send(10), Ok(1));
    assert_eq!(*tx.get(), 2);
    assert_eq!(rx.try_recv(), Ok(&mut 10));
    // The receiver has given up its first value, which comes back to the sender.
    assert_eq!(tx.try_send(11), Ok(2));
    assert_eq!(*tx.get(), 0);
    assert_eq!(rx.try_recv(), Ok(&mut 11));
}

#[test]
fn ring_receiver_can_signal_back() {
    let (mut tx, mut rx) = ring::channel::<u32>(1);
    tx.try_send(1).unwrap();
    *rx.try_recv().unwrap() = 77;
    assert_eq!(*rx.get(), 77);
    *rx.get_mut() += 1;
    tx.try_send(2).unwrap();
    assert_eq!(rx.try_recv(), Ok(&mut 2));
    tx.try_send(3).unwrap();
    assert_eq!(*tx.get(), 78);
}

#[test]
fn ring_room_that_was_seen_is_there() {
    let (mut tx, mut rx) = ring::channel::<u32>(2);
    assert!(!tx.is_full());
    tx.try_send(1).unwrap();
    assert!(!tx.is_full());
    tx.try_send(2).unwrap();
    assert!(tx.is_full());
    assert_eq!(tx.try_send(3), Err(ring::TrySendError::Full(3)));
    assert_eq!(rx.try_recv(), Ok(&mut 1));
    assert!(!tx.is_full());
    assert!(tx.try_send(3).is_ok());
    assert_eq!(rx.try_recv(), Ok(&mut 2));
    assert_eq!(rx.try_recv(), Ok(&mut 3));
}

#[test]
fn ring_keeps_order_over_many_rounds() {
    let (mut tx, mut rx) = ring::channel::<u32>(3);
    let mut sent = 1;
    let mut received = 1;
    for round in 0..1000 {
        for _ in 0..(round % 5) {
            *tx.get_mut() = sent;
            if tx.publish().is_ok() {
                sent += 1;
            }
        }
        for _ in 0..(round % 4) {
            match rx.try_recv() {
                Ok(value) => {
                    assert_eq!(*value, received);
                    received += 1;
                }
                Err(e) => assert_eq!(e, ring::TryRecvError::Empty),
            }
        }
        assert!(received <= sent && sent <= received + 3);
    }
    assert!(received > 500);
}

#[test]
fn ring_failed_sends_keep_the_staged_value() {
    let (mut tx, rx) = ring::channel_with(1, counting());
    tx.try_send(10).unwrap();
    assert_eq!(tx.try_send(11), Err(ring::TrySendError::Full(11)));
    assert_eq!(*tx.get(), 2);
    assert_eq!(tx.publish(), Err(ring::TryPublishError::Full));
    drop(rx);
    assert_eq!(tx.publish(), Err(ring::TryPublishError::Disconnected));
    assert_eq!(tx.try_send(12), Err(ring::TrySendError::Disconnected(12)));
    assert_eq!(*tx.get(), 2);
}

#[test]
fn ring_lends_values_without_a_default() {
    let (mut tx, mut rx) = ring::channel_with(1, || Opaque(0));
    assert_eq!(tx.try_send(Opaque(1)), Ok(Opaque(0)));
    assert_eq!(rx.try_recv(), Ok(&mut Opaque(1)));
    drop(tx);
    assert_eq!(rx.try_recv(), Err(ring::TryRecvError::Disconnected));
    assert!(!rx.is_connected());
}

#[test]
fn handoff_values_go_round() {
    let (mut tx, mut rx) = handoff::channel_with(counting());
    assert_eq!(*rx.get(), 0);
    assert_eq!(*tx.get(), 1);
    assert_eq!(tx.try_send(10), Ok(1));
    assert_eq!(*tx.get(), 2);
    assert_eq!(rx.try_recv(), Ok(&mut 10));
    assert_eq!(tx.try_send(11), Ok(2));
    assert_eq!(*tx.get(), 0);
    *rx.get_mut() = 42;
    assert_eq!(rx.try_recv(), Ok(&mut 11));
    assert_eq!(tx.try_send(12), Ok(0));
    assert_eq!(*tx.get(), 42);
}

#[test]
fn handoff_full_is_seen_by_both_sides() {
    let (mut tx, mut rx) = handoff::channel::<u32>();
    assert!(!tx.is_full());
    assert!(!rx.is_full());
    tx.try_send(1).unwrap();
    assert!(tx.is_full());
    assert!(rx.is_full());
    assert_eq!(tx.try_send(2), Err(handoff::TrySendError::Full(2)));
    assert_eq!(tx.publish(), Err(handoff::TryPublishError::Full));
    assert_eq!(rx.try_recv(), Ok(&mut 1));
    assert!(!tx.is_full());
    assert!(!rx.is_full());
    assert_eq!(rx.try_recv(), Err(handoff::TryRecvError::Empty));
}

#[test]
fn handoff_misses_no_counts() {
    let (mut tx, mut rx) = handoff::channel::<u64>();
    let mut total = 0;
    for step in 0..1000 {
        *tx.get_mut() += 1;
        if tx.publish().is_ok() {
            *tx.get_mut() = 0;
        }
        if step % 3 == 0 {
            if let Ok(n) = rx.try_recv() {
                total += *n;
            }
        }
    }
    while tx.publish().is_err() {
        total += *rx.try_recv().unwrap();
    }
    drop(tx);
    loop {
        match rx.try_recv() {
            Ok(n) => total += *n,
            Err(e) => {
                assert_eq!(e, handoff::TryRecvError::Disconnected);
                break;
            }
        }
    }
    assert_eq!(total, 1000);
}

#[test]
fn handoff_lends_values_without_a_default() {
    let (mut tx, mut rx) = handoff::channel_with(|| Opaque(0));
    assert_eq!(tx.try_send(Opaque(1)), Ok(Opaque(0)));
    assert_eq!(rx.try_recv(), Ok(&mut Opaque(1)));
}

#[test]
fn swap_receives_only_the_latest() {
    let (mut tx, mut rx) = swap::channel(0);
    for value in 1..=5 {
        tx.send(value);
    }
    assert_eq!(rx.try_recv(), Ok(&mut 5));
    assert_eq!(rx.try_recv(), Err(swap::TryRecvError::Empty));
    assert_eq!(*rx.get(), 5);
    assert!(!rx.update());
    *tx.get_mut() = 6;
    tx.publish();
    assert!(rx.update());
    assert_eq!(*rx.get(), 6);
}

#[test]
fn swap_values_go_round() {
    let (mut tx, mut rx) = swap::channel_with(0, 1, 2);
    assert_eq!(tx.send(10), 1);
    assert_eq!(*tx.get_mut(), 2);
    *rx.get_mut() = 100;
    assert_eq!(rx.try_recv(), Ok(&mut 10));
    assert_eq!(tx.send(11), 2);
    assert_eq!(*tx.get_mut(), 100);
}

#[test]
fn swap_disconnects_show() {
    let (mut tx, mut rx) = swap::channel(0);
    assert!(tx.is_connected());
    assert!(rx.is_connected());
    tx.send(1);
    drop(tx);
    assert_eq!(rx.try_recv(), Ok(&mut 1));
    assert_eq!(rx.try_recv(), Err(swap::TryRecvError::Disconnected));
    assert!(!rx.is_connected());
    let (tx, rx) = swap::channel(0);
    drop(rx);
    assert!(!tx.is_connected());
}

#[test]
fn watch_receives_only_the_latest() {
    let (mut tx, mut rx) = spsc_watch::channel_with(0, 1, 2);
    assert_eq!(*rx.get(), 0);
    assert_eq!(rx.recv(), None);
    assert_eq!(tx.send(10), 1);
    *tx.get_mut() = 11;
    tx.publish();
    assert_eq!(rx.recv_mut(), Some(&mut 11));
    assert!(!rx.update());
    *rx.get_mut() += 1;
    assert_eq!(*rx.get(), 12);
    tx.send(13);
    assert!(rx.update());
    assert_eq!(*rx.get(), 13);
}

#[test]
fn overwriting_keeps_the_newest() {
    for capacity in 1..6 {
        let (mut tx, mut rx) = overwrite::channel::<usize>(capacity);
        for value in 1..=20 {
            tx.send(value);
        }
        for value in (21 - capacity)..=20 {
            assert_eq!(rx.try_recv(), Ok(&mut value.clone()));
        }
        assert_eq!(rx.try_recv(), Err(overwrite::TryRecvError::Empty));
    }
}

#[test]
fn overwriting_values_go_round() {
    let (mut tx, mut rx) = overwrite::channel_with(1, counting());
    assert_eq!(*rx.get(), 1);
    assert_eq!(*tx.get(), 2);
    assert_eq!(tx.send(10), 2);
    assert_eq!(*tx.get(), 0);
    *rx.get_mut() = 100;
    assert_eq!(rx.try_recv(), Ok(&mut 10));
    assert_eq!(tx.send(11), 0);
    assert_eq!(*tx.get(), 100);
    assert_eq!(rx.try_recv(), Ok(&mut 11));
}

#[test]
fn overwriting_keeps_order_over_many_rounds() {
    let (mut tx, mut rx) = overwrite::channel::<u32>(3);
    let mut sent = 0;
    let mut last = 0;
    for round in 0..1000 {
        for _ in 0..(round % 6) {
            sent += 1;
            *tx.get_mut() = sent;
            tx.publish();
        }
        for _ in 0..(round % 4) {
            match rx.try_recv() {
                Ok(value) => {
                    assert!(*value > last && *value + 3 > sent);
                    last = *value;
                }
                Err(e) => {
                    assert_eq!(e, overwrite::TryRecvError::Empty);
                    assert_eq!(last, sent);
                }
            }
        }
    }
    assert!(last > 500);
}

#[test]
fn overwriting_one_entry_keeps_the_newest() {
    let (mut tx, mut rx) = overwrite::channel_with(1, counting());
    for val in 10..20 {
        tx.send(val);
        tx.send(val + 100);
        assert_eq!(rx.try_recv().map(|v| *v), Ok(val + 100));
        assert_eq!(rx.try_recv(), Err(overwrite::TryRecvError::Empty));
        assert_eq!(*rx.get(), val + 100);
    }
}

#[test]
fn overwriting_skips_what_was_overwritten() {
    let (mut tx, mut rx) = overwrite::channel::<u32>(3);
    for lap in 0..50 {
        for val in 0..8 {
            tx.send(lap * 8 + val);
        }
        for val in 5..8 {
            assert_eq!(rx.try_recv().map(|v| *v), Ok(lap * 8 + val));
        }
        assert_eq!(rx.try_recv(), Err(overwrite::TryRecvError::Empty));
    }
}

#[test]
fn overwriting_disconnects_show() {
    let (mut tx, rx) = overwrite::channel::<u32>(2);
    assert!(tx.is_connected());
    drop(rx);
    assert!(!tx.is_connected());
    tx.send(1);
}

#[test]
fn init_is_called_once_for_each_slot() {
    let mut calls = 0;
    drop(ring::channel_with(5, || {
        calls += 1;
        calls
    }));
    assert_eq!(calls, 7);
    drop(overwrite::channel_with(5, || {
        calls += 1;
        calls
    }));
    assert_eq!(calls, 14);
    drop(handoff::channel_with(|| {
        calls += 1;
        calls
    }));
    assert_eq!(calls, 17);
}

#[test]
fn slots_are_swapped_without_a_lock() {
    assert!(AtomicCell::<Box<[u64; 9]>>::is_lock_free());
    assert!(AtomicCell::<Option<Box<[u64; 9]>>>::is_lock_free());
    assert!(AtomicCell::<Box<Option<[u64; 9]>>>::is_lock_free());
}

#[test]
fn swap_lends_values_without_a_default() {
    let (mut tx, mut rx) = swap::channel_with(Opaque(0), Opaque(1), Opaque(2));
    assert_eq!(tx.send(Opaque(3)), Opaque(1));
    assert_eq!(*tx.get_mut(), Opaque(2));
    assert_eq!(rx.try_recv(), Ok(&mut Opaque(3)));
    tx.publish();
    assert_eq!(*tx.get_mut(), Opaque(0));
}

#[test]
fn watch_lends_values_without_a_default() {
    let (mut tx, mut rx) = spsc_watch::channel_with(Opaque(0), Opaque(1), Opaque(2));
    assert_eq!(tx.send(Opaque(3)), Opaque(1));
    assert_eq!(*tx.get_mut(), Opaque(2));
    assert_eq!(rx.recv(), Some(&mut Opaque(3)));
    tx.publish();
    assert_eq!(*tx.get_mut(), Opaque(0));
}

#[test]
fn overwriting_lends_values_without_a_default() {
    let mut count = 0;
    let (mut tx, mut rx) = overwrite::channel_with(1, || {
        count += 1;
        Opaque(count)
    });
    assert_eq!(*rx.get(), Opaque(2));
    assert_eq!(tx.send(Opaque(10)), Opaque(3));
    assert_eq!(*tx.get(), Opaque(1));
    assert_eq!(rx.try_recv(), Ok(&mut Opaque(10)));
    tx.publish();
    assert_eq!(*tx.get(), Opaque(2));
}

#[test]
fn sides_have_a_value_after_every_call() {
    let (mut tx, mut rx) = swap::channel::<u32>(0);
    let (mut watch_tx, mut watch_rx) = spsc_watch::channel::<u32>(0);
    let (mut over_tx, mut over_rx) = overwrite::channel::<u32>(2);
    for round in 0..100u32 {
        tx.send(round);
        watch_tx.send(round);
        over_tx.send(round);
        assert!(tx.has_staged() && watch_tx.has_staged() && over_tx.has_staged());
        if round % 3 != 1 {
            assert!(rx.update());
            assert!(watch_rx.update());
            assert!(over_rx.try_recv().is_ok());
        }
        assert!(rx.has_current() && watch_rx.has_current() && over_rx.has_current());
    }
}

#[test]
fn swap_brings_back_what_the_receiver_left() {
    let (mut tx, mut rx) = swap::channel_with(0, 1, 2);
    tx.send(10);
    *rx.get_mut() = 77;
    assert!(rx.update());
    tx.publish();
    assert_eq!(*tx.get_mut(), 77);
}

#[test]
fn watch_brings_back_what_the_receiver_left() {
    let (mut tx, mut rx) = spsc_watch::channel_with(0, 1, 2);
    tx.send(10);
    *rx.get_mut() = 77;
    assert!(rx.update());
    tx.publish();
    assert_eq!(*tx.get_mut(), 77);
}

#[test]
fn overwriting_brings_back_what_the_receiver_left() {
    let (mut tx, mut rx) = overwrite::channel_with(2, counting());
    tx.send(10);
    *rx.get_mut() = 77;
    assert_eq!(rx.try_recv(), Ok(&mut 10));
    tx.send(11);
    assert_eq!(*tx.get(), 1);
    // The entry that held 10 is overwritten next.
    tx.send(12);
    assert_eq!(*tx.get(), 77);
    // The value that nobody received comes back as it was.
    tx.send(13);
    assert_eq!(*tx.get(), 11);
}

#[test]
fn swap_send_exchanges_one_value() {
    let (mut tx, mut rx) = swap::channel_with(0, 1, 2);
    assert_eq!(tx.send(3), 1);
    assert_eq!(*rx.get(), 0);
    assert_eq!(*tx.get_mut(), 2);
    assert_eq!(rx.try_recv(), Ok(&mut 3));
}

#[test]
fn sides_are_connected_until_the_other_goes() {
    let (tx, rx) = ring::channel::<u32>(1);
    assert!(tx.is_connected() && rx.is_connected());
    drop(rx);
    assert!(!tx.is_connected());
    assert!(!tx.is_connected());

    let (tx, rx) = handoff::channel::<u32>();
    assert!(tx.is_connected() && rx.is_connected());
    drop(tx);
    assert!(!rx.is_connected());
    assert!(!rx.is_connected());

    let (tx, rx) = swap::channel::<u32>(0);
    assert!(tx.is_connected() && rx.is_connected());
    drop(rx);
    assert!(!tx.is_connected());

    let (tx, rx) = overwrite::channel::<u32>(1);
    assert!(tx.is_connected());
    drop(rx);
    assert!(!tx.is_connected());
}

#[test]
fn ring_keeps_values_until_both_sides_are_gone() {
    let value = Arc::new(());
    let (tx, rx) = ring::channel_with(1, || value.clone());
    assert_eq!(Arc::strong_count(&value), 4);
    drop(tx);
    assert_eq!(Arc::strong_count(&value), 4);
    drop(rx);
    assert_eq!(Arc::strong_count(&value), 1);
}

#[test]
fn handoff_keeps_values_until_both_sides_are_gone() {
    let value = Arc::new(());
    let (tx, rx) = handoff::channel_with(|| value.clone());
    assert_eq!(Arc::strong_count(&value), 4);
    drop(rx);
    assert_eq!(Arc::strong_count(&value), 4);
    drop(tx);
    assert_eq!(Arc::strong_count(&value), 1);
}

#[test]
fn swap_keeps_values_until_both_sides_are_gone() {
    let value = Arc::new(());
    let (tx, rx) = swap::channel_with(value.clone(), value.clone(), value.clone());
    drop(rx);
    assert_eq!(Arc::strong_count(&value), 4);
    drop(tx);
    assert_eq!(Arc::strong_count(&value), 1);
}

#[test]
fn watch_keeps_values_until_both_sides_are_gone() {
    let value = Arc::new(());
    let (tx, rx) = spsc_watch::channel_with(value.clone(), value.clone(), value.clone());
    drop(tx);
    assert_eq!(Arc::strong_count(&value), 4);
    drop(rx);
    assert_eq!(Arc::strong_count(&value), 1);
}

#[test]
fn overwriting_keeps_values_until_both_sides_are_gone() {
    let value = Arc::new(());
    let (tx, rx) = overwrite::channel_with(2, || value.clone());
    assert_eq!(Arc::strong_count(&value), 5);
    drop(tx);
    assert_eq!(Arc::strong_count(&value), 5);
    drop(rx);
    assert_eq!(Arc::strong_count(&value), 1);
}
