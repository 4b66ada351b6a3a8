//! A single-producer, single-consumer channel. The sender can keep updating the current value
//! until the receiver has read the previous value.
//!
//! The [`Sender`] and [`Receiver`] are wait-free.
//!
//! The channel retains ownership of values; the sender and receiver get `&mut T` access to the
//! values of their respective slots.
//!
//! This uses a triple buffer internally.
//!
//! Each side keeps the value of the slot it occupies at hand, and brings it back to the slot before
//! it moves on. When it is dropped, it leaves its value to the channel, which goes when both sides
//! are gone. Its `trace` records its accesses to shared memory, with what was handed over and what
//! came back; [`crate::protocol::handoff`] states what follows for the channel as a whole.
//!
//! # Example
//!
//! This channel can be used to fold changes into a single message, such as counting events or
//! collecting statistics.
//!
//! In the following example, the sender accumulates a count and publishes it when the receiver is
//! ready for the next batch. The receiver reads at its own pace, and no values are missed.
//!
//! ```
//! use pantograph::wf_wf::spsc_accumulate;
//!
//! let (mut tx, mut rx) = spsc_accumulate::channel::<u64>();
//!
//! let producer = std::thread::spawn(move || {
//!     for _ in 0..1000 {
//!         *tx.get_mut() += 1;
//!         if tx.publish().is_ok() {
//!             *tx.get_mut() = 0;
//!         }
//!     }
//!     // Flush remaining data.
//!     while tx.publish().is_err() {}
//! });
//!
//! let mut total = 0u64;
//! loop {
//!     match rx.try_recv() {
//!         Ok(n) => total += *n,
//!         Err(spsc_accumulate::TryRecvError::Empty) => std::thread::yield_now(),
//!         Err(spsc_accumulate::TryRecvError::Disconnected) => break,
//!     }
//! }
//! producer.join().unwrap();
//!
//! assert_eq!(total, 1000);
//! ```

use crate::cell::{boxed, happened, is_acquire, is_release, unboxed, Event, Flag, Slot, Switch};
use crate::protocol::handoff::{
    a_seen_value_is_found, after, can, channel_start, consistent, consistent_at_the_start,
    disconnected_stays_drained, gone_is_seen_of_the_gone, gone_stays_gone, is_on, next_index, play,
    play_extends, received_by, received_by_extends, receiver_asking_sees, receiver_finds_values,
    receiver_part, receiver_run, receiver_run_extends, receiver_sees, receiver_step, receiver_then,
    regained_by, regained_by_extends, returned_by, returned_by_extends, seen_room_is_found,
    sender_asking_sees, sender_finds_values, sender_part, sender_run, sender_run_extends,
    sender_sees, sender_step, sender_then, sent_by, sent_by_extends, the_switch_tells_what_waits,
    turns, values_arrive_in_order, what_was_sent_stays, Channel, Move, ReceiverAccess,
    ReceiverPhase, ReceiverState, SenderAccess, SenderPhase, SenderState,
};
use crate::memory::{
    comes_about, followed, gets, part, puts, unfolds, what_follows_comes_about,
    what_follows_comes_last, Memory, Step,
};
use crate::vault::{Leavable, Log, Name, Place, Region, Rx, Tie, Tx};
use std::sync::Arc;
use vstd::prelude::*;

verus! {

/// Errors returned by [`Sender::publish`].
#[derive(Clone, Copy, Debug, PartialEq, Eq, Structural)]
pub enum TryPublishError {
    /// The [`Receiver`] has not yet consumed the previous value.
    Full,
    /// The [`Receiver`] has disconnected.
    Disconnected,
}

/// Errors returned by [`Sender::try_send`].
///
/// These are the same as [`TryPublishError`] but return the input value.
#[derive(Debug, PartialEq, Eq)]
pub enum TrySendError<T> {
    /// The [`Receiver`] has not yet consumed the previous value. The value is returned.
    Full(T),
    /// The [`Receiver`] has disconnected. The value is returned.
    Disconnected(T),
}

/// Errors that can occur when trying to receive a value using [`Receiver::try_recv`].
#[derive(Clone, Copy, Debug, PartialEq, Eq, Structural)]
pub enum TryRecvError {
    /// The channel is empty.
    Empty,
    /// The channel is empty and the [`Sender`] side of the channel has disconnected.
    Disconnected,
}

/// What both sides of the channel can reach.
#[verifier::reject_recursive_types(T)]
pub struct Shared<T> {
    /// The three slots. Those that the two sides occupy are vacant.
    slots: Vec<Slot<Option<Box<T>>>>,
    /// Set when the sender has published a value that the receiver has not yet consumed.
    published: Switch,
    sender_disconnected: Flag,
    receiver_disconnected: Flag,
    /// The value that the sender had when it left.
    left_by_sender: Place<Option<Box<T>>>,
    /// The value that the receiver had when it left.
    left_by_receiver: Place<Option<Box<T>>>,
}

impl<T> Shared<T> {
    /// The cells of the memory are in `region`, each under its own number.
    spec fn is_in(&self, region: Name) -> bool {
        &&& forall|i: int|
            0 <= i < self.slots.len() ==> (#[trigger] self.slots[i]).region() == region
        &&& self.published.region() == region
        &&& self.sender_disconnected.region() == region
        &&& self.receiver_disconnected.region() == region
        &&& self.is_laid_out()
    }

    /// Each cell has its own number.
    spec fn is_laid_out(&self) -> bool {
        &&& forall|i: int| 0 <= i < self.slots.len() ==> (#[trigger] self.slots[i]).id() == i
        &&& self.published.id() == self.slots.len()
        &&& self.sender_disconnected.id() == self.slots.len() + 1
        &&& self.receiver_disconnected.id() == self.slots.len() + 2
    }

    /// Who looks whether a value is published and not consumed may see `full`. Only
    /// looking tells.
    pub closed spec fn may_show_full(&self, full: bool) -> bool {
        self.published.may_read(full)
    }

    /// Who looks whether the sender has disconnected may see `gone`. Only looking tells.
    pub closed spec fn may_show_sender_gone(&self, gone: bool) -> bool {
        self.sender_disconnected.may_read(gone)
    }

    /// Who looks whether the receiver has disconnected may see `gone`. Only looking tells.
    pub closed spec fn may_show_receiver_gone(&self, gone: bool) -> bool {
        self.receiver_disconnected.may_read(gone)
    }

    /// What the memory held first is what the memory of `c` holds.
    pub closed spec fn starts_as(&self, c: Channel<T>) -> bool {
        &&& self.slots.len() == c.slots.len()
        &&& forall|i: int|
            0 <= i < c.slots.len() ==> (#[trigger] self.slots[i]).first() == boxed(c.slots[i])
        &&& self.published.first() == is_on(turns(c))
        &&& self.sender_disconnected.first() == c.sender_gone
        &&& self.receiver_disconnected.first() == c.receiver_gone
    }
}

impl<T> Leavable for Shared<T> {
    closed spec fn leaves_in(&self, region: Name) -> bool {
        &&& self.sender_disconnected.region() == region
        &&& self.sender_disconnected.is_senders()
        &&& self.receiver_disconnected.region() == region
        &&& !self.receiver_disconnected.is_senders()
        &&& self.left_by_sender.region() == region
        &&& self.left_by_sender.is_senders()
        &&& self.left_by_receiver.region() == region
        &&& !self.left_by_receiver.is_senders()
    }
}

/// What the cells record of an access of the sender.
spec fn sender_event<T>(m: &Shared<T>, a: SenderAccess<T>) -> Event<Option<Box<T>>> {
    match a {
        SenderAccess::LoadGone(got) => Event::ReadFlag { cell: m.receiver_disconnected, got },
        SenderAccess::LoadPublished(got) => Event::ReadSwitch { cell: m.published, got },
        SenderAccess::AcquirePublished(got) => Event::AcquireSwitch { cell: m.published, got },
        SenderAccess::TakeSlot { slot, got } => Event::ExchangeSlot {
            cell: m.slots[slot as int],
            given: None,
            got: boxed(got),
        },
        SenderAccess::FillSlot { slot, val, displaced } => Event::ExchangeSlot {
            cell: m.slots[slot as int],
            given: Some(Box::new(val)),
            got: boxed(displaced),
        },
        SenderAccess::Publish => Event::ReleaseSwitch { cell: m.published, on: true },
    }
}

/// What the cells record of the accesses of the sender.
spec fn sender_events<T>(m: &Shared<T>, trace: Seq<SenderAccess<T>>) -> Seq<Event<Option<Box<T>>>> {
    trace.map_values(|a: SenderAccess<T>| sender_event(m, a))
}

/// One more access of the sender is one more event.
proof fn sender_events_extend<T>(m: &Shared<T>, trace: Seq<SenderAccess<T>>, a: SenderAccess<T>)
    ensures
        sender_events(m, trace.push(a)) == sender_events(m, trace).push(sender_event(m, a)),
{
    assert(sender_events(m, trace.push(a)) =~= sender_events(m, trace).push(sender_event(m, a)));
}

/// What the cells record of an access of the receiver.
spec fn receiver_event<T>(m: &Shared<T>, a: ReceiverAccess<T>) -> Event<Option<Box<T>>> {
    match a {
        ReceiverAccess::AcquirePublished(got) => Event::AcquireSwitch { cell: m.published, got },
        ReceiverAccess::LoadGone(got) => Event::ReadFlag { cell: m.sender_disconnected, got },
        ReceiverAccess::AcquireGone(got) => Event::AcquireFlag { cell: m.sender_disconnected, got },
        ReceiverAccess::TakeSlot { slot, got } => Event::ExchangeSlot {
            cell: m.slots[slot as int],
            given: None,
            got: boxed(got),
        },
        ReceiverAccess::FillSlot { slot, val, displaced } => Event::ExchangeSlot {
            cell: m.slots[slot as int],
            given: Some(Box::new(val)),
            got: boxed(displaced),
        },
        ReceiverAccess::Clear => Event::ReleaseSwitch { cell: m.published, on: false },
    }
}

/// What the cells record of the accesses of the receiver.
spec fn receiver_events<T>(m: &Shared<T>, trace: Seq<ReceiverAccess<T>>) -> Seq<
    Event<Option<Box<T>>>,
> {
    trace.map_values(|a: ReceiverAccess<T>| receiver_event(m, a))
}

/// One more access of the receiver is one more event.
proof fn receiver_events_extend<T>(
    m: &Shared<T>,
    trace: Seq<ReceiverAccess<T>>,
    a: ReceiverAccess<T>,
)
    ensures
        receiver_events(m, trace.push(a)) == receiver_events(m, trace).push(receiver_event(m, a)),
{
    assert(receiver_events(m, trace.push(a)) =~= receiver_events(m, trace).push(
        receiver_event(m, a),
    ));
}

/// The slot after slot `index`.
fn step(index: u8) -> (r: u8)
    requires
        index < 3,
    ensures
        r == next_index(index),
        r < 3,
{
    (index + 1) % 3
}

/// The sender side of the accumulating channel.
///
/// Construct the [`Sender`] and [`Receiver`] by calling [`channel`].
#[verifier::reject_recursive_types(T)]
pub struct Sender<T> {
    shared: Tie<Shared<T>, Tx>,
    /// The slot that the sender occupies.
    index: u8,
    /// The value of the sender's slot.
    staged: Option<Box<T>>,
    /// What the sender has done to the cells so far.
    log: Log<Option<Box<T>>>,
    /// The accesses of the sender to shared memory so far.
    trace: Ghost<Seq<SenderAccess<T>>>,
    /// The values that the channel was made with.
    initial: Ghost<Seq<T>>,
}

/// The receiver side of the accumulating channel.
///
/// Construct the [`Sender`] and [`Receiver`] by calling [`channel`].
#[verifier::reject_recursive_types(T)]
pub struct Receiver<T> {
    shared: Tie<Shared<T>, Rx>,
    /// The slot that the receiver occupies.
    index: u8,
    /// The value of the receiver's slot.
    current: Option<Box<T>>,
    /// What the receiver has done to the cells so far.
    log: Log<Option<Box<T>>>,
    /// The accesses of the receiver to shared memory so far.
    trace: Ghost<Seq<ReceiverAccess<T>>>,
    /// The values that the channel was made with.
    initial: Ghost<Seq<T>>,
}

/// The sender as the contracts see it.
#[verifier::ext_equal]
#[verifier::reject_recursive_types(T)]
pub struct SenderView<T> {
    pub index: u8,
    pub staged: T,
    pub trace: Seq<SenderAccess<T>>,
    pub memory: Shared<T>,
    pub initial: Seq<T>,
}

/// The receiver as the contracts see it.
#[verifier::ext_equal]
#[verifier::reject_recursive_types(T)]
pub struct ReceiverView<T> {
    pub index: u8,
    pub current: T,
    pub trace: Seq<ReceiverAccess<T>>,
    pub memory: Shared<T>,
    pub initial: Seq<T>,
}

impl<T> SenderView<T> {
    /// The values that were sent so far, in order.
    pub open spec fn sent(self) -> Seq<T> {
        sent_by(self.trace)
    }

    /// The values that were taken from the channel to stage them so far, in order.
    pub open spec fn regained(self) -> Seq<T> {
        regained_by(self.trace)
    }

    /// The sender with `val` as its staged value.
    pub open spec fn staging(self, val: T) -> Self {
        SenderView { staged: val, ..self }
    }

    /// The sender after it has read whether the receiver is gone.
    pub open spec fn after_gone(self, gone: bool) -> Self {
        SenderView { trace: self.trace.push(SenderAccess::LoadGone(gone)), ..self }
    }

    /// The sender after it has read whether a published value has not been consumed.
    pub open spec fn after_load(self, on: bool) -> Self {
        SenderView { trace: self.trace.push(SenderAccess::LoadPublished(on)), ..self }
    }

    /// The sender after it has acquired whether a published value has not been consumed.
    pub open spec fn after_acquire(self, on: bool) -> Self {
        SenderView { trace: self.trace.push(SenderAccess::AcquirePublished(on)), ..self }
    }

    /// The sender after it has taken what is in the next slot.
    pub open spec fn after_take(self, got: Option<T>) -> Self {
        SenderView {
            trace: self.trace.push(SenderAccess::TakeSlot { slot: next_index(self.index), got }),
            ..self
        }
    }

    /// The sender after it has put its staged value, for `next`, into its slot, in place of
    /// `displaced`, and has moved on.
    pub open spec fn after_commit(self, next: T, displaced: Option<T>) -> Self {
        SenderView {
            index: next_index(self.index),
            staged: next,
            trace: self.trace.push(
                SenderAccess::FillSlot { slot: self.index, val: self.staged, displaced },
            ).push(SenderAccess::Publish),
            ..self
        }
    }
}

/// The sender after it has found that it may publish, and has taken what is in the next slot. `on`
/// is what it read when it acquired the switch.
pub open spec fn after_reserve<T>(v: SenderView<T>, on: bool, got: Option<T>) -> SenderView<T> {
    v.after_gone(false).after_load(false).after_acquire(on).after_take(got)
}

/// Reserving the next slot, in which there was `got`, can turn `before` into `after`.
pub open spec fn reserves<T>(before: SenderView<T>, got: Option<T>, after: SenderView<T>) -> bool {
    exists|on: bool| after == #[trigger] after_reserve(before, on, got)
}

/// The sender after it has published its staged value. `next` lay in the next slot.
pub open spec fn after_publish<T>(
    v: SenderView<T>,
    on: bool,
    next: T,
    displaced: Option<T>,
) -> SenderView<T> {
    after_reserve(v, on, Some(next)).after_commit(next, displaced)
}

/// A call to publish can turn `before` into `after`, with result `r`. It fails if the receiver is
/// seen to be gone, if a published value is seen not to have been consumed, or if there is nothing
/// in the next slot.
pub open spec fn publishes<T>(
    before: SenderView<T>,
    r: Result<(), TryPublishError>,
    after: SenderView<T>,
) -> bool {
    match r {
        Err(TryPublishError::Disconnected) => after == before.after_gone(true),
        Err(TryPublishError::Full) => {
            ||| after == before.after_gone(false).after_load(true)
            ||| reserves(before, None, after)
        },
        Ok(()) => exists|on: bool, displaced: Option<T>|
            after == #[trigger] after_publish(before, on, after.staged, displaced),
    }
}

/// A call to publish makes at most six accesses to shared memory, whatever the receiver does.
pub proof fn publishing_is_wait_free<T>(
    before: SenderView<T>,
    r: Result<(), TryPublishError>,
    after: SenderView<T>,
)
    requires
        publishes(before, r, after),
    ensures
        before.trace.len() < after.trace.len() <= before.trace.len() + 6,
        after.trace.take(before.trace.len() as int) == before.trace,
{
    assert(after.trace.take(before.trace.len() as int) =~= before.trace);
}

/// What was sent is what it was, with the staged value at the end if the call to publish it
/// succeeded.
pub proof fn publishing_appends<T>(
    before: SenderView<T>,
    r: Result<(), TryPublishError>,
    after: SenderView<T>,
)
    requires
        publishes(before, r, after),
    ensures
        after.sent() == (if r is Ok {
            before.sent().push(before.staged)
        } else {
            before.sent()
        }),
{
    broadcast use sent_by_extends;

}

/// What was regained is what it was, with the new staged value at the end if the call to publish
/// succeeded. If it failed, the staged value is what it was.
pub proof fn publishing_regains<T>(
    before: SenderView<T>,
    r: Result<(), TryPublishError>,
    after: SenderView<T>,
)
    requires
        publishes(before, r, after),
    ensures
        after.regained() == (if r is Ok {
            before.regained().push(after.staged)
        } else {
            before.regained()
        }),
        r is Err ==> after.staged == before.staged,
{
    broadcast use regained_by_extends;

}

impl<T> ReceiverView<T> {
    /// The values that were received so far, in order.
    pub open spec fn received(self) -> Seq<T> {
        received_by(self.trace)
    }

    /// The values that were put back into the channel so far, in order.
    pub open spec fn returned(self) -> Seq<T> {
        returned_by(self.trace)
    }

    /// The receiver with `val` as its current value.
    pub open spec fn holding(self, val: T) -> Self {
        ReceiverView { current: val, ..self }
    }

    /// The receiver after it has read whether a value is published.
    pub open spec fn after_load(self, on: bool) -> Self {
        ReceiverView { trace: self.trace.push(ReceiverAccess::AcquirePublished(on)), ..self }
    }

    /// The receiver after it has read whether the sender is gone.
    pub open spec fn after_gone(self, gone: bool) -> Self {
        ReceiverView { trace: self.trace.push(ReceiverAccess::LoadGone(gone)), ..self }
    }

    /// The receiver after it has acquired whether the sender is gone.
    pub open spec fn after_acquire(self, gone: bool) -> Self {
        ReceiverView { trace: self.trace.push(ReceiverAccess::AcquireGone(gone)), ..self }
    }

    /// The receiver after it has taken what is in the next slot.
    pub open spec fn after_take(self, got: Option<T>) -> Self {
        ReceiverView {
            trace: self.trace.push(ReceiverAccess::TakeSlot { slot: next_index(self.index), got }),
            ..self
        }
    }

    /// The receiver after it has put its current value, for `next`, back into its slot, in place of
    /// `displaced`, and has moved on.
    pub open spec fn after_commit(self, next: T, displaced: Option<T>) -> Self {
        ReceiverView {
            index: next_index(self.index),
            current: next,
            trace: self.trace.push(
                ReceiverAccess::FillSlot { slot: self.index, val: self.current, displaced },
            ).push(ReceiverAccess::Clear),
            ..self
        }
    }
}

/// The receiver after it has looked for a value, found none, found the sender gone, and looked
/// again. `gone` is what it read when it acquired whether the sender is gone.
pub open spec fn after_second_look<T>(v: ReceiverView<T>, gone: bool, on: bool) -> ReceiverView<T> {
    v.after_load(false).after_gone(true).after_acquire(gone).after_load(on)
}

/// Looking for a value can turn `before` into `after`, with result `r`. The receiver looks again if
/// there was none and the sender is seen to be gone.
pub open spec fn polls<T>(
    before: ReceiverView<T>,
    r: Result<(), TryRecvError>,
    after: ReceiverView<T>,
) -> bool {
    match r {
        Err(TryRecvError::Empty) => after == before.after_load(false).after_gone(false),
        Err(TryRecvError::Disconnected) => exists|gone: bool|
            after == #[trigger] after_second_look(before, gone, false),
        Ok(()) => {
            ||| after == before.after_load(true)
            ||| exists|gone: bool| after == #[trigger] after_second_look(before, gone, true)
        },
    }
}

/// The receiver after it has taken `next` and moved on.
pub open spec fn after_receive<T>(
    v: ReceiverView<T>,
    next: T,
    displaced: Option<T>,
) -> ReceiverView<T> {
    v.after_take(Some(next)).after_commit(next, displaced)
}

/// A call to receive can turn `before` into `after`, with result `r`. It fails if no value is
/// found, or if there is nothing in the next slot.
pub open spec fn receives<T>(
    before: ReceiverView<T>,
    r: Result<(), TryRecvError>,
    after: ReceiverView<T>,
) -> bool {
    match r {
        Err(e) => {
            ||| polls(before, r, after)
            ||| e is Empty && exists|mid: ReceiverView<T>| #[trigger]
                polls(before, Ok(()), mid) && after == mid.after_take(None)
        },
        Ok(()) => exists|mid: ReceiverView<T>, displaced: Option<T>| #[trigger]
            polls(before, Ok(()), mid) && after == #[trigger] after_receive(
                mid,
                after.current,
                displaced,
            ),
    }
}

/// A call to receive makes at most seven accesses to shared memory, whatever the sender does.
pub proof fn receiving_is_wait_free<T>(
    before: ReceiverView<T>,
    r: Result<(), TryRecvError>,
    after: ReceiverView<T>,
)
    requires
        receives(before, r, after),
    ensures
        before.trace.len() < after.trace.len() <= before.trace.len() + 7,
        after.trace.take(before.trace.len() as int) == before.trace,
{
    assert(after.trace.take(before.trace.len() as int) =~= before.trace);
}

/// What was received is what it was, with the new current value at the end if the call to receive
/// it succeeded.
pub proof fn receiving_appends<T>(
    before: ReceiverView<T>,
    r: Result<(), TryRecvError>,
    after: ReceiverView<T>,
)
    requires
        receives(before, r, after),
    ensures
        after.received() == (if r is Ok {
            before.received().push(after.current)
        } else {
            before.received()
        }),
{
    broadcast use received_by_extends;

}

/// What was returned is what it was, with the value that the receiver had at the end if the call to
/// receive succeeded. If it failed, the current value is what it was.
pub proof fn receiving_returns<T>(
    before: ReceiverView<T>,
    r: Result<(), TryRecvError>,
    after: ReceiverView<T>,
)
    requires
        receives(before, r, after),
    ensures
        after.returned() == (if r is Ok {
            before.returned().push(before.current)
        } else {
            before.returned()
        }),
        r is Err ==> after.current == before.current,
{
    broadcast use returned_by_extends;

}

impl<T> Sender<T> {
    /// The sender as the contracts see it.
    pub closed spec fn view(&self) -> SenderView<T> {
        SenderView {
            index: self.index,
            staged: *self.staged->0,
            trace: self.trace@,
            memory: *self.shared.m(),
            initial: self.initial@,
        }
    }

    /// The channel has three slots, and the sender occupies one of them.
    pub closed spec fn sized(&self) -> bool {
        &&& self.shared.m().slots.len() == 3
        &&& self.index < 3
        &&& self.staged is Some
    }

    /// The sender, which was `before`, has left its value to the channel and announced that it is
    /// gone.
    pub closed spec fn has_left(&self, before: &Self) -> bool {
        before.shared.is_tied() ==> {
            &&& before.shared.m().left_by_sender.was_left(before.staged)
            &&& self.log@ == before.log@.push(
                Event::ReleaseFlag { cell: before.shared.m().sender_disconnected },
            )
        }
    }

    /// Everything that the sender has done to the cells, and that it has left if `gone` says so.
    pub closed spec fn history(&self, gone: bool) -> Seq<Event<Option<Box<T>>>> {
        if gone {
            self.log@.push(Event::ReleaseFlag { cell: self.shared.m().sender_disconnected })
        } else {
            self.log@
        }
    }

    /// What [`is_connected`](Self::is_connected) does to the cells when it sees `gone`.
    pub closed spec fn asking(&self, gone: bool) -> Event<Option<Box<T>>> {
        Event::ReadFlag { cell: self.shared.m().receiver_disconnected, got: gone }
    }

    /// What [`is_full`](Self::is_full) does to the cells when it sees `full`.
    pub closed spec fn checking(&self, full: bool) -> Event<Option<Box<T>>> {
        Event::ReadSwitch { cell: self.shared.m().published, got: full }
    }

    /// The accesses of the trace were made: the cells have recorded them.
    pub closed spec fn recorded(&self) -> bool {
        &&& self.log@ == sender_events(self.shared.m(), self.trace@)
        &&& self.shared.m().is_in(self.log.region())
        &&& self.shared.is_tied()
        &&& self.shared.m().starts_as(channel_start(slots_at_start(self.initial@)))
    }

    /// The sender's accesses were made, and have brought it to where it is.
    pub open spec fn in_phase(&self, phase: SenderPhase) -> bool {
        &&& self.recorded()
        &&& sender_run(self@.trace) == Some(SenderState { index: self@.index, phase })
    }

    /// The sender has followed the protocol and is not in the middle of publishing.
    pub open spec fn wf(&self) -> bool {
        &&& self.sized()
        &&& self.in_phase(SenderPhase::Idle)
    }

    /// Get the sender's staged value.
    pub fn get(&self) -> (r: &T)
        requires
            self.wf(),
        ensures
            *r == self@.staged,
    {
        self.staged.as_ref().unwrap()
    }

    /// Get the currently staged value mutably.
    pub fn get_mut(&mut self) -> (r: &mut T)
        requires
            old(self).wf(),
        ensures
            *r == old(self)@.staged,
            final(self)@ == old(self)@.staging(*final(r)),
            final(self).wf(),
    {
        self.staged.as_mut().unwrap()
    }

    /// Returns `true` if the channel is full (the receiver has not consumed the last published
    /// value). The other side decides when that ends.
    ///
    /// This does not check whether the [`Receiver`] has disconnected. Use
    /// [`is_connected`](Self::is_connected) for that.
    pub fn is_full(&self) -> (r: bool)
        ensures
            self@.memory.may_show_full(r),
    {
        self.shared.m().published.peek()
    }

    /// Reads whether the receiver has disconnected.
    fn load_gone(&mut self) -> (got: bool)
        requires
            old(self).recorded(),
        ensures
            final(self).shared == old(self).shared,
            final(self).staged == old(self).staged,
            final(self)@ == old(self)@.after_gone(got),
            final(self).recorded(),
            sender_run(final(self)@.trace) == sender_then(
                sender_run(old(self)@.trace),
                final(self)@.trace.last(),
            ),
    {
        let got = self.shared.m().receiver_disconnected.read(&mut self.log);
        proof {
            let a = SenderAccess::LoadGone(got);
            sender_run_extends(self.trace@, a);
            sender_events_extend(self.shared.m(), self.trace@, a);
            self.trace@ = self.trace@.push(a);
        }
        got
    }

    /// Reads whether a published value has not been consumed.
    fn load_published(&mut self) -> (got: bool)
        requires
            old(self).recorded(),
        ensures
            final(self).shared == old(self).shared,
            final(self).staged == old(self).staged,
            final(self)@ == old(self)@.after_load(got),
            final(self).recorded(),
            sender_run(final(self)@.trace) == sender_then(
                sender_run(old(self)@.trace),
                final(self)@.trace.last(),
            ),
    {
        let got = self.shared.m().published.read(&mut self.log);
        proof {
            let a = SenderAccess::LoadPublished(got);
            sender_run_extends(self.trace@, a);
            sender_events_extend(self.shared.m(), self.trace@, a);
            self.trace@ = self.trace@.push(a);
        }
        got
    }

    /// Acquires `published`. This synchronizes with the receiver's release when it cleared it,
    /// ensuring the sender sees the slot that the receiver released.
    fn acquire_published(&mut self) -> (got: bool)
        requires
            old(self).recorded(),
        ensures
            final(self).shared == old(self).shared,
            final(self).staged == old(self).staged,
            final(self)@ == old(self)@.after_acquire(got),
            final(self).recorded(),
            sender_run(final(self)@.trace) == sender_then(
                sender_run(old(self)@.trace),
                final(self)@.trace.last(),
            ),
    {
        let got = self.shared.m().published.acquire(&mut self.log);
        proof {
            let a = SenderAccess::AcquirePublished(got);
            sender_run_extends(self.trace@, a);
            sender_events_extend(self.shared.m(), self.trace@, a);
            self.trace@ = self.trace@.push(a);
        }
        got
    }

    /// Takes what is in the next slot.
    fn take_slot(&mut self) -> (got: Option<Box<T>>)
        requires
            old(self).recorded(),
            old(self).sized(),
        ensures
            final(self).shared == old(self).shared,
            final(self).staged == old(self).staged,
            final(self)@ == old(self)@.after_take(unboxed(got)),
            final(self).recorded(),
            sender_run(final(self)@.trace) == sender_then(
                sender_run(old(self)@.trace),
                final(self)@.trace.last(),
            ),
    {
        let got = self.shared.m().slots[step(self.index) as usize].exchange(None, &mut self.log);
        proof {
            let a = SenderAccess::TakeSlot { slot: next_index(self.index), got: unboxed(got) };
            sender_run_extends(self.trace@, a);
            sender_events_extend(self.shared.m(), self.trace@, a);
            self.trace@ = self.trace@.push(a);
        }
        got
    }

    /// Makes sure that the staged value can be published, and takes what is in the next slot.
    fn reserve(&mut self) -> (r: Result<Box<T>, TryPublishError>)
        requires
            old(self).wf(),
        ensures
            final(self).shared == old(self).shared,
            final(self).staged == old(self).staged,
            match r {
                Ok(next) => {
                    &&& final(self).in_phase(SenderPhase::Taken)
                    &&& reserves(old(self)@, Some(*next), final(self)@)
                },
                Err(e) => {
                    &&& final(self).in_phase(SenderPhase::Idle)
                    &&& publishes(old(self)@, Err(e), final(self)@)
                },
            },
    {
        if self.load_gone() {
            return Err(TryPublishError::Disconnected);
        }
        if self.load_published() {
            return Err(TryPublishError::Full);
        }
        let on = self.acquire_published();
        let got = self.take_slot();
        assert(self@ == after_reserve(old(self)@, on, unboxed(got)));
        assert(reserves(old(self)@, unboxed(got), self@));
        match got {
            Some(next) => Ok(next),
            None => Err(TryPublishError::Full),
        }
    }

    /// Puts the staged value into its slot, makes `next` the staged value, and publishes the slot.
    fn commit(&mut self, next_val: Box<T>) -> (displaced: Ghost<Option<T>>)
        requires
            old(self).sized(),
            old(self).in_phase(SenderPhase::Taken),
        ensures
            final(self).wf(),
            final(self)@ == old(self)@.after_commit(*next_val, displaced@),
    {
        let mut val = Some(next_val);
        std::mem::swap(&mut self.staged, &mut val);
        let ghost put = *val->0;
        let displaced = self.shared.m().slots[self.index as usize].exchange(val, &mut self.log);
        let ghost a = SenderAccess::FillSlot {
            slot: self.index,
            val: put,
            displaced: unboxed(displaced),
        };
        proof {
            sender_run_extends(self.trace@, a);
            sender_events_extend(self.shared.m(), self.trace@, a);
            self.trace@ = self.trace@.push(a);
        }
        self.shared.m().published.release(true, &mut self.log);
        self.index = step(self.index);
        proof {
            let b = SenderAccess::Publish;
            sender_run_extends(self.trace@, b);
            sender_events_extend(self.shared.m(), self.trace@, b);
            self.trace@ = self.trace@.push(b);
        }
        Ghost(unboxed(displaced))
    }

    /// Publish the staged value into the channel.
    ///
    /// The sender's new staged value is an old value from the channel.
    pub fn publish(&mut self) -> (r: Result<(), TryPublishError>)
        requires
            old(self).wf(),
        ensures
            final(self).wf(),
            publishes(old(self)@, r, final(self)@),
            final(self)@.sent() == (if r is Ok {
                old(self)@.sent().push(old(self)@.staged)
            } else {
                old(self)@.sent()
            }),
    {
        match self.reserve() {
            Ok(next) => {
                let ghost on = choose|on: bool|
                    self@ == #[trigger] after_reserve(old(self)@, on, Some(*next));
                let displaced = self.commit(next);
                assert(self@ == after_publish(old(self)@, on, self@.staged, displaced@));
                proof {
                    publishing_appends(old(self)@, Ok(()), self@);
                }
                Ok(())
            },
            Err(e) => {
                proof {
                    publishing_appends(old(self)@, Err(e), self@);
                }
                Err(e)
            },
        }
    }

    /// Replace the staged value and publish it. Returns the old staged value on success, or the
    /// new value back on failure.
    ///
    /// This is equivalent to replacing the value from [`Self::get_mut`] followed by
    /// [`Self::publish`].
    pub fn try_send(&mut self, val: T) -> (r: Result<T, TrySendError<T>>)
        requires
            old(self).wf(),
        ensures
            final(self).wf(),
            match r {
                Ok(prev) => prev == old(self)@.staged && publishes(
                    old(self)@.staging(val),
                    Ok(()),
                    final(self)@,
                ),
                Err(TrySendError::Full(back)) => back == val && publishes(
                    old(self)@,
                    Err(TryPublishError::Full),
                    final(self)@,
                ),
                Err(TrySendError::Disconnected(back)) => back == val && publishes(
                    old(self)@,
                    Err(TryPublishError::Disconnected),
                    final(self)@,
                ),
            },
            final(self)@.sent() == (if r is Ok {
                old(self)@.sent().push(val)
            } else {
                old(self)@.sent()
            }),
    {
        match self.reserve() {
            Ok(next) => {
                let ghost on = choose|on: bool|
                    self@ == #[trigger] after_reserve(old(self)@, on, Some(*next));
                let mut prev = val;
                std::mem::swap(&mut **self.staged.as_mut().unwrap(), &mut prev);
                let displaced = self.commit(next);
                assert(self@ == after_publish(
                    old(self)@.staging(val),
                    on,
                    self@.staged,
                    displaced@,
                ));
                proof {
                    publishing_appends(old(self)@.staging(val), Ok(()), self@);
                }
                Ok(prev)
            },
            Err(e) => {
                proof {
                    publishing_appends(old(self)@, Err(e), self@);
                }
                match e {
                    TryPublishError::Full => Err(TrySendError::Full(val)),
                    TryPublishError::Disconnected => Err(TrySendError::Disconnected(val)),
                }
            },
        }
    }

    /// Returns `true` if the [`Receiver`] is still alive. The other side decides when that ends.
    pub fn is_connected(&self) -> (r: bool)
        ensures
            self@.memory.may_show_receiver_gone(!r),
    {
        !self.shared.m().receiver_disconnected.peek()
    }
}

impl<T> Drop for Sender<T> {
    fn drop(&mut self)
        ensures
            final(self).has_left(old(self)),
        opens_invariants none
        no_unwind
    {
        if let Some(pass) = self.shared.part() {
            let mut last = None;
            std::mem::swap(&mut last, &mut self.staged);
            let (_found, pass) = self.shared.m().left_by_sender.leave(last, pass);
            self.shared.m().sender_disconnected.release(pass, &mut self.log);
        }
    }
}

impl<T> Receiver<T> {
    /// The receiver as the contracts see it.
    pub closed spec fn view(&self) -> ReceiverView<T> {
        ReceiverView {
            index: self.index,
            current: *self.current->0,
            trace: self.trace@,
            memory: *self.shared.m(),
            initial: self.initial@,
        }
    }

    /// The channel has three slots, and the receiver occupies one of them.
    pub closed spec fn sized(&self) -> bool {
        &&& self.shared.m().slots.len() == 3
        &&& self.index < 3
        &&& self.current is Some
    }

    /// The receiver, which was `before`, has left its value to the channel and announced that it is
    /// gone.
    pub closed spec fn has_left(&self, before: &Self) -> bool {
        before.shared.is_tied() ==> {
            &&& before.shared.m().left_by_receiver.was_left(before.current)
            &&& self.log@ == before.log@.push(
                Event::RaiseFlag { cell: before.shared.m().receiver_disconnected },
            )
        }
    }

    /// Everything that the receiver has done to the cells, and that it has left if `gone` says so.
    pub closed spec fn history(&self, gone: bool) -> Seq<Event<Option<Box<T>>>> {
        if gone {
            self.log@.push(Event::RaiseFlag { cell: self.shared.m().receiver_disconnected })
        } else {
            self.log@
        }
    }

    /// What [`is_connected`](Self::is_connected) does to the cells when it sees `gone`.
    pub closed spec fn asking(&self, gone: bool) -> Event<Option<Box<T>>> {
        Event::ReadFlag { cell: self.shared.m().sender_disconnected, got: gone }
    }

    /// What [`is_full`](Self::is_full) does to the cells when it sees `full`.
    pub closed spec fn checking(&self, full: bool) -> Event<Option<Box<T>>> {
        Event::ReadSwitch { cell: self.shared.m().published, got: full }
    }

    /// The accesses of the trace were made: the cells have recorded them.
    pub closed spec fn recorded(&self) -> bool {
        &&& self.log@ == receiver_events(self.shared.m(), self.trace@)
        &&& self.shared.m().is_in(self.log.region())
        &&& self.shared.is_tied()
        &&& self.shared.m().starts_as(channel_start(slots_at_start(self.initial@)))
    }

    /// The receiver's accesses were made, and have brought it to where it is.
    pub open spec fn in_phase(&self, phase: ReceiverPhase) -> bool {
        &&& self.recorded()
        &&& receiver_run(self@.trace) == Some(ReceiverState { index: self@.index, phase })
    }

    /// The receiver has followed the protocol and is not in the middle of receiving.
    pub open spec fn wf(&self) -> bool {
        &&& self.sized()
        &&& self.in_phase(ReceiverPhase::Idle)
    }

    /// Get the receiver's current value.
    pub fn get(&self) -> (r: &T)
        requires
            self.wf(),
        ensures
            *r == self@.current,
    {
        self.current.as_ref().unwrap()
    }

    /// Get the receiver's current value mutably.
    pub fn get_mut(&mut self) -> (r: &mut T)
        requires
            old(self).wf(),
        ensures
            *r == old(self)@.current,
            final(self)@ == old(self)@.holding(*final(r)),
            final(self).wf(),
    {
        self.current.as_mut().unwrap()
    }

    /// Returns `true` if the channel is full, in which case the next call to [`Self::try_recv`] is
    /// guaranteed to return `Ok`. The other side decides when it becomes so.
    ///
    /// This does not check whether the [`Sender`] has disconnected. Use
    /// [`is_connected`](Self::is_connected) for that.
    pub fn is_full(&self) -> (r: bool)
        ensures
            self@.memory.may_show_full(r),
    {
        self.shared.m().published.peek()
    }

    /// Acquires `published`. This synchronizes with the sender's release, ensuring the receiver
    /// sees the data the sender wrote to the published slot.
    fn acquire_published(&mut self) -> (got: bool)
        requires
            old(self).recorded(),
        ensures
            final(self).shared == old(self).shared,
            final(self).current == old(self).current,
            final(self)@ == old(self)@.after_load(got),
            final(self).recorded(),
            receiver_run(final(self)@.trace) == receiver_then(
                receiver_run(old(self)@.trace),
                final(self)@.trace.last(),
            ),
    {
        let got = self.shared.m().published.acquire(&mut self.log);
        proof {
            let a = ReceiverAccess::AcquirePublished(got);
            receiver_run_extends(self.trace@, a);
            receiver_events_extend(self.shared.m(), self.trace@, a);
            self.trace@ = self.trace@.push(a);
        }
        got
    }

    /// Reads whether the sender has disconnected.
    fn load_gone(&mut self) -> (got: bool)
        requires
            old(self).recorded(),
        ensures
            final(self).shared == old(self).shared,
            final(self).current == old(self).current,
            final(self)@ == old(self)@.after_gone(got),
            final(self).recorded(),
            receiver_run(final(self)@.trace) == receiver_then(
                receiver_run(old(self)@.trace),
                final(self)@.trace.last(),
            ),
    {
        let got = self.shared.m().sender_disconnected.read(&mut self.log);
        proof {
            let a = ReceiverAccess::LoadGone(got);
            receiver_run_extends(self.trace@, a);
            receiver_events_extend(self.shared.m(), self.trace@, a);
            self.trace@ = self.trace@.push(a);
        }
        got
    }

    /// Acquires whether the sender has disconnected. If it has, all its stores before are visible.
    fn acquire_gone(&mut self) -> (got: bool)
        requires
            old(self).recorded(),
        ensures
            final(self).shared == old(self).shared,
            final(self).current == old(self).current,
            final(self)@ == old(self)@.after_acquire(got),
            final(self).recorded(),
            receiver_run(final(self)@.trace) == receiver_then(
                receiver_run(old(self)@.trace),
                final(self)@.trace.last(),
            ),
    {
        let got = self.shared.m().sender_disconnected.acquire(&mut self.log);
        proof {
            let a = ReceiverAccess::AcquireGone(got);
            receiver_run_extends(self.trace@, a);
            receiver_events_extend(self.shared.m(), self.trace@, a);
            self.trace@ = self.trace@.push(a);
        }
        got
    }

    /// Takes what is in the next slot.
    fn take_slot(&mut self) -> (got: Option<Box<T>>)
        requires
            old(self).recorded(),
            old(self).sized(),
        ensures
            final(self).shared == old(self).shared,
            final(self).current == old(self).current,
            final(self)@ == old(self)@.after_take(unboxed(got)),
            final(self).recorded(),
            receiver_run(final(self)@.trace) == receiver_then(
                receiver_run(old(self)@.trace),
                final(self)@.trace.last(),
            ),
    {
        let got = self.shared.m().slots[step(self.index) as usize].exchange(None, &mut self.log);
        proof {
            let a = ReceiverAccess::TakeSlot { slot: next_index(self.index), got: unboxed(got) };
            receiver_run_extends(self.trace@, a);
            receiver_events_extend(self.shared.m(), self.trace@, a);
            self.trace@ = self.trace@.push(a);
        }
        got
    }

    /// Looks for a value.
    fn poll(&mut self) -> (r: Result<(), TryRecvError>)
        requires
            old(self).wf(),
        ensures
            final(self).shared == old(self).shared,
            final(self).current == old(self).current,
            polls(old(self)@, r, final(self)@),
            final(self).in_phase(
                if r is Ok {
                    ReceiverPhase::Due
                } else {
                    ReceiverPhase::Idle
                },
            ),
    {
        if self.acquire_published() {
            return Ok(());
        }
        if !self.load_gone() {
            return Err(TryRecvError::Empty);
        }
        // The channel is empty and the sender has disconnected, but it may be that the receiver saw
        // the disconnect signal before it saw `published`. Acquire the disconnect signal and then
        // load `published` again.
        let gone = self.acquire_gone();
        let on = self.acquire_published();
        assert(self@ == after_second_look(old(self)@, gone, on));
        if on {
            Ok(())
        } else {
            Err(TryRecvError::Disconnected)
        }
    }

    /// Puts the current value back into its slot, makes `next` the current value, and signals the
    /// sender that it can publish again.
    fn commit(&mut self, next_val: Box<T>) -> (displaced: Ghost<Option<T>>)
        requires
            old(self).sized(),
            old(self).in_phase(ReceiverPhase::Taken),
        ensures
            final(self).wf(),
            final(self)@ == old(self)@.after_commit(*next_val, displaced@),
    {
        let mut val = Some(next_val);
        std::mem::swap(&mut self.current, &mut val);
        let ghost put = *val->0;
        let displaced = self.shared.m().slots[self.index as usize].exchange(val, &mut self.log);
        let ghost a = ReceiverAccess::FillSlot {
            slot: self.index,
            val: put,
            displaced: unboxed(displaced),
        };
        proof {
            receiver_run_extends(self.trace@, a);
            receiver_events_extend(self.shared.m(), self.trace@, a);
            self.trace@ = self.trace@.push(a);
        }
        self.index = step(self.index);
        self.shared.m().published.release(false, &mut self.log);
        proof {
            let b = ReceiverAccess::Clear;
            receiver_run_extends(self.trace@, b);
            receiver_events_extend(self.shared.m(), self.trace@, b);
            self.trace@ = self.trace@.push(b);
        }
        Ghost(unboxed(displaced))
    }

    /// Receives a new value into `current`.
    fn receive(&mut self) -> (r: Result<(), TryRecvError>)
        requires
            old(self).wf(),
        ensures
            final(self).wf(),
            receives(old(self)@, r, final(self)@),
    {
        match self.poll() {
            Ok(()) => {},
            Err(e) => {
                return Err(e);
            },
        }
        let ghost mid = self@;
        assert(polls(old(self)@, Ok(()), mid));
        match self.take_slot() {
            Some(next) => {
                let displaced = self.commit(next);
                assert(self@ == after_receive(mid, self@.current, displaced@));
                Ok(())
            },
            None => Err(TryRecvError::Empty),
        }
    }

    /// Try to receive the last value published by the [`Sender`].
    ///
    /// If the sender has published a value since the last read, this returns `Ok` with that value
    /// and signals the sender that a new value can be published.
    ///
    /// Returns an error if the channel is empty. If the [`Sender`] is still alive, the error is
    /// [`TryRecvError::Empty`]. If the [`Sender`] has been dropped, returns
    /// [`TryRecvError::Disconnected`].
    pub fn try_recv(&mut self) -> (r: Result<&mut T, TryRecvError>)
        requires
            old(self).wf(),
        ensures
            final(self).wf(),
            match r {
                Ok(val) => exists|mid: ReceiverView<T>|
                    {
                        &&& #[trigger] receives(old(self)@, Ok(()), mid)
                        &&& mid.received() == old(self)@.received().push(mid.current)
                        &&& *val == mid.current
                        &&& final(self)@ == mid.holding(*final(val))
                    },
                Err(e) => {
                    &&& receives(old(self)@, Err(e), final(self)@)
                    &&& final(self)@.received() == old(self)@.received()
                },
            },
    {
        match self.receive() {
            Ok(()) => {
                assert(receives(old(self)@, Ok(()), self@));
                proof {
                    receiving_appends(old(self)@, Ok(()), self@);
                }
                Ok(self.get_mut())
            },
            Err(e) => {
                proof {
                    receiving_appends(old(self)@, Err(e), self@);
                }
                Err(e)
            },
        }
    }

    /// Returns `true` if the [`Sender`] is still alive. The other side decides when that ends.
    pub fn is_connected(&self) -> (r: bool)
        ensures
            self@.memory.may_show_sender_gone(!r),
    {
        !self.shared.m().sender_disconnected.peek()
    }
}

impl<T> Drop for Receiver<T> {
    fn drop(&mut self)
        ensures
            final(self).has_left(old(self)),
        opens_invariants none
        no_unwind
    {
        if let Some(pass) = self.shared.part() {
            let mut last = None;
            std::mem::swap(&mut last, &mut self.current);
            let (_found, pass) = self.shared.m().left_by_receiver.leave(last, pass);
            self.shared.m().receiver_disconnected.raise(pass, &mut self.log);
        }
    }
}

/// What is in the slots of a new channel made with the values of `initial`. The two sides have the
/// first two at hand.
pub open spec fn slots_at_start<T>(initial: Seq<T>) -> Seq<Option<T>> {
    seq![None, None, Some(initial[2])]
}

/// The sender of a new channel made with the values of `initial`.
pub open spec fn sender_at_start<T>(memory: Shared<T>, initial: Seq<T>) -> SenderView<T> {
    SenderView { index: 1, staged: initial[1], trace: Seq::empty(), memory, initial }
}

/// The receiver of a new channel made with the values of `initial`.
pub open spec fn receiver_at_start<T>(memory: Shared<T>, initial: Seq<T>) -> ReceiverView<T> {
    ReceiverView { index: 0, current: initial[0], trace: Seq::empty(), memory, initial }
}

/// A new channel is consistent.
pub proof fn a_new_channel_is_consistent<T>(initial: Seq<T>)
    requires
        initial.len() == 3,
    ensures
        consistent(channel_start(slots_at_start(initial))),
{
    consistent_at_the_start(slots_at_start(initial));
}

/// Whatever the two sides of a channel have done so far, and however that interleaved, what was
/// received is the beginning of what was sent, and no more than one value waits.
pub proof fn what_was_sent_arrives<T>(
    tx: &Sender<T>,
    rx: &Receiver<T>,
    moves: Seq<Move<T>>,
    end: Channel<T>,
)
    requires
        tx.wf(),
        rx.wf(),
        tx@.memory == rx@.memory,
        play(channel_start(slots_at_start(tx@.initial)), moves) == Some(end),
        sender_part(moves) == tx@.trace,
        receiver_part(moves) == rx@.trace,
    ensures
        rx@.received().len() <= tx@.sent().len() <= rx@.received().len() + 1,
        rx@.received() == tx@.sent().take(rx@.received().len() as int),
        end.sender.index == tx@.index,
        end.receiver.index == rx@.index,
{
    values_arrive_in_order(slots_at_start(tx@.initial), moves, end);
}

/// The two sides of a channel are between calls, and their accesses so far have brought the channel
/// to state `c`.
pub open spec fn at_rest<T>(
    tx: &Sender<T>,
    rx: &Receiver<T>,
    moves: Seq<Move<T>>,
    c: Channel<T>,
) -> bool {
    &&& tx.wf()
    &&& rx.wf()
    &&& tx@.memory == rx@.memory
    &&& play(channel_start(slots_at_start(tx@.initial)), moves) == Some(c)
    &&& sender_part(moves) == tx@.trace
    &&& receiver_part(moves) == rx@.trace
}

/// When no call of the receiver overlaps, and the sender sees what the memory holds,
/// [`Sender::publish`] fails with `Disconnected` if and only if the receiver is gone, and with
/// `Full` if and only if it is not and a value waits.
pub proof fn publishing_alone<T>(
    tx: &Sender<T>,
    rx: &Receiver<T>,
    moves: Seq<Move<T>>,
    c: Channel<T>,
    r: Result<(), TryPublishError>,
    after: SenderView<T>,
)
    requires
        at_rest(tx, rx, moves, c),
        publishes(tx@, r, after),
        forall|i: int|
            tx@.trace.len() <= i < after.trace.len() ==> sender_sees(c, #[trigger] after.trace[i]),
    ensures
        r == Err::<(), TryPublishError>(TryPublishError::Disconnected) <==> c.receiver_gone,
        r == Err::<(), TryPublishError>(TryPublishError::Full) <==> !c.receiver_gone
            && tx@.sent().len() == rx@.received().len() + 1,
{
    what_was_sent_arrives(tx, rx, moves, c);
    values_arrive_in_order(slots_at_start(tx@.initial), moves, c);
    the_switch_tells_what_waits(c);
    let k = tx@.trace.len() as int;
    assert(sender_sees(c, after.trace[k]));
    if after.trace.len() > k + 1 {
        assert(sender_sees(c, after.trace[k + 1]));
    }
    if after.trace.len() > k + 3 {
        assert(sender_sees(c, after.trace[k + 3]));
    }
}

/// `is_full` of either side answers what the switch was after `n` turns, which may not be the
/// latest. `false` to the sender means that no value waits, `true` to the receiver that one does;
/// and if the answer is what the memory holds, it tells either of them.
pub proof fn checking_alone<T>(
    tx: &Sender<T>,
    rx: &Receiver<T>,
    moves: Seq<Move<T>>,
    c: Channel<T>,
    n: nat,
    r: bool,
)
    requires
        at_rest(tx, rx, moves, c),
        tx@.memory.may_show_full(r),
        can(c, Move::SenderPeeks(n)) || can(c, Move::ReceiverPeeks(n)),
        r == is_on(n),
    ensures
        can(c, Move::SenderPeeks(n)) && !r ==> tx@.sent().len() == rx@.received().len(),
        can(c, Move::ReceiverPeeks(n)) && r ==> tx@.sent().len() == rx@.received().len() + 1,
        n == turns(c) ==> (r <==> tx@.sent().len() == rx@.received().len() + 1),
        after(c, Move::SenderPeeks(n)).sender_seen == n,
        after(c, Move::ReceiverPeeks(n)).receiver_seen == n,
{
    what_was_sent_arrives(tx, rx, moves, c);
    values_arrive_in_order(slots_at_start(tx@.initial), moves, c);
    the_switch_tells_what_waits(c);
}

/// When the sender has seen the switch off, as it does when [`Sender::is_full`] returns `false`,
/// its next call to publish does not fail with `Full`, whatever the receiver does. `mid` is the
/// channel then, and `checked` the sender.
pub proof fn room_stays<T>(
    checked: SenderView<T>,
    r: Result<(), TryPublishError>,
    after: SenderView<T>,
    moves: Seq<Move<T>>,
    k: int,
    mid: Channel<T>,
    end: Channel<T>,
)
    requires
        publishes(checked, r, after),
        0 <= k <= moves.len(),
        play(channel_start(slots_at_start(after.initial)), moves.take(k)) == Some(mid),
        sender_part(moves.take(k)) == checked.trace,
        !is_on(mid.sender_seen),
        play(channel_start(slots_at_start(after.initial)), moves) == Some(end),
        sender_part(moves) == after.trace,
    ensures
        r != Err::<(), TryPublishError>(TryPublishError::Full),
{
    let slots = slots_at_start(after.initial);
    values_arrive_in_order(slots, moves, end);
    publishing_is_wait_free(checked, r, after);
    if r == Err::<(), TryPublishError>(TryPublishError::Full) {
        let n = checked.trace.len() as int;
        let last = after.trace[after.trace.len() - 1];
        assert(sender_finds_values(after.trace));
        assert(last == SenderAccess::<T>::LoadPublished(true));
        assert forall|i: int| n <= i < after.trace.len() implies !(
        #[trigger] after.trace[i] is Publish) by {
            if i == n {
                assert(after.trace[i] == SenderAccess::<T>::LoadGone(false));
            }
        }
        seen_room_is_found(slots, moves, k, mid, end);
    }
}

/// When the receiver has seen the switch on, as it does when [`Receiver::is_full`] returns `true`,
/// its next call to receive gives the last value that was published by then, whatever the sender
/// does. `mid` is the channel then, and `before` the receiver.
pub proof fn a_value_stays<T>(
    before: ReceiverView<T>,
    r: Result<(), TryRecvError>,
    after: ReceiverView<T>,
    moves: Seq<Move<T>>,
    k: int,
    mid: Channel<T>,
    end: Channel<T>,
)
    requires
        receives(before, r, after),
        0 <= k <= moves.len(),
        play(channel_start(slots_at_start(after.initial)), moves.take(k)) == Some(mid),
        receiver_part(moves.take(k)) == before.trace,
        mid.receiver.phase is Idle,
        is_on(mid.receiver_seen),
        play(channel_start(slots_at_start(after.initial)), moves) == Some(end),
        receiver_part(moves) == after.trace,
    ensures
        r is Ok,
        after.current == mid.sent.last(),
{
    let slots = slots_at_start(after.initial);
    let start = channel_start(slots);
    values_arrive_in_order(slots, moves.take(k), mid);
    values_arrive_in_order(slots, moves, end);
    receiving_is_wait_free(before, r, after);
    let n = before.trace.len() as int;
    assert(receiver_finds_values(after.trace));
    if r is Err {
        if exists|m: ReceiverView<T>| #[trigger]
            polls(before, Ok(()), m) && after == m.after_take(None) {
            let last = after.trace[after.trace.len() - 1];
            assert(last matches ReceiverAccess::TakeSlot { slot, got: None });
        }
        assert(polls(before, r, after));
        assert(after.trace[n] == ReceiverAccess::<T>::AcquirePublished(false));
        assert forall|i: int| n <= i < after.trace.len() implies !(
        #[trigger] after.trace[i] is Clear) by {}
        a_seen_value_is_found(slots, moves, k, mid, end);
    }
    receiving_appends(before, r, after);
    what_was_sent_stays(start, moves, k, mid, end);
    assert(mid.sent.len() == mid.received.len() + 1);
    assert(after.current == end.received[mid.received.len() as int]);
    assert(end.received[mid.received.len() as int] == end.sent[mid.received.len() as int]);
    assert(end.sent.take(mid.sent.len() as int)[mid.received.len() as int]
        == end.sent[mid.received.len() as int]);
}

/// When no call of the sender overlaps, and the receiver sees what the memory holds,
/// [`Receiver::try_recv`] gives the value that waits; it fails if and only if none waits, with
/// `Disconnected` if the sender is gone and with `Empty` if it is not.
pub proof fn receiving_alone<T>(
    tx: &Sender<T>,
    rx: &Receiver<T>,
    moves: Seq<Move<T>>,
    c: Channel<T>,
    r: Result<(), TryRecvError>,
    after: ReceiverView<T>,
)
    requires
        at_rest(tx, rx, moves, c),
        receives(rx@, r, after),
        forall|i: int|
            rx@.trace.len() <= i < after.trace.len() ==> receiver_sees(
                c,
                #[trigger] after.trace[i],
            ),
    ensures
        match r {
            Ok(()) => {
                &&& rx@.received().len() < tx@.sent().len()
                &&& after.current == tx@.sent()[rx@.received().len() as int]
            },
            Err(TryRecvError::Disconnected) => rx@.received() == tx@.sent() && c.sender_gone,
            Err(TryRecvError::Empty) => rx@.received() == tx@.sent() && !c.sender_gone,
        },
{
    what_was_sent_arrives(tx, rx, moves, c);
    values_arrive_in_order(slots_at_start(tx@.initial), moves, c);
    the_switch_tells_what_waits(c);
    let k = rx@.trace.len() as int;
    assert(receiver_sees(c, after.trace[k]));
    if after.trace.len() > k + 1 {
        assert(receiver_sees(c, after.trace[k + 1]));
    }
    if after.trace.len() > k + 3 {
        assert(receiver_sees(c, after.trace[k + 3]));
    }
    if after.trace.len() > k + 4 {
        assert(receiver_sees(c, after.trace[k + 4]));
    }
    if rx@.received().len() == tx@.sent().len() {
        assert(rx@.received() =~= tx@.sent());
    }
}

/// The channel owns three values and hands them back in rotation. What the sender has staged,
/// unless it has written to it, is the value that was in the third slot at the start, or what the
/// receiver put back last; and if the receiver puts back what it received, that is the value that
/// was sent three values before the next.
pub proof fn values_come_back<T>(
    tx: &Sender<T>,
    rx: &Receiver<T>,
    moves: Seq<Move<T>>,
    c: Channel<T>,
)
    requires
        at_rest(tx, rx, moves, c),
        tx@.sent().len() > 0,
        tx@.staged == tx@.regained().last(),
    ensures
        tx@.regained().len() == tx@.sent().len(),
        rx@.returned().len() == rx@.received().len(),
        ({
            let n = tx@.sent().len() as int;
            &&& n == 1 ==> tx@.staged == tx@.initial[2]
            &&& n > 1 ==> tx@.staged == rx@.returned()[n - 2]
            &&& n > 2 && rx@.returned()[n - 2] == rx@.received()[n - 3] ==> tx@.staged
                == tx@.sent()[n - 3]
        }),
{
    what_was_sent_arrives(tx, rx, moves, c);
    values_arrive_in_order(slots_at_start(tx@.initial), moves, c);
}

/// The total weight of values.
pub open spec fn total<T>(vals: Seq<T>, weight: spec_fn(T) -> int) -> int
    decreases vals.len(),
{
    if vals.len() == 0 {
        0
    } else {
        total(vals.drop_last(), weight) + weight(vals.last())
    }
}

/// Nothing of a total is lost or counted twice: whatever the values weigh, and however the two
/// sides interleave, what the receiver has received and what it has not add up to what was sent.
/// Once [`Receiver::try_recv`] has returned `Disconnected`, which made the receiver what it is out
/// of `before`, it has received all of it.
pub proof fn totals_arrive<T>(
    tx: &Sender<T>,
    rx: &Receiver<T>,
    moves: Seq<Move<T>>,
    c: Channel<T>,
    before: ReceiverView<T>,
    weight: spec_fn(T) -> int,
)
    requires
        at_rest(tx, rx, moves, c),
    ensures
        total(tx@.sent(), weight) == total(rx@.received(), weight) + total(
            tx@.sent().skip(rx@.received().len() as int),
            weight,
        ),
        receives(before, Err(TryRecvError::Disconnected), rx@) ==> rx@.received() == tx@.sent()
            && total(rx@.received(), weight) == total(tx@.sent(), weight),
{
    reveal_with_fuel(total, 2);
    what_was_sent_arrives(tx, rx, moves, c);
    values_arrive_in_order(slots_at_start(tx@.initial), moves, c);
    if receives(before, Err(TryRecvError::Disconnected), rx@) {
        assert(polls(before, Err(TryRecvError::Disconnected), rx@));
        disconnected_stays_drained(slots_at_start(tx@.initial), moves, c);
    }
    let sent = tx@.sent();
    let received = rx@.received();
    if received.len() == sent.len() {
        assert(received =~= sent);
        assert(sent.skip(received.len() as int) =~= Seq::empty());
    } else {
        let rest = sent.skip(received.len() as int);
        assert(rest =~= seq![sent.last()]);
        assert(rest.drop_last() =~= Seq::empty());
        assert(sent.drop_last() =~= received);
    }
}

/// Publishing moves the whole of the staged value into what was sent, and a publish that is refused
/// leaves it staged: what was sent and what is staged add up to what they did, but for what the
/// sender stages anew.
pub proof fn nothing_staged_is_lost<T>(
    before: SenderView<T>,
    r: Result<(), TryPublishError>,
    after: SenderView<T>,
    weight: spec_fn(T) -> int,
)
    requires
        publishes(before, r, after),
    ensures
        r is Ok ==> total(after.sent(), weight) == total(before.sent(), weight) + weight(
            before.staged,
        ),
        r is Err ==> total(after.sent(), weight) == total(before.sent(), weight) && after.staged
            == before.staged,
{
    publishing_appends(before, r, after);
    if r is Ok {
        assert(after.sent().drop_last() =~= before.sent());
    }
}

/// The weight of a count.
pub open spec fn as_count(n: u64) -> int {
    n as int
}

/// A round of counting can turn `before` into `after`: the sender adds one to its staged count,
/// publishes it, and starts anew if that succeeded.
pub open spec fn counts(
    before: SenderView<u64>,
    r: Result<(), TryPublishError>,
    after: SenderView<u64>,
) -> bool {
    exists|mid: SenderView<u64>|
        {
            &&& #[trigger] publishes(before.staging((before.staged + 1) as u64), r, mid)
            &&& after == if r is Ok {
                mid.staging(0)
            } else {
                mid
            }
        }
}

/// Round `i` of counting turned `views[i]` into the view after it.
pub open spec fn counted(
    views: Seq<SenderView<u64>>,
    results: Seq<Result<(), TryPublishError>>,
    i: int,
) -> bool {
    counts(views[i], results[i], views[i + 1])
}

/// A sender of a new channel that starts with no count has, after any number of rounds of counting,
/// sent and staged as many in all, whatever came of each publish.
pub proof fn counting_loses_nothing(
    views: Seq<SenderView<u64>>,
    results: Seq<Result<(), TryPublishError>>,
)
    requires
        views.len() == results.len() + 1,
        results.len() <= u64::MAX,
        views[0].trace.len() == 0,
        views[0].staged == 0,
        forall|i: int| 0 <= i < results.len() ==> #[trigger] counted(views, results, i),
    ensures
        total(views.last().sent(), |n: u64| as_count(n)) + views.last().staged == results.len(),
    decreases results.len(),
{
    let weight = |n: u64| as_count(n);
    if results.len() == 0 {
        assert(views.last().sent() =~= Seq::empty());
    } else {
        let n = results.len() - 1;
        let fewer = views.drop_last();
        assert forall|i: int| 0 <= i < n implies #[trigger] counted(
            fewer,
            results.drop_last(),
            i,
        ) by {
            assert(counted(views, results, i));
        }
        counting_loses_nothing(fewer, results.drop_last());
        assert(counted(views, results, n));
        let before = fewer.last();
        assert(before == views[n]);
        counts_add_up(before.sent());
        assert(before.staged <= n);
        let staging = before.staging((before.staged + 1) as u64);
        let mid = choose|mid: SenderView<u64>|
            {
                &&& #[trigger] publishes(staging, results[n], mid)
                &&& views[n + 1] == if results[n] is Ok {
                    mid.staging(0)
                } else {
                    mid
                }
            };
        nothing_staged_is_lost(staging, results[n], mid, weight);
    }
}

/// Counts do not add up to less than nothing.
proof fn counts_add_up(vals: Seq<u64>)
    ensures
        total(vals, |n: u64| as_count(n)) >= 0,
    decreases vals.len(),
{
    if vals.len() > 0 {
        counts_add_up(vals.drop_last());
    }
}

/// What a sender has counted, in any number of rounds, and then published in full arrives: once the
/// receiver has found the channel disconnected, the counts that it has received add up to the
/// number of rounds.
pub proof fn the_whole_count_arrives(
    views: Seq<SenderView<u64>>,
    results: Seq<Result<(), TryPublishError>>,
    tx: &Sender<u64>,
    rx: &Receiver<u64>,
    moves: Seq<Move<u64>>,
    c: Channel<u64>,
    before: ReceiverView<u64>,
)
    requires
        views.len() == results.len() + 1,
        results.len() <= u64::MAX,
        views[0].trace.len() == 0,
        views[0].staged == 0,
        forall|i: int| 0 <= i < results.len() ==> #[trigger] counted(views, results, i),
        tx@.sent() == views.last().sent().push(views.last().staged),
        at_rest(tx, rx, moves, c),
        receives(before, Err(TryRecvError::Disconnected), rx@),
    ensures
        total(rx@.received(), |n: u64| as_count(n)) == results.len(),
{
    let weight = |n: u64| as_count(n);
    counting_loses_nothing(views, results);
    totals_arrive(tx, rx, moves, c, before, weight);
    assert(tx@.sent().drop_last() =~= views.last().sent());
}

/// [`Sender::is_connected`] answers `false` only if the receiver was dropped, and if it sees what
/// the memory holds, `true` only if it was not; in particular `true` for a new channel. Once it has
/// answered `false`, it does so whatever happens.
pub proof fn connected_until_the_receiver_goes<T>(
    tx: &Sender<T>,
    moves: Seq<Move<T>>,
    c: Channel<T>,
    connected: bool,
    rest: Seq<Move<T>>,
    end: Channel<T>,
    later: bool,
)
    requires
        tx.wf(),
        play(channel_start(slots_at_start(tx@.initial)), moves) == Some(c),
        tx@.memory.may_show_receiver_gone(!connected),
        can(c, Move::SenderAsks(!connected)),
        play(after(c, Move::SenderAsks(!connected)), rest) == Some(end),
        tx@.memory.may_show_receiver_gone(!later),
        can(end, Move::SenderAsks(!later)),
    ensures
        !connected ==> c.receiver_gone,
        sender_asking_sees(c, !connected) ==> connected == !c.receiver_gone,
        moves.len() == 0 ==> connected,
        !connected ==> !later && end.receiver_gone,
{
    gone_stays_gone(after(c, Move::SenderAsks(!connected)), rest, end);
}

/// [`Receiver::is_connected`] answers `false` only if the sender was dropped, and if it sees what
/// the memory holds, `true` only if it was not; in particular `true` for a new channel. Once it has
/// answered `false`, it does so whatever happens.
pub proof fn connected_until_the_sender_goes<T>(
    rx: &Receiver<T>,
    moves: Seq<Move<T>>,
    c: Channel<T>,
    connected: bool,
    rest: Seq<Move<T>>,
    end: Channel<T>,
    later: bool,
)
    requires
        rx.wf(),
        play(channel_start(slots_at_start(rx@.initial)), moves) == Some(c),
        rx@.memory.may_show_sender_gone(!connected),
        can(c, Move::ReceiverAsks(!connected)),
        play(after(c, Move::ReceiverAsks(!connected)), rest) == Some(end),
        rx@.memory.may_show_sender_gone(!later),
        can(end, Move::ReceiverAsks(!later)),
    ensures
        !connected ==> c.sender_gone,
        receiver_asking_sees(c, !connected) ==> connected == !c.sender_gone,
        moves.len() == 0 ==> connected,
        !connected ==> !later && end.sender_gone,
{
    gone_stays_gone(after(c, Move::ReceiverAsks(!connected)), rest, end);
}

/// What the cells record of a sender that has made the accesses of `trace`, and has left if `gone`
/// says so.
spec fn sender_history<T>(m: &Shared<T>, trace: Seq<SenderAccess<T>>, gone: bool) -> Seq<
    Event<Option<Box<T>>>,
> {
    if gone {
        sender_events(m, trace).push(Event::ReleaseFlag { cell: m.sender_disconnected })
    } else {
        sender_events(m, trace)
    }
}

/// What the cells record of a receiver that has made the accesses of `trace`, and has left if
/// `gone` says so.
spec fn receiver_history<T>(m: &Shared<T>, trace: Seq<ReceiverAccess<T>>, gone: bool) -> Seq<
    Event<Option<Box<T>>>,
> {
    if gone {
        receiver_events(m, trace).push(Event::RaiseFlag { cell: m.receiver_disconnected })
    } else {
        receiver_events(m, trace)
    }
}

/// The cells hold what the memory of `c` holds.
spec fn mirrors<T>(m: &Shared<T>, mem: Memory<Option<Box<T>>>, c: Channel<T>) -> bool {
    &&& c.slots.len() == m.slots.len()
    &&& forall|i: int|
        0 <= i < m.slots.len() ==> mem.slot(#[trigger] m.slots[i]) == boxed(c.slots[i])
    &&& mem.switch(m.published) == is_on(turns(c))
    &&& mem.flag(m.sender_disconnected) == c.sender_gone
    &&& mem.flag(m.receiver_disconnected) == c.receiver_gone
}

/// The cells of a new channel hold what its memory holds.
proof fn cells_hold_what_they_held_first<T>(m: &Shared<T>, initial: Seq<T>)
    requires
        m.starts_as(channel_start(slots_at_start(initial))),
    ensures
        mirrors(m, Memory::untouched(), channel_start(slots_at_start(initial))),
{
}

/// The move that access `a` of the sender is when it gets what the memory holds.
spec fn sender_move<T>(c: Channel<T>, a: SenderAccess<T>) -> Move<T> {
    match a {
        SenderAccess::LoadPublished(_) => Move::SenderLooks(turns(c)),
        SenderAccess::AcquirePublished(_) => Move::SenderAcquires(turns(c)),
        _ => Move::Sender(a),
    }
}

/// The move that access `a` of the receiver is when it gets what the memory holds.
spec fn receiver_move<T>(c: Channel<T>, a: ReceiverAccess<T>) -> Move<T> {
    match a {
        ReceiverAccess::AcquirePublished(_) => Move::ReceiverLooks(turns(c)),
        _ => Move::Receiver(a),
    }
}

/// An access of the sender does to the cells what it does to the memory.
#[verifier::spinoff_prover]
proof fn sender_access_mirrors<T>(
    m: &Shared<T>,
    mem: Memory<Option<Box<T>>>,
    c: Channel<T>,
    a: SenderAccess<T>,
)
    requires
        m.is_laid_out(),
        consistent(c),
        mirrors(m, mem, c),
        !c.sender_gone,
        sender_step(c.sender, a) is Some,
        gets(mem, sender_event(m, a)),
    ensures
        can(c, sender_move(c, a)),
        mirrors(m, puts(mem, sender_event(m, a)), after(c, sender_move(c, a))),
        sender_sees(c, a),
{
}

/// An access of the receiver does to the cells what it does to the memory.
#[verifier::spinoff_prover]
proof fn receiver_access_mirrors<T>(
    m: &Shared<T>,
    mem: Memory<Option<Box<T>>>,
    c: Channel<T>,
    a: ReceiverAccess<T>,
)
    requires
        m.is_laid_out(),
        consistent(c),
        mirrors(m, mem, c),
        !c.receiver_gone,
        receiver_step(c.receiver, a) is Some,
        gets(mem, receiver_event(m, a)),
    ensures
        can(c, receiver_move(c, a)),
        mirrors(m, puts(mem, receiver_event(m, a)), after(c, receiver_move(c, a))),
        receiver_sees(c, a),
{
}

/// That the sender leaves does to the cells what it does to the memory.
proof fn sender_leaving_mirrors<T>(m: &Shared<T>, mem: Memory<Option<Box<T>>>, c: Channel<T>)
    requires
        m.is_laid_out(),
        mirrors(m, mem, c),
        !c.sender_gone,
        c.sender.phase is Idle,
    ensures
        can(c, Move::SenderGoes),
        mirrors(
            m,
            puts(mem, Event::ReleaseFlag { cell: m.sender_disconnected }),
            after(c, Move::SenderGoes),
        ),
{
}

/// That the receiver leaves does to the cells what it does to the memory.
proof fn receiver_leaving_mirrors<T>(m: &Shared<T>, mem: Memory<Option<Box<T>>>, c: Channel<T>)
    requires
        m.is_laid_out(),
        mirrors(m, mem, c),
        !c.receiver_gone,
        c.receiver.phase is Idle,
    ensures
        can(c, Move::ReceiverGoes),
        mirrors(
            m,
            puts(mem, Event::RaiseFlag { cell: m.receiver_disconnected }),
            after(c, Move::ReceiverGoes),
        ),
{
}

/// One more access of the sender is one more move.
#[verifier::spinoff_prover]
proof fn sender_goes_on<T>(
    m: &Shared<T>,
    initial: Seq<T>,
    moves: Seq<Move<T>>,
    c: Channel<T>,
    mem: Memory<Option<Box<T>>>,
    a: SenderAccess<T>,
) -> (mv: Move<T>)
    requires
        m.is_laid_out(),
        m.starts_as(channel_start(slots_at_start(initial))),
        play(channel_start(slots_at_start(initial)), moves) == Some(c),
        mirrors(m, mem, c),
        !c.sender_gone,
        sender_run(sender_part(moves).push(a)) is Some,
        gets(mem, sender_event(m, a)),
    ensures
        play(channel_start(slots_at_start(initial)), moves.push(mv)) matches Some(d) && mirrors(
            m,
            puts(mem, sender_event(m, a)),
            d,
        ) && d.sender_gone == c.sender_gone && d.receiver_gone == c.receiver_gone,
        sender_part(moves.push(mv)) == sender_part(moves).push(a),
        receiver_part(moves.push(mv)) == receiver_part(moves),
{
    let start = channel_start(slots_at_start(initial));
    values_arrive_in_order(slots_at_start(initial), moves, c);
    sender_run_extends(sender_part(moves), a);
    sender_access_mirrors(m, mem, c, a);
    let mv = sender_move(c, a);
    play_extends(start, moves, c, mv);
    assert(moves.push(mv).drop_last() =~= moves);
    mv
}

/// That the sender leaves is one more move.
#[verifier::spinoff_prover]
proof fn sender_goes<T>(
    m: &Shared<T>,
    initial: Seq<T>,
    moves: Seq<Move<T>>,
    c: Channel<T>,
    mem: Memory<Option<Box<T>>>,
)
    requires
        m.is_laid_out(),
        m.starts_as(channel_start(slots_at_start(initial))),
        play(channel_start(slots_at_start(initial)), moves) == Some(c),
        mirrors(m, mem, c),
        !c.sender_gone,
        sender_run(sender_part(moves)) matches Some(s) && s.phase is Idle,
    ensures
        play(
            channel_start(slots_at_start(initial)),
            moves.push(Move::SenderGoes),
        ) matches Some(d) && mirrors(
            m,
            puts(mem, Event::ReleaseFlag { cell: m.sender_disconnected }),
            d,
        ) && d.sender_gone && d.receiver_gone == c.receiver_gone,
        sender_part(moves.push(Move::SenderGoes)) == sender_part(moves),
        receiver_part(moves.push(Move::SenderGoes)) == receiver_part(moves),
{
    let start = channel_start(slots_at_start(initial));
    values_arrive_in_order(slots_at_start(initial), moves, c);
    sender_leaving_mirrors(m, mem, c);
    play_extends(start, moves, c, Move::SenderGoes);
    assert(moves.push(Move::SenderGoes).drop_last() =~= moves);
}

/// One more access of the receiver is one more move.
#[verifier::spinoff_prover]
proof fn receiver_goes_on<T>(
    m: &Shared<T>,
    initial: Seq<T>,
    moves: Seq<Move<T>>,
    c: Channel<T>,
    mem: Memory<Option<Box<T>>>,
    a: ReceiverAccess<T>,
) -> (mv: Move<T>)
    requires
        m.is_laid_out(),
        m.starts_as(channel_start(slots_at_start(initial))),
        play(channel_start(slots_at_start(initial)), moves) == Some(c),
        mirrors(m, mem, c),
        !c.receiver_gone,
        receiver_run(receiver_part(moves).push(a)) is Some,
        gets(mem, receiver_event(m, a)),
    ensures
        play(channel_start(slots_at_start(initial)), moves.push(mv)) matches Some(d) && mirrors(
            m,
            puts(mem, receiver_event(m, a)),
            d,
        ) && d.sender_gone == c.sender_gone && d.receiver_gone == c.receiver_gone,
        receiver_part(moves.push(mv)) == receiver_part(moves).push(a),
        sender_part(moves.push(mv)) == sender_part(moves),
{
    let start = channel_start(slots_at_start(initial));
    values_arrive_in_order(slots_at_start(initial), moves, c);
    receiver_run_extends(receiver_part(moves), a);
    receiver_access_mirrors(m, mem, c, a);
    let mv = receiver_move(c, a);
    play_extends(start, moves, c, mv);
    assert(moves.push(mv).drop_last() =~= moves);
    mv
}

/// That the receiver leaves is one more move.
#[verifier::spinoff_prover]
proof fn receiver_goes<T>(
    m: &Shared<T>,
    initial: Seq<T>,
    moves: Seq<Move<T>>,
    c: Channel<T>,
    mem: Memory<Option<Box<T>>>,
)
    requires
        m.is_laid_out(),
        m.starts_as(channel_start(slots_at_start(initial))),
        play(channel_start(slots_at_start(initial)), moves) == Some(c),
        mirrors(m, mem, c),
        !c.receiver_gone,
        receiver_run(receiver_part(moves)) matches Some(s) && s.phase is Idle,
    ensures
        play(
            channel_start(slots_at_start(initial)),
            moves.push(Move::ReceiverGoes),
        ) matches Some(d) && mirrors(
            m,
            puts(mem, Event::RaiseFlag { cell: m.receiver_disconnected }),
            d,
        ) && d.receiver_gone && d.sender_gone == c.sender_gone,
        receiver_part(moves.push(Move::ReceiverGoes)) == receiver_part(moves),
        sender_part(moves.push(Move::ReceiverGoes)) == sender_part(moves),
{
    let start = channel_start(slots_at_start(initial));
    values_arrive_in_order(slots_at_start(initial), moves, c);
    receiver_leaving_mirrors(m, mem, c);
    play_extends(start, moves, c, Move::ReceiverGoes);
    assert(moves.push(Move::ReceiverGoes).drop_last() =~= moves);
}

/// Whatever the two sides do to the cells, in any order in which each access gets what its cell
/// holds, is a run of the protocol, in which the memory holds what the cells hold.
#[verifier::spinoff_prover]
proof fn cells_follow_the_protocol<T>(
    m: &Shared<T>,
    initial: Seq<T>,
    steps: Seq<Step<Option<Box<T>>>>,
    sent: Seq<SenderAccess<T>>,
    tx_gone: bool,
    taken: Seq<ReceiverAccess<T>>,
    rx_gone: bool,
) -> (moves: Seq<Move<T>>)
    requires
        m.is_laid_out(),
        m.starts_as(channel_start(slots_at_start(initial))),
        sender_run(sent) is Some,
        receiver_run(taken) is Some,
        tx_gone ==> sender_run(sent)->0.phase is Idle,
        rx_gone ==> receiver_run(taken)->0.phase is Idle,
        part(steps, true) == sender_history(m, sent, tx_gone),
        part(steps, false) == receiver_history(m, taken, rx_gone),
        unfolds(steps) is Some,
    ensures
        play(
            channel_start(slots_at_start(initial)),
            moves,
        ) matches Some(c) && mirrors(m, unfolds(steps)->0, c)
            && c.sender_gone == tx_gone && c.receiver_gone == rx_gone,
        sender_part(moves) == sent,
        receiver_part(moves) == taken,
    decreases steps.len(),
{
    let start = channel_start(slots_at_start(initial));
    if steps.len() == 0 {
        assert(sender_history(m, sent, tx_gone).len() == 0);
        assert(receiver_history(m, taken, rx_gone).len() == 0);
        assert(sent =~= Seq::empty());
        assert(taken =~= Seq::empty());
        cells_hold_what_they_held_first(m, initial);
        Seq::empty()
    } else {
        let fewer = steps.drop_last();
        let event = steps.last().event;
        let mem = unfolds(fewer)->0;
        if steps.last().sender {
            assert(part(steps, true).drop_last() =~= part(fewer, true));
            assert(part(steps, true).last() == event);
            if tx_gone {
                assert(sender_history(m, sent, true).drop_last() =~= sender_history(
                    m,
                    sent,
                    false,
                ));
                let moves = cells_follow_the_protocol(
                    m,
                    initial,
                    fewer,
                    sent,
                    false,
                    taken,
                    rx_gone,
                );
                let c = play(start, moves)->0;
                sender_goes(m, initial, moves, c, mem);
                moves.push(Move::SenderGoes)
            } else {
                let a = sent.last();
                let before = sent.drop_last();
                assert(sender_history(m, sent, false).drop_last() =~= sender_history(
                    m,
                    before,
                    false,
                ));
                let moves = cells_follow_the_protocol(
                    m,
                    initial,
                    fewer,
                    before,
                    false,
                    taken,
                    rx_gone,
                );
                let c = play(start, moves)->0;
                assert(event == sender_event(m, a));
                assert(before.push(a) =~= sent);
                let mv = sender_goes_on(m, initial, moves, c, mem, a);
                moves.push(mv)
            }
        } else {
            assert(part(steps, false).drop_last() =~= part(fewer, false));
            assert(part(steps, false).last() == event);
            if rx_gone {
                assert(receiver_history(m, taken, true).drop_last() =~= receiver_history(
                    m,
                    taken,
                    false,
                ));
                let moves = cells_follow_the_protocol(
                    m,
                    initial,
                    fewer,
                    sent,
                    tx_gone,
                    taken,
                    false,
                );
                let c = play(start, moves)->0;
                receiver_goes(m, initial, moves, c, mem);
                moves.push(Move::ReceiverGoes)
            } else {
                let a = taken.last();
                let before = taken.drop_last();
                assert(receiver_history(m, taken, false).drop_last() =~= receiver_history(
                    m,
                    before,
                    false,
                ));
                let moves = cells_follow_the_protocol(
                    m,
                    initial,
                    fewer,
                    sent,
                    tx_gone,
                    before,
                    false,
                );
                let c = play(start, moves)->0;
                assert(event == receiver_event(m, a));
                assert(before.push(a) =~= taken);
                let mv = receiver_goes_on(m, initial, moves, c, mem, a);
                moves.push(mv)
            }
        }
    }
}

/// A history is what the log lists, and that the side has left if it has.
proof fn a_history_is_a_log<T>(tx: &Sender<T>, rx: &Receiver<T>)
    ensures
        tx.history(false) == tx.log@,
        tx.history(true) == tx.log@.push(
            Event::ReleaseFlag { cell: tx.shared.m().sender_disconnected },
        ),
        rx.history(false) == rx.log@,
        rx.history(true) == rx.log@.push(
            Event::RaiseFlag { cell: rx.shared.m().receiver_disconnected },
        ),
{
}

/// The two sides of a channel are between calls, unless they have left, and what they have done to
/// the cells came in the order of `steps`, in which each access gets what its cell holds.
pub open spec fn came_about<T>(
    tx: &Sender<T>,
    tx_gone: bool,
    rx: &Receiver<T>,
    rx_gone: bool,
    steps: Seq<Step<Option<Box<T>>>>,
) -> bool {
    &&& tx.wf()
    &&& rx.wf()
    &&& tx@.memory == rx@.memory
    &&& part(steps, true) == tx.history(tx_gone)
    &&& part(steps, false) == rx.history(rx_gone)
    &&& unfolds(steps) is Some
}

/// In whatever order the two sides came to do what they did to the cells, the receiver has taken
/// out of the cells what the sender has put into them: all of it, in the order in which it was
/// sent, up to the one value that may wait.
pub proof fn cells_carry_what_was_sent<T>(
    tx: &Sender<T>,
    tx_gone: bool,
    rx: &Receiver<T>,
    rx_gone: bool,
    steps: Seq<Step<Option<Box<T>>>>,
) -> (r: (Seq<Move<T>>, Channel<T>))
    requires
        came_about(tx, tx_gone, rx, rx_gone, steps),
    ensures
        rx@.received().len() <= tx@.sent().len() <= rx@.received().len() + 1,
        rx@.received() == tx@.sent().take(rx@.received().len() as int),
        at_rest(tx, rx, r.0, r.1),
        r.1.sender_gone == tx_gone,
        r.1.receiver_gone == rx_gone,
{
    let moves = came_about_in_moves(tx, tx_gone, rx, rx_gone, steps);
    let c = play(channel_start(slots_at_start(tx@.initial)), moves)->0;
    what_was_sent_arrives(tx, rx, moves, c);
    (moves, c)
}

/// To leave is the last that a side does to the cells.
pub proof fn leaving_ends_a_history<T>(
    tx: &Sender<T>,
    tx_left: &Sender<T>,
    rx: &Receiver<T>,
    rx_left: &Receiver<T>,
)
    requires
        tx.recorded(),
        tx_left.has_left(tx),
        rx.recorded(),
        rx_left.has_left(rx),
    ensures
        tx_left.history(false) == tx.history(true),
        rx_left.history(false) == rx.history(true),
        is_release(tx.history(true).last()),
{
}

/// What a side leaves to the channel is what it had.
proof fn what_a_side_had_is_left<T>(
    tx: &Sender<T>,
    tx_left: &Sender<T>,
    rx: &Receiver<T>,
    rx_left: &Receiver<T>,
)
    requires
        tx.recorded(),
        tx_left.has_left(tx),
        rx.recorded(),
        rx_left.has_left(rx),
    ensures
        tx.shared.m().left_by_sender.was_left(tx.staged),
        rx.shared.m().left_by_receiver.was_left(rx.current),
{
}

/// What a side announces it releases, and what it learns of the other it acquires.
pub proof fn the_sides_synchronise<T>(tx: &Sender<T>, rx: &Receiver<T>)
    requires
        tx.recorded(),
        rx.recorded(),
    ensures
        tx.history(false).len() == tx@.trace.len(),
        rx.history(false).len() == rx@.trace.len(),
        forall|i: int|
            0 <= i < tx@.trace.len() && #[trigger] tx@.trace[i] is AcquirePublished ==> is_acquire(
                tx.history(false)[i],
            ),
        forall|i: int|
            0 <= i < tx@.trace.len() && #[trigger] tx@.trace[i] is Publish ==> is_release(
                tx.history(false)[i],
            ),
        forall|i: int|
            0 <= i < rx@.trace.len() && #[trigger] rx@.trace[i] is AcquirePublished ==> is_acquire(
                rx.history(false)[i],
            ),
        forall|i: int|
            0 <= i < rx@.trace.len() && #[trigger] rx@.trace[i] is AcquireGone ==> is_acquire(
                rx.history(false)[i],
            ),
        forall|i: int|
            0 <= i < rx@.trace.len() && #[trigger] rx@.trace[i] is Clear ==> is_release(
                rx.history(false)[i],
            ),
{
    a_history_is_a_log(tx, rx);
}

/// A side sees that the other is gone only if that has left, whatever overlaps: no call fails with
/// `Disconnected` before.
pub proof fn only_who_left_is_gone<T>(
    tx: &Sender<T>,
    tx_gone: bool,
    rx: &Receiver<T>,
    rx_gone: bool,
    steps: Seq<Step<Option<Box<T>>>>,
)
    requires
        came_about(tx, tx_gone, rx, rx_gone, steps),
    ensures
        tx@.trace.contains(SenderAccess::<T>::LoadGone(true)) ==> rx_gone,
        rx@.trace.contains(ReceiverAccess::<T>::LoadGone(true)) ==> tx_gone,
{
    let moves = came_about_in_moves(tx, tx_gone, rx, rx_gone, steps);
    let start = channel_start(slots_at_start(tx@.initial));
    gone_is_seen_of_the_gone(start, moves, play(start, moves)->0);
}

/// A call to receive that returned `Disconnected`, which made the receiver what it is out of
/// `before`, did so because the sender has left and all that it sent was received, whatever
/// overlapped.
pub proof fn disconnected_means_all_arrived<T>(
    tx: &Sender<T>,
    tx_gone: bool,
    rx: &Receiver<T>,
    rx_gone: bool,
    steps: Seq<Step<Option<Box<T>>>>,
    before: ReceiverView<T>,
)
    requires
        came_about(tx, tx_gone, rx, rx_gone, steps),
        receives(before, Err(TryRecvError::Disconnected), rx@),
    ensures
        tx_gone,
        rx@.received() == tx@.sent(),
{
    let moves = came_about_in_moves(tx, tx_gone, rx, rx_gone, steps);
    let slots = slots_at_start(tx@.initial);
    let c = play(channel_start(slots), moves)->0;
    values_arrive_in_order(slots, moves, c);
    assert(polls(before, Err(TryRecvError::Disconnected), rx@));
    disconnected_stays_drained(slots, moves, c);
}

/// What came about is a run of the protocol.
proof fn came_about_in_moves<T>(
    tx: &Sender<T>,
    tx_gone: bool,
    rx: &Receiver<T>,
    rx_gone: bool,
    steps: Seq<Step<Option<Box<T>>>>,
) -> (moves: Seq<Move<T>>)
    requires
        came_about(tx, tx_gone, rx, rx_gone, steps),
    ensures
        play(channel_start(slots_at_start(tx@.initial)), moves) matches Some(c) && mirrors(
            tx.shared.m(),
            unfolds(steps)->0,
            c,
        ) && c.sender_gone == tx_gone && c.receiver_gone == rx_gone,
        sender_part(moves) == tx@.trace,
        receiver_part(moves) == rx@.trace,
{
    let m = tx.shared.m();
    assert(m == rx.shared.m());
    a_history_is_a_log(tx, rx);
    cells_follow_the_protocol(m, tx@.initial, steps, tx@.trace, tx_gone, rx@.trace, rx_gone)
}

/// The events that made `after` out of `tx` are those of its accesses since.
proof fn what_the_sender_did_since<T>(
    tx: &Sender<T>,
    after: &Sender<T>,
    more: Seq<Event<Option<Box<T>>>>,
)
    requires
        tx.recorded(),
        after.recorded(),
        tx@.memory == after@.memory,
        after.history(false) == tx.history(false) + more,
        after@.trace.len() >= tx@.trace.len(),
    ensures
        more.len() == after@.trace.len() - tx@.trace.len(),
        forall|k: int|
            0 <= k < more.len() ==> #[trigger] more[k] == sender_event(
                tx.shared.m(),
                after@.trace[tx@.trace.len() + k],
            ),
{
    let n = tx@.trace.len() as int;
    assert(tx.history(false).len() == n);
    assert(after.history(false).len() == after@.trace.len());
    assert((tx.history(false) + more).len() == n + more.len());
    assert forall|k: int| 0 <= k < more.len() implies #[trigger] more[k] == sender_event(
        tx.shared.m(),
        after@.trace[n + k],
    ) by {
        assert((tx.history(false) + more)[n + k] == more[k]);
        assert(after.history(false)[n + k] == more[k]);
    }
}

/// The events that made `after` out of `rx` are those of its accesses since.
proof fn what_the_receiver_did_since<T>(
    rx: &Receiver<T>,
    after: &Receiver<T>,
    more: Seq<Event<Option<Box<T>>>>,
)
    requires
        rx.recorded(),
        after.recorded(),
        rx@.memory == after@.memory,
        after.history(false) == rx.history(false) + more,
        after@.trace.len() >= rx@.trace.len(),
    ensures
        more.len() == after@.trace.len() - rx@.trace.len(),
        forall|k: int|
            0 <= k < more.len() ==> #[trigger] more[k] == receiver_event(
                rx.shared.m(),
                after@.trace[rx@.trace.len() + k],
            ),
{
    let n = rx@.trace.len() as int;
    assert(rx.history(false).len() == n);
    assert(after.history(false).len() == after@.trace.len());
    assert((rx.history(false) + more).len() == n + more.len());
    assert forall|k: int| 0 <= k < more.len() implies #[trigger] more[k] == receiver_event(
        rx.shared.m(),
        after@.trace[n + k],
    ) by {
        assert((rx.history(false) + more)[n + k] == more[k]);
        assert(after.history(false)[n + k] == more[k]);
    }
}

/// After whatever the two sides have done to the cells, a call of [`Sender::publish`] that no call
/// of the receiver overlaps fails with `Disconnected` if and only if the receiver has left, and
/// with `Full` if and only if it has not and a value waits; otherwise it sends what is staged.
/// `after` is the sender after the call, and `more` what the call did to the cells.
#[verifier::spinoff_prover]
pub proof fn publishing_through_the_cells<T>(
    tx: &Sender<T>,
    rx: &Receiver<T>,
    rx_gone: bool,
    steps: Seq<Step<Option<Box<T>>>>,
    r: Result<(), TryPublishError>,
    after: &Sender<T>,
    more: Seq<Event<Option<Box<T>>>>,
)
    requires
        came_about(tx, false, rx, rx_gone, steps),
        after.wf(),
        publishes(tx@, r, after@),
        after.history(false) == tx.history(false) + more,
        unfolds(followed(steps, true, more)) is Some,
    ensures
        r == Err::<(), TryPublishError>(TryPublishError::Disconnected) <==> rx_gone,
        r == Err::<(), TryPublishError>(TryPublishError::Full) <==> !rx_gone && tx@.sent().len()
            == rx@.received().len() + 1,
        after@.sent() == (if r is Ok {
            tx@.sent().push(tx@.staged)
        } else {
            tx@.sent()
        }),
        came_about(after, false, rx, rx_gone, followed(steps, true, more)),
{
    let m = tx.shared.m();
    let moves = came_about_in_moves(tx, false, rx, rx_gone, steps);
    let c = play(channel_start(slots_at_start(tx@.initial)), moves)->0;
    values_arrive_in_order(slots_at_start(tx@.initial), moves, c);
    publishing_is_wait_free(tx@, r, after@);
    publishing_appends(tx@, r, after@);
    what_the_sender_did_since(tx, after, more);
    what_follows_comes_last(steps, true, more);
    what_follows_comes_about(steps, true, more);
    let n = tx@.trace.len() as int;
    assert forall|i: int| n <= i < after@.trace.len() implies sender_sees(
        c,
        #[trigger] after@.trace[i],
    ) by {
        assert(comes_about(steps, true, more, 0));
        if i > n {
            assert(comes_about(steps, true, more, 1));
        }
        if i > n + 1 {
            assert(comes_about(steps, true, more, 2));
        }
        if i > n + 2 {
            assert(comes_about(steps, true, more, 3));
        }
        if i > n + 3 {
            assert(comes_about(steps, true, more, 4));
        }
        if i > n + 4 {
            assert(comes_about(steps, true, more, 5));
        }
        assert(more[i - n] == sender_event(m, after@.trace[i]));
    }
    publishing_alone(tx, rx, moves, c, r, after@);
}

/// After whatever the two sides have done to the cells, a call of [`Sender::try_send`] that no call
/// of the receiver overlaps fails with `Disconnected` if and only if the receiver has left, and
/// with `Full` if and only if it has not and a value waits; otherwise it sends `val`. `after` is
/// the sender after the call, and `more` what the call did to the cells.
pub proof fn trying_to_send_through_the_cells<T>(
    tx: &Sender<T>,
    rx: &Receiver<T>,
    rx_gone: bool,
    steps: Seq<Step<Option<Box<T>>>>,
    val: T,
    r: Result<T, TrySendError<T>>,
    after: &Sender<T>,
    more: Seq<Event<Option<Box<T>>>>,
)
    requires
        came_about(tx, false, rx, rx_gone, steps),
        after.wf(),
        match r {
            Ok(_) => publishes(tx@.staging(val), Ok(()), after@),
            Err(TrySendError::Full(_)) => publishes(tx@, Err(TryPublishError::Full), after@),
            Err(TrySendError::Disconnected(_)) => publishes(
                tx@,
                Err(TryPublishError::Disconnected),
                after@,
            ),
        },
        after.history(false) == tx.history(false) + more,
        unfolds(followed(steps, true, more)) is Some,
    ensures
        r matches Err(TrySendError::Disconnected(_)) <==> rx_gone,
        r matches Err(TrySendError::Full(_)) <==> !rx_gone && tx@.sent().len()
            == rx@.received().len() + 1,
        after@.sent() == (if r is Ok {
            tx@.sent().push(val)
        } else {
            tx@.sent()
        }),
        came_about(after, false, rx, rx_gone, followed(steps, true, more)),
{
    match r {
        Ok(_) => {
            let tx2 = Sender { staged: Some(Box::new(val)), ..*tx };
            assert(tx2@ == tx@.staging(val));
            publishing_through_the_cells(&tx2, rx, rx_gone, steps, Ok(()), after, more);
        },
        Err(TrySendError::Full(_)) => {
            let full = Err(TryPublishError::Full);
            publishing_through_the_cells(tx, rx, rx_gone, steps, full, after, more);
        },
        Err(TrySendError::Disconnected(_)) => {
            let gone = Err(TryPublishError::Disconnected);
            publishing_through_the_cells(tx, rx, rx_gone, steps, gone, after, more);
        },
    }
}

/// After whatever the two sides have done to the cells, a call of [`Receiver::try_recv`] that no
/// call of the sender overlaps lends the value that waits; it fails if and only if none waits, with
/// `Disconnected` if the sender has left and with `Empty` if it has not. `after` is the receiver
/// after the call, and `more` what the call did to the cells.
#[verifier::spinoff_prover]
pub proof fn receiving_through_the_cells<T>(
    tx: &Sender<T>,
    tx_gone: bool,
    rx: &Receiver<T>,
    steps: Seq<Step<Option<Box<T>>>>,
    r: Result<(), TryRecvError>,
    after: &Receiver<T>,
    more: Seq<Event<Option<Box<T>>>>,
)
    requires
        came_about(tx, tx_gone, rx, false, steps),
        after.wf(),
        receives(rx@, r, after@),
        after.history(false) == rx.history(false) + more,
        unfolds(followed(steps, false, more)) is Some,
    ensures
        match r {
            Ok(()) => {
                &&& rx@.received().len() < tx@.sent().len()
                &&& after@.current == tx@.sent()[rx@.received().len() as int]
                &&& after@.received() == rx@.received().push(after@.current)
            },
            Err(TryRecvError::Disconnected) => rx@.received() == tx@.sent() && tx_gone,
            Err(TryRecvError::Empty) => rx@.received() == tx@.sent() && !tx_gone,
        },
        came_about(tx, tx_gone, after, false, followed(steps, false, more)),
{
    let m = rx.shared.m();
    let moves = came_about_in_moves(tx, tx_gone, rx, false, steps);
    let c = play(channel_start(slots_at_start(tx@.initial)), moves)->0;
    values_arrive_in_order(slots_at_start(tx@.initial), moves, c);
    receiving_is_wait_free(rx@, r, after@);
    receiving_appends(rx@, r, after@);
    what_the_receiver_did_since(rx, after, more);
    what_follows_comes_last(steps, false, more);
    what_follows_comes_about(steps, false, more);
    let n = rx@.trace.len() as int;
    assert forall|i: int| n <= i < after@.trace.len() implies receiver_sees(
        c,
        #[trigger] after@.trace[i],
    ) by {
        assert(comes_about(steps, false, more, 0));
        if i > n {
            assert(comes_about(steps, false, more, 1));
        }
        if i > n + 1 {
            assert(comes_about(steps, false, more, 2));
        }
        if i > n + 2 {
            assert(comes_about(steps, false, more, 3));
        }
        if i > n + 3 {
            assert(comes_about(steps, false, more, 4));
        }
        if i > n + 4 {
            assert(comes_about(steps, false, more, 5));
        }
        if i > n + 5 {
            assert(comes_about(steps, false, more, 6));
        }
        assert(more[i - n] == receiver_event(m, after@.trace[i]));
    }
    receiving_alone(tx, rx, moves, c, r, after@);
}

/// After whatever the two sides have done to the cells, [`Sender::is_connected`], with no call of
/// the other side overlapping, answers `true` if and only if the receiver has not left, and changes
/// no cell.
pub proof fn asking_the_cells_for_the_receiver<T>(
    tx: &Sender<T>,
    rx: &Receiver<T>,
    rx_gone: bool,
    steps: Seq<Step<Option<Box<T>>>>,
    connected: bool,
)
    requires
        came_about(tx, false, rx, rx_gone, steps),
        unfolds(followed(steps, true, seq![tx.asking(!connected)])) is Some,
    ensures
        tx@.memory.may_show_receiver_gone(!connected) <==> happened(tx.asking(!connected)),
        unfolds(followed(steps, true, seq![tx.asking(!connected)])) == unfolds(steps),
        connected == !rx_gone,
{
    let moves = came_about_in_moves(tx, false, rx, rx_gone, steps);
    let event = tx.asking(!connected);
    what_follows_comes_about(steps, true, seq![event]);
    assert(comes_about(steps, true, seq![event], 0));
    tx.shared.m().receiver_disconnected.reading_tells::<Option<Box<T>>>(!connected);
}

/// After whatever the two sides have done to the cells, [`Receiver::is_connected`], with no call of
/// the other side overlapping, answers `true` if and only if the sender has not left, and changes
/// no cell.
pub proof fn asking_the_cells_for_the_sender<T>(
    tx: &Sender<T>,
    tx_gone: bool,
    rx: &Receiver<T>,
    steps: Seq<Step<Option<Box<T>>>>,
    connected: bool,
)
    requires
        came_about(tx, tx_gone, rx, false, steps),
        unfolds(followed(steps, false, seq![rx.asking(!connected)])) is Some,
    ensures
        rx@.memory.may_show_sender_gone(!connected) <==> happened(rx.asking(!connected)),
        unfolds(followed(steps, false, seq![rx.asking(!connected)])) == unfolds(steps),
        connected == !tx_gone,
{
    let moves = came_about_in_moves(tx, tx_gone, rx, false, steps);
    let event = rx.asking(!connected);
    what_follows_comes_about(steps, false, seq![event]);
    assert(comes_about(steps, false, seq![event], 0));
    rx.shared.m().sender_disconnected.reading_tells::<Option<Box<T>>>(!connected);
}

/// After whatever the two sides have done to the cells, [`Sender::is_full`], with no call of the
/// receiver overlapping, answers `true` if and only if a value waits, and changes no cell.
pub proof fn sender_checking_the_cells<T>(
    tx: &Sender<T>,
    rx: &Receiver<T>,
    rx_gone: bool,
    steps: Seq<Step<Option<Box<T>>>>,
    full: bool,
)
    requires
        came_about(tx, false, rx, rx_gone, steps),
        unfolds(followed(steps, true, seq![tx.checking(full)])) is Some,
    ensures
        tx@.memory.may_show_full(full) <==> happened(tx.checking(full)),
        unfolds(followed(steps, true, seq![tx.checking(full)])) == unfolds(steps),
        full == (tx@.sent().len() == rx@.received().len() + 1),
{
    let moves = came_about_in_moves(tx, false, rx, rx_gone, steps);
    let c = play(channel_start(slots_at_start(tx@.initial)), moves)->0;
    values_arrive_in_order(slots_at_start(tx@.initial), moves, c);
    the_switch_tells_what_waits(c);
    let event = tx.checking(full);
    what_follows_comes_about(steps, true, seq![event]);
    assert(comes_about(steps, true, seq![event], 0));
    tx.shared.m().published.reading_tells::<Option<Box<T>>>(full);
}

/// After whatever the two sides have done to the cells, [`Receiver::is_full`], with no call of the
/// sender overlapping, answers `true` if and only if a value waits, and changes no cell.
pub proof fn receiver_checking_the_cells<T>(
    tx: &Sender<T>,
    tx_gone: bool,
    rx: &Receiver<T>,
    steps: Seq<Step<Option<Box<T>>>>,
    full: bool,
)
    requires
        came_about(tx, tx_gone, rx, false, steps),
        unfolds(followed(steps, false, seq![rx.checking(full)])) is Some,
    ensures
        rx@.memory.may_show_full(full) <==> happened(rx.checking(full)),
        unfolds(followed(steps, false, seq![rx.checking(full)])) == unfolds(steps),
        full == (tx@.sent().len() == rx@.received().len() + 1),
{
    let moves = came_about_in_moves(tx, tx_gone, rx, false, steps);
    let c = play(channel_start(slots_at_start(tx@.initial)), moves)->0;
    values_arrive_in_order(slots_at_start(tx@.initial), moves, c);
    the_switch_tells_what_waits(c);
    let event = rx.checking(full);
    what_follows_comes_about(steps, false, seq![event]);
    assert(comes_about(steps, false, seq![event], 0));
    rx.shared.m().published.reading_tells::<Option<Box<T>>>(full);
}

/// Create an accumulating channel pair.
///
/// All slots are initialized with [`Default::default`].
pub fn channel<T: Default>() -> (r: (Sender<T>, Receiver<T>))
    ensures
        r.0.wf(),
        r.1.wf(),
        r.0@ == sender_at_start(r.0@.memory, r.0@.initial),
        r.1@ == receiver_at_start(r.0@.memory, r.0@.initial),
        r.0@.memory.starts_as(channel_start(slots_at_start(r.0@.initial))),
        r.0@.initial.len() == 3,
        forall|i: int| 0 <= i < 3 ==> call_ensures(T::default, (), #[trigger] r.0@.initial[i]),
{
    channel_with(T::default)
}

/// Create an accumulating channel pair, initializing all slots by repeatedly calling `init`.
///
/// `init` is called 3 times.
pub fn channel_with<T>(mut init: impl FnMut() -> T) -> (r: (Sender<T>, Receiver<T>))
    requires
        init.requires(()),
    ensures
        r.0.wf(),
        r.1.wf(),
        r.0@ == sender_at_start(r.0@.memory, r.0@.initial),
        r.1@ == receiver_at_start(r.0@.memory, r.0@.initial),
        r.0@.memory.starts_as(channel_start(slots_at_start(r.0@.initial))),
        r.0@.initial.len() == 3,
        forall|i: int| 0 <= i < 3 ==> init.ensures((), #[trigger] r.0@.initial[i]),
{
    let current = init();
    let staged = init();
    let spare = init();
    let ghost initial = seq![current, staged, spare];
    // The receiver occupies slot 0 at the start, and the sender slot 1.
    let (mut region, tx_log, tx_pass, rx_log, rx_pass) = Region::new();
    let mut slots: Vec<Slot<Option<Box<T>>>> = Vec::new();
    slots.push(Slot::new(None, &mut region));
    slots.push(Slot::new(None, &mut region));
    slots.push(Slot::new(Some(Box::new(spare)), &mut region));
    let shared = Arc::new(
        Shared {
            slots,
            published: Switch::new(&mut region),
            sender_disconnected: Flag::new::<Tx>(&mut region),
            receiver_disconnected: Flag::new::<Rx>(&mut region),
            left_by_sender: Place::new::<Tx>(None, &region),
            left_by_receiver: Place::new::<Rx>(None, &region),
        },
    );
    let tx = Sender {
        shared: Tie::new(shared.clone(), tx_pass),
        index: 1,
        staged: Some(Box::new(staged)),
        log: tx_log,
        trace: Ghost(Seq::empty()),
        initial: Ghost(initial),
    };
    let rx = Receiver {
        shared: Tie::new(shared, rx_pass),
        index: 0,
        current: Some(Box::new(current)),
        log: rx_log,
        trace: Ghost(Seq::empty()),
        initial: Ghost(initial),
    };
    assert(tx.log@ =~= sender_events(tx.shared.m(), tx.trace@));
    assert(rx.log@ =~= receiver_events(rx.shared.m(), rx.trace@));
    (tx, rx)
}

} // verus!
