//! A single-producer, single-consumer channel. The consumer reads the latest-produced value.
//!
//! The sender and receiver are wait-free.
//!
//! The [`Sender`] regains ownership over old values, both read and unread, allowing it to reuse
//! old values. The [`Receiver`] gets mutable access to the value it's reading, allowing sending
//! signals back to the sender (or, e.g., [`core::mem::take`]).
//!
//! This uses a triple buffer internally.
//!
//! Each side keeps the value of the slot it owns at hand, and brings it back to the slot before it
//! gives the slot up. When it is dropped, it leaves its value to the channel, which goes when both
//! sides are gone. Its `trace` records its accesses to shared memory, with what was handed over and
//! what came back; [`crate::protocol::triple`] states what follows for the channel as a whole.
//!
//! A slot that changes hands holds a value: [`publishing_stages_a_value`] and
//! [`updating_keeps_a_value`] say so of every run. A single call cannot know it in advance, so its
//! contract also says what comes of a vacant slot: a side without a value. [`Sender::has_staged`]
//! and [`Receiver::has_current`] tell whether a side has one.

use crate::cell::{boxed, happened, is_acquire, is_release, unboxed, Event, Flag, Slot, Stamp};
use crate::protocol::triple::{
    a_play_continues, after, an_update_catches_up, asking_sees, back, can, channel_start,
    consistent, fit_to_start, gone_stays_gone, is_gone, is_sent, play, play_extends, received_by,
    received_by_extends, receiver_part, receiver_run, receiver_run_extends, receiver_step,
    receiver_then, returned_by, returned_by_extends, sees, sender_part, sender_run,
    sender_run_extends, sender_sees, sender_step, sender_then, sent_by, sent_by_extends,
    sent_stamp, stamps_read_back, taken_slot, up_to_date, values_arrive_in_order, BACKBUFFER_MASK,
    Channel, Move, ReceiverAccess, ReceiverPhase, ReceiverState, SENDER_DISCONNECTED_MASK,
    SenderAccess, SenderPhase, SenderState, VALUE_SENT_MASK,
};
use crate::protocol::picks;
use crate::memory::{
    comes_about, followed, gets, part, puts, unfolds, what_follows_comes_about,
    what_follows_comes_last, Memory, Step,
};
use crate::vault::{Leavable, Log, Name, Place, Region, Rx, Tie, Tx};
use std::sync::Arc;
use vstd::multiset::Multiset;
use vstd::prelude::*;

verus! {

/// Errors that can occur when trying to receive a value using [`Receiver::try_recv`].
#[derive(Clone, Copy, Debug, PartialEq, Eq, Structural)]
pub enum TryRecvError {
    /// The channel is empty.
    Empty,
    /// The channel is empty and the [`Sender`] side of the channel has disconnected.
    Disconnected,
}

/// What both sides of the channel can reach.
#[verifier::reject_recursive_types(T)]
pub struct Shared<T> {
    buffer: Vec<Slot<Option<Box<T>>>>,
    stamp: Stamp,
    receiver_disconnected: Flag,
    /// The value that the sender had when it left.
    left_by_sender: Place<Option<Box<T>>>,
    /// The value that the receiver had when it left.
    left_by_receiver: Place<Option<Box<T>>>,
}

impl<T> Shared<T> {
    /// The cells of the memory are in `region`, each under its own number.
    spec fn is_in(&self, region: Name) -> bool {
        &&& forall|i: int|
            0 <= i < self.buffer.len() ==> (#[trigger] self.buffer[i]).region() == region
        &&& self.stamp.region() == region
        &&& self.receiver_disconnected.region() == region
        &&& self.is_laid_out()
    }

    /// Each cell has its own number.
    spec fn is_laid_out(&self) -> bool {
        &&& forall|i: int| 0 <= i < self.buffer.len() ==> (#[trigger] self.buffer[i]).id() == i
        &&& self.stamp.id() == self.buffer.len()
        &&& self.receiver_disconnected.id() == self.buffer.len() + 1
    }

    /// Who looks whether the receiver has disconnected may see `gone`. Only looking tells.
    pub closed spec fn may_show_receiver_gone(&self, gone: bool) -> bool {
        self.receiver_disconnected.may_read(gone)
    }

    /// What the slots held first.
    pub closed spec fn slots_at_start(&self) -> Seq<Option<T>> {
        self.buffer@.map_values(|slot: Slot<Option<Box<T>>>| unboxed(slot.first()))
    }

    /// What the memory held first is what the memory of `c` holds.
    pub closed spec fn starts_as(&self, c: Channel<T>) -> bool {
        &&& self.slots_at_start() == c.slots
        &&& self.stamp.first() == c.stamp
        &&& !c.sender_gone
        &&& self.receiver_disconnected.first() == c.receiver_gone
    }
}

impl<T> Leavable for Shared<T> {
    closed spec fn leaves_in(&self, region: Name) -> bool {
        &&& self.stamp.region() == region
        &&& self.receiver_disconnected.region() == region
        &&& !self.receiver_disconnected.is_senders()
        &&& self.left_by_sender.region() == region
        &&& self.left_by_sender.is_senders()
        &&& self.left_by_receiver.region() == region
        &&& !self.left_by_receiver.is_senders()
    }
}

/// What the cells record of an access of the sender.
spec fn sender_event<T>(m: &Shared<T>, a: SenderAccess<T>) -> Event<Option<Box<T>>> {
    match a {
        SenderAccess::FillSlot { slot, val, displaced } => Event::ExchangeSlot {
            cell: m.buffer[slot as int],
            given: boxed(Some(val)),
            got: boxed(displaced),
        },
        SenderAccess::SwapStamp { given, taken } => Event::SwapStamp {
            cell: m.stamp,
            value: given,
            got: taken,
        },
        SenderAccess::TakeSlot { slot, got } => Event::ExchangeSlot {
            cell: m.buffer[slot as int],
            given: None,
            got: boxed(got),
        },
    }
}

/// What the cells record of the accesses of the sender.
spec fn sender_events<T>(m: &Shared<T>, trace: Seq<SenderAccess<T>>) -> Seq<Event<Option<Box<T>>>> {
    trace.map_values(|a: SenderAccess<T>| sender_event(m, a))
}

/// One more access of the sender is one more event.
proof fn sender_events_extend<T>(m: &Shared<T>, trace: Seq<SenderAccess<T>>, a: SenderAccess<T>)
    ensures
        sender_events(m, trace.push(a)) == sender_events(m, trace).push(sender_event(m, a)),
{
    assert(sender_events(m, trace.push(a)) =~= sender_events(m, trace).push(sender_event(m, a)));
}

/// What the cells record of an access of the receiver.
spec fn receiver_event<T>(m: &Shared<T>, a: ReceiverAccess<T>) -> Event<Option<Box<T>>> {
    match a {
        ReceiverAccess::LoadStamp(got) => Event::ReadStamp { cell: m.stamp, got },
        ReceiverAccess::FillSlot { slot, val, displaced } => Event::ExchangeSlot {
            cell: m.buffer[slot as int],
            given: boxed(Some(val)),
            got: boxed(displaced),
        },
        ReceiverAccess::SwapStamp { given, taken } => Event::SwapStamp {
            cell: m.stamp,
            value: given,
            got: taken,
        },
        ReceiverAccess::TakeSlot { slot, got } => Event::ExchangeSlot {
            cell: m.buffer[slot as int],
            given: None,
            got: boxed(got),
        },
    }
}

/// What the cells record of the accesses of the receiver.
spec fn receiver_events<T>(m: &Shared<T>, trace: Seq<ReceiverAccess<T>>) -> Seq<
    Event<Option<Box<T>>>,
> {
    trace.map_values(|a: ReceiverAccess<T>| receiver_event(m, a))
}

/// One more access of the receiver is one more event.
proof fn receiver_events_extend<T>(
    m: &Shared<T>,
    trace: Seq<ReceiverAccess<T>>,
    a: ReceiverAccess<T>,
)
    ensures
        receiver_events(m, trace.push(a)) == receiver_events(m, trace).push(receiver_event(m, a)),
{
    assert(receiver_events(m, trace.push(a)) =~= receiver_events(m, trace).push(
        receiver_event(m, a),
    ));
}

/// The sender part of the channel.
#[verifier::reject_recursive_types(T)]
pub struct Sender<T> {
    shared: Tie<Shared<T>, Tx>,
    /// The slot that the sender owns.
    index: u8,
    /// The value of the sender's slot.
    staged: Option<Box<T>>,
    /// What the sender has done to the cells so far.
    log: Log<Option<Box<T>>>,
    /// The accesses of the sender to shared memory so far.
    trace: Ghost<Seq<SenderAccess<T>>>,
    /// What the slots held at the start.
    initial: Ghost<Seq<T>>,
}

/// The receiver part of the channel.
#[verifier::reject_recursive_types(T)]
pub struct Receiver<T> {
    shared: Tie<Shared<T>, Rx>,
    /// The slot that the receiver owns.
    index: u8,
    /// Once the receiver has seen that the sender is gone, this becomes true.
    sender_disconnected: bool,
    /// The value of the receiver's slot.
    current: Option<Box<T>>,
    /// What the receiver has done to the cells so far.
    log: Log<Option<Box<T>>>,
    /// The accesses of the receiver to shared memory so far.
    trace: Ghost<Seq<ReceiverAccess<T>>>,
    /// What the slots held at the start.
    initial: Ghost<Seq<T>>,
}

/// The sender as the contracts see it.
#[verifier::ext_equal]
#[verifier::reject_recursive_types(T)]
pub struct SenderView<T> {
    pub index: u8,
    /// The staged value. `wf` says that there is one.
    pub staged: Option<T>,
    pub trace: Seq<SenderAccess<T>>,
    pub memory: Shared<T>,
    pub initial: Seq<T>,
}

/// The receiver as the contracts see it.
#[verifier::ext_equal]
#[verifier::reject_recursive_types(T)]
pub struct ReceiverView<T> {
    pub index: u8,
    pub sender_disconnected: bool,
    /// The current value. `wf` says that there is one.
    pub current: Option<T>,
    pub trace: Seq<ReceiverAccess<T>>,
    pub memory: Shared<T>,
    pub initial: Seq<T>,
}

impl<T> SenderView<T> {
    /// The values that were sent so far, in order.
    pub open spec fn sent(self) -> Seq<T> {
        sent_by(self.trace)
    }

    /// The sender with `val` as its staged value.
    pub open spec fn staging(self, val: T) -> Self {
        SenderView { staged: Some(val), ..self }
    }

    /// The sender after it has put its staged value into its slot, where `displaced` was.
    pub open spec fn after_fill(self, displaced: Option<T>) -> Self {
        SenderView {
            staged: None,
            trace: self.trace.push(
                SenderAccess::FillSlot { slot: self.index, val: self.staged->0, displaced },
            ),
            ..self
        }
    }

    /// The sender after it has swapped the stamp, which was `taken`.
    pub open spec fn after_stamp(self, taken: u8) -> Self {
        SenderView {
            index: taken_slot(taken, self.index),
            trace: self.trace.push(
                SenderAccess::SwapStamp { given: sent_stamp(self.index), taken },
            ),
            ..self
        }
    }

    /// The sender after it has taken `got` out of its slot.
    pub open spec fn after_take(self, got: Option<T>) -> Self {
        SenderView {
            staged: got,
            trace: self.trace.push(SenderAccess::TakeSlot { slot: self.index, got }),
            ..self
        }
    }
}

/// The sender after it has published its staged value: `displaced` lay in the slot it gave up,
/// `taken` was the stamp, and `staged` lay in the slot it got.
pub open spec fn after_publish<T>(
    v: SenderView<T>,
    displaced: Option<T>,
    taken: u8,
    staged: Option<T>,
) -> SenderView<T> {
    v.after_fill(displaced).after_stamp(taken).after_take(staged)
}

/// Publishing can turn `before` into `after`.
pub open spec fn publishes<T>(before: SenderView<T>, after: SenderView<T>) -> bool {
    exists|displaced: Option<T>, taken: u8|
        after == #[trigger] after_publish(before, displaced, taken, after.staged)
}

/// Publishing makes three accesses to shared memory, whatever the receiver does.
pub proof fn publishing_is_wait_free<T>(before: SenderView<T>, after: SenderView<T>)
    requires
        publishes(before, after),
    ensures
        after.trace.len() == before.trace.len() + 3,
        after.trace.take(before.trace.len() as int) == before.trace,
{
    assert(after.trace.take(before.trace.len() as int) =~= before.trace);
}

/// What was sent is what it was, with the staged value at the end.
pub proof fn publishing_appends<T>(before: SenderView<T>, after: SenderView<T>)
    requires
        publishes(before, after),
    ensures
        after.sent() == before.sent().push(before.staged->0),
{
    broadcast use sent_by_extends;

}

impl<T> ReceiverView<T> {
    /// The values that were received so far, in order.
    pub open spec fn received(self) -> Seq<T> {
        received_by(self.trace)
    }

    /// The values that were given up for them, in order.
    pub open spec fn returned(self) -> Seq<T> {
        returned_by(self.trace)
    }

    /// The receiver with `val` as its current value.
    pub open spec fn holding(self, val: T) -> Self {
        ReceiverView { current: Some(val), ..self }
    }

    /// The receiver after it has read the stamp.
    pub open spec fn after_load(self, stamp: u8) -> Self {
        ReceiverView {
            sender_disconnected: self.sender_disconnected || is_gone(stamp),
            trace: self.trace.push(ReceiverAccess::LoadStamp(stamp)),
            ..self
        }
    }

    /// The receiver after it has put its current value into its slot, where `displaced` was.
    pub open spec fn after_fill(self, displaced: Option<T>) -> Self {
        ReceiverView {
            current: None,
            trace: self.trace.push(
                ReceiverAccess::FillSlot { slot: self.index, val: self.current->0, displaced },
            ),
            ..self
        }
    }

    /// The receiver after it has swapped the stamp, which was `taken`.
    pub open spec fn after_stamp(self, taken: u8) -> Self {
        ReceiverView {
            index: taken_slot(taken, self.index),
            sender_disconnected: self.sender_disconnected || is_gone(taken),
            trace: self.trace.push(ReceiverAccess::SwapStamp { given: self.index, taken }),
            ..self
        }
    }

    /// The receiver after it has taken `got` out of its slot.
    pub open spec fn after_take(self, got: Option<T>) -> Self {
        ReceiverView {
            current: got,
            trace: self.trace.push(ReceiverAccess::TakeSlot { slot: self.index, got }),
            ..self
        }
    }
}

/// The receiver after it has swapped in the back-buffer: it read `stamp`, `displaced` lay in the
/// slot it gave up, `taken` was the stamp then, and `current` lay in the slot it got.
pub open spec fn after_receive<T>(
    v: ReceiverView<T>,
    stamp: u8,
    displaced: Option<T>,
    taken: u8,
    current: Option<T>,
) -> ReceiverView<T> {
    v.after_load(stamp).after_fill(displaced).after_stamp(taken).after_take(current)
}

/// Swapping in the back-buffer, because the stamp said that a value was sent, can turn `before`
/// into `after`.
pub open spec fn swaps_in<T>(before: ReceiverView<T>, after: ReceiverView<T>) -> bool {
    exists|stamp: u8, displaced: Option<T>, taken: u8|
        is_sent(stamp) && after == #[trigger] after_receive(
            before,
            stamp,
            displaced,
            taken,
            after.current,
        )
}

/// Reading a stamp that says that no value was sent can turn `before` into `after`.
pub open spec fn finds_nothing<T>(before: ReceiverView<T>, after: ReceiverView<T>) -> bool {
    exists|stamp: u8| !is_sent(stamp) && after == #[trigger] before.after_load(stamp)
}

/// An update can turn `before` into `after`. `fresh` says whether there is a new value: whether the
/// stamp that the receiver read said that one was sent, and the slot that it got holds one.
pub open spec fn updates<T>(before: ReceiverView<T>, fresh: bool, after: ReceiverView<T>) -> bool {
    if fresh {
        swaps_in(before, after) && after.current is Some
    } else {
        finds_nothing(before, after) || (swaps_in(before, after) && after.current is None)
    }
}

/// An update makes at most four accesses to shared memory, whatever the sender does.
pub proof fn updating_is_wait_free<T>(before: ReceiverView<T>, fresh: bool, after: ReceiverView<T>)
    requires
        updates(before, fresh, after),
    ensures
        before.trace.len() < after.trace.len() <= before.trace.len() + 4,
        after.trace.take(before.trace.len() as int) == before.trace,
{
    assert(after.trace.take(before.trace.len() as int) =~= before.trace);
}

/// What was received is what it was, with the new current value at the end if there is one; and
/// what was given up likewise, with the value that was current before.
pub proof fn updating_appends<T>(before: ReceiverView<T>, fresh: bool, after: ReceiverView<T>)
    requires
        updates(before, fresh, after),
    ensures
        fresh ==> after.received() == before.received().push(after.current->0) && after.returned()
            == before.returned().push(before.current->0),
        !fresh ==> after.received() == before.received(),
        !fresh && after.current is Some ==> after.returned() == before.returned() && after.current
            == before.current && after.index == before.index,
{
    broadcast use {received_by_extends, returned_by_extends};

}

impl<T> Sender<T> {
    /// The sender as the contracts see it.
    pub closed spec fn view(&self) -> SenderView<T> {
        SenderView {
            index: self.index,
            staged: unboxed(self.staged),
            trace: self.trace@,
            memory: *self.shared.m(),
            initial: self.initial@,
        }
    }

    /// The channel has three slots, which held what those of a new channel hold.
    pub closed spec fn sized(&self) -> bool {
        &&& self.shared.m().buffer.len() == 3
        &&& fit_to_start(self.shared.m().slots_at_start())
    }

    /// The sender, which was `before`, has left its value to the channel and announced that it is
    /// gone.
    pub closed spec fn has_left(&self, before: &Self) -> bool {
        before.shared.is_tied() ==> {
            &&& before.shared.m().left_by_sender.was_left(before.staged)
            &&& self.log@ == before.log@.push(
                Event::MarkStamp { cell: before.shared.m().stamp, bits: SENDER_DISCONNECTED_MASK },
            )
        }
    }

    /// Everything that the sender has done to the cells, and that it has left if `gone` says so.
    pub closed spec fn history(&self, gone: bool) -> Seq<Event<Option<Box<T>>>> {
        if gone {
            self.log@.push(
                Event::MarkStamp { cell: self.shared.m().stamp, bits: SENDER_DISCONNECTED_MASK },
            )
        } else {
            self.log@
        }
    }

    /// What [`is_connected`](Self::is_connected) does to the cells when it sees `gone`.
    pub closed spec fn asking(&self, gone: bool) -> Event<Option<Box<T>>> {
        Event::ReadFlag { cell: self.shared.m().receiver_disconnected, got: gone }
    }

    /// The accesses of the trace were made: the cells have recorded them.
    pub closed spec fn recorded(&self) -> bool {
        &&& self.log@ == sender_events(self.shared.m(), self.trace@)
        &&& self.shared.m().is_in(self.log.region())
        &&& self.shared.is_tied()
        &&& self.shared.m().starts_as(channel_start(self.shared.m().slots_at_start()))
    }

    /// The sender's accesses were made, and have brought it to where it is.
    pub open spec fn in_phase(&self, phase: SenderPhase) -> bool {
        &&& self.recorded()
        &&& sender_run(self@.trace) == Some(SenderState { index: self@.index, phase })
        &&& self@.index < 3
        &&& self.sized()
    }

    /// The sender has followed the protocol, is not in the middle of publishing, and has a staged
    /// value.
    pub open spec fn wf(&self) -> bool {
        &&& self.in_phase(SenderPhase::Idle)
        &&& self@.staged is Some
    }

    /// Puts the staged value into the sender's slot.
    fn fill_slot(&mut self)
        requires
            old(self).recorded(),
            old(self).sized(),
            old(self)@.index < 3,
            old(self)@.staged is Some,
        ensures
            final(self).shared == old(self).shared,
            exists|displaced: Option<T>|
                final(self)@ == #[trigger] old(self)@.after_fill(displaced),
            final(self).recorded(),
            sender_run(final(self)@.trace) == sender_then(
                sender_run(old(self)@.trace),
                final(self)@.trace.last(),
            ),
    {
        let val = self.staged.take();
        let displaced = self.shared.m().buffer[self.index as usize].exchange(val, &mut self.log);
        proof {
            let a = SenderAccess::FillSlot {
                slot: self.index,
                val: unboxed(val)->0,
                displaced: unboxed(displaced),
            };
            sender_run_extends(self.trace@, a);
            sender_events_extend(self.shared.m(), self.trace@, a);
            self.trace@ = self.trace@.push(a);
            assert(self@ == old(self)@.after_fill(unboxed(displaced)));
        }
    }

    /// Takes what is in the sender's slot out of it.
    fn take_slot(&mut self)
        requires
            old(self).recorded(),
            old(self).sized(),
            old(self)@.index < 3,
        ensures
            final(self).shared == old(self).shared,
            final(self)@ == old(self)@.after_take(final(self)@.staged),
            final(self).recorded(),
            sender_run(final(self)@.trace) == sender_then(
                sender_run(old(self)@.trace),
                final(self)@.trace.last(),
            ),
    {
        let got = self.shared.m().buffer[self.index as usize].exchange(None, &mut self.log);
        self.staged = got;
        proof {
            let a = SenderAccess::TakeSlot { slot: self.index, got: unboxed(got) };
            sender_run_extends(self.trace@, a);
            sender_events_extend(self.shared.m(), self.trace@, a);
            self.trace@ = self.trace@.push(a);
        }
    }

    /// Swaps the sender's slot, as one that is sent, for the back-buffer.
    fn swap_stamp(&mut self) -> (taken: u8)
        requires
            old(self).recorded(),
        ensures
            final(self).shared == old(self).shared,
            final(self)@ == old(self)@.after_stamp(taken),
            final(self).recorded(),
            sender_run(final(self)@.trace) == sender_then(
                sender_run(old(self)@.trace),
                final(self)@.trace.last(),
            ),
    {
        let given: u8 = VALUE_SENT_MASK | self.index;
        let taken: u8 = self.shared.m().stamp.swap(given, &mut self.log);
        proof {
            let a = SenderAccess::SwapStamp { given, taken };
            sender_run_extends(self.trace@, a);
            sender_events_extend(self.shared.m(), self.trace@, a);
            self.trace@ = self.trace@.push(a);
        }
        let index: u8 = taken & BACKBUFFER_MASK;
        if index < 3 {
            self.index = index;
        }
        taken
    }

    /// Send a new value (i.e., set the next value the reader will read).
    ///
    /// This returns the previously staged value to allow reuse.
    ///
    /// This is equivalent to replacing the value from [`Self::get_mut`] followed by
    /// [`Self::publish`].
    pub fn send(&mut self, val: T) -> (prev: T)
        requires
            old(self).wf(),
        ensures
            final(self).in_phase(SenderPhase::Idle),
            final(self)@.staged is Some ==> final(self).wf(),
            Some(prev) == old(self)@.staged,
            publishes(old(self)@.staging(val), final(self)@),
            final(self)@.sent() == old(self)@.sent().push(val),
    {
        let mut prev = val;
        std::mem::swap(self.get_mut(), &mut prev);
        assert(self@ == old(self)@.staging(val));
        self.publish();
        prev
    }

    /// Get the sender's currently staged value mutably, for in-place modification.
    ///
    /// Use [`publish`](Self::publish) to publish the staged value.
    pub fn get_mut(&mut self) -> (r: &mut T)
        requires
            old(self).wf(),
        ensures
            Some(*r) == old(self)@.staged,
            final(self)@ == old(self)@.staging(*final(r)),
            final(self).wf(),
    {
        self.staged.as_mut().unwrap()
    }

    /// Publish the sender's staged value, making it visible to the receiver.
    ///
    /// The channel's back-buffer becomes the sender's new staged value in exchange.
    pub fn publish(&mut self)
        requires
            old(self).wf(),
        ensures
            final(self).in_phase(SenderPhase::Idle),
            final(self)@.staged is Some ==> final(self).wf(),
            publishes(old(self)@, final(self)@),
            final(self)@.sent() == old(self)@.sent().push(old(self)@.staged->0),
    {
        self.fill_slot();
        let ghost displaced = choose|displaced: Option<T>|
            self@ == #[trigger] old(self)@.after_fill(displaced);
        let taken: u8 = self.swap_stamp();
        self.take_slot();
        assert(self@ == after_publish(old(self)@, displaced, taken, self@.staged));
        proof {
            publishing_appends(old(self)@, self@);
        }
    }

    /// Returns `true` if there is a staged value. A sender of a new channel has one, and
    /// [`publishing_stages_a_value`] says when it gets one in exchange for what it publishes.
    pub fn has_staged(&self) -> (r: bool)
        ensures
            r == (self@.staged is Some),
    {
        self.staged.is_some()
    }

    /// Returns `true` if the [`Receiver`] is still alive. The other side decides when that ends.
    pub fn is_connected(&self) -> (r: bool)
        ensures
            self@.memory.may_show_receiver_gone(!r),
    {
        !self.shared.m().receiver_disconnected.peek()
    }
}

impl<T> Receiver<T> {
    /// The receiver as the contracts see it.
    pub closed spec fn view(&self) -> ReceiverView<T> {
        ReceiverView {
            index: self.index,
            sender_disconnected: self.sender_disconnected,
            current: unboxed(self.current),
            trace: self.trace@,
            memory: *self.shared.m(),
            initial: self.initial@,
        }
    }

    /// The channel has three slots, which held what those of a new channel hold.
    pub closed spec fn sized(&self) -> bool {
        &&& self.shared.m().buffer.len() == 3
        &&& fit_to_start(self.shared.m().slots_at_start())
    }

    /// The receiver, which was `before`, has left its value to the channel and announced that it is
    /// gone.
    pub closed spec fn has_left(&self, before: &Self) -> bool {
        before.shared.is_tied() ==> {
            &&& before.shared.m().left_by_receiver.was_left(before.current)
            &&& self.log@ == before.log@.push(
                Event::RaiseFlag { cell: before.shared.m().receiver_disconnected },
            )
        }
    }

    /// Everything that the receiver has done to the cells, and that it has left if `gone` says so.
    pub closed spec fn history(&self, gone: bool) -> Seq<Event<Option<Box<T>>>> {
        if gone {
            self.log@.push(Event::RaiseFlag { cell: self.shared.m().receiver_disconnected })
        } else {
            self.log@
        }
    }

    /// The accesses of the trace were made: the cells have recorded them.
    pub closed spec fn recorded(&self) -> bool {
        &&& self.log@ == receiver_events(self.shared.m(), self.trace@)
        &&& self.shared.m().is_in(self.log.region())
        &&& self.shared.is_tied()
        &&& self.shared.m().starts_as(channel_start(self.shared.m().slots_at_start()))
    }

    /// The receiver's accesses were made, and have brought it to where it is.
    pub open spec fn in_phase(&self, phase: ReceiverPhase) -> bool {
        &&& self.recorded()
        &&& receiver_run(self@.trace) == Some(
            ReceiverState { index: self@.index, gone: self@.sender_disconnected, phase },
        )
        &&& self@.index < 3
        &&& self.sized()
    }

    /// The receiver has followed the protocol, is not in the middle of receiving, and has a current
    /// value.
    pub open spec fn wf(&self) -> bool {
        &&& self.in_phase(ReceiverPhase::Idle)
        &&& self@.current is Some
    }

    /// Reads the stamp, and takes note of the sender's disconnect.
    fn load_stamp(&mut self) -> (stamp: u8)
        requires
            old(self).recorded(),
        ensures
            final(self).shared == old(self).shared,
            final(self)@ == old(self)@.after_load(stamp),
            final(self).recorded(),
            receiver_run(final(self)@.trace) == receiver_then(
                receiver_run(old(self)@.trace),
                final(self)@.trace.last(),
            ),
    {
        let stamp: u8 = self.shared.m().stamp.read(&mut self.log);
        proof {
            let a = ReceiverAccess::LoadStamp(stamp);
            receiver_run_extends(self.trace@, a);
            receiver_events_extend(self.shared.m(), self.trace@, a);
            self.trace@ = self.trace@.push(a);
        }
        self.sender_disconnected = self.sender_disconnected || stamp & SENDER_DISCONNECTED_MASK
            != 0;
        stamp
    }

    /// Puts the current value into the receiver's slot.
    fn fill_slot(&mut self)
        requires
            old(self).recorded(),
            old(self).sized(),
            old(self)@.index < 3,
            old(self)@.current is Some,
        ensures
            final(self).shared == old(self).shared,
            exists|displaced: Option<T>|
                final(self)@ == #[trigger] old(self)@.after_fill(displaced),
            final(self).recorded(),
            receiver_run(final(self)@.trace) == receiver_then(
                receiver_run(old(self)@.trace),
                final(self)@.trace.last(),
            ),
    {
        let val = self.current.take();
        let displaced = self.shared.m().buffer[self.index as usize].exchange(val, &mut self.log);
        proof {
            let a = ReceiverAccess::FillSlot {
                slot: self.index,
                val: unboxed(val)->0,
                displaced: unboxed(displaced),
            };
            receiver_run_extends(self.trace@, a);
            receiver_events_extend(self.shared.m(), self.trace@, a);
            self.trace@ = self.trace@.push(a);
            assert(self@ == old(self)@.after_fill(unboxed(displaced)));
        }
    }

    /// Takes what is in the receiver's slot out of it.
    fn take_slot(&mut self)
        requires
            old(self).recorded(),
            old(self).sized(),
            old(self)@.index < 3,
        ensures
            final(self).shared == old(self).shared,
            final(self)@ == old(self)@.after_take(final(self)@.current),
            final(self).recorded(),
            receiver_run(final(self)@.trace) == receiver_then(
                receiver_run(old(self)@.trace),
                final(self)@.trace.last(),
            ),
    {
        let got = self.shared.m().buffer[self.index as usize].exchange(None, &mut self.log);
        self.current = got;
        proof {
            let a = ReceiverAccess::TakeSlot { slot: self.index, got: unboxed(got) };
            receiver_run_extends(self.trace@, a);
            receiver_events_extend(self.shared.m(), self.trace@, a);
            self.trace@ = self.trace@.push(a);
        }
    }

    /// Swaps the receiver's slot for the back-buffer, and takes note of the sender's disconnect.
    fn swap_stamp(&mut self) -> (taken: u8)
        requires
            old(self).recorded(),
        ensures
            final(self).shared == old(self).shared,
            final(self)@ == old(self)@.after_stamp(taken),
            final(self).recorded(),
            receiver_run(final(self)@.trace) == receiver_then(
                receiver_run(old(self)@.trace),
                final(self)@.trace.last(),
            ),
    {
        let taken: u8 = self.shared.m().stamp.swap(self.index, &mut self.log);
        proof {
            let a = ReceiverAccess::SwapStamp { given: self.index, taken };
            receiver_run_extends(self.trace@, a);
            receiver_events_extend(self.shared.m(), self.trace@, a);
            self.trace@ = self.trace@.push(a);
        }
        self.sender_disconnected = self.sender_disconnected || taken & SENDER_DISCONNECTED_MASK
            != 0;
        let index: u8 = taken & BACKBUFFER_MASK;
        if index < 3 {
            self.index = index;
        }
        taken
    }

    /// Try to receive a value from the channel.
    ///
    /// Returns the value if one was available. Returns [`TryRecvError::Empty`] if the channel is
    /// empty, or [`TryRecvError::Disconnected`] if the channel is empty and the sender has been
    /// dropped.
    ///
    /// See also [`Self::update`].
    pub fn try_recv(&mut self) -> (r: Result<&mut T, TryRecvError>)
        requires
            old(self).wf(),
        ensures
            final(self).in_phase(ReceiverPhase::Idle),
            final(self)@.current is Some ==> final(self).wf(),
            match r {
                Ok(val) => exists|mid: ReceiverView<T>|
                    {
                        &&& #[trigger] updates(old(self)@, true, mid)
                        &&& mid.received() == old(self)@.received().push(mid.current->0)
                        &&& mid.returned() == old(self)@.returned().push(old(self)@.current->0)
                        &&& Some(*val) == mid.current
                        &&& final(self)@ == mid.holding(*final(val))
                    },
                Err(e) => {
                    &&& updates(old(self)@, false, final(self)@)
                    &&& final(self)@.received() == old(self)@.received()
                    &&& e == (if final(self)@.sender_disconnected {
                        TryRecvError::Disconnected
                    } else {
                        TryRecvError::Empty
                    })
                },
            },
    {
        if self.update() {
            Ok(self.get_mut())
        } else if self.sender_disconnected {
            Err(TryRecvError::Disconnected)
        } else {
            Err(TryRecvError::Empty)
        }
    }

    /// Get the current value.
    ///
    /// Use [`Self::try_recv`] or [`Self::update`] to receive a new value from the channel.
    pub fn get(&mut self) -> (r: &T)
        requires
            old(self).wf(),
        ensures
            Some(*r) == old(self)@.current,
            final(self)@ == old(self)@,
            final(self).wf(),
    {
        self.current.as_ref().unwrap()
    }

    /// Get the current value mutably.
    ///
    /// If you want to take the value out of the channel, consider using the channel with an
    /// `Option<T>` and calling `rx.get_mut().take()`.
    ///
    /// Use [`Self::try_recv`] or [`Self::update`] to receive a new value from the channel.
    pub fn get_mut(&mut self) -> (r: &mut T)
        requires
            old(self).wf(),
        ensures
            Some(*r) == old(self)@.current,
            final(self)@ == old(self)@.holding(*final(r)),
            final(self).wf(),
    {
        self.current.as_mut().unwrap()
    }

    /// Check for and swap in the next value the reader should observe.
    ///
    /// See also [`Self::try_recv`].
    pub fn update(&mut self) -> (fresh: bool)
        requires
            old(self).wf(),
        ensures
            final(self).in_phase(ReceiverPhase::Idle),
            final(self)@.current is Some ==> final(self).wf(),
            updates(old(self)@, fresh, final(self)@),
            fresh ==> final(self)@.received() == old(self)@.received().push(
                final(self)@.current->0,
            ) && final(self)@.returned() == old(self)@.returned().push(old(self)@.current->0),
            !fresh ==> final(self)@.received() == old(self)@.received(),
    {
        let stamp: u8 = self.load_stamp();
        if stamp & VALUE_SENT_MASK != 0 {
            let ghost v1 = self@;
            self.fill_slot();
            let ghost displaced = choose|displaced: Option<T>|
                self@ == #[trigger] v1.after_fill(displaced);
            let taken: u8 = self.swap_stamp();
            self.take_slot();
            let fresh = self.current.is_some();
            proof {
                assert(self@ == after_receive(
                    old(self)@,
                    stamp,
                    displaced,
                    taken,
                    self@.current,
                ));
                assert(swaps_in(old(self)@, self@));
                updating_appends(old(self)@, fresh, self@);
            }
            fresh
        } else {
            proof {
                assert(finds_nothing(old(self)@, self@));
                updating_appends(old(self)@, false, self@);
            }
            false
        }
    }

    /// Returns `true` if there is a current value. A receiver of a new channel has one, and
    /// [`updating_keeps_a_value`] says when it keeps having one.
    pub fn has_current(&self) -> (r: bool)
        ensures
            r == (self@.current is Some),
    {
        self.current.is_some()
    }

    /// Returns `true` if the [`Sender`] is still alive.
    ///
    /// This only updates after calling [`Self::try_recv`] or [`Self::update`].
    pub fn is_connected(&self) -> (r: bool)
        ensures
            r == !self@.sender_disconnected,
    {
        !self.sender_disconnected
    }
}

impl<T> Drop for Sender<T> {
    fn drop(&mut self)
        ensures
            final(self).has_left(old(self)),
        opens_invariants none
        no_unwind
    {
        if let Some(pass) = self.shared.part() {
            let mut last = None;
            std::mem::swap(&mut last, &mut self.staged);
            let (_found, pass) = self.shared.m().left_by_sender.leave(last, pass);
            self.shared.m().stamp.mark(SENDER_DISCONNECTED_MASK, pass, &mut self.log);
        }
    }
}

impl<T> Drop for Receiver<T> {
    fn drop(&mut self)
        ensures
            final(self).has_left(old(self)),
        opens_invariants none
        no_unwind
    {
        if let Some(pass) = self.shared.part() {
            let mut last = None;
            std::mem::swap(&mut last, &mut self.current);
            let (_found, pass) = self.shared.m().left_by_receiver.leave(last, pass);
            self.shared.m().receiver_disconnected.raise(pass, &mut self.log);
        }
    }
}

/// The sender of a new channel made with the values of `initial`.
pub open spec fn sender_at_start<T>(memory: Shared<T>, initial: Seq<T>) -> SenderView<T> {
    SenderView { index: 1, staged: Some(initial[1]), trace: Seq::empty(), memory, initial }
}

/// The receiver of a new channel made with the values of `initial`.
pub open spec fn receiver_at_start<T>(memory: Shared<T>, initial: Seq<T>) -> ReceiverView<T> {
    ReceiverView {
        index: 0,
        sender_disconnected: false,
        current: Some(initial[0]),
        trace: Seq::empty(),
        memory,
        initial,
    }
}

/// Whatever the two sides of a channel have done so far, and however that interleaved, what was
/// received is some of what was sent, in order and each value at most once.
pub proof fn what_was_sent_arrives<T>(
    tx: &Sender<T>,
    rx: &Receiver<T>,
    moves: Seq<Move<T>>,
    end: Channel<T>,
)
    requires
        tx.wf(),
        rx.wf(),
        tx@.memory == rx@.memory,
        play(channel_start(tx@.memory.slots_at_start()), moves) == Some(end),
        sender_part(moves) == tx@.trace,
        receiver_part(moves) == rx@.trace,
    ensures
        picks(end.claimed.take(rx@.received().len() as int), tx@.sent(), rx@.received()),
        end.sender.index == tx@.index,
        end.receiver.index == rx@.index,
{
    values_arrive_in_order(tx@.memory.slots_at_start(), moves, end);
}

/// In every run, [`Sender::publish`] finds a value in the slot that it takes over: the sender has a
/// staged value again.
pub proof fn publishing_stages_a_value<T>(
    tx: &Sender<T>,
    before: SenderView<T>,
    moves: Seq<Move<T>>,
    end: Channel<T>,
)
    requires
        tx.in_phase(SenderPhase::Idle),
        publishes(before, tx@),
        play(channel_start(tx@.memory.slots_at_start()), moves) == Some(end),
        sender_part(moves) == tx@.trace,
    ensures
        tx@.staged is Some,
        tx.wf(),
{
    values_arrive_in_order(tx@.memory.slots_at_start(), moves, end);
    assert(tx@.trace.last() == SenderAccess::TakeSlot { slot: tx@.index, got: tx@.staged });
    assert(tx@.trace[tx@.trace.len() - 1] matches SenderAccess::TakeSlot { slot, got }
        ==> got is Some);
}

/// In every run, [`Receiver::update`] finds a value in the slot that it takes over: the receiver
/// has a current value whatever it answers.
pub proof fn updating_keeps_a_value<T>(
    rx: &Receiver<T>,
    before: ReceiverView<T>,
    fresh: bool,
    moves: Seq<Move<T>>,
    end: Channel<T>,
)
    requires
        rx.in_phase(ReceiverPhase::Idle),
        before.current is Some,
        updates(before, fresh, rx@),
        play(channel_start(rx@.memory.slots_at_start()), moves) == Some(end),
        receiver_part(moves) == rx@.trace,
    ensures
        rx@.current is Some,
        rx.wf(),
        !fresh ==> rx@.current == before.current,
{
    values_arrive_in_order(rx@.memory.slots_at_start(), moves, end);
    if swaps_in(before, rx@) {
        assert(rx@.trace.last() == ReceiverAccess::TakeSlot { slot: rx@.index, got: rx@.current });
        assert(rx@.trace[rx@.trace.len() - 1] matches ReceiverAccess::TakeSlot { slot, got }
            ==> got is Some);
    }
}

/// `moves`, and then all that the sender `before` did to become `after`.
pub open spec fn then_publish<T>(
    moves: Seq<Move<T>>,
    before: SenderView<T>,
    after: SenderView<T>,
) -> Seq<Move<T>> {
    let k = before.trace.len() as int;
    moves.push(Move::Sender(after.trace[k])).push(Move::Sender(after.trace[k + 1])).push(
        Move::Sender(after.trace[k + 2]),
    )
}

/// When no call of the receiver overlaps, and the sender sees what the memory holds, what
/// [`Sender::publish`] stages is what was in the back-buffer: the value that was sent last, if the
/// receiver has not received that; else what the receiver gave up for it, as the receiver left it;
/// and what the channel was made with, if nothing was received. The back-buffer then holds what was
/// staged before.
pub proof fn publishing_alone<T>(
    tx: &Sender<T>,
    rx: &Receiver<T>,
    moves: Seq<Move<T>>,
    c: Channel<T>,
    after: SenderView<T>,
) -> (d: Channel<T>)
    requires
        tx.wf(),
        rx.wf(),
        tx@.memory == rx@.memory,
        play(channel_start(tx@.memory.slots_at_start()), moves) == Some(c),
        sender_part(moves) == tx@.trace,
        receiver_part(moves) == rx@.trace,
        !c.sender_gone,
        publishes(tx@, after),
        forall|i: int|
            tx@.trace.len() <= i < after.trace.len() ==> sender_sees(c, #[trigger] after.trace[i]),
    ensures
        after.staged == c.slots[back(c.stamp) as int],
        after.staged == (if !up_to_date(c) {
            Some(tx@.sent().last())
        } else if rx@.returned().len() > 0 {
            Some(rx@.returned().last())
        } else {
            tx@.memory.slots_at_start()[2]
        }),
        after.staged is Some,
        play(channel_start(tx@.memory.slots_at_start()), then_publish(moves, tx@, after)) == Some(
            d,
        ),
        d.slots[back(d.stamp) as int] == tx@.staged,
        d.receiver == c.receiver,
        !up_to_date(d),
{
    let start = channel_start(tx@.memory.slots_at_start());
    what_was_sent_arrives(tx, rx, moves, c);
    values_arrive_in_order(tx@.memory.slots_at_start(), moves, c);
    stamps_read_back(c.sender.index, c.stamp);
    let k = tx@.trace.len() as int;
    assert(sender_sees(c, after.trace[k]));
    assert(sender_sees(c, after.trace[k + 1]));
    assert(sender_sees(c, after.trace[k + 2]));
    let m0 = Move::Sender(after.trace[k]);
    let m1 = Move::Sender(after.trace[k + 1]);
    let m2 = Move::Sender(after.trace[k + 2]);
    let c1 = crate::protocol::triple::after(c, m0);
    let c2 = crate::protocol::triple::after(c1, m1);
    let d = crate::protocol::triple::after(c2, m2);
    play_extends(start, moves, c, m0);
    play_extends(start, moves.push(m0), c1, m1);
    play_extends(start, moves.push(m0).push(m1), c2, m2);
    d
}

/// The three values of a channel: what is staged, what the back-buffer holds, and what is current.
pub open spec fn held<T>(staged: Option<T>, back: Option<T>, current: Option<T>) -> Multiset<
    Option<T>,
> {
    Multiset::empty().insert(staged).insert(back).insert(current)
}

/// When no call of the receiver overlaps, and the sender sees what the memory holds,
/// [`Sender::send`] puts its argument in the place of the value that it returns: no other value
/// enters the channel or leaves it, what was in the back-buffer is staged, and the receiver's value
/// is what it was.
pub proof fn sending_exchanges<T>(
    tx: &Sender<T>,
    rx: &Receiver<T>,
    moves: Seq<Move<T>>,
    c: Channel<T>,
    val: T,
    prev: T,
    after: SenderView<T>,
) -> (d: Channel<T>)
    requires
        tx.wf(),
        rx.wf(),
        tx@.memory == rx@.memory,
        play(channel_start(tx@.memory.slots_at_start()), moves) == Some(c),
        sender_part(moves) == tx@.trace,
        receiver_part(moves) == rx@.trace,
        !c.sender_gone,
        Some(prev) == tx@.staged,
        publishes(tx@.staging(val), after),
        forall|i: int|
            tx@.trace.len() <= i < after.trace.len() ==> sender_sees(c, #[trigger] after.trace[i]),
    ensures
        play(channel_start(tx@.memory.slots_at_start()), then_publish(moves, tx@, after)) == Some(
            d,
        ),
        after.staged == c.slots[back(c.stamp) as int],
        d.slots[back(d.stamp) as int] == Some(val),
        d.receiver == c.receiver,
        held(after.staged, d.slots[back(d.stamp) as int], rx@.current) == held(
            tx@.staged,
            c.slots[back(c.stamp) as int],
            rx@.current,
        ).remove(Some(prev)).insert(Some(val)),
{
    let tx2 = Sender { staged: Some(Box::new(val)), ..*tx };
    assert(tx2@ == tx@.staging(val));
    let d = publishing_alone(&tx2, rx, moves, c, after);
    assert(held(after.staged, d.slots[back(d.stamp) as int], rx@.current) =~= held(
        tx@.staged,
        c.slots[back(c.stamp) as int],
        rx@.current,
    ).remove(Some(prev)).insert(Some(val)));
    d
}

/// `moves`, and then all that the receiver `before` did to become `after`, if it swapped in the
/// back-buffer.
pub open spec fn then_receive<T>(
    moves: Seq<Move<T>>,
    before: ReceiverView<T>,
    after: ReceiverView<T>,
) -> Seq<Move<T>> {
    let k = before.trace.len() as int;
    moves.push(Move::Receiver(after.trace[k])).push(Move::Receiver(after.trace[k + 1])).push(
        Move::Receiver(after.trace[k + 2]),
    ).push(Move::Receiver(after.trace[k + 3]))
}

/// When no call of the sender overlaps, and the receiver sees what the memory holds,
/// [`Receiver::update`] swaps in the value that was sent last, if and only if the receiver has not
/// received it; and it learns whether the sender is gone. If it does, the back-buffer then holds
/// the value that was current before; if not, that stays current.
pub proof fn updating_alone<T>(
    tx: &Sender<T>,
    rx: &Receiver<T>,
    moves: Seq<Move<T>>,
    c: Channel<T>,
    fresh: bool,
    after: ReceiverView<T>,
)
    requires
        tx.wf(),
        rx.wf(),
        tx@.memory == rx@.memory,
        play(channel_start(tx@.memory.slots_at_start()), moves) == Some(c),
        sender_part(moves) == tx@.trace,
        receiver_part(moves) == rx@.trace,
        !c.receiver_gone,
        updates(rx@, fresh, after),
        forall|i: int|
            rx@.trace.len() <= i < after.trace.len() ==> sees(c, #[trigger] after.trace[i]),
    ensures
        fresh <==> !up_to_date(c),
        fresh ==> tx@.sent().len() > 0 && after.current == Some(tx@.sent().last()),
        !fresh ==> after.current == rx@.current,
        after.sender_disconnected == c.sender_gone,
        fresh ==> (play(
            channel_start(tx@.memory.slots_at_start()),
            then_receive(moves, rx@, after),
        ) matches Some(d) && d.slots[back(d.stamp) as int] == rx@.current && d.sender == c.sender
            && up_to_date(d)),
{
    let start = channel_start(tx@.memory.slots_at_start());
    what_was_sent_arrives(tx, rx, moves, c);
    values_arrive_in_order(tx@.memory.slots_at_start(), moves, c);
    stamps_read_back(c.receiver.index, c.stamp);
    let k = rx@.trace.len() as int;
    assert(sees(c, after.trace[k]));
    if swaps_in(rx@, after) {
        assert(sees(c, after.trace[k + 1]));
        assert(sees(c, after.trace[k + 2]));
        assert(sees(c, after.trace[k + 3]));
        let m0 = Move::Receiver(after.trace[k]);
        let m1 = Move::Receiver(after.trace[k + 1]);
        let m2 = Move::Receiver(after.trace[k + 2]);
        let m3 = Move::Receiver(after.trace[k + 3]);
        let c1 = crate::protocol::triple::after(c, m0);
        let c2 = crate::protocol::triple::after(c1, m1);
        let c3 = crate::protocol::triple::after(c2, m2);
        play_extends(start, moves, c, m0);
        play_extends(start, moves.push(m0), c1, m1);
        play_extends(start, moves.push(m0).push(m1), c2, m2);
        play_extends(start, moves.push(m0).push(m1).push(m2), c3, m3);
    }
}

/// An update that begins after a value was sent sees it, or one that was sent later, whatever the
/// sender does meanwhile, if the receiver reads the stamp as it then is. Move `k` reads the stamp,
/// and `c` is the channel then.
pub proof fn an_update_sees_what_was_sent<T>(
    before: ReceiverView<T>,
    fresh: bool,
    rx: &Receiver<T>,
    moves: Seq<Move<T>>,
    k: int,
    c: Channel<T>,
    end: Channel<T>,
)
    requires
        rx.in_phase(ReceiverPhase::Idle),
        updates(before, fresh, rx@),
        0 <= k < moves.len(),
        play(channel_start(rx@.memory.slots_at_start()), moves.take(k)) == Some(c),
        moves[k] == Move::Receiver(rx@.trace[before.trace.len() as int]),
        receiver_part(moves.take(k)) == before.trace,
        sees(c, rx@.trace[before.trace.len() as int]),
        play(channel_start(rx@.memory.slots_at_start()), moves) == Some(end),
        receiver_part(moves) == rx@.trace,
        c.published > 0,
    ensures
        end.claimed.len() > 0,
        c.published <= end.claimed.last() + 1,
        rx@.received().len() == end.claimed.len(),
        rx@.received().last() == end.sent[end.claimed.last() as int],
{
    let slots = rx@.memory.slots_at_start();
    let start = channel_start(slots);
    let look = moves[k];
    values_arrive_in_order(slots, moves.take(k), c);
    values_arrive_in_order(slots, moves, end);
    a_play_continues(start, moves, k);
    a_play_continues(start, moves, k + 1);
    assert(moves.take(k + 1).drop_last() =~= moves.take(k));
    assert(rx@.trace[before.trace.len() as int] == ReceiverAccess::<T>::LoadStamp(c.stamp));
    assert(c.receiver.phase is Idle) by {
        assert(can(c, look));
    }
    an_update_catches_up(c, moves.skip(k + 1), end);
}

/// [`Sender::is_connected`] answers `false` only if the receiver was dropped, and if it sees what
/// the memory holds, `true` only if it was not; in particular `true` for a new channel. Once it has
/// answered `false`, it does so whatever happens.
pub proof fn connected_until_the_receiver_goes<T>(
    tx: &Sender<T>,
    moves: Seq<Move<T>>,
    c: Channel<T>,
    connected: bool,
    rest: Seq<Move<T>>,
    end: Channel<T>,
    later: bool,
)
    requires
        tx.wf(),
        play(channel_start(tx@.memory.slots_at_start()), moves) == Some(c),
        tx@.memory.may_show_receiver_gone(!connected),
        can(c, Move::SenderAsks(!connected)),
        play(after(c, Move::SenderAsks(!connected)), rest) == Some(end),
        tx@.memory.may_show_receiver_gone(!later),
        can(end, Move::SenderAsks(!later)),
    ensures
        !connected ==> c.receiver_gone,
        asking_sees(c, !connected) ==> connected == !c.receiver_gone,
        moves.len() == 0 ==> connected,
        !connected ==> !later && end.receiver_gone,
{
    gone_stays_gone(after(c, Move::SenderAsks(!connected)), rest, end);
}

/// [`Receiver::is_connected`] answers `false` only if the sender was dropped; it answers `true` for
/// a new channel, and once it answers `false`, it does so after every later update.
pub proof fn connected_until_the_sender_goes<T>(
    rx: &Receiver<T>,
    moves: Seq<Move<T>>,
    c: Channel<T>,
    fresh: bool,
    later: ReceiverView<T>,
)
    requires
        rx.wf(),
        play(channel_start(rx@.memory.slots_at_start()), moves) == Some(c),
        receiver_part(moves) == rx@.trace,
        updates(rx@, fresh, later),
    ensures
        rx@.sender_disconnected ==> c.sender_gone,
        moves.len() == 0 ==> !rx@.sender_disconnected,
        rx@.sender_disconnected ==> later.sender_disconnected,
{
    values_arrive_in_order(rx@.memory.slots_at_start(), moves, c);
}

/// What the cells record of a sender that has made the accesses of `trace`, and has left if `gone`
/// says so.
spec fn sender_history<T>(m: &Shared<T>, trace: Seq<SenderAccess<T>>, gone: bool) -> Seq<
    Event<Option<Box<T>>>,
> {
    if gone {
        sender_events(m, trace).push(
            Event::MarkStamp { cell: m.stamp, bits: SENDER_DISCONNECTED_MASK },
        )
    } else {
        sender_events(m, trace)
    }
}

/// What the cells record of a receiver that has made the accesses of `trace`, and has left if
/// `gone` says so.
spec fn receiver_history<T>(m: &Shared<T>, trace: Seq<ReceiverAccess<T>>, gone: bool) -> Seq<
    Event<Option<Box<T>>>,
> {
    if gone {
        receiver_events(m, trace).push(Event::RaiseFlag { cell: m.receiver_disconnected })
    } else {
        receiver_events(m, trace)
    }
}

/// The cells hold what the memory of `c` holds.
spec fn mirrors<T>(m: &Shared<T>, mem: Memory<Option<Box<T>>>, c: Channel<T>) -> bool {
    &&& c.slots.len() == m.buffer.len()
    &&& forall|i: int|
        0 <= i < m.buffer.len() ==> mem.slot(#[trigger] m.buffer[i]) == boxed(c.slots[i])
    &&& mem.stamp(m.stamp) == c.stamp
    &&& mem.flag(m.receiver_disconnected) == c.receiver_gone
}

/// The cells of a new channel hold what its memory holds.
proof fn cells_hold_what_they_held_first<T>(m: &Shared<T>)
    requires
        m.starts_as(channel_start(m.slots_at_start())),
    ensures
        mirrors(m, Memory::untouched(), channel_start(m.slots_at_start())),
{
    assert forall|i: int| 0 <= i < m.buffer.len() implies (#[trigger] m.buffer[i]).first() == boxed(
        m.slots_at_start()[i],
    ) by {
        assert(m.slots_at_start()[i] == unboxed(m.buffer[i].first()));
    }
}

/// The move that access `a` of the sender is.
spec fn sender_move<T>(c: Channel<T>, a: SenderAccess<T>) -> Move<T> {
    Move::Sender(a)
}

/// The move that access `a` of the receiver is.
spec fn receiver_move<T>(c: Channel<T>, a: ReceiverAccess<T>) -> Move<T> {
    Move::Receiver(a)
}

/// An access of the sender does to the cells what it does to the memory.
#[verifier::spinoff_prover]
proof fn sender_access_mirrors<T>(
    m: &Shared<T>,
    mem: Memory<Option<Box<T>>>,
    c: Channel<T>,
    a: SenderAccess<T>,
)
    requires
        m.is_laid_out(),
        consistent(c),
        mirrors(m, mem, c),
        !c.sender_gone,
        sender_step(c.sender, a) is Some,
        gets(mem, sender_event(m, a)),
    ensures
        can(c, sender_move(c, a)),
        mirrors(m, puts(mem, sender_event(m, a)), after(c, sender_move(c, a))),
        sender_sees(c, a),
{
    stamps_read_back(c.sender.index, c.stamp);
}

/// An access of the receiver does to the cells what it does to the memory.
#[verifier::spinoff_prover]
proof fn receiver_access_mirrors<T>(
    m: &Shared<T>,
    mem: Memory<Option<Box<T>>>,
    c: Channel<T>,
    a: ReceiverAccess<T>,
)
    requires
        m.is_laid_out(),
        consistent(c),
        mirrors(m, mem, c),
        !c.receiver_gone,
        receiver_step(c.receiver, a) is Some,
        gets(mem, receiver_event(m, a)),
    ensures
        can(c, receiver_move(c, a)),
        mirrors(m, puts(mem, receiver_event(m, a)), after(c, receiver_move(c, a))),
        sees(c, a),
{
    stamps_read_back(c.receiver.index, c.stamp);
}

/// That the sender leaves does to the cells what it does to the memory.
proof fn sender_leaving_mirrors<T>(m: &Shared<T>, mem: Memory<Option<Box<T>>>, c: Channel<T>)
    requires
        m.is_laid_out(),
        mirrors(m, mem, c),
        !c.sender_gone,
        c.sender.phase is Idle,
    ensures
        can(c, Move::SenderGoes),
        mirrors(
            m,
            puts(mem, Event::MarkStamp { cell: m.stamp, bits: SENDER_DISCONNECTED_MASK }),
            after(c, Move::SenderGoes),
        ),
{
}

/// That the receiver leaves does to the cells what it does to the memory.
proof fn receiver_leaving_mirrors<T>(m: &Shared<T>, mem: Memory<Option<Box<T>>>, c: Channel<T>)
    requires
        m.is_laid_out(),
        mirrors(m, mem, c),
        !c.receiver_gone,
        c.receiver.phase is Idle,
    ensures
        can(c, Move::ReceiverGoes),
        mirrors(
            m,
            puts(mem, Event::RaiseFlag { cell: m.receiver_disconnected }),
            after(c, Move::ReceiverGoes),
        ),
{
}

/// One more access of the sender is one more move.
#[verifier::spinoff_prover]
proof fn sender_goes_on<T>(
    m: &Shared<T>,
    moves: Seq<Move<T>>,
    c: Channel<T>,
    mem: Memory<Option<Box<T>>>,
    a: SenderAccess<T>,
) -> (mv: Move<T>)
    requires
        m.is_laid_out(),
        m.starts_as(channel_start(m.slots_at_start())),
        fit_to_start(m.slots_at_start()),
        play(channel_start(m.slots_at_start()), moves) == Some(c),
        mirrors(m, mem, c),
        !c.sender_gone,
        sender_run(sender_part(moves).push(a)) is Some,
        gets(mem, sender_event(m, a)),
    ensures
        play(channel_start(m.slots_at_start()), moves.push(mv)) matches Some(d) && mirrors(
            m,
            puts(mem, sender_event(m, a)),
            d,
        ) && d.sender_gone == c.sender_gone && d.receiver_gone == c.receiver_gone,
        sender_part(moves.push(mv)) == sender_part(moves).push(a),
        receiver_part(moves.push(mv)) == receiver_part(moves),
{
    let start = channel_start(m.slots_at_start());
    values_arrive_in_order(m.slots_at_start(), moves, c);
    sender_run_extends(sender_part(moves), a);
    sender_access_mirrors(m, mem, c, a);
    let mv = sender_move(c, a);
    play_extends(start, moves, c, mv);
    assert(moves.push(mv).drop_last() =~= moves);
    mv
}

/// That the sender leaves is one more move.
#[verifier::spinoff_prover]
proof fn sender_goes<T>(
    m: &Shared<T>,
    moves: Seq<Move<T>>,
    c: Channel<T>,
    mem: Memory<Option<Box<T>>>,
)
    requires
        m.is_laid_out(),
        m.starts_as(channel_start(m.slots_at_start())),
        fit_to_start(m.slots_at_start()),
        play(channel_start(m.slots_at_start()), moves) == Some(c),
        mirrors(m, mem, c),
        !c.sender_gone,
        sender_run(sender_part(moves)) matches Some(s) && s.phase is Idle,
    ensures
        play(
            channel_start(m.slots_at_start()),
            moves.push(Move::SenderGoes),
        ) matches Some(d) && mirrors(
            m,
            puts(mem, Event::MarkStamp { cell: m.stamp, bits: SENDER_DISCONNECTED_MASK }),
            d,
        ) && d.sender_gone && d.receiver_gone == c.receiver_gone,
        sender_part(moves.push(Move::SenderGoes)) == sender_part(moves),
        receiver_part(moves.push(Move::SenderGoes)) == receiver_part(moves),
{
    let start = channel_start(m.slots_at_start());
    values_arrive_in_order(m.slots_at_start(), moves, c);
    sender_leaving_mirrors(m, mem, c);
    play_extends(start, moves, c, Move::SenderGoes);
    assert(moves.push(Move::SenderGoes).drop_last() =~= moves);
}

/// One more access of the receiver is one more move.
#[verifier::spinoff_prover]
proof fn receiver_goes_on<T>(
    m: &Shared<T>,
    moves: Seq<Move<T>>,
    c: Channel<T>,
    mem: Memory<Option<Box<T>>>,
    a: ReceiverAccess<T>,
) -> (mv: Move<T>)
    requires
        m.is_laid_out(),
        m.starts_as(channel_start(m.slots_at_start())),
        fit_to_start(m.slots_at_start()),
        play(channel_start(m.slots_at_start()), moves) == Some(c),
        mirrors(m, mem, c),
        !c.receiver_gone,
        receiver_run(receiver_part(moves).push(a)) is Some,
        gets(mem, receiver_event(m, a)),
    ensures
        play(channel_start(m.slots_at_start()), moves.push(mv)) matches Some(d) && mirrors(
            m,
            puts(mem, receiver_event(m, a)),
            d,
        ) && d.sender_gone == c.sender_gone && d.receiver_gone == c.receiver_gone,
        receiver_part(moves.push(mv)) == receiver_part(moves).push(a),
        sender_part(moves.push(mv)) == sender_part(moves),
{
    let start = channel_start(m.slots_at_start());
    values_arrive_in_order(m.slots_at_start(), moves, c);
    receiver_run_extends(receiver_part(moves), a);
    receiver_access_mirrors(m, mem, c, a);
    let mv = receiver_move(c, a);
    play_extends(start, moves, c, mv);
    assert(moves.push(mv).drop_last() =~= moves);
    mv
}

/// That the receiver leaves is one more move.
#[verifier::spinoff_prover]
proof fn receiver_goes<T>(
    m: &Shared<T>,
    moves: Seq<Move<T>>,
    c: Channel<T>,
    mem: Memory<Option<Box<T>>>,
)
    requires
        m.is_laid_out(),
        m.starts_as(channel_start(m.slots_at_start())),
        fit_to_start(m.slots_at_start()),
        play(channel_start(m.slots_at_start()), moves) == Some(c),
        mirrors(m, mem, c),
        !c.receiver_gone,
        receiver_run(receiver_part(moves)) matches Some(s) && s.phase is Idle,
    ensures
        play(
            channel_start(m.slots_at_start()),
            moves.push(Move::ReceiverGoes),
        ) matches Some(d) && mirrors(
            m,
            puts(mem, Event::RaiseFlag { cell: m.receiver_disconnected }),
            d,
        ) && d.receiver_gone && d.sender_gone == c.sender_gone,
        receiver_part(moves.push(Move::ReceiverGoes)) == receiver_part(moves),
        sender_part(moves.push(Move::ReceiverGoes)) == sender_part(moves),
{
    let start = channel_start(m.slots_at_start());
    values_arrive_in_order(m.slots_at_start(), moves, c);
    receiver_leaving_mirrors(m, mem, c);
    play_extends(start, moves, c, Move::ReceiverGoes);
    assert(moves.push(Move::ReceiverGoes).drop_last() =~= moves);
}

/// Whatever the two sides do to the cells, in any order in which each access gets what its cell
/// holds, is a run of the protocol, in which the memory holds what the cells hold.
#[verifier::spinoff_prover]
proof fn cells_follow_the_protocol<T>(
    m: &Shared<T>,
    steps: Seq<Step<Option<Box<T>>>>,
    sent: Seq<SenderAccess<T>>,
    tx_gone: bool,
    taken: Seq<ReceiverAccess<T>>,
    rx_gone: bool,
) -> (moves: Seq<Move<T>>)
    requires
        m.is_laid_out(),
        m.starts_as(channel_start(m.slots_at_start())),
        fit_to_start(m.slots_at_start()),
        sender_run(sent) is Some,
        receiver_run(taken) is Some,
        tx_gone ==> sender_run(sent)->0.phase is Idle,
        rx_gone ==> receiver_run(taken)->0.phase is Idle,
        part(steps, true) == sender_history(m, sent, tx_gone),
        part(steps, false) == receiver_history(m, taken, rx_gone),
        unfolds(steps) is Some,
    ensures
        play(
            channel_start(m.slots_at_start()),
            moves,
        ) matches Some(c) && mirrors(m, unfolds(steps)->0, c)
            && c.sender_gone == tx_gone && c.receiver_gone == rx_gone,
        sender_part(moves) == sent,
        receiver_part(moves) == taken,
    decreases steps.len(),
{
    let start = channel_start(m.slots_at_start());
    if steps.len() == 0 {
        assert(sender_history(m, sent, tx_gone).len() == 0);
        assert(receiver_history(m, taken, rx_gone).len() == 0);
        assert(sent =~= Seq::empty());
        assert(taken =~= Seq::empty());
        cells_hold_what_they_held_first(m);
        Seq::empty()
    } else {
        let fewer = steps.drop_last();
        let event = steps.last().event;
        let mem = unfolds(fewer)->0;
        if steps.last().sender {
            assert(part(steps, true).drop_last() =~= part(fewer, true));
            assert(part(steps, true).last() == event);
            if tx_gone {
                assert(sender_history(m, sent, true).drop_last() =~= sender_history(
                    m,
                    sent,
                    false,
                ));
                let moves = cells_follow_the_protocol(m, fewer, sent, false, taken, rx_gone);
                let c = play(start, moves)->0;
                sender_goes(m, moves, c, mem);
                moves.push(Move::SenderGoes)
            } else {
                let a = sent.last();
                let before = sent.drop_last();
                assert(sender_history(m, sent, false).drop_last() =~= sender_history(
                    m,
                    before,
                    false,
                ));
                let moves = cells_follow_the_protocol(m, fewer, before, false, taken, rx_gone);
                let c = play(start, moves)->0;
                assert(event == sender_event(m, a));
                assert(before.push(a) =~= sent);
                let mv = sender_goes_on(m, moves, c, mem, a);
                moves.push(mv)
            }
        } else {
            assert(part(steps, false).drop_last() =~= part(fewer, false));
            assert(part(steps, false).last() == event);
            if rx_gone {
                assert(receiver_history(m, taken, true).drop_last() =~= receiver_history(
                    m,
                    taken,
                    false,
                ));
                let moves = cells_follow_the_protocol(m, fewer, sent, tx_gone, taken, false);
                let c = play(start, moves)->0;
                receiver_goes(m, moves, c, mem);
                moves.push(Move::ReceiverGoes)
            } else {
                let a = taken.last();
                let before = taken.drop_last();
                assert(receiver_history(m, taken, false).drop_last() =~= receiver_history(
                    m,
                    before,
                    false,
                ));
                let moves = cells_follow_the_protocol(m, fewer, sent, tx_gone, before, false);
                let c = play(start, moves)->0;
                assert(event == receiver_event(m, a));
                assert(before.push(a) =~= taken);
                let mv = receiver_goes_on(m, moves, c, mem, a);
                moves.push(mv)
            }
        }
    }
}

/// A history is what the log lists, and that the side has left if it has.
proof fn a_history_is_a_log<T>(tx: &Sender<T>, rx: &Receiver<T>)
    ensures
        tx.history(false) == tx.log@,
        tx.history(true) == tx.log@.push(
            Event::MarkStamp { cell: tx.shared.m().stamp, bits: SENDER_DISCONNECTED_MASK },
        ),
        rx.history(false) == rx.log@,
        rx.history(true) == rx.log@.push(
            Event::RaiseFlag { cell: rx.shared.m().receiver_disconnected },
        ),
{
}

/// The two sides of a channel are between calls, unless they have left, and what they have done to
/// the cells came in the order of `steps`, in which each access gets what its cell holds.
pub open spec fn came_about<T>(
    tx: &Sender<T>,
    tx_gone: bool,
    rx: &Receiver<T>,
    rx_gone: bool,
    steps: Seq<Step<Option<Box<T>>>>,
) -> bool {
    &&& tx.wf()
    &&& rx.wf()
    &&& tx@.memory == rx@.memory
    &&& part(steps, true) == tx.history(tx_gone)
    &&& part(steps, false) == rx.history(rx_gone)
    &&& unfolds(steps) is Some
}

/// In whatever order the two sides came to do what they did to the cells, what the receiver has
/// taken out of the cells is some of what the sender has put into them, in order and each value at
/// most once.
pub proof fn cells_carry_what_was_sent<T>(
    tx: &Sender<T>,
    tx_gone: bool,
    rx: &Receiver<T>,
    rx_gone: bool,
    steps: Seq<Step<Option<Box<T>>>>,
) -> (r: (Seq<Move<T>>, Channel<T>))
    requires
        came_about(tx, tx_gone, rx, rx_gone, steps),
    ensures
        picks(r.1.claimed.take(rx@.received().len() as int), tx@.sent(), rx@.received()),
        play(channel_start(tx@.memory.slots_at_start()), r.0) == Some(r.1),
        sender_part(r.0) == tx@.trace,
        receiver_part(r.0) == rx@.trace,
        r.1.sender_gone == tx_gone,
        r.1.receiver_gone == rx_gone,
{
    let moves = came_about_in_moves(tx, tx_gone, rx, rx_gone, steps);
    let c = play(channel_start(tx@.memory.slots_at_start()), moves)->0;
    what_was_sent_arrives(tx, rx, moves, c);
    (moves, c)
}

/// To leave is the last that a side does to the cells.
pub proof fn leaving_ends_a_history<T>(
    tx: &Sender<T>,
    tx_left: &Sender<T>,
    rx: &Receiver<T>,
    rx_left: &Receiver<T>,
)
    requires
        tx.recorded(),
        tx_left.has_left(tx),
        rx.recorded(),
        rx_left.has_left(rx),
    ensures
        tx_left.history(false) == tx.history(true),
        rx_left.history(false) == rx.history(true),
{
}

/// What a side leaves to the channel is what it had.
proof fn what_a_side_had_is_left<T>(
    tx: &Sender<T>,
    tx_left: &Sender<T>,
    rx: &Receiver<T>,
    rx_left: &Receiver<T>,
)
    requires
        tx.recorded(),
        tx_left.has_left(tx),
        rx.recorded(),
        rx_left.has_left(rx),
    ensures
        tx.shared.m().left_by_sender.was_left(tx.staged),
        rx.shared.m().left_by_receiver.was_left(rx.current),
{
}

/// When a side swaps the stamp, it acquires what the other did, and releases what it did.
pub proof fn the_sides_synchronise<T>(tx: &Sender<T>, rx: &Receiver<T>)
    requires
        tx.recorded(),
        rx.recorded(),
    ensures
        tx.history(false).len() == tx@.trace.len(),
        rx.history(false).len() == rx@.trace.len(),
        forall|i: int|
            0 <= i < tx@.trace.len() && #[trigger] tx@.trace[i] is SwapStamp ==> is_acquire(
                tx.history(false)[i],
            ),
        forall|i: int|
            0 <= i < tx@.trace.len() && #[trigger] tx@.trace[i] is SwapStamp ==> is_release(
                tx.history(false)[i],
            ),
        forall|i: int|
            0 <= i < rx@.trace.len() && #[trigger] rx@.trace[i] is SwapStamp ==> is_acquire(
                rx.history(false)[i],
            ),
        forall|i: int|
            0 <= i < rx@.trace.len() && #[trigger] rx@.trace[i] is SwapStamp ==> is_release(
                rx.history(false)[i],
            ),
{
    a_history_is_a_log(tx, rx);
}

/// A side sees that the other is gone only if that has left, whatever overlaps: no call fails with
/// `Disconnected` before.
pub proof fn only_who_left_is_gone<T>(
    tx: &Sender<T>,
    tx_gone: bool,
    rx: &Receiver<T>,
    rx_gone: bool,
    steps: Seq<Step<Option<Box<T>>>>,
)
    requires
        came_about(tx, tx_gone, rx, rx_gone, steps),
    ensures
        rx@.sender_disconnected ==> tx_gone,
{
    let moves = came_about_in_moves(tx, tx_gone, rx, rx_gone, steps);
    let start = channel_start(tx@.memory.slots_at_start());
    values_arrive_in_order(tx@.memory.slots_at_start(), moves, play(start, moves)->0);
}

/// A receiver that knows that the sender has left knows so because it has, and has received what
/// was sent last, whatever overlapped.
pub proof fn disconnected_means_all_arrived<T>(
    tx: &Sender<T>,
    tx_gone: bool,
    rx: &Receiver<T>,
    rx_gone: bool,
    steps: Seq<Step<Option<Box<T>>>>,
)
    requires
        came_about(tx, tx_gone, rx, rx_gone, steps),
        rx@.sender_disconnected,
    ensures
        tx_gone,
        !has_news(tx@.memory, steps),
        tx@.sent().len() > 0 ==> rx@.received().len() > 0 && rx@.received().last()
            == tx@.sent().last(),
{
    let moves = came_about_in_moves(tx, tx_gone, rx, rx_gone, steps);
    let c = play(channel_start(tx@.memory.slots_at_start()), moves)->0;
    values_arrive_in_order(tx@.memory.slots_at_start(), moves, c);
}

/// What came about is a run of the protocol.
proof fn came_about_in_moves<T>(
    tx: &Sender<T>,
    tx_gone: bool,
    rx: &Receiver<T>,
    rx_gone: bool,
    steps: Seq<Step<Option<Box<T>>>>,
) -> (moves: Seq<Move<T>>)
    requires
        came_about(tx, tx_gone, rx, rx_gone, steps),
    ensures
        play(channel_start(tx@.memory.slots_at_start()), moves) matches Some(c) && mirrors(
            tx.shared.m(),
            unfolds(steps)->0,
            c,
        ) && c.sender_gone == tx_gone && c.receiver_gone == rx_gone,
        sender_part(moves) == tx@.trace,
        receiver_part(moves) == rx@.trace,
{
    let m = tx.shared.m();
    assert(m == rx.shared.m());
    a_history_is_a_log(tx, rx);
    cells_follow_the_protocol(m, steps, tx@.trace, tx_gone, rx@.trace, rx_gone)
}

/// The events that made `after` out of `tx` are those of its accesses since.
proof fn what_the_sender_did_since<T>(
    tx: &Sender<T>,
    after: &Sender<T>,
    more: Seq<Event<Option<Box<T>>>>,
)
    requires
        tx.recorded(),
        after.recorded(),
        tx@.memory == after@.memory,
        after.history(false) == tx.history(false) + more,
        after@.trace.len() >= tx@.trace.len(),
    ensures
        more.len() == after@.trace.len() - tx@.trace.len(),
        forall|k: int|
            0 <= k < more.len() ==> #[trigger] more[k] == sender_event(
                tx.shared.m(),
                after@.trace[tx@.trace.len() + k],
            ),
{
    let n = tx@.trace.len() as int;
    assert(tx.history(false).len() == n);
    assert(after.history(false).len() == after@.trace.len());
    assert((tx.history(false) + more).len() == n + more.len());
    assert forall|k: int| 0 <= k < more.len() implies #[trigger] more[k] == sender_event(
        tx.shared.m(),
        after@.trace[n + k],
    ) by {
        assert((tx.history(false) + more)[n + k] == more[k]);
        assert(after.history(false)[n + k] == more[k]);
    }
}

/// The events that made `after` out of `rx` are those of its accesses since.
proof fn what_the_receiver_did_since<T>(
    rx: &Receiver<T>,
    after: &Receiver<T>,
    more: Seq<Event<Option<Box<T>>>>,
)
    requires
        rx.recorded(),
        after.recorded(),
        rx@.memory == after@.memory,
        after.history(false) == rx.history(false) + more,
        after@.trace.len() >= rx@.trace.len(),
    ensures
        more.len() == after@.trace.len() - rx@.trace.len(),
        forall|k: int|
            0 <= k < more.len() ==> #[trigger] more[k] == receiver_event(
                rx.shared.m(),
                after@.trace[rx@.trace.len() + k],
            ),
{
    let n = rx@.trace.len() as int;
    assert(rx.history(false).len() == n);
    assert(after.history(false).len() == after@.trace.len());
    assert((rx.history(false) + more).len() == n + more.len());
    assert forall|k: int| 0 <= k < more.len() implies #[trigger] more[k] == receiver_event(
        rx.shared.m(),
        after@.trace[n + k],
    ) by {
        assert((rx.history(false) + more)[n + k] == more[k]);
        assert(after.history(false)[n + k] == more[k]);
    }
}

/// After `steps`, the stamp says that a value was sent that was not received.
pub closed spec fn has_news<T>(memory: Shared<T>, steps: Seq<Step<Option<Box<T>>>>) -> bool {
    is_sent(unfolds(steps)->0.stamp(memory.stamp))
}

/// There is no news in a new channel.
pub proof fn no_news_at_first<T>(tx: &Sender<T>)
    requires
        tx.wf(),
    ensures
        !has_news(tx@.memory, Seq::empty()),
{
    stamps_read_back(2, 0);
}

/// That a side leaves is no news, and takes none away.
pub proof fn leaving_is_no_news<T>(
    tx: &Sender<T>,
    rx: &Receiver<T>,
    steps: Seq<Step<Option<Box<T>>>>,
    sender: bool,
)
    requires
        came_about(tx, false, rx, false, steps),
    ensures
        ({
            let left = Step {
                sender,
                event: if sender {
                    tx.history(true).last()
                } else {
                    rx.history(true).last()
                },
            };
            &&& came_about(tx, sender, rx, !sender, steps.push(left))
            &&& has_news(tx@.memory, steps.push(left)) == has_news(tx@.memory, steps)
        }),
{
    let left = Step {
        sender,
        event: if sender {
            tx.history(true).last()
        } else {
            rx.history(true).last()
        },
    };
    assert(steps.push(left).drop_last() =~= steps);
    a_history_is_a_log(tx, rx);
    stamps_read_back(0, unfolds(steps)->0.stamp(tx@.memory.stamp));
}

/// After whatever the two sides have done to the cells, a call of [`Sender::publish`] that no call
/// of the receiver overlaps makes what was staged the news, and stages what was in the back-buffer:
/// the value that was sent last, if that was still news; else what the receiver gave up for it; and
/// what the channel was made with, if nothing was received. `after` is the sender after the call,
/// and `more` what the call did to the cells.
#[verifier::spinoff_prover]
pub proof fn publishing_through_the_cells<T>(
    tx: &Sender<T>,
    rx: &Receiver<T>,
    rx_gone: bool,
    steps: Seq<Step<Option<Box<T>>>>,
    after: &Sender<T>,
    more: Seq<Event<Option<Box<T>>>>,
)
    requires
        came_about(tx, false, rx, rx_gone, steps),
        after.in_phase(SenderPhase::Idle),
        publishes(tx@, after@),
        after.history(false) == tx.history(false) + more,
        unfolds(followed(steps, true, more)) is Some,
    ensures
        after.wf(),
        after@.sent() == tx@.sent().push(tx@.staged->0),
        after@.staged == (if has_news(tx@.memory, steps) {
            Some(tx@.sent().last())
        } else if rx@.returned().len() > 0 {
            Some(rx@.returned().last())
        } else {
            tx@.memory.slots_at_start()[2]
        }),
        has_news(tx@.memory, followed(steps, true, more)),
        came_about(after, false, rx, rx_gone, followed(steps, true, more)),
{
    let m = tx.shared.m();
    let moves = came_about_in_moves(tx, false, rx, rx_gone, steps);
    let c = play(channel_start(tx@.memory.slots_at_start()), moves)->0;
    values_arrive_in_order(tx@.memory.slots_at_start(), moves, c);
    stamps_read_back(tx@.index, c.stamp);
    publishing_is_wait_free(tx@, after@);
    publishing_appends(tx@, after@);
    what_the_sender_did_since(tx, after, more);
    what_follows_comes_last(steps, true, more);
    what_follows_comes_about(steps, true, more);
    let n = tx@.trace.len() as int;
    assert forall|i: int| n <= i < after@.trace.len() implies sender_sees(
        c,
        #[trigger] after@.trace[i],
    ) by {
        assert(comes_about(steps, true, more, 0));
        if i > n {
            assert(comes_about(steps, true, more, 1));
        }
        if i > n + 1 {
            assert(comes_about(steps, true, more, 2));
        }
        assert(more[i - n] == sender_event(m, after@.trace[i]));
    }
    publishing_alone(tx, rx, moves, c, after@);
    assert(more.len() == 3);
    assert(comes_about(steps, true, more, 0));
    assert(comes_about(steps, true, more, 1));
    assert(comes_about(steps, true, more, 2));
    assert(more[1] == sender_event(m, after@.trace[n + 1]));
}

/// After whatever the two sides have done to the cells, a call of [`Receiver::update`] that no call
/// of the sender overlaps swaps in the value that was sent last, if and only if that is news, which
/// it then no longer is; if not, the current value stays. It learns whether the sender has left.
/// `after` is the receiver after the call, and `more` what the call did to the cells.
#[verifier::spinoff_prover]
pub proof fn updating_through_the_cells<T>(
    tx: &Sender<T>,
    tx_gone: bool,
    rx: &Receiver<T>,
    steps: Seq<Step<Option<Box<T>>>>,
    fresh: bool,
    after: &Receiver<T>,
    more: Seq<Event<Option<Box<T>>>>,
)
    requires
        came_about(tx, tx_gone, rx, false, steps),
        after.in_phase(ReceiverPhase::Idle),
        updates(rx@, fresh, after@),
        after.history(false) == rx.history(false) + more,
        unfolds(followed(steps, false, more)) is Some,
    ensures
        after.wf(),
        fresh <==> has_news(tx@.memory, steps),
        fresh ==> tx@.sent().len() > 0 && after@.current == Some(tx@.sent().last())
            && after@.received() == rx@.received().push(tx@.sent().last()),
        !fresh ==> after@.current == rx@.current && after@.received() == rx@.received(),
        after@.sender_disconnected == tx_gone,
        !has_news(tx@.memory, followed(steps, false, more)),
        came_about(tx, tx_gone, after, false, followed(steps, false, more)),
{
    let m = rx.shared.m();
    let moves = came_about_in_moves(tx, tx_gone, rx, false, steps);
    let c = play(channel_start(tx@.memory.slots_at_start()), moves)->0;
    values_arrive_in_order(tx@.memory.slots_at_start(), moves, c);
    stamps_read_back(rx@.index, c.stamp);
    updating_is_wait_free(rx@, fresh, after@);
    updating_appends(rx@, fresh, after@);
    what_the_receiver_did_since(rx, after, more);
    what_follows_comes_last(steps, false, more);
    what_follows_comes_about(steps, false, more);
    let n = rx@.trace.len() as int;
    assert forall|i: int| n <= i < after@.trace.len() implies sees(
        c,
        #[trigger] after@.trace[i],
    ) by {
        assert(comes_about(steps, false, more, 0));
        if i > n {
            assert(comes_about(steps, false, more, 1));
        }
        if i > n + 1 {
            assert(comes_about(steps, false, more, 2));
        }
        if i > n + 2 {
            assert(comes_about(steps, false, more, 3));
        }
        assert(more[i - n] == receiver_event(m, after@.trace[i]));
    }
    updating_alone(tx, rx, moves, c, fresh, after@);
    assert(comes_about(steps, false, more, 0));
    assert(more[0] == receiver_event(m, after@.trace[n]));
    if fresh {
        assert(more.len() == 4);
        assert(comes_about(steps, false, more, 1));
        assert(comes_about(steps, false, more, 2));
        assert(comes_about(steps, false, more, 3));
        assert(more[2] == receiver_event(m, after@.trace[n + 2]));
    } else {
        assert(more.len() == 1);
    }
}

/// After whatever the two sides have done to the cells, a call of [`Sender::send`] that no call of
/// the receiver overlaps makes its argument the news, and stages what was in the back-buffer.
/// `after` is the sender after the call, and `more` what the call did to the cells.
pub proof fn sending_through_the_cells<T>(
    tx: &Sender<T>,
    rx: &Receiver<T>,
    rx_gone: bool,
    steps: Seq<Step<Option<Box<T>>>>,
    val: T,
    after: &Sender<T>,
    more: Seq<Event<Option<Box<T>>>>,
)
    requires
        came_about(tx, false, rx, rx_gone, steps),
        after.in_phase(SenderPhase::Idle),
        publishes(tx@.staging(val), after@),
        after.history(false) == tx.history(false) + more,
        unfolds(followed(steps, true, more)) is Some,
    ensures
        after.wf(),
        after@.sent() == tx@.sent().push(val),
        after@.staged == (if has_news(tx@.memory, steps) {
            Some(tx@.sent().last())
        } else if rx@.returned().len() > 0 {
            Some(rx@.returned().last())
        } else {
            tx@.memory.slots_at_start()[2]
        }),
        has_news(tx@.memory, followed(steps, true, more)),
        came_about(after, false, rx, rx_gone, followed(steps, true, more)),
{
    let tx2 = Sender { staged: Some(Box::new(val)), ..*tx };
    assert(tx2@ == tx@.staging(val));
    publishing_through_the_cells(&tx2, rx, rx_gone, steps, after, more);
}

/// After whatever the two sides have done to the cells, [`Sender::is_connected`], with no call of
/// the other side overlapping, answers `true` if and only if the receiver has not left, and changes
/// no cell.
pub proof fn asking_the_cells_for_the_receiver<T>(
    tx: &Sender<T>,
    rx: &Receiver<T>,
    rx_gone: bool,
    steps: Seq<Step<Option<Box<T>>>>,
    connected: bool,
)
    requires
        came_about(tx, false, rx, rx_gone, steps),
        unfolds(followed(steps, true, seq![tx.asking(!connected)])) is Some,
    ensures
        tx@.memory.may_show_receiver_gone(!connected) <==> happened(tx.asking(!connected)),
        unfolds(followed(steps, true, seq![tx.asking(!connected)])) == unfolds(steps),
        connected == !rx_gone,
{
    let moves = came_about_in_moves(tx, false, rx, rx_gone, steps);
    let event = tx.asking(!connected);
    what_follows_comes_about(steps, true, seq![event]);
    assert(comes_about(steps, true, seq![event], 0));
    tx.shared.m().receiver_disconnected.reading_tells::<Option<Box<T>>>(!connected);
}

/// Construct a new channel.
///
/// The [`Receiver`] will see `init` immediately. The [`Sender`]'s staged value and the back-buffer
/// are initialized with `T::default()`.
pub fn channel<T: Default>(init: T) -> (r: (Sender<T>, Receiver<T>))
    ensures
        r.0.wf(),
        r.1.wf(),
        r.0@.initial.len() == 3,
        r.0@.initial[0] == init,
        call_ensures(T::default, (), r.0@.initial[1]),
        call_ensures(T::default, (), r.0@.initial[2]),
        r.0@ == sender_at_start(r.0@.memory, r.0@.initial),
        r.1@ == receiver_at_start(r.0@.memory, r.0@.initial),
        r.0@.memory.starts_as(channel_start(seq![None, None, Some(r.0@.initial[2])])),
{
    let staged = T::default();
    let back = T::default();
    channel_with(init, staged, back)
}

/// Construct a new channel, explicitly setting the initial, staged, and back-buffer values.
///
/// The [`Receiver`] will see `init` immediately. The [`Sender`]'s initial staged value is `staged`
/// and `back` is the back-buffer.
pub fn channel_with<T>(init: T, staged: T, back: T) -> (r: (Sender<T>, Receiver<T>))
    ensures
        r.0.wf(),
        r.1.wf(),
        r.0@ == sender_at_start(r.0@.memory, seq![init, staged, back]),
        r.1@ == receiver_at_start(r.0@.memory, seq![init, staged, back]),
        r.0@.memory.starts_as(channel_start(seq![None, None, Some(back)])),
{
    let ghost initial = seq![init, staged, back];
    let (mut region, tx_log, tx_pass, rx_log, rx_pass) = Region::new();
    let mut buffer: Vec<Slot<Option<Box<T>>>> = Vec::new();
    buffer.push(Slot::new(None, &mut region));
    buffer.push(Slot::new(None, &mut region));
    buffer.push(Slot::new(Some(Box::new(back)), &mut region));
    let shared = Arc::new(
        Shared {
            buffer,
            stamp: Stamp::new(2, &mut region),
            receiver_disconnected: Flag::new::<Rx>(&mut region),
            left_by_sender: Place::new::<Tx>(None, &region),
            left_by_receiver: Place::new::<Rx>(None, &region),
        },
    );
    let tx = Sender {
        shared: Tie::new(shared.clone(), tx_pass),
        index: 1,
        staged: Some(Box::new(staged)),
        log: tx_log,
        trace: Ghost(Seq::empty()),
        initial: Ghost(initial),
    };
    let rx = Receiver {
        shared: Tie::new(shared, rx_pass),
        index: 0,
        sender_disconnected: false,
        current: Some(Box::new(init)),
        log: rx_log,
        trace: Ghost(Seq::empty()),
        initial: Ghost(initial),
    };
    assert(tx.log@ =~= sender_events(tx.shared.m(), tx.trace@));
    assert(rx.log@ =~= receiver_events(rx.shared.m(), rx.trace@));
    assert(tx.shared.m().slots_at_start() =~= seq![None, None, Some(initial[2])]);
    (tx, rx)
}

} // verus!
