//! A bounded single-producer, single-consumer channel.
//!
//! The [`Sender`] and [`Receiver`] are wait-free.
//!
//! When the channel is full, because the receiver has not consumed old values, the sender's
//! [`try_send`](Sender::try_send) returns the value back.
//!
//! # Internal details
//!
//! There are `capacity` slots. The sender and receiver maintain atomic sequence counters that track
//! the read and write positions to synchronize slot access. The counters wrap around, so each side
//! keeps the slot that it is at apart from its counter. Values travel in boxes, which go round:
//! each side has an empty one at hand. Values that still wait when both sides are gone are dropped
//! in order, the oldest first.
//!
//! The `trace` of each side records its accesses to shared memory, with what was handed over and
//! what came back; [`crate::protocol::queue`] states what follows for the channel as a whole.

use crate::cell::{happened, is_acquire, is_release, rotate, Counter, Event, Flag, Slot};
use crate::counter::{distance, next, next_slot, slots_follow_positions, step, succ, wrap};
use crate::protocol::queue::{
    after, can, channel_start, consistent, counters_tell_what_waits, disconnected_stays_drained,
    gone_is_seen_of_the_gone, gone_stays_gone, has_room, is_full_at, play, play_extends, positions,
    received_by, received_by_extends, receiver_asking_sees, receiver_part, receiver_run,
    receiver_run_extends, receiver_sees, receiver_step, receiver_then, sender_asking_sees,
    sender_part, sender_run, sender_run_extends, sender_sees, sender_step, sender_then, sent_by,
    sent_by_extends, slots_from, values_arrive_in_order, what_waits_lies_in_order, Channel, Move,
    ReceiverAccess, ReceiverPhase, ReceiverState, SenderAccess, SenderPhase, SenderState,
};
use crate::memory::{
    comes_about, followed, gets, part, puts, unfolds, what_follows_comes_about,
    what_follows_comes_last, Memory, Step,
};
use crate::vault::{Leavable, Log, Name, Place, Region, Rx, Tie, Tx};
use std::sync::Arc;
use vstd::prelude::*;

verus! {

/// Errors returned by [`Sender::try_send`].
#[derive(Debug, PartialEq, Eq)]
pub enum TrySendError<T> {
    /// The channel is full. The value is returned.
    Full(T),
    /// The [`Receiver`] has disconnected. The value is returned.
    Disconnected(T),
}

/// Errors returned by [`Receiver::try_recv`].
#[derive(Clone, Copy, Debug, PartialEq, Eq, Structural)]
pub enum TryRecvError {
    /// The channel is empty.
    Empty,
    /// The channel is empty and the [`Sender`] has disconnected.
    Disconnected,
}

/// What both sides of the channel can reach.
#[verifier::reject_recursive_types(T)]
pub struct Shared<T> {
    /// The ring buffer. A slot in which no value waits is vacant.
    slots: Vec<Slot<Box<Option<T>>>>,
    /// Number of values published by the sender. Written by the sender, read by the receiver.
    sender_seq: Counter,
    /// Number of values consumed by the receiver. Written by the receiver, read by the sender.
    receiver_seq: Counter,
    capacity: u32,
    sender_disconnected: Flag,
    receiver_disconnected: Flag,
    /// The slot that the receiver was at when it left.
    oldest: Place<u32>,
}

impl<T> Shared<T> {
    /// There are as many slots as the capacity says.
    #[verifier::type_invariant]
    spec fn has_its_slots(self) -> bool {
        self.slots.len() == self.capacity
    }

    /// The slots, which lay as in `before`, lie so that what is dropped first is what was in the
    /// slot that the receiver was at when it left.
    pub closed spec fn lines_up(&self, before: &Self) -> bool {
        exists|at: u32|
            {
                &&& #[trigger] before.oldest.may_give(0, at)
                &&& self.slots@ == if at < before.capacity {
                    slots_from(before.slots@, at)
                } else {
                    before.slots@
                }
            }
    }

    /// The cells of the memory are in `region`, each under its own number.
    spec fn is_in(&self, region: Name) -> bool {
        &&& forall|i: int|
            0 <= i < self.slots.len() ==> (#[trigger] self.slots[i]).region() == region
        &&& self.sender_seq.region() == region
        &&& self.receiver_seq.region() == region
        &&& self.sender_disconnected.region() == region
        &&& self.receiver_disconnected.region() == region
        &&& self.is_laid_out()
    }

    /// Each cell has its own number.
    spec fn is_laid_out(&self) -> bool {
        &&& forall|i: int| 0 <= i < self.slots.len() ==> (#[trigger] self.slots[i]).id() == i
        &&& self.sender_seq.id() == self.slots.len()
        &&& self.receiver_seq.id() == self.slots.len() + 1
        &&& self.sender_disconnected.id() == self.slots.len() + 2
        &&& self.receiver_disconnected.id() == self.slots.len() + 3
    }

    /// Who looks whether the sender has disconnected may see `gone`. Only looking tells.
    pub closed spec fn may_show_sender_gone(&self, gone: bool) -> bool {
        self.sender_disconnected.may_read(gone)
    }

    /// Who looks whether the receiver has disconnected may see `gone`. Only looking tells.
    pub closed spec fn may_show_receiver_gone(&self, gone: bool) -> bool {
        self.receiver_disconnected.may_read(gone)
    }

    spec fn wf(&self) -> bool {
        &&& 1 <= self.capacity
        &&& self.slots.len() == self.capacity
    }

    /// What the memory held first is what the memory of `c` holds.
    pub closed spec fn starts_as(&self, c: Channel<T>) -> bool {
        &&& self.capacity == c.sender.capacity
        &&& self.slots.len() == c.slots.len()
        &&& forall|i: int|
            0 <= i < c.slots.len() ==> *(#[trigger] self.slots[i]).first() == c.slots[i]
        &&& self.sender_seq.first() == wrap(c.tail)
        &&& self.receiver_seq.first() == wrap(c.head)
        &&& self.sender_disconnected.first() == c.sender_gone
        &&& self.receiver_disconnected.first() == c.receiver_gone
    }

    /// Swaps `val` with what is in a slot.
    fn exchange(
        &self,
        index: u32,
        val: Box<Option<T>>,
        log: &mut Log<Box<Option<T>>>,
    ) -> (got: Box<Option<T>>)
        requires
            self.wf(),
            index < self.capacity,
            self.is_in(old(log).region()),
        ensures
            final(log).region() == old(log).region(),
            final(log)@ == old(log)@.push(
                Event::ExchangeSlot {
                    cell: self.slots[index as int],
                    given: val,
                    got,
                },
            ),
    {
        self.slots[index as usize].exchange(val, log)
    }
}

impl<T> Drop for Shared<T> {
    fn drop(&mut self)
        ensures
            final(self).lines_up(old(self)),
        opens_invariants none
        no_unwind
    {
        proof {
            use_type_invariant(&*self);
        }
        let at: u32 = self.oldest.take(0);
        if at < self.capacity {
            rotate(&mut self.slots, at as usize);
        }
        assert(old(self).oldest.may_give(0, at));
    }
}

impl<T> Leavable for Shared<T> {
    closed spec fn leaves_in(&self, region: Name) -> bool {
        &&& self.sender_disconnected.region() == region
        &&& self.sender_disconnected.is_senders()
        &&& self.receiver_disconnected.region() == region
        &&& !self.receiver_disconnected.is_senders()
        &&& self.oldest.region() == region
        &&& !self.oldest.is_senders()
    }
}

/// What the cells record of an access of the sender.
spec fn sender_event<T>(m: &Shared<T>, a: SenderAccess<T>) -> Event<Box<Option<T>>> {
    match a {
        SenderAccess::LoadGone(got) => Event::ReadFlag { cell: m.receiver_disconnected, got },
        SenderAccess::LoadSeq(got) => Event::AcquireCounter { cell: m.receiver_seq, got },
        SenderAccess::FillSlot { slot, val, displaced } => Event::ExchangeSlot {
            cell: m.slots[slot as int],
            given: Box::new(Some(val)),
            got: Box::new(displaced),
        },
        SenderAccess::StoreSeq(value) => Event::ReleaseCounter { cell: m.sender_seq, value },
    }
}

/// What the cells record of the accesses of the sender.
spec fn sender_events<T>(m: &Shared<T>, trace: Seq<SenderAccess<T>>) -> Seq<Event<Box<Option<T>>>> {
    trace.map_values(|a: SenderAccess<T>| sender_event(m, a))
}

/// One more access of the sender is one more event.
proof fn sender_events_extend<T>(m: &Shared<T>, trace: Seq<SenderAccess<T>>, a: SenderAccess<T>)
    ensures
        sender_events(m, trace.push(a)) == sender_events(m, trace).push(sender_event(m, a)),
{
    assert(sender_events(m, trace.push(a)) =~= sender_events(m, trace).push(sender_event(m, a)));
}

/// What the cells record of an access of the receiver.
spec fn receiver_event<T>(m: &Shared<T>, a: ReceiverAccess<T>) -> Event<Box<Option<T>>> {
    match a {
        ReceiverAccess::LoadGone(got) => Event::AcquireFlag { cell: m.sender_disconnected, got },
        ReceiverAccess::LoadSeq(got) => Event::AcquireCounter { cell: m.sender_seq, got },
        ReceiverAccess::ReloadSeq(got) => Event::ReadCounter { cell: m.sender_seq, got },
        ReceiverAccess::TakeSlot { slot, got } => Event::ExchangeSlot {
            cell: m.slots[slot as int],
            given: Box::new(None),
            got: Box::new(got),
        },
        ReceiverAccess::StoreSeq(value) => Event::ReleaseCounter { cell: m.receiver_seq, value },
    }
}

/// What the cells record of the accesses of the receiver.
spec fn receiver_events<T>(m: &Shared<T>, trace: Seq<ReceiverAccess<T>>) -> Seq<
    Event<Box<Option<T>>>,
> {
    trace.map_values(|a: ReceiverAccess<T>| receiver_event(m, a))
}

/// One more access of the receiver is one more event.
proof fn receiver_events_extend<T>(
    m: &Shared<T>,
    trace: Seq<ReceiverAccess<T>>,
    a: ReceiverAccess<T>,
)
    ensures
        receiver_events(m, trace.push(a)) == receiver_events(m, trace).push(receiver_event(m, a)),
{
    assert(receiver_events(m, trace.push(a)) =~= receiver_events(m, trace).push(
        receiver_event(m, a),
    ));
}

/// The sender side of the channel.
#[verifier::reject_recursive_types(T)]
pub struct Sender<T> {
    shared: Tie<Shared<T>, Tx>,
    /// Local sequence number, always equal to the shared `sender_seq`.
    seq: u32,
    /// The slot that the next value goes to. It is stepped from slot to slot, because it does not
    /// follow from `seq` once that has wrapped around.
    index: u32,
    /// Snapshot of `receiver_seq`.
    ///
    /// This may be stale, lagging behind the actual value; i.e., except for wrapping around the
    /// `u32`, this is always `<=` the actual value.
    cached_receiver_seq: u32,
    /// A box to put the next value into the channel with.
    spare: Option<Box<Option<T>>>,
    /// What the sender has done to the cells so far.
    log: Log<Box<Option<T>>>,
    /// The accesses of the sender to shared memory so far.
    trace: Ghost<Seq<SenderAccess<T>>>,
}

/// The receiver side of the channel.
#[verifier::reject_recursive_types(T)]
pub struct Receiver<T> {
    shared: Tie<Shared<T>, Rx>,
    /// Local sequence number, always equal to the shared `receiver_seq`.
    seq: u32,
    /// The slot that the next value comes from. It is stepped from slot to slot, because it does
    /// not follow from `seq` once that has wrapped around.
    index: u32,
    /// Snapshot of `sender_seq`.
    ///
    /// This may be stale, lagging behind the actual value; i.e., except for wrapping around the
    /// `u32`, this is always `<=` the actual value.
    cached_sender_seq: u32,
    /// A box to leave in the channel for the next value.
    spare: Option<Box<Option<T>>>,
    /// What the receiver has done to the cells so far.
    log: Log<Box<Option<T>>>,
    /// The accesses of the receiver to shared memory so far.
    trace: Ghost<Seq<ReceiverAccess<T>>>,
}

/// The sender as the contracts see it.
#[verifier::ext_equal]
#[verifier::reject_recursive_types(T)]
pub struct SenderView<T> {
    pub capacity: u32,
    pub seq: u32,
    pub index: u32,
    pub cached_receiver_seq: u32,
    pub trace: Seq<SenderAccess<T>>,
    pub memory: Shared<T>,
}

/// The receiver as the contracts see it.
#[verifier::ext_equal]
#[verifier::reject_recursive_types(T)]
pub struct ReceiverView<T> {
    pub capacity: u32,
    pub seq: u32,
    pub index: u32,
    pub cached_sender_seq: u32,
    pub trace: Seq<ReceiverAccess<T>>,
    pub memory: Shared<T>,
}

impl<T> SenderView<T> {
    /// The values that were sent so far, in order.
    pub open spec fn sent(self) -> Seq<T> {
        sent_by(self.trace)
    }

    /// The sender knows of room for another value.
    pub open spec fn room(self) -> bool {
        has_room(self.capacity, self.seq, self.cached_receiver_seq)
    }

    /// The sender does not know of room, and finds none when it reads that the receiver is at
    /// `seq`.
    pub open spec fn finds_full(self, seq: u32) -> bool {
        !self.room() && is_full_at(self.capacity, self.seq, seq)
    }

    /// The sender after it has read whether the receiver is gone.
    pub open spec fn after_gone(self, gone: bool) -> Self {
        SenderView { trace: self.trace.push(SenderAccess::LoadGone(gone)), ..self }
    }

    /// The sender after it has made sure whether there is room: if it does not know of any, it
    /// reads that the receiver is at `seq`.
    pub open spec fn after_check(self, seq: u32) -> Self {
        if self.room() {
            self
        } else {
            SenderView {
                cached_receiver_seq: seq,
                trace: self.trace.push(SenderAccess::LoadSeq(seq)),
                ..self
            }
        }
    }

    /// The sender after it has put `val` into its slot, in place of `displaced`, and has moved on.
    pub open spec fn after_commit(self, val: T, displaced: Option<T>) -> Self {
        SenderView {
            seq: succ(self.seq),
            index: next_slot(self.index, self.capacity as int),
            trace: self.trace.push(
                SenderAccess::FillSlot { slot: self.index, val, displaced },
            ).push(SenderAccess::StoreSeq(succ(self.seq))),
            ..self
        }
    }
}

/// The sender after it has sent `val`. It knows the receiver at `receiver_seq`.
pub open spec fn after_send<T>(
    v: SenderView<T>,
    receiver_seq: u32,
    val: T,
    displaced: Option<T>,
) -> SenderView<T> {
    v.after_gone(false).after_check(receiver_seq).after_commit(val, displaced)
}

/// A call to send `val` can turn `before` into `after`, with result `r`. It fails, and gives `val`
/// back, if the receiver is seen to be gone or if there is no room.
pub open spec fn sends<T>(
    before: SenderView<T>,
    val: T,
    r: Result<(), TrySendError<T>>,
    after: SenderView<T>,
) -> bool {
    let full = before.finds_full(after.cached_receiver_seq);
    match r {
        Err(TrySendError::Disconnected(back)) => back == val && after == before.after_gone(true),
        Err(TrySendError::Full(back)) => {
            &&& back == val
            &&& full
            &&& after == before.after_gone(false).after_check(after.cached_receiver_seq)
        },
        Ok(()) => {
            &&& !full
            &&& exists|displaced: Option<T>|
                after == #[trigger] after_send(before, after.cached_receiver_seq, val, displaced)
        },
    }
}

/// A call to send makes at most four accesses to shared memory, whatever the receiver does. If the
/// sender knows of room, it does not look for it, and does not fail with [`TrySendError::Full`].
pub proof fn sending_is_wait_free<T>(
    before: SenderView<T>,
    val: T,
    r: Result<(), TrySendError<T>>,
    after: SenderView<T>,
)
    requires
        sends(before, val, r, after),
    ensures
        before.trace.len() < after.trace.len() <= before.trace.len() + 4,
        after.trace.take(before.trace.len() as int) == before.trace,
        before.room() ==> after.cached_receiver_seq == before.cached_receiver_seq,
        before.room() ==> !(r matches Err(TrySendError::Full(_))),
{
    assert(after.trace.take(before.trace.len() as int) =~= before.trace);
}

/// What was sent is what it was, with `val` at the end if the call to send it succeeded.
pub proof fn sending_appends<T>(
    before: SenderView<T>,
    val: T,
    r: Result<(), TrySendError<T>>,
    after: SenderView<T>,
)
    requires
        sends(before, val, r, after),
    ensures
        after.sent() == (if r is Ok {
            before.sent().push(val)
        } else {
            before.sent()
        }),
{
    broadcast use sent_by_extends;

}

impl<T> ReceiverView<T> {
    /// The values that were received so far, in order.
    pub open spec fn received(self) -> Seq<T> {
        received_by(self.trace)
    }

    /// The receiver knows of a value.
    pub open spec fn value(self) -> bool {
        self.cached_sender_seq != self.seq
    }

    /// The receiver after it has read that the sender is at `seq`.
    pub open spec fn after_load(self, seq: u32) -> Self {
        ReceiverView {
            cached_sender_seq: seq,
            trace: self.trace.push(ReceiverAccess::LoadSeq(seq)),
            ..self
        }
    }

    /// The receiver after it has read, once the sender was gone, that the sender is at `seq`.
    pub open spec fn after_reload(self, seq: u32) -> Self {
        ReceiverView {
            cached_sender_seq: seq,
            trace: self.trace.push(ReceiverAccess::ReloadSeq(seq)),
            ..self
        }
    }

    /// The receiver after it has read whether the sender is gone.
    pub open spec fn after_gone(self, gone: bool) -> Self {
        ReceiverView { trace: self.trace.push(ReceiverAccess::LoadGone(gone)), ..self }
    }

    /// The receiver after it has taken what is in its slot.
    pub open spec fn after_take(self, got: Option<T>) -> Self {
        ReceiverView {
            trace: self.trace.push(ReceiverAccess::TakeSlot { slot: self.index, got }),
            ..self
        }
    }

    /// The receiver after it has moved on.
    pub open spec fn after_commit(self) -> Self {
        ReceiverView {
            seq: succ(self.seq),
            index: next_slot(self.index, self.capacity as int),
            trace: self.trace.push(ReceiverAccess::StoreSeq(succ(self.seq))),
            ..self
        }
    }
}

/// The receiver after it has looked for a value, found the sender gone, and then found the sender
/// at `last`.
pub open spec fn after_second_look<T>(v: ReceiverView<T>, last: u32) -> ReceiverView<T> {
    v.after_load(v.seq).after_gone(true).after_reload(last)
}

/// Looking for a value can turn `before` into `after`, with result `r`. The receiver looks for one
/// if it does not know of any, and looks again if there was none and the sender is seen to be gone.
pub open spec fn polls<T>(
    before: ReceiverView<T>,
    r: Result<(), TryRecvError>,
    after: ReceiverView<T>,
) -> bool {
    if before.value() {
        r is Ok && after == before
    } else {
        match r {
            Err(TryRecvError::Empty) => after == before.after_load(before.seq).after_gone(false),
            Err(TryRecvError::Disconnected) => after == after_second_look(before, before.seq),
            Ok(()) => {
                &&& after.value()
                &&& {
                    ||| after == before.after_load(after.cached_sender_seq)
                    ||| after == after_second_look(before, after.cached_sender_seq)
                }
            },
        }
    }
}

/// A call to receive can turn `before` into `after`, with result `r`. It fails if no value is
/// found, or if there is nothing in the slot.
pub open spec fn receives<T>(
    before: ReceiverView<T>,
    r: Result<T, TryRecvError>,
    after: ReceiverView<T>,
) -> bool {
    match r {
        Err(e) => {
            ||| polls(before, Err(e), after)
            ||| e is Empty && exists|mid: ReceiverView<T>| #[trigger]
                polls(before, Ok(()), mid) && after == mid.after_take(None)
        },
        Ok(val) => exists|mid: ReceiverView<T>| #[trigger]
            polls(before, Ok(()), mid) && after == mid.after_take(Some(val)).after_commit(),
    }
}

/// A call to receive makes at most five accesses to shared memory, whatever the sender does.
pub proof fn receiving_is_wait_free<T>(
    before: ReceiverView<T>,
    r: Result<T, TryRecvError>,
    after: ReceiverView<T>,
)
    requires
        receives(before, r, after),
    ensures
        before.trace.len() < after.trace.len() <= before.trace.len() + 5,
        after.trace.take(before.trace.len() as int) == before.trace,
{
    assert(after.trace.take(before.trace.len() as int) =~= before.trace);
}

/// What was received is what it was, with the received value at the end.
pub proof fn receiving_appends<T>(
    before: ReceiverView<T>,
    r: Result<T, TryRecvError>,
    after: ReceiverView<T>,
)
    requires
        receives(before, r, after),
    ensures
        after.received() == (match r {
            Ok(val) => before.received().push(val),
            Err(_) => before.received(),
        }),
{
    broadcast use received_by_extends;

}

impl<T> Sender<T> {
    /// The sender as the contracts see it.
    pub closed spec fn view(&self) -> SenderView<T> {
        SenderView {
            capacity: self.shared.m().capacity,
            seq: self.seq,
            index: self.index,
            cached_receiver_seq: self.cached_receiver_seq,
            trace: self.trace@,
            memory: *self.shared.m(),
        }
    }

    /// The channel has the slots that its capacity calls for, the next one among them, and there is
    /// a box at hand.
    pub closed spec fn sized(&self) -> bool {
        &&& self.shared.m().wf()
        &&& self.index < self.shared.m().capacity
        &&& self.spare is Some
    }

    /// The sender, which was `before`, has announced that it is gone.
    pub closed spec fn has_left(&self, before: &Self) -> bool {
        before.shared.is_tied() ==> self.log@ == before.log@.push(
            Event::ReleaseFlag { cell: before.shared.m().sender_disconnected },
        )
    }

    /// Everything that the sender has done to the cells, and that it has left if `gone` says so.
    pub closed spec fn history(&self, gone: bool) -> Seq<Event<Box<Option<T>>>> {
        if gone {
            self.log@.push(Event::ReleaseFlag { cell: self.shared.m().sender_disconnected })
        } else {
            self.log@
        }
    }

    /// What [`is_connected`](Self::is_connected) does to the cells when it sees `gone`.
    pub closed spec fn asking(&self, gone: bool) -> Event<Box<Option<T>>> {
        Event::ReadFlag { cell: self.shared.m().receiver_disconnected, got: gone }
    }

    /// The accesses of the trace were made: the cells have recorded them.
    pub closed spec fn recorded(&self) -> bool {
        &&& self.log@ == sender_events(self.shared.m(), self.trace@)
        &&& self.shared.m().is_in(self.log.region())
        &&& self.shared.is_tied()
        &&& self.shared.m().starts_as(channel_start(self.shared.m().capacity))
    }

    /// The sender's accesses were made, and have brought it to where it is.
    pub open spec fn in_phase(&self, phase: SenderPhase) -> bool {
        &&& self.recorded()
        &&& sender_run(self@.capacity, self@.trace) == Some(
            SenderState {
                capacity: self@.capacity,
                seq: self@.seq,
                index: self@.index,
                cached_receiver_seq: self@.cached_receiver_seq,
                phase,
            },
        )
    }

    /// The sender has followed the protocol and is not in the middle of sending.
    pub open spec fn wf(&self) -> bool {
        &&& self.sized()
        &&& self.in_phase(SenderPhase::Idle)
    }

    /// Reads whether the receiver has disconnected.
    fn load_gone(&mut self) -> (gone: bool)
        requires
            old(self).recorded(),
        ensures
            final(self).shared == old(self).shared,
            old(self).sized() ==> final(self).sized(),
            final(self)@ == old(self)@.after_gone(gone),
            final(self).recorded(),
            sender_run(final(self)@.capacity, final(self)@.trace) == sender_then(
                sender_run(old(self)@.capacity, old(self)@.trace),
                final(self)@.trace.last(),
            ),
    {
        let gone = self.shared.m().receiver_disconnected.read(&mut self.log);
        proof {
            let a = SenderAccess::LoadGone(gone);
            sender_run_extends(self.shared.m().capacity, self.trace@, a);
            sender_events_extend(self.shared.m(), self.trace@, a);
            self.trace@ = self.trace@.push(a);
        }
        gone
    }

    /// Makes sure whether there is room for another value, and returns `true` if there is none.
    fn check_full(&mut self) -> (r: bool)
        requires
            old(self).in_phase(SenderPhase::Idle) || old(self).in_phase(SenderPhase::Open),
        ensures
            final(self).shared == old(self).shared,
            old(self).sized() ==> final(self).sized(),
            final(self)@ == old(self)@.after_check(final(self)@.cached_receiver_seq),
            r == old(self)@.finds_full(final(self)@.cached_receiver_seq),
            old(self)@.room() ==> final(self)@ == old(self)@,
            old(self).in_phase(SenderPhase::Idle) ==> final(self).in_phase(SenderPhase::Idle),
            old(self).in_phase(SenderPhase::Open) ==> final(self).in_phase(
                if old(self)@.room() {
                    SenderPhase::Open
                } else if r {
                    SenderPhase::Idle
                } else {
                    SenderPhase::Vetted
                },
            ),
    {
        if distance(self.cached_receiver_seq, self.seq) < self.shared.m().capacity {
            return false;
        }
        // This synchronizes with the receiver's release of its position, ensuring it will have
        // consumed the slot before the sender starts writing to it.
        self.cached_receiver_seq = self.shared.m().receiver_seq.acquire(&mut self.log);
        proof {
            let a = SenderAccess::LoadSeq(self.cached_receiver_seq);
            sender_run_extends(self.shared.m().capacity, self.trace@, a);
            sender_events_extend(self.shared.m(), self.trace@, a);
            self.trace@ = self.trace@.push(a);
        }
        distance(self.cached_receiver_seq, self.seq) >= self.shared.m().capacity
    }

    /// Returns `true` if the channel is full.
    ///
    /// When this returns `false`, a subsequent [`try_send`](Self::try_send) will not fail with
    /// [`TrySendError::Full`] (it may still return [`TrySendError::Disconnected`]).
    ///
    /// This does not check whether the [`Receiver`] has disconnected. Use
    /// [`is_connected`](Self::is_connected) for that.
    pub fn is_full(&mut self) -> (r: bool)
        requires
            old(self).wf(),
        ensures
            final(self).wf(),
            final(self)@ == old(self)@.after_check(final(self)@.cached_receiver_seq),
            r == old(self)@.finds_full(final(self)@.cached_receiver_seq),
            final(self)@.sent() == old(self)@.sent(),
    {
        broadcast use sent_by_extends;

        self.check_full()
    }

    /// Try to send a value into the channel.
    ///
    /// Returns `Ok(())` if the value was successfully published. Returns the value back if the
    /// receiver has disconnected ([`TrySendError::Disconnected`]) or the channel is full
    /// ([`TrySendError::Full`]).
    ///
    /// Use [`Self::is_full`] to check for capacity.
    pub fn try_send(&mut self, val: T) -> (r: Result<(), TrySendError<T>>)
        requires
            old(self).wf(),
        ensures
            final(self).wf(),
            sends(old(self)@, val, r, final(self)@),
            final(self)@.sent() == (if r is Ok {
                old(self)@.sent().push(val)
            } else {
                old(self)@.sent()
            }),
    {
        broadcast use sent_by_extends;

        if self.load_gone() {
            return Err(TrySendError::Disconnected(val));
        }
        if self.check_full() {
            return Err(TrySendError::Full(val));
        }
        let ghost put = val;
        let mut cargo = self.spare.take().unwrap();
        *cargo = Some(val);
        let displaced = self.shared.m().exchange(self.index, cargo, &mut self.log);
        let ghost a = SenderAccess::FillSlot {
            slot: self.index,
            val: put,
            displaced: *displaced,
        };
        proof {
            sender_run_extends(self.shared.m().capacity, self.trace@, a);
            sender_events_extend(self.shared.m(), self.trace@, a);
            self.trace@ = self.trace@.push(a);
        }
        self.seq = next(self.seq);
        self.index = step(self.index, self.shared.m().capacity);
        self.shared.m().sender_seq.release(self.seq, &mut self.log);
        proof {
            let b = SenderAccess::StoreSeq(self.seq);
            sender_run_extends(self.shared.m().capacity, self.trace@, b);
            sender_events_extend(self.shared.m(), self.trace@, b);
            self.trace@ = self.trace@.push(b);
        }
        assert(self@ == after_send(old(self)@, self@.cached_receiver_seq, put, *displaced));
        self.spare = Some(displaced);
        Ok(())
    }

    /// Returns `true` if the [`Receiver`] is still alive. The other side decides when that ends.
    pub fn is_connected(&self) -> (r: bool)
        ensures
            self@.memory.may_show_receiver_gone(!r),
    {
        !self.shared.m().receiver_disconnected.peek()
    }
}

impl<T> Drop for Sender<T> {
    fn drop(&mut self)
        ensures
            final(self).has_left(old(self)),
        opens_invariants none
        no_unwind
    {
        if let Some(pass) = self.shared.part() {
            self.shared.m().sender_disconnected.release(pass, &mut self.log);
        }
    }
}

impl<T> Receiver<T> {
    /// The receiver as the contracts see it.
    pub closed spec fn view(&self) -> ReceiverView<T> {
        ReceiverView {
            capacity: self.shared.m().capacity,
            seq: self.seq,
            index: self.index,
            cached_sender_seq: self.cached_sender_seq,
            trace: self.trace@,
            memory: *self.shared.m(),
        }
    }

    /// The channel has the slots that its capacity calls for, the next one among them, and there is
    /// a box at hand.
    pub closed spec fn sized(&self) -> bool {
        &&& self.shared.m().wf()
        &&& self.index < self.shared.m().capacity
        &&& self.spare is Some
    }

    /// The receiver, which was `before`, has left word of where it was and announced that it is
    /// gone.
    pub closed spec fn has_left(&self, before: &Self) -> bool {
        before.shared.is_tied() ==> {
            &&& before.shared.m().oldest.was_left(before.index)
            &&& self.log@ == before.log@.push(
                Event::RaiseFlag { cell: before.shared.m().receiver_disconnected },
            )
        }
    }

    /// Everything that the receiver has done to the cells, and that it has left if `gone` says so.
    pub closed spec fn history(&self, gone: bool) -> Seq<Event<Box<Option<T>>>> {
        if gone {
            self.log@.push(Event::RaiseFlag { cell: self.shared.m().receiver_disconnected })
        } else {
            self.log@
        }
    }

    /// What [`is_connected`](Self::is_connected) does to the cells when it sees `gone`.
    pub closed spec fn asking(&self, gone: bool) -> Event<Box<Option<T>>> {
        Event::ReadFlag { cell: self.shared.m().sender_disconnected, got: gone }
    }

    /// The accesses of the trace were made: the cells have recorded them.
    pub closed spec fn recorded(&self) -> bool {
        &&& self.log@ == receiver_events(self.shared.m(), self.trace@)
        &&& self.shared.m().is_in(self.log.region())
        &&& self.shared.is_tied()
        &&& self.shared.m().starts_as(channel_start(self.shared.m().capacity))
    }

    /// The receiver's accesses were made, and have brought it to where it is.
    pub open spec fn in_phase(&self, phase: ReceiverPhase) -> bool {
        &&& self.recorded()
        &&& receiver_run(self@.capacity, self@.trace) == Some(
            ReceiverState {
                capacity: self@.capacity,
                seq: self@.seq,
                index: self@.index,
                cached_sender_seq: self@.cached_sender_seq,
                phase,
            },
        )
    }

    /// The receiver has followed the protocol and is not in the middle of receiving.
    pub open spec fn wf(&self) -> bool {
        &&& self.sized()
        &&& self.in_phase(ReceiverPhase::Idle)
    }

    /// Reads the sender's position. This synchronizes with the sender's release of it, ensuring the
    /// receiver sees what the sender wrote to the slots before.
    fn load_seq(&mut self)
        requires
            old(self).recorded(),
        ensures
            final(self).shared == old(self).shared,
            old(self).sized() ==> final(self).sized(),
            final(self)@ == old(self)@.after_load(final(self)@.cached_sender_seq),
            final(self).recorded(),
            receiver_run(final(self)@.capacity, final(self)@.trace) == receiver_then(
                receiver_run(old(self)@.capacity, old(self)@.trace),
                final(self)@.trace.last(),
            ),
    {
        self.cached_sender_seq = self.shared.m().sender_seq.acquire(&mut self.log);
        proof {
            let a = ReceiverAccess::LoadSeq(self.cached_sender_seq);
            receiver_run_extends(self.shared.m().capacity, self.trace@, a);
            receiver_events_extend(self.shared.m(), self.trace@, a);
            self.trace@ = self.trace@.push(a);
        }
    }

    /// Reads the sender's position again. Acquiring the sender's disconnect has made it visible.
    fn reload_seq(&mut self)
        requires
            old(self).recorded(),
        ensures
            final(self).shared == old(self).shared,
            old(self).sized() ==> final(self).sized(),
            final(self)@ == old(self)@.after_reload(final(self)@.cached_sender_seq),
            final(self).recorded(),
            receiver_run(final(self)@.capacity, final(self)@.trace) == receiver_then(
                receiver_run(old(self)@.capacity, old(self)@.trace),
                final(self)@.trace.last(),
            ),
    {
        self.cached_sender_seq = self.shared.m().sender_seq.read(&mut self.log);
        proof {
            let a = ReceiverAccess::ReloadSeq(self.cached_sender_seq);
            receiver_run_extends(self.shared.m().capacity, self.trace@, a);
            receiver_events_extend(self.shared.m(), self.trace@, a);
            self.trace@ = self.trace@.push(a);
        }
    }

    /// Reads whether the sender has disconnected. If it has, all its stores before are visible,
    /// including those of its position.
    fn load_gone(&mut self) -> (gone: bool)
        requires
            old(self).recorded(),
        ensures
            final(self).shared == old(self).shared,
            old(self).sized() ==> final(self).sized(),
            final(self)@ == old(self)@.after_gone(gone),
            final(self).recorded(),
            receiver_run(final(self)@.capacity, final(self)@.trace) == receiver_then(
                receiver_run(old(self)@.capacity, old(self)@.trace),
                final(self)@.trace.last(),
            ),
    {
        let gone = self.shared.m().sender_disconnected.acquire(&mut self.log);
        proof {
            let a = ReceiverAccess::LoadGone(gone);
            receiver_run_extends(self.shared.m().capacity, self.trace@, a);
            receiver_events_extend(self.shared.m(), self.trace@, a);
            self.trace@ = self.trace@.push(a);
        }
        gone
    }

    /// Looks for a value.
    fn poll(&mut self) -> (r: Result<(), TryRecvError>)
        requires
            old(self).wf(),
        ensures
            final(self).shared == old(self).shared,
            old(self).sized() ==> final(self).sized(),
            polls(old(self)@, r, final(self)@),
            match r {
                Ok(()) => final(self)@.value() && (final(self).in_phase(ReceiverPhase::Idle)
                    || final(self).in_phase(ReceiverPhase::Due)),
                Err(_) => final(self).in_phase(ReceiverPhase::Idle),
            },
    {
        if self.cached_sender_seq == self.seq {
            // The snapshot says the channel is empty, but the sender may have published values
            // since.
            self.load_seq();
            if self.cached_sender_seq == self.seq {
                // Still empty. Check if the sender has disconnected.
                if self.load_gone() {
                    self.reload_seq();
                    assert(self@ == after_second_look(old(self)@, self@.cached_sender_seq));
                    if self.cached_sender_seq == self.seq {
                        return Err(TryRecvError::Disconnected);
                    }
                } else {
                    return Err(TryRecvError::Empty);
                }
            }
        }
        Ok(())
    }

    /// Try to receive a value from the channel.
    ///
    /// Returns the value if one was available. Returns [`TryRecvError::Empty`] if the channel is
    /// empty, or [`TryRecvError::Disconnected`] if the channel is empty and the sender has been
    /// dropped.
    pub fn try_recv(&mut self) -> (r: Result<T, TryRecvError>)
        requires
            old(self).wf(),
        ensures
            final(self).wf(),
            receives(old(self)@, r, final(self)@),
            final(self)@.received() == (match r {
                Ok(val) => old(self)@.received().push(val),
                Err(_) => old(self)@.received(),
            }),
    {
        broadcast use received_by_extends;

        match self.poll() {
            Ok(()) => {},
            Err(e) => {
                return Err(e);
            },
        }
        let ghost mid = self@;
        assert(polls(old(self)@, Ok(()), mid));
        let mut empty = self.spare.take().unwrap();
        *empty = None;
        let mut cargo = self.shared.m().exchange(self.index, empty, &mut self.log);
        let got = cargo.take();
        self.spare = Some(cargo);
        proof {
            let a = ReceiverAccess::TakeSlot { slot: self.index, got };
            receiver_run_extends(self.shared.m().capacity, self.trace@, a);
            receiver_events_extend(self.shared.m(), self.trace@, a);
            self.trace@ = self.trace@.push(a);
        }
        assert(self@ == mid.after_take(got));
        match got {
            Some(val) => {
                self.seq = next(self.seq);
                self.index = step(self.index, self.shared.m().capacity);
                self.shared.m().receiver_seq.release(self.seq, &mut self.log);
                proof {
                    let b = ReceiverAccess::StoreSeq(self.seq);
                    receiver_run_extends(self.shared.m().capacity, self.trace@, b);
                    receiver_events_extend(self.shared.m(), self.trace@, b);
                    self.trace@ = self.trace@.push(b);
                }
                assert(self@ == mid.after_take(Some(val)).after_commit());
                Ok(val)
            },
            None => Err(TryRecvError::Empty),
        }
    }

    /// Returns `true` if the [`Sender`] is still alive. The other side decides when that ends.
    pub fn is_connected(&self) -> (r: bool)
        ensures
            self@.memory.may_show_sender_gone(!r),
    {
        !self.shared.m().sender_disconnected.peek()
    }
}

impl<T> Drop for Receiver<T> {
    fn drop(&mut self)
        ensures
            final(self).has_left(old(self)),
        opens_invariants none
        no_unwind
    {
        if let Some(pass) = self.shared.part() {
            let (_found, pass) = self.shared.m().oldest.leave(self.index, pass);
            self.shared.m().receiver_disconnected.raise(pass, &mut self.log);
        }
    }
}

/// The sender of a new channel.
pub open spec fn sender_at_start<T>(capacity: u32, memory: Shared<T>) -> SenderView<T> {
    SenderView { capacity, seq: 0, index: 0, cached_receiver_seq: 0, trace: Seq::empty(), memory }
}

/// The receiver of a new channel.
pub open spec fn receiver_at_start<T>(capacity: u32, memory: Shared<T>) -> ReceiverView<T> {
    ReceiverView { capacity, seq: 0, index: 0, cached_sender_seq: 0, trace: Seq::empty(), memory }
}

/// Whatever the two sides of a channel have done so far, and however that interleaved, what was
/// received is the beginning of what was sent, and no more than `capacity` values wait.
pub proof fn what_was_sent_arrives<T>(
    tx: &Sender<T>,
    rx: &Receiver<T>,
    moves: Seq<Move<T>>,
    end: Channel<T>,
)
    requires
        tx.wf(),
        rx.wf(),
        tx@.memory == rx@.memory,
        play(channel_start(tx@.capacity), moves) == Some(end),
        sender_part(moves) == tx@.trace,
        receiver_part(moves) == rx@.trace,
    ensures
        rx@.received().len() <= tx@.sent().len() <= rx@.received().len() + tx@.capacity,
        rx@.received() == tx@.sent().take(rx@.received().len() as int),
        end.sender.seq == tx@.seq,
        end.receiver.seq == rx@.seq,
        consistent(end),
{
    values_arrive_in_order(tx@.capacity, moves, end);
}

/// The two sides of a channel are between calls, and their accesses so far have brought the channel
/// to state `c`.
pub open spec fn at_rest<T>(
    tx: &Sender<T>,
    rx: &Receiver<T>,
    moves: Seq<Move<T>>,
    c: Channel<T>,
) -> bool {
    &&& tx.wf()
    &&& rx.wf()
    &&& tx@.memory == rx@.memory
    &&& play(channel_start(tx@.capacity), moves) == Some(c)
    &&& sender_part(moves) == tx@.trace
    &&& receiver_part(moves) == rx@.trace
}

/// When no call of the receiver overlaps, and the sender sees what the memory holds,
/// [`Sender::try_send`] fails with `Disconnected` if and only if the receiver is gone, and with
/// `Full` if and only if it is not and `capacity` values wait.
pub proof fn sending_alone<T>(
    tx: &Sender<T>,
    rx: &Receiver<T>,
    moves: Seq<Move<T>>,
    c: Channel<T>,
    val: T,
    r: Result<(), TrySendError<T>>,
    after: SenderView<T>,
)
    requires
        at_rest(tx, rx, moves, c),
        sends(tx@, val, r, after),
        forall|i: int|
            tx@.trace.len() <= i < after.trace.len() ==> sender_sees(c, #[trigger] after.trace[i]),
    ensures
        r matches Err(TrySendError::Disconnected(_)) <==> c.receiver_gone,
        r matches Err(TrySendError::Full(_)) <==> !c.receiver_gone && tx@.sent().len()
            == rx@.received().len() + tx@.capacity,
{
    what_was_sent_arrives(tx, rx, moves, c);
    values_arrive_in_order(tx@.capacity, moves, c);
    counters_tell_what_waits(c);
    let k = tx@.trace.len() as int;
    assert(sender_sees(c, after.trace[k]));
    if !tx@.room() && !(r matches Err(TrySendError::Disconnected(_))) {
        assert(after.trace[k + 1] == SenderAccess::<T>::LoadSeq(after.cached_receiver_seq));
    }
}

/// When no call of the receiver overlaps, and the sender sees what the memory holds,
/// [`Sender::is_full`] tells whether `capacity` values wait.
pub proof fn checking_alone<T>(
    tx: &Sender<T>,
    rx: &Receiver<T>,
    moves: Seq<Move<T>>,
    c: Channel<T>,
    r: bool,
    after: SenderView<T>,
)
    requires
        at_rest(tx, rx, moves, c),
        after == tx@.after_check(after.cached_receiver_seq),
        r == tx@.finds_full(after.cached_receiver_seq),
        forall|i: int|
            tx@.trace.len() <= i < after.trace.len() ==> sender_sees(c, #[trigger] after.trace[i]),
    ensures
        r <==> tx@.sent().len() == rx@.received().len() + tx@.capacity,
{
    what_was_sent_arrives(tx, rx, moves, c);
    values_arrive_in_order(tx@.capacity, moves, c);
    counters_tell_what_waits(c);
    if !tx@.room() {
        assert(after.trace[tx@.trace.len() as int] == SenderAccess::<T>::LoadSeq(
            after.cached_receiver_seq,
        ));
    }
}

/// When [`Sender::is_full`] returned `false`, which made the sender `checked`, the next call of
/// [`Sender::try_send`] does not fail with `Full`, whatever the receiver does.
pub proof fn room_stays<T>(
    before: SenderView<T>,
    checked: SenderView<T>,
    val: T,
    r: Result<(), TrySendError<T>>,
    after: SenderView<T>,
)
    requires
        checked == before.after_check(checked.cached_receiver_seq),
        !before.finds_full(checked.cached_receiver_seq),
        sends(checked, val, r, after),
    ensures
        !(r matches Err(TrySendError::Full(_))),
{
}

/// When no call of the sender overlaps, and the receiver sees what the memory holds,
/// [`Receiver::try_recv`] gives the oldest value that waits; it fails if and only if none waits,
/// with `Disconnected` if the sender is gone and with `Empty` if it is not.
pub proof fn receiving_alone<T>(
    tx: &Sender<T>,
    rx: &Receiver<T>,
    moves: Seq<Move<T>>,
    c: Channel<T>,
    r: Result<T, TryRecvError>,
    after: ReceiverView<T>,
)
    requires
        at_rest(tx, rx, moves, c),
        receives(rx@, r, after),
        forall|i: int|
            rx@.trace.len() <= i < after.trace.len() ==> receiver_sees(
                c,
                #[trigger] after.trace[i],
            ),
    ensures
        match r {
            Ok(val) => {
                &&& rx@.received().len() < tx@.sent().len()
                &&& val == tx@.sent()[rx@.received().len() as int]
            },
            Err(TryRecvError::Disconnected) => rx@.received() == tx@.sent() && c.sender_gone,
            Err(TryRecvError::Empty) => rx@.received() == tx@.sent() && !c.sender_gone,
        },
{
    what_was_sent_arrives(tx, rx, moves, c);
    values_arrive_in_order(tx@.capacity, moves, c);
    counters_tell_what_waits(c);
    let k = rx@.trace.len() as int;
    assert(receiver_sees(c, after.trace[k]));
    if after.trace.len() > k + 1 {
        assert(receiver_sees(c, after.trace[k + 1]));
    }
    if after.trace.len() > k + 2 {
        assert(receiver_sees(c, after.trace[k + 2]));
    }
    if after.trace.len() > k + 3 {
        assert(receiver_sees(c, after.trace[k + 3]));
    }
    if rx@.received().len() == tx@.sent().len() {
        assert(rx@.received() =~= tx@.sent());
    }
}

/// The values that wait when both sides are gone lie in the order in which they were sent, if one
/// goes through the slots from that on that the receiver was at: so they are dropped, the oldest
/// first.
pub proof fn what_waits_is_dropped_in_order<T>(
    tx: &Sender<T>,
    rx: &Receiver<T>,
    moves: Seq<Move<T>>,
    c: Channel<T>,
)
    requires
        at_rest(tx, rx, moves, c),
    ensures
        slots_from(c.slots, rx@.index).len() == tx@.capacity,
        forall|k: int|
            0 <= k < tx@.capacity ==> #[trigger] slots_from(c.slots, rx@.index)[k] == (if k
                < tx@.sent().len() - rx@.received().len() {
                Some(tx@.sent()[rx@.received().len() + k])
            } else {
                None
            }),
{
    values_arrive_in_order(tx@.capacity, moves, c);
    what_waits_lies_in_order(c);
}

/// [`Sender::is_connected`] answers `false` only if the receiver was dropped, and if it sees what
/// the memory holds, `true` only if it was not; in particular `true` for a new channel. Once it has
/// answered `false`, it does so whatever happens.
pub proof fn connected_until_the_receiver_goes<T>(
    tx: &Sender<T>,
    moves: Seq<Move<T>>,
    c: Channel<T>,
    connected: bool,
    rest: Seq<Move<T>>,
    end: Channel<T>,
    later: bool,
)
    requires
        tx.wf(),
        play(channel_start(tx@.capacity), moves) == Some(c),
        tx@.memory.may_show_receiver_gone(!connected),
        can(c, Move::SenderAsks(!connected)),
        play(after(c, Move::SenderAsks(!connected)), rest) == Some(end),
        tx@.memory.may_show_receiver_gone(!later),
        can(end, Move::SenderAsks(!later)),
    ensures
        !connected ==> c.receiver_gone,
        sender_asking_sees(c, !connected) ==> connected == !c.receiver_gone,
        moves.len() == 0 ==> connected,
        !connected ==> !later && end.receiver_gone,
{
    gone_stays_gone(after(c, Move::SenderAsks(!connected)), rest, end);
}

/// [`Receiver::is_connected`] answers `false` only if the sender was dropped, and if it sees what
/// the memory holds, `true` only if it was not; in particular `true` for a new channel. Once it has
/// answered `false`, it does so whatever happens.
pub proof fn connected_until_the_sender_goes<T>(
    rx: &Receiver<T>,
    moves: Seq<Move<T>>,
    c: Channel<T>,
    connected: bool,
    rest: Seq<Move<T>>,
    end: Channel<T>,
    later: bool,
)
    requires
        rx.wf(),
        play(channel_start(rx@.capacity), moves) == Some(c),
        rx@.memory.may_show_sender_gone(!connected),
        can(c, Move::ReceiverAsks(!connected)),
        play(after(c, Move::ReceiverAsks(!connected)), rest) == Some(end),
        rx@.memory.may_show_sender_gone(!later),
        can(end, Move::ReceiverAsks(!later)),
    ensures
        !connected ==> c.sender_gone,
        receiver_asking_sees(c, !connected) ==> connected == !c.sender_gone,
        moves.len() == 0 ==> connected,
        !connected ==> !later && end.sender_gone,
{
    gone_stays_gone(after(c, Move::ReceiverAsks(!connected)), rest, end);
}

/// What the cells record of a sender that has made the accesses of `trace`, and has left if `gone`
/// says so.
spec fn sender_history<T>(m: &Shared<T>, trace: Seq<SenderAccess<T>>, gone: bool) -> Seq<
    Event<Box<Option<T>>>,
> {
    if gone {
        sender_events(m, trace).push(Event::ReleaseFlag { cell: m.sender_disconnected })
    } else {
        sender_events(m, trace)
    }
}

/// What the cells record of a receiver that has made the accesses of `trace`, and has left if
/// `gone` says so.
spec fn receiver_history<T>(m: &Shared<T>, trace: Seq<ReceiverAccess<T>>, gone: bool) -> Seq<
    Event<Box<Option<T>>>,
> {
    if gone {
        receiver_events(m, trace).push(Event::RaiseFlag { cell: m.receiver_disconnected })
    } else {
        receiver_events(m, trace)
    }
}

/// The cells hold what the memory of `c` holds.
spec fn mirrors<T>(m: &Shared<T>, mem: Memory<Box<Option<T>>>, c: Channel<T>) -> bool {
    &&& c.slots.len() == m.slots.len()
    &&& forall|i: int|
        0 <= i < m.slots.len() ==> *mem.slot(#[trigger] m.slots[i]) == c.slots[i]
    &&& mem.counter(m.sender_seq) == wrap(c.tail)
    &&& mem.counter(m.receiver_seq) == wrap(c.head)
    &&& mem.flag(m.sender_disconnected) == c.sender_gone
    &&& mem.flag(m.receiver_disconnected) == c.receiver_gone
}

/// The cells of a new channel hold what its memory holds.
proof fn cells_hold_what_they_held_first<T>(m: &Shared<T>)
    requires
        m.wf(),
        m.starts_as(channel_start(m.capacity)),
    ensures
        mirrors(m, Memory::untouched(), channel_start(m.capacity)),
{
}

/// The move that access `a` of the sender is when it gets what the memory holds.
spec fn sender_move<T>(c: Channel<T>, a: SenderAccess<T>) -> Move<T> {
    match a {
        SenderAccess::LoadSeq(_) => Move::SenderLooks(c.head),
        _ => Move::Sender(a),
    }
}

/// The move that access `a` of the receiver is when it gets what the memory holds.
spec fn receiver_move<T>(c: Channel<T>, a: ReceiverAccess<T>) -> Move<T> {
    match a {
        ReceiverAccess::LoadSeq(_) => Move::ReceiverLooks(c.tail),
        ReceiverAccess::ReloadSeq(_) => Move::ReceiverLooksAgain(c.tail),
        _ => Move::Receiver(a),
    }
}

/// An access of the sender does to the cells what it does to the memory.
proof fn sender_access_mirrors<T>(
    m: &Shared<T>,
    mem: Memory<Box<Option<T>>>,
    c: Channel<T>,
    a: SenderAccess<T>,
)
    requires
        m.wf(),
        m.is_laid_out(),
        consistent(c),
        c.sender.capacity == m.capacity,
        mirrors(m, mem, c),
        !c.sender_gone,
        sender_step(c.sender, a) is Some,
        gets(mem, sender_event(m, a)),
    ensures
        can(c, sender_move(c, a)),
        mirrors(m, puts(mem, sender_event(m, a)), after(c, sender_move(c, a))),
        sender_sees(c, a),
{
    slots_follow_positions(c.tail, m.capacity as nat);
    positions(c);
}

/// An access of the receiver does to the cells what it does to the memory.
proof fn receiver_access_mirrors<T>(
    m: &Shared<T>,
    mem: Memory<Box<Option<T>>>,
    c: Channel<T>,
    a: ReceiverAccess<T>,
)
    requires
        m.wf(),
        m.is_laid_out(),
        consistent(c),
        c.sender.capacity == m.capacity,
        mirrors(m, mem, c),
        !c.receiver_gone,
        receiver_step(c.receiver, a) is Some,
        gets(mem, receiver_event(m, a)),
    ensures
        can(c, receiver_move(c, a)),
        mirrors(m, puts(mem, receiver_event(m, a)), after(c, receiver_move(c, a))),
        receiver_sees(c, a),
{
    slots_follow_positions(c.head, m.capacity as nat);
    positions(c);
}

/// That the sender leaves does to the cells what it does to the memory.
proof fn sender_leaving_mirrors<T>(m: &Shared<T>, mem: Memory<Box<Option<T>>>, c: Channel<T>)
    requires
        m.is_laid_out(),
        mirrors(m, mem, c),
        !c.sender_gone,
        c.sender.phase is Idle,
    ensures
        can(c, Move::SenderGoes),
        mirrors(
            m,
            puts(mem, Event::ReleaseFlag { cell: m.sender_disconnected }),
            after(c, Move::SenderGoes),
        ),
{
}

/// That the receiver leaves does to the cells what it does to the memory.
proof fn receiver_leaving_mirrors<T>(m: &Shared<T>, mem: Memory<Box<Option<T>>>, c: Channel<T>)
    requires
        m.is_laid_out(),
        mirrors(m, mem, c),
        !c.receiver_gone,
        c.receiver.phase is Idle,
    ensures
        can(c, Move::ReceiverGoes),
        mirrors(
            m,
            puts(mem, Event::RaiseFlag { cell: m.receiver_disconnected }),
            after(c, Move::ReceiverGoes),
        ),
{
}

/// One more access of the sender is one more move.
#[verifier::spinoff_prover]
proof fn sender_goes_on<T>(
    m: &Shared<T>,
    moves: Seq<Move<T>>,
    c: Channel<T>,
    mem: Memory<Box<Option<T>>>,
    a: SenderAccess<T>,
) -> (mv: Move<T>)
    requires
        m.wf(),
        m.is_laid_out(),
        m.starts_as(channel_start(m.capacity)),
        play(channel_start(m.capacity), moves) == Some(c),
        mirrors(m, mem, c),
        !c.sender_gone,
        sender_run(m.capacity, sender_part(moves).push(a)) is Some,
        gets(mem, sender_event(m, a)),
    ensures
        play(channel_start(m.capacity), moves.push(mv)) matches Some(d) && mirrors(
            m,
            puts(mem, sender_event(m, a)),
            d,
        ) && d.sender_gone == c.sender_gone && d.receiver_gone == c.receiver_gone,
        sender_part(moves.push(mv)) == sender_part(moves).push(a),
        receiver_part(moves.push(mv)) == receiver_part(moves),
{
    let start = channel_start(m.capacity);
    values_arrive_in_order(m.capacity, moves, c);
    sender_run_extends(m.capacity, sender_part(moves), a);
    sender_access_mirrors(m, mem, c, a);
    let mv = sender_move(c, a);
    play_extends(start, moves, c, mv);
    assert(moves.push(mv).drop_last() =~= moves);
    mv
}

/// That the sender leaves is one more move.
#[verifier::spinoff_prover]
proof fn sender_goes<T>(
    m: &Shared<T>,
    moves: Seq<Move<T>>,
    c: Channel<T>,
    mem: Memory<Box<Option<T>>>,
)
    requires
        m.wf(),
        m.is_laid_out(),
        m.starts_as(channel_start(m.capacity)),
        play(channel_start(m.capacity), moves) == Some(c),
        mirrors(m, mem, c),
        !c.sender_gone,
        sender_run(m.capacity, sender_part(moves)) matches Some(s) && s.phase is Idle,
    ensures
        play(channel_start(m.capacity), moves.push(Move::SenderGoes)) matches Some(d) && mirrors(
            m,
            puts(mem, Event::ReleaseFlag { cell: m.sender_disconnected }),
            d,
        ) && d.sender_gone && d.receiver_gone == c.receiver_gone,
        sender_part(moves.push(Move::SenderGoes)) == sender_part(moves),
        receiver_part(moves.push(Move::SenderGoes)) == receiver_part(moves),
{
    let start = channel_start(m.capacity);
    values_arrive_in_order(m.capacity, moves, c);
    sender_leaving_mirrors(m, mem, c);
    play_extends(start, moves, c, Move::SenderGoes);
    assert(moves.push(Move::SenderGoes).drop_last() =~= moves);
}

/// One more access of the receiver is one more move.
#[verifier::spinoff_prover]
proof fn receiver_goes_on<T>(
    m: &Shared<T>,
    moves: Seq<Move<T>>,
    c: Channel<T>,
    mem: Memory<Box<Option<T>>>,
    a: ReceiverAccess<T>,
) -> (mv: Move<T>)
    requires
        m.wf(),
        m.is_laid_out(),
        m.starts_as(channel_start(m.capacity)),
        play(channel_start(m.capacity), moves) == Some(c),
        mirrors(m, mem, c),
        !c.receiver_gone,
        receiver_run(m.capacity, receiver_part(moves).push(a)) is Some,
        gets(mem, receiver_event(m, a)),
    ensures
        play(channel_start(m.capacity), moves.push(mv)) matches Some(d) && mirrors(
            m,
            puts(mem, receiver_event(m, a)),
            d,
        ) && d.sender_gone == c.sender_gone && d.receiver_gone == c.receiver_gone,
        receiver_part(moves.push(mv)) == receiver_part(moves).push(a),
        sender_part(moves.push(mv)) == sender_part(moves),
{
    let start = channel_start(m.capacity);
    values_arrive_in_order(m.capacity, moves, c);
    receiver_run_extends(m.capacity, receiver_part(moves), a);
    receiver_access_mirrors(m, mem, c, a);
    let mv = receiver_move(c, a);
    play_extends(start, moves, c, mv);
    assert(moves.push(mv).drop_last() =~= moves);
    mv
}

/// That the receiver leaves is one more move.
#[verifier::spinoff_prover]
proof fn receiver_goes<T>(
    m: &Shared<T>,
    moves: Seq<Move<T>>,
    c: Channel<T>,
    mem: Memory<Box<Option<T>>>,
)
    requires
        m.wf(),
        m.is_laid_out(),
        m.starts_as(channel_start(m.capacity)),
        play(channel_start(m.capacity), moves) == Some(c),
        mirrors(m, mem, c),
        !c.receiver_gone,
        receiver_run(m.capacity, receiver_part(moves)) matches Some(s) && s.phase is Idle,
    ensures
        play(channel_start(m.capacity), moves.push(Move::ReceiverGoes)) matches Some(d) && mirrors(
            m,
            puts(mem, Event::RaiseFlag { cell: m.receiver_disconnected }),
            d,
        ) && d.receiver_gone && d.sender_gone == c.sender_gone,
        receiver_part(moves.push(Move::ReceiverGoes)) == receiver_part(moves),
        sender_part(moves.push(Move::ReceiverGoes)) == sender_part(moves),
{
    let start = channel_start(m.capacity);
    values_arrive_in_order(m.capacity, moves, c);
    receiver_leaving_mirrors(m, mem, c);
    play_extends(start, moves, c, Move::ReceiverGoes);
    assert(moves.push(Move::ReceiverGoes).drop_last() =~= moves);
}

/// Whatever the two sides do to the cells, in any order in which each access gets what its cell
/// holds, is a run of the protocol, in which the memory holds what the cells hold.
#[verifier::spinoff_prover]
proof fn cells_follow_the_protocol<T>(
    m: &Shared<T>,
    steps: Seq<Step<Box<Option<T>>>>,
    sent: Seq<SenderAccess<T>>,
    tx_gone: bool,
    taken: Seq<ReceiverAccess<T>>,
    rx_gone: bool,
) -> (moves: Seq<Move<T>>)
    requires
        m.wf(),
        m.is_laid_out(),
        m.starts_as(channel_start(m.capacity)),
        sender_run(m.capacity, sent) is Some,
        receiver_run(m.capacity, taken) is Some,
        tx_gone ==> sender_run(m.capacity, sent)->0.phase is Idle,
        rx_gone ==> receiver_run(m.capacity, taken)->0.phase is Idle,
        part(steps, true) == sender_history(m, sent, tx_gone),
        part(steps, false) == receiver_history(m, taken, rx_gone),
        unfolds(steps) is Some,
    ensures
        play(channel_start(m.capacity), moves) matches Some(c) && mirrors(m, unfolds(steps)->0, c)
            && c.sender_gone == tx_gone && c.receiver_gone == rx_gone,
        sender_part(moves) == sent,
        receiver_part(moves) == taken,
    decreases steps.len(),
{
    let start = channel_start(m.capacity);
    if steps.len() == 0 {
        assert(sender_history(m, sent, tx_gone).len() == 0);
        assert(receiver_history(m, taken, rx_gone).len() == 0);
        assert(sent =~= Seq::empty());
        assert(taken =~= Seq::empty());
        cells_hold_what_they_held_first(m);
        Seq::empty()
    } else {
        let fewer = steps.drop_last();
        let event = steps.last().event;
        let mem = unfolds(fewer)->0;
        if steps.last().sender {
            assert(part(steps, true).drop_last() =~= part(fewer, true));
            assert(part(steps, true).last() == event);
            if tx_gone {
                assert(sender_history(m, sent, true).drop_last() =~= sender_history(
                    m,
                    sent,
                    false,
                ));
                let moves = cells_follow_the_protocol(m, fewer, sent, false, taken, rx_gone);
                let c = play(start, moves)->0;
                sender_goes(m, moves, c, mem);
                moves.push(Move::SenderGoes)
            } else {
                let a = sent.last();
                let before = sent.drop_last();
                assert(sender_history(m, sent, false).drop_last() =~= sender_history(
                    m,
                    before,
                    false,
                ));
                let moves = cells_follow_the_protocol(m, fewer, before, false, taken, rx_gone);
                let c = play(start, moves)->0;
                assert(event == sender_event(m, a));
                assert(before.push(a) =~= sent);
                let mv = sender_goes_on(m, moves, c, mem, a);
                moves.push(mv)
            }
        } else {
            assert(part(steps, false).drop_last() =~= part(fewer, false));
            assert(part(steps, false).last() == event);
            if rx_gone {
                assert(receiver_history(m, taken, true).drop_last() =~= receiver_history(
                    m,
                    taken,
                    false,
                ));
                let moves = cells_follow_the_protocol(m, fewer, sent, tx_gone, taken, false);
                let c = play(start, moves)->0;
                receiver_goes(m, moves, c, mem);
                moves.push(Move::ReceiverGoes)
            } else {
                let a = taken.last();
                let before = taken.drop_last();
                assert(receiver_history(m, taken, false).drop_last() =~= receiver_history(
                    m,
                    before,
                    false,
                ));
                let moves = cells_follow_the_protocol(m, fewer, sent, tx_gone, before, false);
                let c = play(start, moves)->0;
                assert(event == receiver_event(m, a));
                assert(before.push(a) =~= taken);
                let mv = receiver_goes_on(m, moves, c, mem, a);
                moves.push(mv)
            }
        }
    }
}

/// A history is what the log lists, and that the side has left if it has.
proof fn a_history_is_a_log<T>(tx: &Sender<T>, rx: &Receiver<T>)
    ensures
        tx.history(false) == tx.log@,
        tx.history(true) == tx.log@.push(
            Event::ReleaseFlag { cell: tx.shared.m().sender_disconnected },
        ),
        rx.history(false) == rx.log@,
        rx.history(true) == rx.log@.push(
            Event::RaiseFlag { cell: rx.shared.m().receiver_disconnected },
        ),
{
}

/// The two sides of a channel are between calls, unless they have left, and what they have done to
/// the cells came in the order of `steps`, in which each access gets what its cell holds.
pub open spec fn came_about<T>(
    tx: &Sender<T>,
    tx_gone: bool,
    rx: &Receiver<T>,
    rx_gone: bool,
    steps: Seq<Step<Box<Option<T>>>>,
) -> bool {
    &&& tx.wf()
    &&& rx.wf()
    &&& tx@.memory == rx@.memory
    &&& part(steps, true) == tx.history(tx_gone)
    &&& part(steps, false) == rx.history(rx_gone)
    &&& unfolds(steps) is Some
}

/// In whatever order the two sides came to do what they did to the cells, the receiver has taken
/// out of the cells what the sender has put into them: all of it, in the order in which it was
/// sent, up to what still waits, which is never more than `capacity` values.
pub proof fn cells_carry_what_was_sent<T>(
    tx: &Sender<T>,
    tx_gone: bool,
    rx: &Receiver<T>,
    rx_gone: bool,
    steps: Seq<Step<Box<Option<T>>>>,
) -> (r: (Seq<Move<T>>, Channel<T>))
    requires
        came_about(tx, tx_gone, rx, rx_gone, steps),
    ensures
        rx@.received().len() <= tx@.sent().len() <= rx@.received().len() + tx@.capacity,
        rx@.received() == tx@.sent().take(rx@.received().len() as int),
        at_rest(tx, rx, r.0, r.1),
        r.1.sender_gone == tx_gone,
        r.1.receiver_gone == rx_gone,
{
    let moves = came_about_in_moves(tx, tx_gone, rx, rx_gone, steps);
    let c = play(channel_start(tx@.capacity), moves)->0;
    what_was_sent_arrives(tx, rx, moves, c);
    (moves, c)
}

/// To leave is the last that a side does to the cells.
pub proof fn leaving_ends_a_history<T>(
    tx: &Sender<T>,
    tx_left: &Sender<T>,
    rx: &Receiver<T>,
    rx_left: &Receiver<T>,
)
    requires
        tx.recorded(),
        tx_left.has_left(tx),
        rx.recorded(),
        rx_left.has_left(rx),
    ensures
        tx_left.history(false) == tx.history(true),
        rx_left.history(false) == rx.history(true),
        is_release(tx.history(true).last()),
{
}

/// What a side leaves to the channel is what it had.
proof fn what_a_side_had_is_left<T>(
    tx: &Sender<T>,
    tx_left: &Sender<T>,
    rx: &Receiver<T>,
    rx_left: &Receiver<T>,
)
    requires
        tx.recorded(),
        tx_left.has_left(tx),
        rx.recorded(),
        rx_left.has_left(rx),
    ensures
        rx.shared.m().oldest.was_left(rx.index),
{
}

/// When the memory is dropped, its slots are lined up from the one on that the receiver was at when
/// it left, if that is what it left word of.
proof fn slots_line_up<T>(before: &Shared<T>, dropped: &Shared<T>, at: u32)
    requires
        dropped.lines_up(before),
        forall|found: u32| #[trigger] before.oldest.may_give(0, found) ==> found == at,
        at < before.capacity,
        before.slots.len() == before.capacity,
    ensures
        dropped.slots@ == slots_from(before.slots@, at),
{
}

/// Once both sides have left, the cells hold what was sent and not received, in the order in which
/// it was sent, if one goes through them from the one on that the receiver was at: so they are
/// dropped, the oldest value first.
proof fn cells_hold_what_waits_in_order<T>(
    tx: &Sender<T>,
    rx: &Receiver<T>,
    steps: Seq<Step<Box<Option<T>>>>,
)
    requires
        came_about(tx, true, rx, true, steps),
    ensures
        forall|k: int|
            0 <= k < tx@.capacity ==> *unfolds(steps)->0.slot(
                #[trigger] slots_from(tx.shared.m().slots@, rx@.index)[k],
            ) == (if k < tx@.sent().len() - rx@.received().len() {
                Some(tx@.sent()[rx@.received().len() + k])
            } else {
                None
            }),
{
    let m = tx.shared.m();
    let moves = came_about_in_moves(tx, true, rx, true, steps);
    let c = play(channel_start(tx@.capacity), moves)->0;
    what_waits_is_dropped_in_order(tx, rx, moves, c);
    let at = rx@.index as int;
    assert forall|k: int| 0 <= k < tx@.capacity implies *unfolds(steps)->0.slot(
        #[trigger] slots_from(m.slots@, rx@.index)[k],
    ) == slots_from(c.slots, rx@.index)[k] by {
        if at + k < tx@.capacity {
            assert(slots_from(m.slots@, rx@.index)[k] == m.slots[at + k]);
            assert(slots_from(c.slots, rx@.index)[k] == c.slots[at + k]);
        } else {
            assert(slots_from(m.slots@, rx@.index)[k] == m.slots[at + k - tx@.capacity]);
            assert(slots_from(c.slots, rx@.index)[k] == c.slots[at + k - tx@.capacity]);
        }
    }
}

/// What a side announces it releases, and what it learns of the other it acquires.
pub proof fn the_sides_synchronise<T>(tx: &Sender<T>, rx: &Receiver<T>)
    requires
        tx.recorded(),
        rx.recorded(),
    ensures
        tx.history(false).len() == tx@.trace.len(),
        rx.history(false).len() == rx@.trace.len(),
        forall|i: int|
            0 <= i < tx@.trace.len() && #[trigger] tx@.trace[i] is LoadSeq ==> is_acquire(
                tx.history(false)[i],
            ),
        forall|i: int|
            0 <= i < tx@.trace.len() && #[trigger] tx@.trace[i] is StoreSeq ==> is_release(
                tx.history(false)[i],
            ),
        forall|i: int|
            0 <= i < rx@.trace.len() && #[trigger] rx@.trace[i] is LoadSeq ==> is_acquire(
                rx.history(false)[i],
            ),
        forall|i: int|
            0 <= i < rx@.trace.len() && #[trigger] rx@.trace[i] is LoadGone ==> is_acquire(
                rx.history(false)[i],
            ),
        forall|i: int|
            0 <= i < rx@.trace.len() && #[trigger] rx@.trace[i] is StoreSeq ==> is_release(
                rx.history(false)[i],
            ),
{
    a_history_is_a_log(tx, rx);
}

/// A side sees that the other is gone only if that has left, whatever overlaps: no call fails with
/// `Disconnected` before.
pub proof fn only_who_left_is_gone<T>(
    tx: &Sender<T>,
    tx_gone: bool,
    rx: &Receiver<T>,
    rx_gone: bool,
    steps: Seq<Step<Box<Option<T>>>>,
)
    requires
        came_about(tx, tx_gone, rx, rx_gone, steps),
    ensures
        tx@.trace.contains(SenderAccess::<T>::LoadGone(true)) ==> rx_gone,
        rx@.trace.contains(ReceiverAccess::<T>::LoadGone(true)) ==> tx_gone,
{
    let moves = came_about_in_moves(tx, tx_gone, rx, rx_gone, steps);
    let start = channel_start(tx@.capacity);
    gone_is_seen_of_the_gone(start, moves, play(start, moves)->0);
}

/// A call to receive that returned `Disconnected`, which made the receiver what it is out of
/// `before`, did so because the sender has left and all that it sent was received, whatever
/// overlapped.
pub proof fn disconnected_means_all_arrived<T>(
    tx: &Sender<T>,
    tx_gone: bool,
    rx: &Receiver<T>,
    rx_gone: bool,
    steps: Seq<Step<Box<Option<T>>>>,
    before: ReceiverView<T>,
)
    requires
        came_about(tx, tx_gone, rx, rx_gone, steps),
        receives(before, Err(TryRecvError::Disconnected), rx@),
    ensures
        tx_gone,
        rx@.received() == tx@.sent(),
{
    let moves = came_about_in_moves(tx, tx_gone, rx, rx_gone, steps);
    let c = play(channel_start(tx@.capacity), moves)->0;
    values_arrive_in_order(tx@.capacity, moves, c);
    disconnected_stays_drained(tx@.capacity, moves, c);
}

/// What came about is a run of the protocol.
proof fn came_about_in_moves<T>(
    tx: &Sender<T>,
    tx_gone: bool,
    rx: &Receiver<T>,
    rx_gone: bool,
    steps: Seq<Step<Box<Option<T>>>>,
) -> (moves: Seq<Move<T>>)
    requires
        came_about(tx, tx_gone, rx, rx_gone, steps),
    ensures
        play(channel_start(tx@.capacity), moves) matches Some(c) && mirrors(
            tx.shared.m(),
            unfolds(steps)->0,
            c,
        ) && c.sender_gone == tx_gone && c.receiver_gone == rx_gone,
        sender_part(moves) == tx@.trace,
        receiver_part(moves) == rx@.trace,
{
    let m = tx.shared.m();
    assert(m == rx.shared.m());
    a_history_is_a_log(tx, rx);
    cells_follow_the_protocol(m, steps, tx@.trace, tx_gone, rx@.trace, rx_gone)
}

/// The events that made `after` out of `tx` are those of its accesses since.
proof fn what_the_sender_did_since<T>(
    tx: &Sender<T>,
    after: &Sender<T>,
    more: Seq<Event<Box<Option<T>>>>,
)
    requires
        tx.recorded(),
        after.recorded(),
        tx@.memory == after@.memory,
        after.history(false) == tx.history(false) + more,
        after@.trace.len() >= tx@.trace.len(),
    ensures
        more.len() == after@.trace.len() - tx@.trace.len(),
        forall|k: int|
            0 <= k < more.len() ==> #[trigger] more[k] == sender_event(
                tx.shared.m(),
                after@.trace[tx@.trace.len() + k],
            ),
{
    let n = tx@.trace.len() as int;
    assert(tx.history(false).len() == n);
    assert(after.history(false).len() == after@.trace.len());
    assert((tx.history(false) + more).len() == n + more.len());
    assert forall|k: int| 0 <= k < more.len() implies #[trigger] more[k] == sender_event(
        tx.shared.m(),
        after@.trace[n + k],
    ) by {
        assert((tx.history(false) + more)[n + k] == more[k]);
        assert(after.history(false)[n + k] == more[k]);
    }
}

/// The events that made `after` out of `rx` are those of its accesses since.
proof fn what_the_receiver_did_since<T>(
    rx: &Receiver<T>,
    after: &Receiver<T>,
    more: Seq<Event<Box<Option<T>>>>,
)
    requires
        rx.recorded(),
        after.recorded(),
        rx@.memory == after@.memory,
        after.history(false) == rx.history(false) + more,
        after@.trace.len() >= rx@.trace.len(),
    ensures
        more.len() == after@.trace.len() - rx@.trace.len(),
        forall|k: int|
            0 <= k < more.len() ==> #[trigger] more[k] == receiver_event(
                rx.shared.m(),
                after@.trace[rx@.trace.len() + k],
            ),
{
    let n = rx@.trace.len() as int;
    assert(rx.history(false).len() == n);
    assert(after.history(false).len() == after@.trace.len());
    assert((rx.history(false) + more).len() == n + more.len());
    assert forall|k: int| 0 <= k < more.len() implies #[trigger] more[k] == receiver_event(
        rx.shared.m(),
        after@.trace[n + k],
    ) by {
        assert((rx.history(false) + more)[n + k] == more[k]);
        assert(after.history(false)[n + k] == more[k]);
    }
}

/// After whatever the two sides have done to the cells, a call of [`Sender::try_send`] that no call
/// of the receiver overlaps fails with `Disconnected` if and only if the receiver has left, and
/// with `Full` if and only if it has not and `capacity` values wait. `after` is the sender after
/// the call, and `more` what the call did to the cells.
#[verifier::spinoff_prover]
pub proof fn sending_through_the_cells<T>(
    tx: &Sender<T>,
    rx: &Receiver<T>,
    rx_gone: bool,
    steps: Seq<Step<Box<Option<T>>>>,
    val: T,
    r: Result<(), TrySendError<T>>,
    after: &Sender<T>,
    more: Seq<Event<Box<Option<T>>>>,
)
    requires
        came_about(tx, false, rx, rx_gone, steps),
        after.wf(),
        sends(tx@, val, r, after@),
        after.history(false) == tx.history(false) + more,
        unfolds(followed(steps, true, more)) is Some,
    ensures
        r matches Err(TrySendError::Disconnected(_)) <==> rx_gone,
        r matches Err(TrySendError::Full(_)) <==> !rx_gone && tx@.sent().len()
            == rx@.received().len() + tx@.capacity,
        after@.sent() == (if r is Ok {
            tx@.sent().push(val)
        } else {
            tx@.sent()
        }),
        came_about(after, false, rx, rx_gone, followed(steps, true, more)),
{
    let m = tx.shared.m();
    let moves = came_about_in_moves(tx, false, rx, rx_gone, steps);
    let c = play(channel_start(tx@.capacity), moves)->0;
    values_arrive_in_order(tx@.capacity, moves, c);
    sending_is_wait_free(tx@, val, r, after@);
    sending_appends(tx@, val, r, after@);
    what_the_sender_did_since(tx, after, more);
    what_follows_comes_last(steps, true, more);
    what_follows_comes_about(steps, true, more);
    let n = tx@.trace.len() as int;
    assert forall|i: int| n <= i < after@.trace.len() implies sender_sees(
        c,
        #[trigger] after@.trace[i],
    ) by {
        assert(comes_about(steps, true, more, 0));
        if i > n {
            assert(comes_about(steps, true, more, 1));
        }
        if i > n + 1 {
            assert(comes_about(steps, true, more, 2));
        }
        if i > n + 2 {
            assert(comes_about(steps, true, more, 3));
        }
        assert(more[i - n] == sender_event(m, after@.trace[i]));
    }
    sending_alone(tx, rx, moves, c, val, r, after@);
}

/// After whatever the two sides have done to the cells, a call of [`Receiver::try_recv`] that no
/// call of the sender overlaps gives the oldest value that waits; it fails if and only if none
/// waits, with `Disconnected` if the sender has left and with `Empty` if it has not. `after` is the
/// receiver after the call, and `more` what the call did to the cells.
#[verifier::spinoff_prover]
pub proof fn receiving_through_the_cells<T>(
    tx: &Sender<T>,
    tx_gone: bool,
    rx: &Receiver<T>,
    steps: Seq<Step<Box<Option<T>>>>,
    r: Result<T, TryRecvError>,
    after: &Receiver<T>,
    more: Seq<Event<Box<Option<T>>>>,
)
    requires
        came_about(tx, tx_gone, rx, false, steps),
        after.wf(),
        receives(rx@, r, after@),
        after.history(false) == rx.history(false) + more,
        unfolds(followed(steps, false, more)) is Some,
    ensures
        match r {
            Ok(val) => {
                &&& rx@.received().len() < tx@.sent().len()
                &&& val == tx@.sent()[rx@.received().len() as int]
                &&& after@.received() == rx@.received().push(val)
            },
            Err(TryRecvError::Disconnected) => rx@.received() == tx@.sent() && tx_gone,
            Err(TryRecvError::Empty) => rx@.received() == tx@.sent() && !tx_gone,
        },
        came_about(tx, tx_gone, after, false, followed(steps, false, more)),
{
    let m = rx.shared.m();
    let moves = came_about_in_moves(tx, tx_gone, rx, false, steps);
    let c = play(channel_start(tx@.capacity), moves)->0;
    values_arrive_in_order(tx@.capacity, moves, c);
    receiving_is_wait_free(rx@, r, after@);
    receiving_appends(rx@, r, after@);
    what_the_receiver_did_since(rx, after, more);
    what_follows_comes_last(steps, false, more);
    what_follows_comes_about(steps, false, more);
    let n = rx@.trace.len() as int;
    assert forall|i: int| n <= i < after@.trace.len() implies receiver_sees(
        c,
        #[trigger] after@.trace[i],
    ) by {
        assert(comes_about(steps, false, more, 0));
        if i > n {
            assert(comes_about(steps, false, more, 1));
        }
        if i > n + 1 {
            assert(comes_about(steps, false, more, 2));
        }
        if i > n + 2 {
            assert(comes_about(steps, false, more, 3));
        }
        if i > n + 3 {
            assert(comes_about(steps, false, more, 4));
        }
        assert(more[i - n] == receiver_event(m, after@.trace[i]));
    }
    receiving_alone(tx, rx, moves, c, r, after@);
}

/// Looking for room sends nothing.
proof fn checking_sends_nothing<T>(before: SenderView<T>, after: SenderView<T>)
    requires
        after == before.after_check(after.cached_receiver_seq),
    ensures
        after.sent() == before.sent(),
        before.trace.len() <= after.trace.len() <= before.trace.len() + 1,
{
    broadcast use sent_by_extends;

}

/// After whatever the two sides have done to the cells, a call of [`Sender::is_full`] that no call
/// of the receiver overlaps tells whether `capacity` values wait. `after` is the sender after the
/// call, and `more` what the call did to the cells.
#[verifier::spinoff_prover]
pub proof fn checking_through_the_cells<T>(
    tx: &Sender<T>,
    rx: &Receiver<T>,
    rx_gone: bool,
    steps: Seq<Step<Box<Option<T>>>>,
    r: bool,
    after: &Sender<T>,
    more: Seq<Event<Box<Option<T>>>>,
)
    requires
        came_about(tx, false, rx, rx_gone, steps),
        after.wf(),
        after@ == tx@.after_check(after@.cached_receiver_seq),
        r == !after@.room(),
        after.history(false) == tx.history(false) + more,
        unfolds(followed(steps, true, more)) is Some,
    ensures
        r <==> tx@.sent().len() == rx@.received().len() + tx@.capacity,
        after@.sent() == tx@.sent(),
        came_about(after, false, rx, rx_gone, followed(steps, true, more)),
{
    let m = tx.shared.m();
    let moves = came_about_in_moves(tx, false, rx, rx_gone, steps);
    let c = play(channel_start(tx@.capacity), moves)->0;
    values_arrive_in_order(tx@.capacity, moves, c);
    checking_sends_nothing(tx@, after@);
    what_the_sender_did_since(tx, after, more);
    what_follows_comes_last(steps, true, more);
    what_follows_comes_about(steps, true, more);
    let n = tx@.trace.len() as int;
    assert forall|i: int| n <= i < after@.trace.len() implies sender_sees(
        c,
        #[trigger] after@.trace[i],
    ) by {
        assert(comes_about(steps, true, more, 0));
        assert(more[i - n] == sender_event(m, after@.trace[i]));
    }
    checking_alone(tx, rx, moves, c, r, after@);
}

/// After whatever the two sides have done to the cells, [`Sender::is_connected`], with no call of
/// the other side overlapping, answers `true` if and only if the receiver has not left, and changes
/// no cell.
pub proof fn asking_the_cells_for_the_receiver<T>(
    tx: &Sender<T>,
    rx: &Receiver<T>,
    rx_gone: bool,
    steps: Seq<Step<Box<Option<T>>>>,
    connected: bool,
)
    requires
        came_about(tx, false, rx, rx_gone, steps),
        unfolds(followed(steps, true, seq![tx.asking(!connected)])) is Some,
    ensures
        tx@.memory.may_show_receiver_gone(!connected) <==> happened(tx.asking(!connected)),
        unfolds(followed(steps, true, seq![tx.asking(!connected)])) == unfolds(steps),
        connected == !rx_gone,
{
    let moves = came_about_in_moves(tx, false, rx, rx_gone, steps);
    let event = tx.asking(!connected);
    what_follows_comes_about(steps, true, seq![event]);
    assert(comes_about(steps, true, seq![event], 0));
    tx.shared.m().receiver_disconnected.reading_tells::<Box<Option<T>>>(!connected);
}

/// After whatever the two sides have done to the cells, [`Receiver::is_connected`], with no call of
/// the other side overlapping, answers `true` if and only if the sender has not left, and changes
/// no cell.
pub proof fn asking_the_cells_for_the_sender<T>(
    tx: &Sender<T>,
    tx_gone: bool,
    rx: &Receiver<T>,
    steps: Seq<Step<Box<Option<T>>>>,
    connected: bool,
)
    requires
        came_about(tx, tx_gone, rx, false, steps),
        unfolds(followed(steps, false, seq![rx.asking(!connected)])) is Some,
    ensures
        rx@.memory.may_show_sender_gone(!connected) <==> happened(rx.asking(!connected)),
        unfolds(followed(steps, false, seq![rx.asking(!connected)])) == unfolds(steps),
        connected == !tx_gone,
{
    let moves = came_about_in_moves(tx, tx_gone, rx, false, steps);
    let event = rx.asking(!connected);
    what_follows_comes_about(steps, false, seq![event]);
    assert(comes_about(steps, false, seq![event], 0));
    rx.shared.m().sender_disconnected.reading_tells::<Box<Option<T>>>(!connected);
}

/// Construct a bounded queue with the given capacity.
///
/// The capacity must be at least 1 and at most `u32::MAX`.
pub fn channel<T>(capacity: usize) -> (r: (Sender<T>, Receiver<T>))
    requires
        1 <= capacity <= u32::MAX,
    ensures
        r.0.wf(),
        r.1.wf(),
        r.0@ == sender_at_start(capacity as u32, r.0@.memory),
        r.1@ == receiver_at_start(capacity as u32, r.0@.memory),
        r.0@.memory.starts_as(channel_start(capacity as u32)),
{
    let capacity: u32 = capacity as u32;
    let (mut region, tx_log, tx_pass, rx_log, rx_pass) = Region::new();
    let ghost name = region.name();
    let mut slots: Vec<Slot<Box<Option<T>>>> = Vec::new();
    let mut i: u32 = 0;
    while i < capacity
        invariant
            i <= capacity,
            slots.len() == i,
            region.name() == name,
            region.next() == i,
            forall|k: int| 0 <= k < slots.len() ==> (#[trigger] slots[k]).id() == k,
            forall|k: int|
                0 <= k < slots.len() ==> (#[trigger] slots[k]).region() == name,
            forall|k: int| 0 <= k < i ==> *(#[trigger] slots[k]).first() == None::<T>,
        decreases capacity - i,
    {
        slots.push(Slot::new(Box::new(None), &mut region));
        i = i + 1;
    }
    let shared = Arc::new(
        Shared {
            slots,
            sender_seq: Counter::new(0, &mut region),
            receiver_seq: Counter::new(0, &mut region),
            capacity,
            sender_disconnected: Flag::new::<Tx>(&mut region),
            receiver_disconnected: Flag::new::<Rx>(&mut region),
            oldest: Place::new::<Rx>(0, &region),
        },
    );
    let tx = Sender {
        shared: Tie::new(shared.clone(), tx_pass),
        seq: 0,
        index: 0,
        cached_receiver_seq: 0,
        spare: Some(Box::new(None)),
        log: tx_log,
        trace: Ghost(Seq::empty()),
    };
    let rx = Receiver {
        shared: Tie::new(shared, rx_pass),
        seq: 0,
        index: 0,
        cached_sender_seq: 0,
        spare: Some(Box::new(None)),
        log: rx_log,
        trace: Ghost(Seq::empty()),
    };
    assert(tx.log@ =~= sender_events(tx.shared.m(), tx.trace@));
    assert(rx.log@ =~= receiver_events(rx.shared.m(), rx.trace@));
    (tx, rx)
}

} // verus!
