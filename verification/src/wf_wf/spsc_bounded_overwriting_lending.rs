//! A bounded single-producer, single-consumer channel that overwrites old values.
//!
//! The [`Sender`] and [`Receiver`] are wait-free.
//!
//! When the sender publishes a value while the channel is full (because the receiver has not
//! consumed old values), the oldest value is overwritten. This is intended for receivers that
//! intermittently drain the channel. This channel provides no backpressure: only use it if the
//! receiver is likely to keep up when it is actively reading.
//!
//! A receiver that consistently lags behind the sender or is only interested in the latest value
//! may be better served by [`crate::wf_wf::spsc_watch`] or [`crate::wf_wf::spsc_accumulate`].
//!
//! The channel retains ownership of values; the sender and receiver get `&mut T` access to the
//! value of their current slot.
//!
//! # Internal details
//!
//! There are `capacity + 2` slots. One slot is owned by the sender, and one by the receiver. The
//! remaining `capacity` slots sit in a ring buffer of entries. Publishing a value atomically swaps
//! the sender's currently owned slot with the ring buffer. Receiving similarly swaps a slot, with
//! additional bookkeeping to check for lapping.
//!
//! Sequence numbers count published values with 64 bits; an entry holds the lower half of one. The
//! receiver may take a value that is published and not announced yet. It then finds the channel
//! empty until the announcement has reached where it is.
//!
//! Each side keeps the value of the slot it owns at hand, and brings it back to the slot before it
//! gives the slot up. When it is dropped, it leaves its value to the channel, which goes when both
//! sides are gone. Its `trace` records its accesses to shared memory, with what was handed over and
//! what came back; [`crate::protocol::overwrite`] states what follows for the channel as a whole.
//!
//! A slot that changes hands holds a value: [`publishing_stages_a_value`] and
//! [`receiving_keeps_a_value`] say so of every run. A single call cannot know it in advance, so its
//! contract also says what comes of a vacant slot: a side without a value. [`Sender::has_staged`]
//! and [`Receiver::has_current`] tell whether a side has one.

use crate::cell::{boxed, happened, is_acquire, is_release, unboxed, Event, Flag, Slot, Word};
use crate::counter::{distance, period, slot_of, slots_follow_positions};
use crate::protocol::overwrite::{
    a_raced_receiver_keeps_its_value, after, ahead, asking_sees, beyond, bumped, can,
    channel_start, claims_keep_up, disconnected_stays_drained, entry_is_as_new, entry_of,
    every_slot_has_one_owner, fit_to_start, gone_is_seen_of_the_gone, gone_stays_gone, held_by,
    held_by_extends, in_order, lower, oldest_surviving, overwritten, play, play_extends,
    received_by, received_by_extends, receiver_part, receiver_run, receiver_run_extends,
    receiver_step, receiver_then, resume, returned_by, returned_by_extends, sees, sender_part,
    sender_run, sender_run_extends, sender_sees, sender_step, sender_then, sent_by,
    sent_by_extends, shows_at, sides_own_distinct_slots, slot_count, taken_slot,
    the_next_entry_is_overwritten, the_oldest_is_in_its_entry, values_arrive_in_order,
    what_is_published_was_sent, what_is_there_shows, Channel, Move, ReceiverAccess, ReceiverPhase,
    ReceiverState, SenderAccess, SenderPhase, SenderState,
};
use crate::protocol::picks;
use crate::memory::{
    comes_about, followed, gets, midway, part, puts, unfolds, what_follows_comes_about,
    what_follows_comes_last, Memory, Step,
};
use crate::vault::{Leavable, Log, Name, Place, Region, Rx, Tie, Tx};
use std::sync::Arc;
use vstd::prelude::*;

verus! {

/// Errors that can occur when trying to receive a value using [`Receiver::try_recv`].
#[derive(Clone, Copy, Debug, PartialEq, Eq, Structural)]
pub enum TryRecvError {
    /// The channel is empty.
    Empty,
    /// The [`Sender`] has lapped the [`Receiver`], and sent two values while the receiver was
    /// catching up.
    ///
    /// The receiver has bumped itself forwards towards the sender and will not see the values in
    /// between.
    ///
    /// This is unlikely to occur, but can happen in cases where the [`Sender`] is very fast, and
    /// the [`Receiver`] gets stalled during its [`Receiver::try_recv`] call, perhaps due to
    /// preemption.
    Raced,
    /// The channel is empty and the [`Sender`] side of the channel has disconnected.
    Disconnected,
}

/// Helpers to pack and unpack the ring buffer's atomic `(writer_sequence, slot_index)` pairs.
pub struct Entry;

/// The word that holds a `(sequence number, slot)` pair: the sequence number in the upper half, the
/// slot in the lower.
pub open spec fn packed(entry: (u32, u32)) -> u64 {
    (entry.0 * 0x1_0000_0000 + entry.1) as u64
}

/// The `(sequence number, slot)` pair that a word holds.
pub open spec fn unpacked(word: u64) -> (u32, u32) {
    ((word / 0x1_0000_0000) as u32, (word % 0x1_0000_0000) as u32)
}

impl Entry {
    /// Packs a sequence number and a slot into one word.
    pub fn pack(seq: u32, slot: u32) -> (word: u64)
        ensures
            word == packed((seq, slot)),
            word == seq * 0x1_0000_0000 + slot,
    {
        let high: u64 = seq as u64;
        let low: u64 = slot as u64;
        assert((high << 32) | low == high * 0x1_0000_0000 + low) by (bit_vector)
            requires
                high < 0x1_0000_0000,
                low < 0x1_0000_0000,
        ;
        (high << 32) | low
    }

    /// The sequence number and the slot in a word.
    pub fn unpack(word: u64) -> (entry: (u32, u32))
        ensures
            entry == unpacked(word),
            entry.0 == word / 0x1_0000_0000,
            entry.1 == word % 0x1_0000_0000,
    {
        assert((word >> 32) as u32 == word / 0x1_0000_0000) by (bit_vector);
        assert(word as u32 == word % 0x1_0000_0000) by (bit_vector);
        ((word >> 32) as u32, word as u32)
    }
}

/// A word holds the pair that was packed into it, and packing the pair that a word holds gives the
/// word back.
pub proof fn packing_round_trips(entry: (u32, u32), word: u64)
    ensures
        unpacked(packed(entry)) == entry,
        packed(unpacked(word)) == word,
{
    assert((entry.0 * 0x1_0000_0000 + entry.1) / 0x1_0000_0000 == entry.0);
}

/// The lower half of a sequence number.
fn lower_half(seq: u64) -> (r: u32)
    ensures
        r == lower(seq),
{
    assert(seq as u32 == seq % 0x1_0000_0000) by (bit_vector);
    seq as u32
}

/// The entry that a sequence number falls on.
fn entry_index(seq: u64, capacity: u32) -> (r: u32)
    requires
        capacity >= 1,
    ensures
        r == entry_of(capacity, seq),
        r < capacity,
{
    let index: u64 = seq % (capacity as u64);
    index as u32
}

/// The sequence number after the first one from `seq` on whose lower half is `number`.
fn leap(seq: u64, number: u32) -> (r: u64)
    ensures
        r == beyond(seq, number),
{
    let by: u64 = distance(lower_half(seq), number) as u64 + 1;
    seq.wrapping_add(by)
}

/// Where the receiver goes on when it is at `seq` and saw that the entry there holds `number`. If
/// nothing was seen announced for that entry, its last value may just not show yet.
fn bump(capacity: u32, seq: u64, seen: u64, number: u32) -> (r: u64)
    ensures
        r == bumped(capacity, seq, seen, number),
{
    let outdated: u32 = if seen >= capacity as u64 {
        lower_half(seen - capacity as u64)
    } else {
        0
    };
    if seq == seen && number == outdated {
        seq
    } else {
        leap(seq, number)
    }
}

/// The number of slot `i` among the cells of a channel.
spec fn slot_id(capacity: u32, i: int) -> int {
    if i < capacity {
        2 * i
    } else {
        capacity + i
    }
}

/// What both sides of the channel can reach.
#[verifier::reject_recursive_types(T)]
pub struct Shared<T> {
    /// One slot for each entry, one for the receiver, one for the sender.
    slots: Vec<Slot<Option<Box<T>>>>,
    /// The ring buffer of `(sequence number, slot)` pairs.
    entries: Vec<Word>,
    /// Number of values published by the sender.
    sender_seq: Word,
    capacity: u32,
    sender_disconnected: Flag,
    receiver_disconnected: Flag,
    /// The value that the sender had when it left.
    left_by_sender: Place<Option<Box<T>>>,
    /// The value that the receiver had when it left.
    left_by_receiver: Place<Option<Box<T>>>,
}

impl<T> Shared<T> {
    /// The cells of the memory are in `region`, each under its own number.
    spec fn is_in(&self, region: Name) -> bool {
        &&& forall|i: int|
            0 <= i < self.slots.len() ==> (#[trigger] self.slots[i]).region() == region
        &&& forall|i: int|
            0 <= i < self.entries.len() ==> (#[trigger] self.entries[i]).region() == region
        &&& self.sender_seq.region() == region
        &&& self.sender_disconnected.region() == region
        &&& self.receiver_disconnected.region() == region
        &&& self.is_set_up()
    }

    /// Each cell has its own number, and held first what that of a new channel holds.
    #[verifier::opaque]
    spec fn is_set_up(&self) -> bool {
        &&& self.is_numbered()
        &&& self.starts_as(channel_start(self.capacity, self.slots_at_start()))
    }

    /// Each cell has its own number.
    spec fn is_numbered(&self) -> bool {
        &&& forall|i: int|
            0 <= i < self.slots.len() ==> (#[trigger] self.slots[i]).id() == slot_id(
                self.capacity,
                i,
            )
        &&& forall|i: int|
            0 <= i < self.entries.len() ==> (#[trigger] self.entries[i]).id() == 2 * i + 1
        &&& self.sender_seq.id() == 2 * self.capacity + 2
        &&& self.sender_disconnected.id() == 2 * self.capacity + 3
        &&& self.receiver_disconnected.id() == 2 * self.capacity + 4
    }

    /// Who looks whether the receiver has disconnected may see `gone`. Only looking tells.
    pub closed spec fn may_show_receiver_gone(&self, gone: bool) -> bool {
        self.receiver_disconnected.may_read(gone)
    }

    spec fn wf(&self) -> bool {
        &&& 1 <= self.capacity <= u32::MAX - 2
        &&& self.slots.len() == slot_count(self.capacity)
        &&& self.entries.len() == self.capacity
        &&& fit_to_start(self.capacity, self.slots_at_start())
    }

    /// What the slots held first.
    pub closed spec fn slots_at_start(&self) -> Seq<Option<T>> {
        self.slots@.map_values(|slot: Slot<Option<Box<T>>>| unboxed(slot.first()))
    }

    /// What the memory held first is what the memory of `c` holds.
    pub closed spec fn starts_as(&self, c: Channel<T>) -> bool {
        &&& self.capacity == c.sender.capacity
        &&& self.slots_at_start() == c.slots
        &&& self.entries.len() == c.entries.len()
        &&& forall|i: int|
            0 <= i < c.entries.len() ==> (#[trigger] self.entries[i]).first() == packed(
                c.entries[i],
            )
        &&& self.sender_seq.first() == c.tail
        &&& self.sender_disconnected.first() == c.sender_gone
        &&& self.receiver_disconnected.first() == c.receiver_gone
    }
}

impl<T> Leavable for Shared<T> {
    closed spec fn leaves_in(&self, region: Name) -> bool {
        &&& self.sender_disconnected.region() == region
        &&& self.sender_disconnected.is_senders()
        &&& self.receiver_disconnected.region() == region
        &&& !self.receiver_disconnected.is_senders()
        &&& self.left_by_sender.region() == region
        &&& self.left_by_sender.is_senders()
        &&& self.left_by_receiver.region() == region
        &&& !self.left_by_receiver.is_senders()
    }
}

/// What the cells record of an access of the sender.
spec fn sender_event<T>(m: &Shared<T>, a: SenderAccess<T>) -> Event<Option<Box<T>>> {
    match a {
        SenderAccess::FillSlot { slot, val, displaced } => Event::ExchangeSlot {
            cell: m.slots[slot as int],
            given: boxed(Some(val)),
            got: boxed(displaced),
        },
        SenderAccess::SwapEntry { index, given, taken } => Event::SwapWord {
            cell: m.entries[index as int],
            value: packed(given),
            got: packed(taken),
        },
        SenderAccess::StoreSeq(value) => Event::ReleaseWord { cell: m.sender_seq, value },
        SenderAccess::TakeSlot { slot, got } => Event::ExchangeSlot {
            cell: m.slots[slot as int],
            given: None,
            got: boxed(got),
        },
    }
}

/// What the cells record of the accesses of the sender.
spec fn sender_events<T>(m: &Shared<T>, trace: Seq<SenderAccess<T>>) -> Seq<Event<Option<Box<T>>>> {
    trace.map_values(|a: SenderAccess<T>| sender_event(m, a))
}

/// One more access of the sender is one more event.
proof fn sender_events_extend<T>(m: &Shared<T>, trace: Seq<SenderAccess<T>>, a: SenderAccess<T>)
    ensures
        sender_events(m, trace.push(a)) == sender_events(m, trace).push(sender_event(m, a)),
{
    assert(sender_events(m, trace.push(a)) =~= sender_events(m, trace).push(sender_event(m, a)));
}

/// What the cells record of an access of the receiver.
spec fn receiver_event<T>(m: &Shared<T>, a: ReceiverAccess<T>) -> Event<Option<Box<T>>> {
    match a {
        ReceiverAccess::LoadSeq(got) => Event::AcquireWord { cell: m.sender_seq, got },
        ReceiverAccess::LoadGone(got) => Event::AcquireFlag { cell: m.sender_disconnected, got },
        ReceiverAccess::FillSlot { slot, val, displaced } => Event::ExchangeSlot {
            cell: m.slots[slot as int],
            given: boxed(Some(val)),
            got: boxed(displaced),
        },
        ReceiverAccess::TakeSlot { slot, got } => Event::ExchangeSlot {
            cell: m.slots[slot as int],
            given: None,
            got: boxed(got),
        },
        ReceiverAccess::LoadEntry { index, entry } => Event::ReadWord {
            cell: m.entries[index as int],
            got: packed(entry),
        },
        ReceiverAccess::ClaimEntry { index, expect, given, acquire, found, done } => {
            Event::ReplaceWord {
                cell: m.entries[index as int],
                expect: packed(expect),
                value: packed(given),
                acquire,
                got: packed(found),
                done,
            }
        },
    }
}

/// What the cells record of the accesses of the receiver.
spec fn receiver_events<T>(m: &Shared<T>, trace: Seq<ReceiverAccess<T>>) -> Seq<
    Event<Option<Box<T>>>,
> {
    trace.map_values(|a: ReceiverAccess<T>| receiver_event(m, a))
}

/// One more access of the receiver is one more event.
proof fn receiver_events_extend<T>(
    m: &Shared<T>,
    trace: Seq<ReceiverAccess<T>>,
    a: ReceiverAccess<T>,
)
    ensures
        receiver_events(m, trace.push(a)) == receiver_events(m, trace).push(receiver_event(m, a)),
{
    assert(receiver_events(m, trace.push(a)) =~= receiver_events(m, trace).push(
        receiver_event(m, a),
    ));
}

/// The sender side of the channel.
#[verifier::reject_recursive_types(T)]
pub struct Sender<T> {
    shared: Tie<Shared<T>, Tx>,
    /// The slot currently owned by the sender.
    slot: u32,
    /// The current sender sequence. Entries hold its lower half.
    seq: u64,
    /// The value of the sender's slot.
    staged: Option<Box<T>>,
    /// What the sender has done to the cells so far.
    log: Log<Option<Box<T>>>,
    /// The accesses of the sender to shared memory so far.
    trace: Ghost<Seq<SenderAccess<T>>>,
    /// What the slots held at the start.
    initial: Ghost<Seq<T>>,
}

/// The receiver side of the channel.
#[verifier::reject_recursive_types(T)]
pub struct Receiver<T> {
    shared: Tie<Shared<T>, Rx>,
    /// The slot currently owned by the receiver.
    slot: u32,
    /// The current receiver sequence. Entries hold its lower half.
    seq: u64,
    /// The sender sequence that the receiver last saw announced.
    seen: u64,
    /// The value of the receiver's slot.
    current: Option<Box<T>>,
    /// What the receiver has done to the cells so far.
    log: Log<Option<Box<T>>>,
    /// The accesses of the receiver to shared memory so far.
    trace: Ghost<Seq<ReceiverAccess<T>>>,
    /// What the slots held at the start.
    initial: Ghost<Seq<T>>,
}

/// The sender as the contracts see it.
#[verifier::ext_equal]
#[verifier::reject_recursive_types(T)]
pub struct SenderView<T> {
    pub capacity: u32,
    pub seq: u64,
    pub slot: u32,
    /// The staged value. `wf` says that there is one.
    pub staged: Option<T>,
    pub trace: Seq<SenderAccess<T>>,
    pub memory: Shared<T>,
    pub initial: Seq<T>,
}

impl<T> SenderView<T> {
    /// The values that were sent so far, in order.
    pub open spec fn sent(self) -> Seq<T> {
        sent_by(self.trace)
    }

    /// The sender with `val` as its staged value.
    pub open spec fn staging(self, val: T) -> Self {
        SenderView { staged: Some(val), ..self }
    }
}

/// The receiver as the contracts see it.
#[verifier::ext_equal]
#[verifier::reject_recursive_types(T)]
pub struct ReceiverView<T> {
    pub capacity: u32,
    pub seq: u64,
    pub seen: u64,
    pub slot: u32,
    /// The current value. `wf` says that there is one.
    pub current: Option<T>,
    pub trace: Seq<ReceiverAccess<T>>,
    pub memory: Shared<T>,
    pub initial: Seq<T>,
}

/// The sender after it has published its staged value: `displaced` lay in the slot it gave up,
/// `taken` was in the entry, and `staged` in the slot it got.
pub open spec fn after_publish<T>(
    v: SenderView<T>,
    displaced: Option<T>,
    taken: (u32, u32),
    staged: Option<T>,
) -> SenderView<T> {
    let slot = taken_slot(v.capacity, taken.1, v.slot);
    let seq = ahead(v.seq, 1);
    SenderView {
        seq,
        slot,
        staged,
        trace: v.trace.push(
            SenderAccess::FillSlot { slot: v.slot, val: v.staged->0, displaced },
        ).push(
            SenderAccess::SwapEntry {
                index: entry_of(v.capacity, v.seq),
                given: (lower(v.seq), v.slot),
                taken,
            },
        ).push(SenderAccess::StoreSeq(seq)).push(
            SenderAccess::TakeSlot { slot, got: staged },
        ),
        ..v
    }
}

/// Publishing can turn `before` into `after`.
pub open spec fn publishes<T>(before: SenderView<T>, after: SenderView<T>) -> bool {
    exists|displaced: Option<T>, taken: (u32, u32)|
        after == #[trigger] after_publish(before, displaced, taken, after.staged)
}

/// Publishing makes four accesses to shared memory, whatever the receiver does.
pub proof fn publishing_is_wait_free<T>(before: SenderView<T>, after: SenderView<T>)
    requires
        publishes(before, after),
    ensures
        after.trace.len() == before.trace.len() + 4,
        after.trace.take(before.trace.len() as int) == before.trace,
{
    assert(after.trace.take(before.trace.len() as int) =~= before.trace);
}

impl<T> Sender<T> {
    /// The sender as the contracts see it.
    pub closed spec fn view(&self) -> SenderView<T> {
        SenderView {
            capacity: self.shared.m().capacity,
            seq: self.seq,
            slot: self.slot,
            staged: unboxed(self.staged),
            trace: self.trace@,
            memory: *self.shared.m(),
            initial: self.initial@,
        }
    }

    /// The channel has the slots and entries that its capacity calls for.
    pub closed spec fn sized(&self) -> bool {
        self.shared.m().wf()
    }

    /// The sender has followed the protocol, is not in the middle of publishing, and has a staged
    /// value.
    pub open spec fn wf(&self) -> bool {
        &&& self.in_phase(SenderPhase::Idle)
        &&& self@.staged is Some
    }

    /// The sender, which was `before`, has left its value to the channel and announced that it is
    /// gone.
    pub closed spec fn has_left(&self, before: &Self) -> bool {
        before.shared.is_tied() ==> {
            &&& before.shared.m().left_by_sender.was_left(before.staged)
            &&& self.log@ == before.log@.push(
                Event::ReleaseFlag { cell: before.shared.m().sender_disconnected },
            )
        }
    }

    /// Everything that the sender has done to the cells, and that it has left if `gone` says so.
    pub closed spec fn history(&self, gone: bool) -> Seq<Event<Option<Box<T>>>> {
        if gone {
            self.log@.push(Event::ReleaseFlag { cell: self.shared.m().sender_disconnected })
        } else {
            self.log@
        }
    }

    /// What [`is_connected`](Self::is_connected) does to the cells when it sees `gone`.
    pub closed spec fn asking(&self, gone: bool) -> Event<Option<Box<T>>> {
        Event::ReadFlag { cell: self.shared.m().receiver_disconnected, got: gone }
    }

    /// The accesses of the trace were made: the cells have recorded them.
    pub closed spec fn recorded(&self) -> bool {
        &&& self.log@ == sender_events(self.shared.m(), self.trace@)
        &&& self.shared.m().is_in(self.log.region())
        &&& self.shared.is_tied()
    }

    /// The sender's accesses were made, and have brought it to where it is.
    pub open spec fn in_phase(&self, phase: SenderPhase) -> bool {
        &&& self.recorded()
        &&& sender_run(self@.capacity, self@.trace) == Some(
            SenderState {
                capacity: self@.capacity,
                seq: self@.seq,
                slot: self@.slot,
                phase,
            },
        )
        &&& self@.slot < slot_count(self@.capacity)
        &&& self.sized()
    }

    /// Puts the staged value into the sender's slot.
    fn fill_slot(&mut self) -> (displaced: Ghost<Option<T>>)
        requires
            old(self).recorded(),
            old(self).sized(),
            old(self)@.slot < slot_count(old(self)@.capacity),
            old(self)@.staged is Some,
        ensures
            final(self).shared == old(self).shared,
            final(self)@ == (SenderView {
                staged: None,
                trace: old(self)@.trace.push(
                    SenderAccess::FillSlot {
                        slot: old(self)@.slot,
                        val: old(self)@.staged->0,
                        displaced: displaced@,
                    },
                ),
                ..old(self)@
            }),
            final(self)@.sent() == old(self)@.sent().push(old(self)@.staged->0),
            final(self).recorded(),
            sender_run(final(self)@.capacity, final(self)@.trace) == sender_then(
                sender_run(old(self)@.capacity, old(self)@.trace),
                final(self)@.trace.last(),
            ),
    {
        broadcast use sent_by_extends;

        let val = self.staged.take();
        let found = self.shared.m().slots[self.slot as usize].exchange(val, &mut self.log);
        proof {
            let a = SenderAccess::FillSlot {
                slot: self.slot,
                val: unboxed(val)->0,
                displaced: unboxed(found),
            };
            sender_run_extends(self.shared.m().capacity, self.trace@, a);
            sender_events_extend(self.shared.m(), self.trace@, a);
            self.trace@ = self.trace@.push(a);
        }
        Ghost(unboxed(found))
    }

    /// Takes what is in the sender's slot out of it.
    fn take_slot(&mut self)
        requires
            old(self).recorded(),
            old(self).sized(),
            old(self)@.slot < slot_count(old(self)@.capacity),
        ensures
            final(self).shared == old(self).shared,
            final(self)@ == (SenderView {
                staged: final(self)@.staged,
                trace: old(self)@.trace.push(
                    SenderAccess::TakeSlot { slot: old(self)@.slot, got: final(self)@.staged },
                ),
                ..old(self)@
            }),
            final(self)@.sent() == old(self)@.sent(),
            final(self).recorded(),
            sender_run(final(self)@.capacity, final(self)@.trace) == sender_then(
                sender_run(old(self)@.capacity, old(self)@.trace),
                final(self)@.trace.last(),
            ),
    {
        broadcast use sent_by_extends;

        let got = self.shared.m().slots[self.slot as usize].exchange(None, &mut self.log);
        self.staged = got;
        proof {
            let a = SenderAccess::TakeSlot { slot: self.slot, got: unboxed(got) };
            sender_run_extends(self.shared.m().capacity, self.trace@, a);
            sender_events_extend(self.shared.m(), self.trace@, a);
            self.trace@ = self.trace@.push(a);
        }
    }

    /// Swaps the sender's slot, under its sequence number, with what is in the entry that the
    /// number falls on. Returns the pair that was there.
    fn swap_entry(&mut self) -> (taken: (u32, u32))
        requires
            old(self).recorded(),
            old(self).sized(),
        ensures
            final(self).shared == old(self).shared,
            final(self)@ == (SenderView {
                trace: old(self)@.trace.push(
                    SenderAccess::SwapEntry {
                        index: entry_of(old(self)@.capacity, old(self)@.seq),
                        given: (lower(old(self)@.seq), old(self)@.slot),
                        taken,
                    },
                ),
                ..old(self)@
            }),
            final(self)@.sent() == old(self)@.sent(),
            final(self).recorded(),
            sender_run(final(self)@.capacity, final(self)@.trace) == sender_then(
                sender_run(old(self)@.capacity, old(self)@.trace),
                final(self)@.trace.last(),
            ),
    {
        broadcast use sent_by_extends;

        let write_idx: u32 = entry_index(self.seq, self.shared.m().capacity);
        let number: u32 = lower_half(self.seq);
        // The sequence number in the entry lets the receiver find out whether it has been raced
        // between checking how far behind it is and reading the slot.
        let word: u64 = self.shared.m().entries[write_idx as usize].swap(
            Entry::pack(number, self.slot),
            &mut self.log,
        );
        let taken = Entry::unpack(word);
        proof {
            packing_round_trips(taken, word);
            let a = SenderAccess::SwapEntry {
                index: write_idx,
                given: (number, self.slot),
                taken,
            };
            sender_run_extends(self.shared.m().capacity, self.trace@, a);
            sender_events_extend(self.shared.m(), self.trace@, a);
            self.trace@ = self.trace@.push(a);
        }
        taken
    }

    /// Announces the sender's sequence number. `Release` ordering lets a receiver that reads it
    /// with `Acquire` see what was published before.
    fn store_seq(&mut self)
        requires
            old(self).recorded(),
        ensures
            final(self).shared == old(self).shared,
            final(self)@ == (SenderView {
                trace: old(self)@.trace.push(SenderAccess::StoreSeq(old(self)@.seq)),
                ..old(self)@
            }),
            final(self)@.sent() == old(self)@.sent(),
            final(self).recorded(),
            sender_run(final(self)@.capacity, final(self)@.trace) == sender_then(
                sender_run(old(self)@.capacity, old(self)@.trace),
                final(self)@.trace.last(),
            ),
    {
        broadcast use sent_by_extends;

        self.shared.m().sender_seq.release(self.seq, &mut self.log);
        proof {
            let a = SenderAccess::StoreSeq(self.seq);
            sender_run_extends(self.shared.m().capacity, self.trace@, a);
            sender_events_extend(self.shared.m(), self.trace@, a);
            self.trace@ = self.trace@.push(a);
        }
    }

    /// Get the sender's staged value.
    pub fn get(&self) -> (r: &T)
        requires
            self.wf(),
        ensures
            Some(*r) == self@.staged,
    {
        self.staged.as_ref().unwrap()
    }

    /// Get the sender's staged value mutably.
    ///
    /// Use [`publish`](Self::publish) to publish the staged value.
    pub fn get_mut(&mut self) -> (r: &mut T)
        requires
            old(self).wf(),
        ensures
            Some(*r) == old(self)@.staged,
            final(self)@ == old(self)@.staging(*final(r)),
            final(self).wf(),
    {
        self.staged.as_mut().unwrap()
    }

    /// Publish the staged value into the channel.
    ///
    /// The sender's new staged value is an old value from the channel.
    pub fn publish(&mut self)
        requires
            old(self).wf(),
        ensures
            final(self).in_phase(SenderPhase::Idle),
            final(self)@.staged is Some ==> final(self).wf(),
            publishes(old(self)@, final(self)@),
            final(self)@.sent() == old(self)@.sent().push(old(self)@.staged->0),
    {
        let displaced = self.fill_slot();
        let taken = self.swap_entry();
        if taken.1 < self.shared.m().capacity + 2 {
            self.slot = taken.1;
        }
        self.seq = self.seq.wrapping_add(1);
        self.store_seq();
        self.take_slot();
        assert(self@ == after_publish(old(self)@, displaced@, taken, self@.staged));
    }

    /// Returns `true` if there is a staged value. A sender of a new channel has one, and
    /// [`publishing_stages_a_value`] says when it gets one in exchange for what it publishes.
    pub fn has_staged(&self) -> (r: bool)
        ensures
            r == (self@.staged is Some),
    {
        self.staged.is_some()
    }

    /// Replace the staged value and publish it. Returns the previously staged value.
    ///
    /// This is equivalent to replacing the value from [`Self::get_mut`] followed by
    /// [`Self::publish`].
    pub fn send(&mut self, val: T) -> (old_val: T)
        requires
            old(self).wf(),
        ensures
            final(self).in_phase(SenderPhase::Idle),
            final(self)@.staged is Some ==> final(self).wf(),
            Some(old_val) == old(self)@.staged,
            publishes(old(self)@.staging(val), final(self)@),
            final(self)@.sent() == old(self)@.sent().push(val),
    {
        let mut old_val = val;
        std::mem::swap(self.get_mut(), &mut old_val);
        assert(self@ == old(self)@.staging(val));
        self.publish();
        old_val
    }

    /// Returns `true` if the receiver is still alive. The other side decides when that ends.
    pub fn is_connected(&self) -> (r: bool)
        ensures
            self@.memory.may_show_receiver_gone(!r),
    {
        !self.shared.m().receiver_disconnected.peek()
    }
}

impl<T> Drop for Sender<T> {
    fn drop(&mut self)
        ensures
            final(self).has_left(old(self)),
        opens_invariants none
        no_unwind
    {
        if let Some(pass) = self.shared.part() {
            let mut last = None;
            std::mem::swap(&mut last, &mut self.staged);
            let (_found, pass) = self.shared.m().left_by_sender.leave(last, pass);
            self.shared.m().sender_disconnected.release(pass, &mut self.log);
        }
    }
}

/// What the receiver finds out when it looks for something new.
pub enum Polled {
    /// The sender has announced `n` values, which is nothing new, and the sender is there.
    Empty { n: u64 },
    /// The sender has announced `n` values, which is nothing new; the sender is gone, and `last`,
    /// which is all that it has announced, is nothing new either.
    Disconnected { n: u64, last: u64 },
    /// The sender has announced `n` values.
    News { n: u64 },
    /// The sender has announced `n` values, which is nothing new, but once the sender was seen to
    /// be gone, `last` showed.
    LateNews { n: u64, last: u64 },
}

/// What becomes of an attempt to claim the entry at the receiver's sequence number.
pub enum Attempt {
    /// The entry was seen to hold another sequence number.
    Overwritten { entry: (u32, u32) },
    /// The entry was seen to hold `slot`, and was replaced.
    Won { slot: u32, found: (u32, u32) },
    /// The entry was seen to hold `slot`, and held `found` when it was to be replaced.
    Lost { slot: u32, found: (u32, u32) },
}

/// `p` is something that the receiver can find out: what is new goes beyond where it is.
pub open spec fn can_poll<T>(v: ReceiverView<T>, p: Polled) -> bool {
    match p {
        Polled::Empty { n } => n <= v.seq,
        Polled::Disconnected { n, last } => n <= v.seq && last <= v.seq,
        Polled::News { n } => v.seq < n,
        Polled::LateNews { n, last } => n <= v.seq < last,
    }
}

/// The receiver after it has looked for something new.
pub open spec fn after_poll<T>(v: ReceiverView<T>, p: Polled) -> ReceiverView<T> {
    match p {
        Polled::Empty { n } => v.after_look(n).after_gone(false),
        Polled::Disconnected { n, last } => v.after_look(n).after_gone(true).after_look(last),
        Polled::News { n } => v.after_look(n),
        Polled::LateNews { n, last } => v.after_look(n).after_gone(true).after_look(last),
    }
}

/// `a` is something that can become of an attempt.
pub open spec fn can_attempt<T>(v: ReceiverView<T>, a: Attempt) -> bool {
    match a {
        Attempt::Overwritten { entry } => entry.0 != lower(v.seq),
        _ => true,
    }
}

/// The receiver's accesses after an attempt. `acquire` says whether it acquires the entry.
pub open spec fn attempt_trace<T>(v: ReceiverView<T>, a: Attempt, acquire: bool) -> Seq<
    ReceiverAccess<T>,
> {
    let index = entry_of(v.capacity, v.seq);
    match a {
        Attempt::Overwritten { entry } => v.trace.push(
            ReceiverAccess::LoadEntry { index, entry },
        ),
        Attempt::Won { slot, found } => v.trace.push(
            ReceiverAccess::LoadEntry { index, entry: (lower(v.seq), slot) },
        ).push(
            ReceiverAccess::ClaimEntry {
                index,
                expect: (lower(v.seq), slot),
                given: (lower(v.seq), v.slot),
                acquire,
                found,
                done: true,
            },
        ),
        Attempt::Lost { slot, found } => v.trace.push(
            ReceiverAccess::LoadEntry { index, entry: (lower(v.seq), slot) },
        ).push(
            ReceiverAccess::ClaimEntry {
                index,
                expect: (lower(v.seq), slot),
                given: (lower(v.seq), v.slot),
                acquire,
                found,
                done: false,
            },
        ),
    }
}

/// The receiver after its first attempt. It goes on to the next entry either way.
pub open spec fn after_first<T>(v: ReceiverView<T>, a: Attempt) -> ReceiverView<T> {
    ReceiverView {
        seq: ahead(v.seq, 1),
        slot: match a {
            Attempt::Won { slot, found } => taken_slot(v.capacity, slot, v.slot),
            _ => v.slot,
        },
        trace: attempt_trace(v, a, false),
        ..v
    }
}

/// The receiver after its second attempt. If that fails, it goes on behind what is in the entry.
pub open spec fn after_second<T>(v: ReceiverView<T>, a: Attempt) -> ReceiverView<T> {
    ReceiverView {
        seq: match a {
            Attempt::Overwritten { entry } => bumped(v.capacity, v.seq, v.seen, entry.0),
            Attempt::Won { slot, found } => ahead(v.seq, 1),
            Attempt::Lost { slot, found } => beyond(v.seq, found.0),
        },
        slot: match a {
            Attempt::Won { slot, found } => taken_slot(v.capacity, slot, v.slot),
            _ => v.slot,
        },
        trace: attempt_trace(v, a, true),
        ..v
    }
}

/// The receiver after its attempts: the first, and if that fails, the second.
pub open spec fn after_attempts<T>(
    v: ReceiverView<T>,
    first: Attempt,
    second: Attempt,
) -> ReceiverView<T> {
    if first is Won {
        after_first(v, first)
    } else {
        after_second(after_first(v, first), second)
    }
}

/// The attempts can go like that.
pub open spec fn can_go<T>(v: ReceiverView<T>, first: Attempt, second: Attempt) -> bool {
    &&& can_attempt(v, first)
    &&& can_attempt(after_first(v, first), second)
}

/// One of the attempts won.
pub open spec fn won(first: Attempt, second: Attempt) -> bool {
    first is Won || second is Won
}

impl<T> ReceiverView<T> {
    /// The values that were received so far, in order.
    pub open spec fn received(self) -> Seq<T> {
        received_by(self.capacity, self.trace)
    }

    /// The values that were given up for them, in order.
    pub open spec fn returned(self) -> Seq<T> {
        returned_by(self.trace)
    }

    /// The receiver with `val` as its current value.
    pub open spec fn holding(self, val: T) -> Self {
        ReceiverView { current: Some(val), ..self }
    }

    /// The receiver after it has seen that `n` values are announced. If there is something new, and
    /// it was lapped, it moves to the oldest entry.
    pub open spec fn after_look(self, n: u64) -> Self {
        ReceiverView {
            seq: if n <= self.seq {
                self.seq
            } else {
                resume(self.capacity, self.seq, n)
            },
            seen: n,
            trace: self.trace.push(ReceiverAccess::LoadSeq(n)),
            ..self
        }
    }

    /// The receiver after it has read whether the sender is gone.
    pub open spec fn after_gone(self, gone: bool) -> Self {
        ReceiverView { trace: self.trace.push(ReceiverAccess::LoadGone(gone)), ..self }
    }

    /// The receiver after it has put its current value into its slot, where `displaced` was.
    pub open spec fn after_fill(self, displaced: Option<T>) -> Self {
        ReceiverView {
            current: None,
            trace: self.trace.push(
                ReceiverAccess::FillSlot { slot: self.slot, val: self.current->0, displaced },
            ),
            ..self
        }
    }

    /// The receiver after it has taken `got` out of its slot.
    pub open spec fn after_take(self, got: Option<T>) -> Self {
        ReceiverView {
            current: got,
            trace: self.trace.push(ReceiverAccess::TakeSlot { slot: self.slot, got }),
            ..self
        }
    }
}

/// The receiver after it has found news and tried to claim an entry. `displaced` lay in the slot
/// that it brought its current value to, and `current` in the slot it owns in the end.
pub open spec fn after_receive<T>(
    v: ReceiverView<T>,
    displaced: Option<T>,
    first: Attempt,
    second: Attempt,
    current: Option<T>,
) -> ReceiverView<T> {
    after_attempts(v.after_fill(displaced), first, second).after_take(current)
}

/// Trying to claim an entry can turn `polled` into `after`. `claimed` says whether one was claimed.
pub open spec fn tries<T>(polled: ReceiverView<T>, claimed: bool, after: ReceiverView<T>) -> bool {
    exists|displaced: Option<T>, first: Attempt, second: Attempt|
        {
            &&& can_go(polled.after_fill(displaced), first, second)
            &&& after == #[trigger] after_receive(polled, displaced, first, second, after.current)
            &&& claimed == won(first, second)
        }
}

/// A call to receive that found out `p` can turn `before` into `after`, with result `r`.
pub open spec fn comes_to<T>(
    before: ReceiverView<T>,
    p: Polled,
    r: Result<(), TryRecvError>,
    after: ReceiverView<T>,
) -> bool {
    let polled = after_poll(before, p);
    match p {
        Polled::Empty { n } => r == Err::<(), TryRecvError>(TryRecvError::Empty) && after == polled,
        Polled::Disconnected { n, last } => r == Err::<(), TryRecvError>(TryRecvError::Disconnected)
            && after == polled,
        _ => match r {
            Ok(()) => tries(polled, true, after) && after.current is Some,
            Err(TryRecvError::Empty) => tries(polled, true, after) && after.current is None,
            Err(TryRecvError::Raced) => tries(polled, false, after),
            Err(TryRecvError::Disconnected) => false,
        },
    }
}

/// A call to receive can turn `before` into `after`, with result `r`. It finds the channel empty
/// also if the slot that it has claimed is vacant.
pub open spec fn receives<T>(
    before: ReceiverView<T>,
    r: Result<(), TryRecvError>,
    after: ReceiverView<T>,
) -> bool {
    exists|p: Polled| can_poll(before, p) && #[trigger] comes_to(before, p, r, after)
}

/// A call to receive makes at most nine accesses to shared memory, whatever the sender does.
pub proof fn receiving_is_wait_free<T>(
    before: ReceiverView<T>,
    r: Result<(), TryRecvError>,
    after: ReceiverView<T>,
)
    requires
        receives(before, r, after),
    ensures
        before.trace.len() < after.trace.len() <= before.trace.len() + 9,
        after.trace.take(before.trace.len() as int) == before.trace,
{
    assert(after.trace.take(before.trace.len() as int) =~= before.trace);
}

/// What was given up is what it was, with the value that was current before at the end if a new one
/// was received.
pub proof fn receiving_gives_up<T>(
    before: ReceiverView<T>,
    r: Result<(), TryRecvError>,
    after: ReceiverView<T>,
)
    requires
        receives(before, r, after),
    ensures
        r is Ok ==> after.returned() == before.returned().push(before.current->0),
        r is Err && !(r == Err::<(), TryRecvError>(TryRecvError::Empty) && after.current is None)
            ==> after.returned() == before.returned(),
{
    broadcast use {held_by_extends, returned_by_extends};

    let p = choose|p: Polled| can_poll(before, p) && #[trigger] comes_to(before, p, r, after);
    let polled = after_poll(before, p);
    assert(polled.returned() == before.returned());
    if p is News || p is LateNews {
        let claimed = r is Ok || r == Err::<(), TryRecvError>(TryRecvError::Empty);
        let (displaced, first, second) = choose|
            displaced: Option<T>,
            first: Attempt,
            second: Attempt,
        |
            {
                &&& can_go(polled.after_fill(displaced), first, second)
                &&& after == #[trigger] after_receive(
                    polled,
                    displaced,
                    first,
                    second,
                    after.current,
                )
                &&& claimed == won(first, second)
            };
        let parked = polled.after_fill(displaced);
        attempt_gives_up(parked, first, false);
        if !(first is Won) {
            attempt_gives_up(after_first(parked, first), second, true);
        }
    }
}

/// What an attempt adds to what was given up.
proof fn attempt_gives_up<T>(v: ReceiverView<T>, a: Attempt, acquire: bool)
    ensures
        held_by(attempt_trace(v, a, acquire)) == held_by(v.trace),
        returned_by(attempt_trace(v, a, acquire)) == (if a is Won {
            returned_by(v.trace).push(held_by(v.trace)->0)
        } else {
            returned_by(v.trace)
        }),
{
    broadcast use {held_by_extends, returned_by_extends};

}

impl<T> Receiver<T> {
    /// The receiver as the contracts see it.
    pub closed spec fn view(&self) -> ReceiverView<T> {
        ReceiverView {
            capacity: self.shared.m().capacity,
            seq: self.seq,
            seen: self.seen,
            slot: self.slot,
            current: unboxed(self.current),
            trace: self.trace@,
            memory: *self.shared.m(),
            initial: self.initial@,
        }
    }

    /// The channel has the slots and entries that its capacity calls for.
    pub closed spec fn sized(&self) -> bool {
        self.shared.m().wf()
    }

    /// The receiver has followed the protocol, is not in the middle of receiving, and has a current
    /// value.
    pub open spec fn wf(&self) -> bool {
        &&& self.in_phase(ReceiverPhase::Idle)
        &&& self@.current is Some
    }

    /// The receiver, which was `before`, has left its value to the channel and announced that it is
    /// gone.
    pub closed spec fn has_left(&self, before: &Self) -> bool {
        before.shared.is_tied() ==> {
            &&& before.shared.m().left_by_receiver.was_left(before.current)
            &&& self.log@ == before.log@.push(
                Event::RaiseFlag { cell: before.shared.m().receiver_disconnected },
            )
        }
    }

    /// Everything that the receiver has done to the cells, and that it has left if `gone` says so.
    pub closed spec fn history(&self, gone: bool) -> Seq<Event<Option<Box<T>>>> {
        if gone {
            self.log@.push(Event::RaiseFlag { cell: self.shared.m().receiver_disconnected })
        } else {
            self.log@
        }
    }

    /// The accesses of the trace were made: the cells have recorded them.
    pub closed spec fn recorded(&self) -> bool {
        &&& self.log@ == receiver_events(self.shared.m(), self.trace@)
        &&& self.shared.m().is_in(self.log.region())
        &&& self.shared.is_tied()
    }

    /// The receiver's accesses were made, and have brought it to where it is.
    pub open spec fn in_phase(&self, phase: ReceiverPhase) -> bool {
        &&& self.recorded()
        &&& receiver_run(self@.capacity, self@.trace) == Some(
            ReceiverState {
                capacity: self@.capacity,
                seq: self@.seq,
                seen: self@.seen,
                slot: self@.slot,
                phase,
            },
        )
        &&& self@.slot < slot_count(self@.capacity)
        &&& self.sized()
    }

    /// Reads how many values the sender has announced, and returns whether there is something new.
    /// If there is, moves to the oldest entry in case the sender has lapped the receiver. `Acquire`
    /// ordering makes what was announced visible.
    ///
    /// The receiver may be ahead of what is announced, when it has received a value that the sender
    /// has published and not announced yet.
    fn look(&mut self) -> (news: bool)
        requires
            old(self).recorded(),
            old(self).sized(),
        ensures
            final(self).shared == old(self).shared,
            final(self).sized(),
            final(self)@ == old(self)@.after_look(final(self)@.seen),
            news == (old(self)@.seq < final(self)@.seen),
            final(self)@.received() == old(self)@.received(),
            final(self).recorded(),
            receiver_run(final(self)@.capacity, final(self)@.trace) == receiver_then(
                receiver_run(old(self)@.capacity, old(self)@.trace),
                ReceiverAccess::<T>::LoadSeq(final(self)@.seen),
            ),
    {
        broadcast use received_by_extends;

        self.seen = self.shared.m().sender_seq.acquire(&mut self.log);
        proof {
            let a = ReceiverAccess::LoadSeq(self.seen);
            receiver_run_extends(self.shared.m().capacity, self.trace@, a);
            receiver_events_extend(self.shared.m(), self.trace@, a);
            self.trace@ = self.trace@.push(a);
        }
        let capacity: u64 = self.shared.m().capacity as u64;
        if self.seen <= self.seq {
            return false;
        }
        if self.seen - self.seq > capacity {
            self.seq = self.seen - capacity;
        }
        true
    }

    /// Reads whether the sender has disconnected. If it has, all that it announced is visible.
    fn load_gone(&mut self) -> (gone: bool)
        requires
            old(self).recorded(),
        ensures
            final(self).shared == old(self).shared,
            final(self)@ == old(self)@.after_gone(gone),
            final(self)@.received() == old(self)@.received(),
            final(self).recorded(),
            receiver_run(final(self)@.capacity, final(self)@.trace) == receiver_then(
                receiver_run(old(self)@.capacity, old(self)@.trace),
                final(self)@.trace.last(),
            ),
    {
        broadcast use received_by_extends;

        let gone = self.shared.m().sender_disconnected.acquire(&mut self.log);
        proof {
            let a = ReceiverAccess::LoadGone(gone);
            receiver_run_extends(self.shared.m().capacity, self.trace@, a);
            receiver_events_extend(self.shared.m(), self.trace@, a);
            self.trace@ = self.trace@.push(a);
        }
        gone
    }

    /// Puts the current value into the receiver's slot.
    fn fill_slot(&mut self) -> (displaced: Ghost<Option<T>>)
        requires
            old(self).recorded(),
            old(self).sized(),
            old(self)@.slot < slot_count(old(self)@.capacity),
            old(self)@.current is Some,
        ensures
            final(self).shared == old(self).shared,
            final(self)@ == old(self)@.after_fill(displaced@),
            final(self)@.received() == old(self)@.received(),
            final(self).recorded(),
            receiver_run(final(self)@.capacity, final(self)@.trace) == receiver_then(
                receiver_run(old(self)@.capacity, old(self)@.trace),
                final(self)@.trace.last(),
            ),
    {
        broadcast use received_by_extends;

        let val = self.current.take();
        let found = self.shared.m().slots[self.slot as usize].exchange(val, &mut self.log);
        proof {
            let a = ReceiverAccess::FillSlot {
                slot: self.slot,
                val: unboxed(val)->0,
                displaced: unboxed(found),
            };
            receiver_run_extends(self.shared.m().capacity, self.trace@, a);
            receiver_events_extend(self.shared.m(), self.trace@, a);
            self.trace@ = self.trace@.push(a);
        }
        Ghost(unboxed(found))
    }

    /// Takes what is in the receiver's slot out of it.
    fn take_slot(&mut self)
        requires
            old(self).recorded(),
            old(self).sized(),
            old(self)@.slot < slot_count(old(self)@.capacity),
        ensures
            final(self).shared == old(self).shared,
            final(self)@ == old(self)@.after_take(final(self)@.current),
            receiver_run(old(self)@.capacity, old(self)@.trace) matches Some(s) ==> {
                final(self)@.received() == (match final(self)@.current {
                    Some(val) => if s.phase is Claimed {
                        old(self)@.received().push(val)
                    } else {
                        old(self)@.received()
                    },
                    None => old(self)@.received(),
                })
            },
            final(self).recorded(),
            receiver_run(final(self)@.capacity, final(self)@.trace) == receiver_then(
                receiver_run(old(self)@.capacity, old(self)@.trace),
                final(self)@.trace.last(),
            ),
    {
        broadcast use received_by_extends;

        let got = self.shared.m().slots[self.slot as usize].exchange(None, &mut self.log);
        self.current = got;
        proof {
            let a = ReceiverAccess::TakeSlot { slot: self.slot, got: unboxed(got) };
            receiver_run_extends(self.shared.m().capacity, self.trace@, a);
            receiver_events_extend(self.shared.m(), self.trace@, a);
            self.trace@ = self.trace@.push(a);
        }
    }

    /// Reads the entry that the receiver's sequence number falls on.
    fn load_entry(&mut self) -> (entry: (u32, u32))
        requires
            old(self).recorded(),
            old(self).sized(),
        ensures
            final(self).shared == old(self).shared,
            final(self)@ == (ReceiverView {
                trace: old(self)@.trace.push(
                    ReceiverAccess::LoadEntry {
                        index: entry_of(old(self)@.capacity, old(self)@.seq),
                        entry,
                    },
                ),
                ..old(self)@
            }),
            final(self)@.received() == old(self)@.received(),
            final(self).recorded(),
            receiver_run(final(self)@.capacity, final(self)@.trace) == receiver_then(
                receiver_run(old(self)@.capacity, old(self)@.trace),
                final(self)@.trace.last(),
            ),
    {
        broadcast use received_by_extends;

        let index: u32 = entry_index(self.seq, self.shared.m().capacity);
        let word: u64 = self.shared.m().entries[index as usize].read(&mut self.log);
        let entry = Entry::unpack(word);
        proof {
            packing_round_trips(entry, word);
            let a = ReceiverAccess::LoadEntry { index, entry };
            receiver_run_extends(self.shared.m().capacity, self.trace@, a);
            receiver_events_extend(self.shared.m(), self.trace@, a);
            self.trace@ = self.trace@.push(a);
        }
        entry
    }

    /// Replaces the slot in the entry that the receiver's sequence number falls on by the
    /// receiver's, if the entry is still `(seq, seen)`. Returns whether it did, and what was there.
    ///
    /// What the slot held when its sequence number was announced is visible. Where the number was
    /// not announced to the receiver, the entry itself has to be acquired.
    fn claim_entry(&mut self, seen: u32, acquire: bool) -> (r: (bool, (u32, u32)))
        requires
            old(self).recorded(),
            old(self).sized(),
        ensures
            final(self).shared == old(self).shared,
            final(self)@ == (ReceiverView {
                trace: old(self)@.trace.push(
                    ReceiverAccess::ClaimEntry {
                        index: entry_of(old(self)@.capacity, old(self)@.seq),
                        expect: (lower(old(self)@.seq), seen),
                        given: (lower(old(self)@.seq), old(self)@.slot),
                        acquire,
                        found: r.1,
                        done: r.0,
                    },
                ),
                ..old(self)@
            }),
            final(self)@.received() == old(self)@.received(),
            final(self).recorded(),
            receiver_run(final(self)@.capacity, final(self)@.trace) == receiver_then(
                receiver_run(old(self)@.capacity, old(self)@.trace),
                final(self)@.trace.last(),
            ),
    {
        broadcast use received_by_extends;

        let index: u32 = entry_index(self.seq, self.shared.m().capacity);
        let number: u32 = lower_half(self.seq);
        let expect: u64 = Entry::pack(number, seen);
        let given: u64 = Entry::pack(number, self.slot);
        let (done, word) = self.shared.m().entries[index as usize].replace(
            expect,
            given,
            acquire,
            &mut self.log,
        );
        let found = Entry::unpack(word);
        proof {
            packing_round_trips(found, word);
            let a = ReceiverAccess::ClaimEntry {
                index,
                expect: (number, seen),
                given: (number, self.slot),
                acquire,
                found,
                done,
            };
            receiver_run_extends(self.shared.m().capacity, self.trace@, a);
            receiver_events_extend(self.shared.m(), self.trace@, a);
            self.trace@ = self.trace@.push(a);
        }
        (done, found)
    }

    /// Takes over the slot that an entry held.
    fn take_over(&mut self, slot: u32)
        requires
            old(self).recorded(),
            old(self).sized(),
        ensures
            final(self).shared == old(self).shared,
            final(self)@ == (ReceiverView {
                slot: taken_slot(old(self)@.capacity, slot, old(self)@.slot),
                ..old(self)@
            }),
            final(self).recorded(),
    {
        if slot < self.shared.m().capacity + 2 {
            self.slot = slot;
        }
    }

    /// Looks for something new.
    #[verifier::spinoff_prover]
    #[verifier::rlimit(60)]
    fn poll(&mut self) -> (r: Result<(), TryRecvError>)
        requires
            old(self).wf(),
        ensures
            final(self).shared == old(self).shared,
            final(self).sized(),
            final(self)@.received() == old(self)@.received(),
            exists|p: Polled|
                {
                    &&& can_poll(old(self)@, p)
                    &&& final(self)@ == #[trigger] after_poll(old(self)@, p)
                    &&& match r {
                        Ok(()) => p is News || p is LateNews,
                        Err(TryRecvError::Empty) => p is Empty,
                        Err(TryRecvError::Disconnected) => p is Disconnected,
                        Err(TryRecvError::Raced) => false,
                    }
                },
            final(self).in_phase(
                if r is Ok {
                    ReceiverPhase::Due
                } else {
                    ReceiverPhase::Idle
                },
            ),
    {
        if self.look() {
            proof {
                let p = Polled::News { n: self.seen };
                assert(self@ == after_poll(old(self)@, p));
            }
            return Ok(());
        }
        let ghost n = self.seen;
        // The sender's disconnect may not show at once; that is benign.
        if !self.load_gone() {
            proof {
                let p = Polled::Empty { n };
                assert(self@ == after_poll(old(self)@, p));
            }
            return Err(TryRecvError::Empty);
        }
        // With the disconnect acquired, the latest sequence number shows, so that the channel is
        // not reported to be disconnected before it is drained.
        if self.look() {
            proof {
                let p = Polled::LateNews { n, last: self.seen };
                assert(self@ == after_poll(old(self)@, p));
            }
            Ok(())
        } else {
            proof {
                let p = Polled::Disconnected { n, last: self.seen };
                assert(self@ == after_poll(old(self)@, p));
            }
            Err(TryRecvError::Disconnected)
        }
    }

    /// Tries to claim the entry at the receiver's sequence number, and goes on to the next.
    #[verifier::spinoff_prover]
    #[verifier::rlimit(40)]
    fn attempt_first(&mut self) -> (a: Attempt)
        requires
            old(self).in_phase(ReceiverPhase::First),
        ensures
            final(self).shared == old(self).shared,
            final(self).sized(),
            final(self)@.received() == old(self)@.received(),
            can_attempt(old(self)@, a),
            final(self)@ == after_first(old(self)@, a),
            final(self).in_phase(
                if a is Won {
                    ReceiverPhase::Claimed
                } else {
                    ReceiverPhase::Second
                },
            ),
    {
        let entry = self.load_entry();
        if entry.0 != lower_half(self.seq) {
            self.seq = self.seq.wrapping_add(1);
            return Attempt::Overwritten { entry };
        }
        let (done, found) = self.claim_entry(entry.1, false);
        if done {
            self.take_over(entry.1);
        }
        self.seq = self.seq.wrapping_add(1);
        if done {
            Attempt::Won { slot: entry.1, found }
        } else {
            Attempt::Lost { slot: entry.1, found }
        }
    }

    /// Tries to claim the entry at the receiver's sequence number once more, and if that fails,
    /// goes on behind what is in the entry.
    #[verifier::spinoff_prover]
    #[verifier::rlimit(40)]
    fn attempt_second(&mut self) -> (a: Attempt)
        requires
            old(self).in_phase(ReceiverPhase::Second),
        ensures
            final(self).shared == old(self).shared,
            final(self).sized(),
            final(self)@.received() == old(self)@.received(),
            can_attempt(old(self)@, a),
            final(self)@ == after_second(old(self)@, a),
            final(self).in_phase(
                if a is Won {
                    ReceiverPhase::Claimed
                } else {
                    ReceiverPhase::Missed
                },
            ),
    {
        let entry = self.load_entry();
        if entry.0 != lower_half(self.seq) {
            self.seq = bump(self.shared.m().capacity, self.seq, self.seen, entry.0);
            return Attempt::Overwritten { entry };
        }
        let (done, found) = self.claim_entry(entry.1, true);
        if done {
            self.take_over(entry.1);
            self.seq = self.seq.wrapping_add(1);
            Attempt::Won { slot: entry.1, found }
        } else {
            self.seq = leap(self.seq, found.0);
            Attempt::Lost { slot: entry.1, found }
        }
    }

    /// Tries to claim the entry at the receiver's sequence number, and if the sender has
    /// overwritten it meanwhile, the next one. Returns whether one of them was claimed.
    fn claim(&mut self) -> (claimed: bool)
        requires
            old(self).in_phase(ReceiverPhase::First),
        ensures
            final(self).shared == old(self).shared,
            final(self).sized(),
            final(self)@.received() == old(self)@.received(),
            final(self).in_phase(
                if claimed {
                    ReceiverPhase::Claimed
                } else {
                    ReceiverPhase::Missed
                },
            ),
            exists|first: Attempt, second: Attempt|
                {
                    &&& can_go(old(self)@, first, second)
                    &&& final(self)@ == #[trigger] after_attempts(old(self)@, first, second)
                    &&& claimed == won(first, second)
                },
    {
        let first = self.attempt_first();
        if let Attempt::Won { slot, found } = first {
            proof {
                let second = Attempt::Lost { slot, found };
                assert(self@ == after_attempts(old(self)@, first, second));
                assert(can_go(old(self)@, first, second));
            }
            return true;
        }
        // The sender has raced the receiver. Immediately try the next entry.
        let second = self.attempt_second();
        assert(self@ == after_attempts(old(self)@, first, second));
        assert(can_go(old(self)@, first, second));
        matches!(second, Attempt::Won { slot: _, found: _ })
    }

    /// Receives a new value into `current`.
    #[verifier::spinoff_prover]
    #[verifier::rlimit(60)]
    fn receive(&mut self) -> (r: Result<(), TryRecvError>)
        requires
            old(self).wf(),
        ensures
            final(self).in_phase(ReceiverPhase::Idle),
            final(self)@.current is Some ==> final(self).wf(),
            receives(old(self)@, r, final(self)@),
            r is Ok ==> final(self)@.received() == old(self)@.received().push(
                final(self)@.current->0,
            ) && final(self)@.returned() == old(self)@.returned().push(old(self)@.current->0),
            r is Err ==> final(self)@.received() == old(self)@.received(),
    {
        match self.poll() {
            Ok(()) => {},
            Err(e) => {
                proof {
                    let p = choose|p: Polled|
                        {
                            &&& can_poll(old(self)@, p)
                            &&& self@ == #[trigger] after_poll(old(self)@, p)
                            &&& match e {
                                TryRecvError::Empty => p is Empty,
                                TryRecvError::Disconnected => p is Disconnected,
                                TryRecvError::Raced => false,
                            }
                        };
                    assert(comes_to(old(self)@, p, Err(e), self@));
                }
                return Err(e);
            },
        }
        let ghost polled = self@;
        let displaced = self.fill_slot();
        let ghost parked = self@;
        let claimed = self.claim();
        let ghost tried = self@;
        self.take_slot();
        let r = if !claimed {
            Err(TryRecvError::Raced)
        } else if self.current.is_some() {
            Ok(())
        } else {
            Err(TryRecvError::Empty)
        };
        proof {
            let p = choose|p: Polled|
                {
                    &&& can_poll(old(self)@, p)
                    &&& polled == #[trigger] after_poll(old(self)@, p)
                    &&& p is News || p is LateNews
                };
            let (first, second) = choose|first: Attempt, second: Attempt|
                {
                    &&& can_go(parked, first, second)
                    &&& tried == #[trigger] after_attempts(parked, first, second)
                    &&& claimed == won(first, second)
                };
            assert(self@ == after_receive(
                after_poll(old(self)@, p),
                displaced@,
                first,
                second,
                self@.current,
            ));
            assert(tries(after_poll(old(self)@, p), claimed, self@));
            assert(comes_to(old(self)@, p, r, self@));
            assert(receives(old(self)@, r, self@));
            receiving_gives_up(old(self)@, r, self@);
        }
        r
    }

    /// Get the receiver's current value.
    pub fn get(&self) -> (r: &T)
        requires
            self.wf(),
        ensures
            Some(*r) == self@.current,
    {
        self.current.as_ref().unwrap()
    }

    /// Get the receiver's current value mutably.
    ///
    /// If you want to take ownership of the value, consider using [`core::mem::take`] or
    /// using `Option<T>` with [`Option::take`].
    pub fn get_mut(&mut self) -> (r: &mut T)
        requires
            old(self).wf(),
        ensures
            Some(*r) == old(self)@.current,
            final(self)@ == old(self)@.holding(*final(r)),
            final(self).wf(),
    {
        self.current.as_mut().unwrap()
    }

    /// Try receiving a new value from the channel.
    ///
    /// Returns `Ok(val)` if a new value was received, [`TryRecvError::Empty`] if no new value is
    /// available, or [`TryRecvError::Disconnected`] if the sender has been dropped and all values
    /// have been drained.
    ///
    /// If the [`Sender`] has lapped the receiver (published more than `capacity` values since the
    /// last read), intermediate values are skipped and the oldest surviving value is received. In
    /// the unlikely event the sender races the receiver twice during this process, producing
    /// values faster than the tight compare-and-swap operations of the receiver, the receiver
    /// gives up and bumps itself forward to the sender's current position, skipping all
    /// intermediate values. A [`TryRecvError::Raced`] error is returned in this case.
    pub fn try_recv(&mut self) -> (r: Result<&mut T, TryRecvError>)
        requires
            old(self).wf(),
        ensures
            final(self).in_phase(ReceiverPhase::Idle),
            final(self)@.current is Some ==> final(self).wf(),
            match r {
                Ok(val) => exists|mid: ReceiverView<T>|
                    {
                        &&& #[trigger] receives(old(self)@, Ok(()), mid)
                        &&& mid.received() == old(self)@.received().push(mid.current->0)
                        &&& mid.returned() == old(self)@.returned().push(old(self)@.current->0)
                        &&& Some(*val) == mid.current
                        &&& final(self)@ == mid.holding(*final(val))
                    },
                Err(e) => {
                    &&& receives(old(self)@, Err(e), final(self)@)
                    &&& final(self)@.received() == old(self)@.received()
                },
            },
    {
        let r = self.receive();
        match r {
            Ok(unit) => {
                assert(unit == ());
                assert(receives(old(self)@, Ok(()), self@));
                Ok(self.get_mut())
            },
            Err(e) => Err(e),
        }
    }

    /// Returns `true` if there is a current value. A receiver of a new channel has one, and
    /// [`receiving_keeps_a_value`] says when it keeps having one.
    pub fn has_current(&self) -> (r: bool)
        ensures
            r == (self@.current is Some),
    {
        self.current.is_some()
    }
}

impl<T> Drop for Receiver<T> {
    fn drop(&mut self)
        ensures
            final(self).has_left(old(self)),
        opens_invariants none
        no_unwind
    {
        if let Some(pass) = self.shared.part() {
            let mut last = None;
            std::mem::swap(&mut last, &mut self.current);
            let (_found, pass) = self.shared.m().left_by_receiver.leave(last, pass);
            self.shared.m().receiver_disconnected.raise(pass, &mut self.log);
        }
    }
}

/// The sender of a new channel made with the values of `initial`.
pub open spec fn sender_at_start<T>(
    capacity: u32,
    memory: Shared<T>,
    initial: Seq<T>,
) -> SenderView<T> {
    SenderView {
        capacity,
        seq: 0,
        slot: (capacity + 1) as u32,
        staged: Some(initial[capacity + 1]),
        trace: Seq::empty(),
        memory,
        initial,
    }
}

/// The receiver of a new channel made with the values of `initial`.
pub open spec fn receiver_at_start<T>(
    capacity: u32,
    memory: Shared<T>,
    initial: Seq<T>,
) -> ReceiverView<T> {
    ReceiverView {
        capacity,
        seq: 0,
        seen: 0,
        slot: capacity,
        current: Some(initial[capacity as int]),
        trace: Seq::empty(),
        memory,
        initial,
    }
}

/// The slots of a new channel made with the values of `initial`: those of the entries hold the
/// first `capacity` of them, and the two sides have the values of theirs at hand.
pub open spec fn slots_with<T>(capacity: u32, initial: Seq<T>) -> Seq<Option<T>> {
    Seq::new(
        (capacity + 2) as nat,
        |i: int|
            if i < capacity {
                Some(initial[i])
            } else {
                None
            },
    )
}

/// Whatever the two sides of a channel have done so far, and however that interleaved, what was
/// received is some of what was sent, in order and each value at most once: whenever no more than
/// 2^32 values are published, and otherwise as long as the sender does not get that far ahead of a
/// receiver that is about to claim a value.
pub proof fn what_was_sent_arrives<T>(
    tx: &Sender<T>,
    rx: &Receiver<T>,
    moves: Seq<Move<T>>,
    end: Channel<T>,
)
    requires
        tx.wf(),
        rx.wf(),
        tx@.memory == rx@.memory,
        play(channel_start(tx@.capacity, tx@.memory.slots_at_start()), moves) == Some(end),
        sender_part(moves) == tx@.trace,
        receiver_part(moves) == rx@.trace,
        end.published <= u64::MAX,
        end.published <= period() || claims_keep_up(
            channel_start(tx@.capacity, tx@.memory.slots_at_start()),
            moves,
        ),
    ensures
        picks(end.claimed.take(rx@.received().len() as int), tx@.sent(), rx@.received()),
        end.sender.seq == tx@.seq,
        end.sender.slot == tx@.slot,
        end.receiver.seq == rx@.seq,
        end.receiver.slot == rx@.slot,
        in_order(end),
{
    values_arrive_in_order(tx@.capacity, tx@.memory.slots_at_start(), moves, end);
}

/// The two sides of a channel are between calls, and their accesses so far have brought the channel
/// to state `c`.
pub open spec fn at_rest<T>(
    tx: &Sender<T>,
    rx: &Receiver<T>,
    moves: Seq<Move<T>>,
    c: Channel<T>,
) -> bool {
    let start = channel_start(tx@.capacity, tx@.memory.slots_at_start());
    &&& tx.wf()
    &&& rx.wf()
    &&& tx@.memory == rx@.memory
    &&& play(start, moves) == Some(c)
    &&& sender_part(moves) == tx@.trace
    &&& receiver_part(moves) == rx@.trace
    &&& c.published <= u64::MAX
    &&& c.published <= period() || claims_keep_up(start, moves)
}

/// In every run, [`Sender::publish`] finds a value in the slot that it takes over: the sender has a
/// staged value again.
pub proof fn publishing_stages_a_value<T>(
    tx: &Sender<T>,
    before: SenderView<T>,
    moves: Seq<Move<T>>,
    end: Channel<T>,
)
    requires
        tx.in_phase(SenderPhase::Idle),
        publishes(before, tx@),
        play(channel_start(tx@.capacity, tx@.memory.slots_at_start()), moves) == Some(end),
        sender_part(moves) == tx@.trace,
    ensures
        tx@.staged is Some,
        tx.wf(),
{
    every_slot_has_one_owner(tx@.capacity, tx@.memory.slots_at_start(), moves, end);
    assert(tx@.trace.last() == SenderAccess::TakeSlot { slot: tx@.slot, got: tx@.staged });
    assert(tx@.trace[tx@.trace.len() - 1] matches SenderAccess::TakeSlot { slot, got }
        ==> got is Some);
}

/// In every run, [`Receiver::try_recv`] finds a value in the slot that it takes over: the receiver
/// has a current value whatever it answers, and an `Empty` says that nothing new was announced.
pub proof fn receiving_keeps_a_value<T>(
    rx: &Receiver<T>,
    before: ReceiverView<T>,
    r: Result<(), TryRecvError>,
    moves: Seq<Move<T>>,
    end: Channel<T>,
)
    requires
        rx.in_phase(ReceiverPhase::Idle),
        before.current is Some,
        receives(before, r, rx@),
        play(channel_start(rx@.capacity, rx@.memory.slots_at_start()), moves) == Some(end),
        receiver_part(moves) == rx@.trace,
    ensures
        rx@.current is Some,
        rx.wf(),
        r == Err::<(), TryRecvError>(TryRecvError::Empty) ==> rx@.current == before.current
            && rx@.seen <= before.seq,
{
    every_slot_has_one_owner(rx@.capacity, rx@.memory.slots_at_start(), moves, end);
    let p = choose|p: Polled| can_poll(before, p) && #[trigger] comes_to(before, p, r, rx@);
    if p is News || p is LateNews {
        assert(rx@.trace.last() == ReceiverAccess::TakeSlot { slot: rx@.slot, got: rx@.current });
        assert(rx@.trace[rx@.trace.len() - 1] matches ReceiverAccess::TakeSlot { slot, got }
            ==> got is Some);
    }
}

/// When no call of the receiver overlaps, and the sender sees what the memory holds, what
/// [`Sender::publish`] stages is what was in the entry that it overwrites: the value that was sent
/// `capacity` values ago, if the receiver has not received that; else what the receiver gave up for
/// it, as the receiver left it; and what the channel was made with, if the channel was never full.
#[verifier::spinoff_prover]
pub proof fn publishing_alone<T>(
    tx: &Sender<T>,
    rx: &Receiver<T>,
    moves: Seq<Move<T>>,
    c: Channel<T>,
    after: SenderView<T>,
)
    requires
        at_rest(tx, rx, moves, c),
        publishes(tx@, after),
        forall|i: int|
            tx@.trace.len() <= i < after.trace.len() ==> sender_sees(c, #[trigger] after.trace[i]),
    ensures
        after.staged == overwritten(c),
        after.staged is Some,
        c.published == tx@.sent().len(),
        c.sent == tx@.sent(),
        c.returned == rx@.returned(),
        c.first == tx@.memory.slots_at_start(),
        picks(c.claimed, tx@.sent(), rx@.received()),
{
    what_was_sent_arrives(tx, rx, moves, c);
    values_arrive_in_order(tx@.capacity, tx@.memory.slots_at_start(), moves, c);
    every_slot_has_one_owner(tx@.capacity, tx@.memory.slots_at_start(), moves, c);
    the_next_entry_is_overwritten(c);
    let k = tx@.trace.len() as int;
    assert(sender_sees(c, after.trace[k + 1]));
    assert(sender_sees(c, after.trace[k + 3]));
    let e = entry_of(tx@.capacity, tx@.seq) as int;
    assert(0 <= e < tx@.capacity) by {
        slots_follow_positions(tx@.seq as nat, tx@.capacity as nat);
    }
    assert(c.slots[c.entries[e].1 as int] is Some);
    assert(c.claimed.take(rx@.received().len() as int) =~= c.claimed);
}

/// `moves`, and then all that the receiver `before` did to become `after`, if it saw something new
/// announced and claimed the first entry that it tried.
pub open spec fn then_receive<T>(
    moves: Seq<Move<T>>,
    before: ReceiverView<T>,
    after: ReceiverView<T>,
) -> Seq<Move<T>> {
    let k = before.trace.len() as int;
    moves.push(Move::Receiver(after.trace[k])).push(Move::Receiver(after.trace[k + 1])).push(
        Move::Receiver(after.trace[k + 2]),
    ).push(Move::Receiver(after.trace[k + 3])).push(Move::Receiver(after.trace[k + 4]))
}

/// When no call of the sender overlaps, and the receiver sees what the memory holds,
/// [`Receiver::try_recv`] gives the oldest surviving value that it has neither received nor
/// skipped, and goes on after it; it fails if and only if there is none, with `Disconnected` if the
/// sender is gone and with `Empty` if it is not. If it fails, the current value is what it was.
#[verifier::spinoff_prover]
#[verifier::rlimit(60)]
pub proof fn receiving_alone<T>(
    tx: &Sender<T>,
    rx: &Receiver<T>,
    moves: Seq<Move<T>>,
    c: Channel<T>,
    r: Result<(), TryRecvError>,
    after: ReceiverView<T>,
)
    requires
        at_rest(tx, rx, moves, c),
        receives(rx@, r, after),
        forall|i: int|
            rx@.trace.len() <= i < after.trace.len() && i < rx@.trace.len() + 5 ==> sees(
                c,
                #[trigger] after.trace[i],
            ),
    ensures
        rx@.seq <= tx@.sent().len(),
        match r {
            Ok(()) => {
                let n = oldest_surviving(tx@.capacity, rx@.seq, tx@.sent().len());
                &&& rx@.seq < tx@.sent().len()
                &&& after.current == Some(tx@.sent()[n as int])
                &&& after.seq == n + 1
            },
            Err(TryRecvError::Disconnected) => rx@.seq == tx@.sent().len() && c.sender_gone
                && after.current == rx@.current,
            Err(TryRecvError::Empty) => rx@.seq == tx@.sent().len() && !c.sender_gone
                && after.current == rx@.current,
            Err(TryRecvError::Raced) => false,
        },
{
    what_was_sent_arrives(tx, rx, moves, c);
    values_arrive_in_order(tx@.capacity, tx@.memory.slots_at_start(), moves, c);
    let k = rx@.trace.len() as int;
    let p = choose|p: Polled| can_poll(rx@, p) && #[trigger] comes_to(rx@, p, r, after);
    assert(sees(c, after.trace[k]));
    if after.trace.len() > k + 1 {
        assert(sees(c, after.trace[k + 1]));
    }
    if after.trace.len() > k + 2 {
        assert(sees(c, after.trace[k + 2]));
    }
    match p {
        Polled::News { n } => {
            seen_news_is_claimed(tx, rx, moves, c, n, r, after);
        },
        _ => {},
    }
}

/// A receiver that sees what the memory holds, and that something new is announced, claims the
/// oldest surviving value at the first attempt.
#[verifier::spinoff_prover]
#[verifier::rlimit(60)]
proof fn seen_news_is_claimed<T>(
    tx: &Sender<T>,
    rx: &Receiver<T>,
    moves: Seq<Move<T>>,
    c: Channel<T>,
    n: u64,
    r: Result<(), TryRecvError>,
    after: ReceiverView<T>,
) -> (claim: (Option<T>, Attempt))
    requires
        at_rest(tx, rx, moves, c),
        rx@.seq < n,
        comes_to(rx@, Polled::News { n }, r, after),
        forall|i: int|
            rx@.trace.len() <= i < after.trace.len() && i < rx@.trace.len() + 5 ==> sees(
                c,
                #[trigger] after.trace[i],
            ),
    ensures
        ({
            let at = oldest_surviving(tx@.capacity, rx@.seq, tx@.sent().len());
            &&& n == tx@.sent().len()
            &&& r is Ok
            &&& after.current == Some(tx@.sent()[at as int])
            &&& after.seq == at + 1
            &&& claim.1 is Won
            &&& after == after_first(rx@.after_look(n).after_fill(claim.0), claim.1).after_take(
                after.current,
            )
        }),
{
    what_was_sent_arrives(tx, rx, moves, c);
    values_arrive_in_order(tx@.capacity, tx@.memory.slots_at_start(), moves, c);
    let k = rx@.trace.len() as int;
    let p = Polled::News { n };
    assert(sees(c, after.trace[k]));
    the_oldest_is_in_its_entry(c);
    let polled = after_poll(rx@, p);
    let claimed = !(r == Err::<(), TryRecvError>(TryRecvError::Raced));
    assert(tries(polled, claimed, after));
    let (displaced, first, second) = choose|displaced: Option<T>, first: Attempt, second: Attempt|
        {
            &&& can_go(polled.after_fill(displaced), first, second)
            &&& after == #[trigger] after_receive(polled, displaced, first, second, after.current)
            &&& claimed == won(first, second)
        };
    let parked = polled.after_fill(displaced);
    let tried = after_first(parked, first);
    assert(tried.trace[k + 2] == after.trace[k + 2]);
    assert(sees(c, after.trace[k + 2]));
    assert(!(first is Overwritten));
    assert(tried.trace[k + 3] == after.trace[k + 3]);
    assert(sees(c, after.trace[k + 3]));
    assert(first is Won);
    assert(after == tried.after_take(after.current));
    assert(sees(c, after.trace[k + 4]));
    (displaced, first)
}

/// When no call of the sender overlaps, and the receiver sees what the memory holds, the entry that
/// [`Receiver::try_recv`] received a value from then holds the value that was current before, as
/// the receiver left it.
#[verifier::spinoff_prover]
#[verifier::rlimit(80)]
pub proof fn receiving_leaves_the_old_value<T>(
    tx: &Sender<T>,
    rx: &Receiver<T>,
    moves: Seq<Move<T>>,
    c: Channel<T>,
    after: ReceiverView<T>,
) -> (d: Channel<T>)
    requires
        at_rest(tx, rx, moves, c),
        !c.receiver_gone,
        receives(rx@, Ok(()), after),
        forall|i: int|
            rx@.trace.len() <= i < after.trace.len() ==> sees(c, #[trigger] after.trace[i]),
    ensures
        play(
            channel_start(tx@.capacity, tx@.memory.slots_at_start()),
            then_receive(moves, rx@, after),
        ) == Some(d),
        ({
            let n = oldest_surviving(tx@.capacity, rx@.seq, tx@.sent().len());
            d.slots[d.entries[slot_of(n, tx@.capacity as nat)].1 as int] == rx@.current
        }),
        d.sender == c.sender,
{
    let start = channel_start(tx@.capacity, tx@.memory.slots_at_start());
    what_was_sent_arrives(tx, rx, moves, c);
    values_arrive_in_order(tx@.capacity, tx@.memory.slots_at_start(), moves, c);
    every_slot_has_one_owner(tx@.capacity, tx@.memory.slots_at_start(), moves, c);
    receiving_alone(tx, rx, moves, c, Ok(()), after);
    let k = rx@.trace.len() as int;
    let p = choose|p: Polled| can_poll(rx@, p) && #[trigger] comes_to(rx@, p, Ok(()), after);
    assert(sees(c, after.trace[k]));
    let n = c.tail as u64;
    assert(p == Polled::News { n });
    let (displaced, first) = seen_news_is_claimed(tx, rx, moves, c, n, Ok(()), after);
    the_oldest_is_in_its_entry(c);
    sides_own_distinct_slots(c);
    let at = oldest_surviving(tx@.capacity, rx@.seq, tx@.sent().len());
    let index = entry_of(tx@.capacity, at as u64);
    slots_follow_positions(at, tx@.capacity as nat);
    let m0 = Move::Receiver(after.trace[k]);
    let m1 = Move::Receiver(after.trace[k + 1]);
    let m2 = Move::Receiver(after.trace[k + 2]);
    let m3 = Move::Receiver(after.trace[k + 3]);
    let m4 = Move::Receiver(after.trace[k + 4]);
    assert(sees(c, after.trace[k + 1]));
    assert(sees(c, after.trace[k + 2]));
    assert(sees(c, after.trace[k + 3]));
    assert(sees(c, after.trace[k + 4]));
    let c1 = crate::protocol::overwrite::after(c, m0);
    let c2 = crate::protocol::overwrite::after(c1, m1);
    let c3 = crate::protocol::overwrite::after(c2, m2);
    let c4 = crate::protocol::overwrite::after(c3, m3);
    let d = crate::protocol::overwrite::after(c4, m4);
    assert(after.trace[k] == ReceiverAccess::<T>::LoadSeq(n));
    play_extends(start, moves, c, m0);
    play_extends(start, moves.push(m0), c1, m1);
    assert(shows_at(c2, index, c.entries[index as int], at)) by {
        entry_is_as_new(c, at);
    }
    play_extends(start, moves.push(m0).push(m1), c2, m2);
    play_extends(start, moves.push(m0).push(m1).push(m2), c3, m3);
    play_extends(start, moves.push(m0).push(m1).push(m2).push(m3), c4, m4);
    d
}

/// [`Sender::is_connected`] answers `false` only if the receiver was dropped, and if it sees what
/// the memory holds, `true` only if it was not; in particular `true` for a new channel. Once it has
/// answered `false`, it does so whatever happens.
pub proof fn connected_until_the_receiver_goes<T>(
    tx: &Sender<T>,
    moves: Seq<Move<T>>,
    c: Channel<T>,
    connected: bool,
    rest: Seq<Move<T>>,
    end: Channel<T>,
    later: bool,
)
    requires
        tx.wf(),
        play(channel_start(tx@.capacity, tx@.memory.slots_at_start()), moves) == Some(c),
        tx@.memory.may_show_receiver_gone(!connected),
        can(c, Move::SenderAsks(!connected)),
        play(after(c, Move::SenderAsks(!connected)), rest) == Some(end),
        tx@.memory.may_show_receiver_gone(!later),
        can(end, Move::SenderAsks(!later)),
    ensures
        !connected ==> c.receiver_gone,
        asking_sees(c, !connected) ==> connected == !c.receiver_gone,
        moves.len() == 0 ==> connected,
        !connected ==> !later && end.receiver_gone,
{
    gone_stays_gone(after(c, Move::SenderAsks(!connected)), rest, end);
}

/// Looking for something new, and finding it, brings the receiver to where it tries to claim it.
proof fn runs_to_due<T>(v: ReceiverView<T>, p: Polled)
    requires
        can_poll(v, p),
        p is News || p is LateNews,
        receiver_run(v.capacity, v.trace) == Some(
            ReceiverState {
                capacity: v.capacity,
                seq: v.seq,
                seen: v.seen,
                slot: v.slot,
                phase: ReceiverPhase::Idle,
            },
        ),
    ensures
        receiver_run(v.capacity, after_poll(v, p).trace) == Some(
            ReceiverState {
                capacity: v.capacity,
                seq: after_poll(v, p).seq,
                seen: after_poll(v, p).seen,
                slot: v.slot,
                phase: ReceiverPhase::Due,
            },
        ),
{
    match p {
        Polled::News { n } => {
            receiver_run_extends(v.capacity, v.trace, ReceiverAccess::LoadSeq(n));
        },
        Polled::LateNews { n, last } => {
            let t1 = v.trace.push(ReceiverAccess::LoadSeq(n));
            let t2 = t1.push(ReceiverAccess::LoadGone(true));
            receiver_run_extends(v.capacity, v.trace, ReceiverAccess::LoadSeq(n));
            receiver_run_extends(v.capacity, t1, ReceiverAccess::LoadGone(true));
            receiver_run_extends(v.capacity, t2, ReceiverAccess::LoadSeq(last));
        },
        _ => {},
    }
}

/// An attempt that fails leads the receiver from the first to the second, and from the second to
/// giving up.
proof fn attempt_runs<T>(v: ReceiverView<T>, a: Attempt, second: bool)
    requires
        can_attempt(v, a),
        !(a is Won),
        receiver_run(v.capacity, v.trace) == Some(
            ReceiverState {
                capacity: v.capacity,
                seq: v.seq,
                seen: v.seen,
                slot: v.slot,
                phase: if second {
                    ReceiverPhase::Second
                } else {
                    ReceiverPhase::First
                },
            },
        ),
    ensures
        ({
            let d = if second {
                after_second(v, a)
            } else {
                after_first(v, a)
            };
            &&& receiver_run(v.capacity, d.trace) == Some(
                ReceiverState {
                    capacity: v.capacity,
                    seq: d.seq,
                    seen: v.seen,
                    slot: v.slot,
                    phase: if second {
                        ReceiverPhase::Missed
                    } else {
                        ReceiverPhase::Second
                    },
                },
            )
            &&& held_by(d.trace) == held_by(v.trace)
        }),
{
    broadcast use held_by_extends;

    let index = entry_of(v.capacity, v.seq);
    match a {
        Attempt::Overwritten { entry } => {
            let x = ReceiverAccess::LoadEntry { index, entry };
            receiver_run_extends(v.capacity, v.trace, x);
        },
        Attempt::Lost { slot, found } => {
            let x = ReceiverAccess::LoadEntry { index, entry: (lower(v.seq), slot) };
            let y = ReceiverAccess::ClaimEntry {
                index,
                expect: (lower(v.seq), slot),
                given: (lower(v.seq), v.slot),
                acquire: second,
                found,
                done: false,
            };
            receiver_run_extends(v.capacity, v.trace, x);
            receiver_run_extends(v.capacity, v.trace.push(x), y);
        },
        _ => {},
    }
}

/// The accesses of a call to receive that is raced: they put the current value into the receiver's
/// slot and, when the receiver has given up, get out what is there.
#[verifier::spinoff_prover]
#[verifier::rlimit(60)]
proof fn raced_ends_in_missed<T>(before: ReceiverView<T>, after: ReceiverView<T>)
    requires
        receives(before, Err(TryRecvError::Raced), after),
        receiver_run(before.capacity, before.trace) == Some(
            ReceiverState {
                capacity: before.capacity,
                seq: before.seq,
                seen: before.seen,
                slot: before.slot,
                phase: ReceiverPhase::Idle,
            },
        ),
    ensures
        after.capacity == before.capacity,
        after.trace.len() > 0,
        after.trace.last() matches ReceiverAccess::TakeSlot { slot, got } && got == after.current,
        receiver_run(after.capacity, after.trace.drop_last()) matches Some(s) && s.phase is Missed
            && s.seen == after.seen,
        held_by(after.trace.drop_last()) == Some(before.current->0),
{
    broadcast use held_by_extends;

    let p = choose|p: Polled|
        can_poll(before, p) && #[trigger] comes_to(before, p, Err(TryRecvError::Raced), after);
    let polled = after_poll(before, p);
    assert(tries(polled, false, after));
    let (displaced, first, second) = choose|displaced: Option<T>, first: Attempt, second: Attempt|
        {
            &&& can_go(polled.after_fill(displaced), first, second)
            &&& after == #[trigger] after_receive(polled, displaced, first, second, after.current)
            &&& false == won(first, second)
        };
    let parked = polled.after_fill(displaced);
    let tried = after_first(parked, first);
    let missed = after_second(tried, second);
    assert(after == missed.after_take(after.current));
    assert(after.trace.drop_last() =~= missed.trace);
    runs_to_due(before, p);
    receiver_run_extends(
        before.capacity,
        polled.trace,
        ReceiverAccess::FillSlot { slot: polled.slot, val: polled.current->0, displaced },
    );
    attempt_runs(parked, first, false);
    attempt_runs(tried, second, true);
}

/// When [`Receiver::try_recv`] returns `Raced`, which made the receiver what it is out of `before`,
/// its current value is what it was, and at least two values were published since what it saw
/// announced in that call.
pub proof fn raced_keeps_the_current_value<T>(
    before: &Receiver<T>,
    rx: &Receiver<T>,
    moves: Seq<Move<T>>,
    end: Channel<T>,
)
    requires
        before.wf(),
        rx.in_phase(ReceiverPhase::Idle),
        receives(before@, Err(TryRecvError::Raced), rx@),
        play(channel_start(rx@.capacity, rx@.memory.slots_at_start()), moves) == Some(end),
        receiver_part(moves) == rx@.trace,
        end.published <= u64::MAX,
        end.published <= period() || claims_keep_up(
            channel_start(rx@.capacity, rx@.memory.slots_at_start()),
            moves,
        ),
    ensures
        rx@.current == before@.current,
        rx.wf(),
        rx@.seen + 2 <= end.published,
{
    let slots = rx@.memory.slots_at_start();
    a_raced_receiver_keeps_its_value(rx@.capacity, slots, moves, end);
    values_arrive_in_order(rx@.capacity, slots, moves, end);
    raced_ends_in_missed(before@, rx@);
}

/// What the cells record of a sender that has made the accesses of `trace`, and has left if `gone`
/// says so.
spec fn sender_history<T>(m: &Shared<T>, trace: Seq<SenderAccess<T>>, gone: bool) -> Seq<
    Event<Option<Box<T>>>,
> {
    if gone {
        sender_events(m, trace).push(Event::ReleaseFlag { cell: m.sender_disconnected })
    } else {
        sender_events(m, trace)
    }
}

/// What the cells record of a receiver that has made the accesses of `trace`, and has left if
/// `gone` says so.
spec fn receiver_history<T>(m: &Shared<T>, trace: Seq<ReceiverAccess<T>>, gone: bool) -> Seq<
    Event<Option<Box<T>>>,
> {
    if gone {
        receiver_events(m, trace).push(Event::RaiseFlag { cell: m.receiver_disconnected })
    } else {
        receiver_events(m, trace)
    }
}

/// The cells hold what the memory of `c` holds.
spec fn mirrors<T>(m: &Shared<T>, mem: Memory<Option<Box<T>>>, c: Channel<T>) -> bool {
    &&& c.slots.len() == m.slots.len()
    &&& forall|i: int|
        0 <= i < m.slots.len() ==> mem.slot(#[trigger] m.slots[i]) == boxed(c.slots[i])
    &&& c.entries.len() == m.entries.len()
    &&& forall|i: int|
        0 <= i < m.entries.len() ==> mem.word(#[trigger] m.entries[i]) == packed(c.entries[i])
    &&& mem.word(m.sender_seq) == c.tail
    &&& mem.flag(m.sender_disconnected) == c.sender_gone
    &&& mem.flag(m.receiver_disconnected) == c.receiver_gone
}

/// The cells of a new channel hold what its memory holds.
proof fn cells_hold_what_they_held_first<T>(m: &Shared<T>)
    requires
        m.wf(),
        m.starts_as(channel_start(m.capacity, m.slots_at_start())),
    ensures
        mirrors(m, Memory::untouched(), channel_start(m.capacity, m.slots_at_start())),
{
    assert forall|i: int| 0 <= i < m.slots.len() implies (#[trigger] m.slots[i]).first() == boxed(
        m.slots_at_start()[i],
    ) by {
        assert(m.slots_at_start()[i] == unboxed(m.slots[i].first()));
    }
}

/// The move that access `a` of the sender is.
spec fn sender_move<T>(c: Channel<T>, a: SenderAccess<T>) -> Move<T> {
    Move::Sender(a)
}

/// The move that access `a` of the receiver is.
spec fn receiver_move<T>(c: Channel<T>, a: ReceiverAccess<T>) -> Move<T> {
    Move::Receiver(a)
}

/// An access of the sender does to the cells what it does to the memory.
#[verifier::spinoff_prover]
proof fn sender_access_mirrors<T>(
    m: &Shared<T>,
    mem: Memory<Option<Box<T>>>,
    c: Channel<T>,
    a: SenderAccess<T>,
)
    requires
        m.wf(),
        m.is_numbered(),
        in_order(c),
        c.sender.capacity == m.capacity,
        mirrors(m, mem, c),
        !c.sender_gone,
        sender_step(c.sender, a) is Some,
        gets(mem, sender_event(m, a)),
    ensures
        can(c, sender_move(c, a)),
        mirrors(m, puts(mem, sender_event(m, a)), after(c, sender_move(c, a))),
        sender_sees(c, a),
{
    sides_own_distinct_slots(c);
    slots_follow_positions(c.sender.seq as nat, m.capacity as nat);
    match a {
        SenderAccess::SwapEntry { index, given, taken } => {
            packing_round_trips(taken, 0);
            packing_round_trips(c.entries[index as int], 0);
        },
        _ => {},
    }
}

/// An access of the receiver does to the cells what it does to the memory.
#[verifier::spinoff_prover]
proof fn receiver_access_mirrors<T>(
    m: &Shared<T>,
    mem: Memory<Option<Box<T>>>,
    c: Channel<T>,
    a: ReceiverAccess<T>,
)
    requires
        m.wf(),
        m.is_numbered(),
        in_order(c),
        c.sender.capacity == m.capacity,
        mirrors(m, mem, c),
        !c.receiver_gone,
        receiver_step(c.receiver, a) is Some,
        gets(mem, receiver_event(m, a)),
    ensures
        can(c, receiver_move(c, a)),
        mirrors(m, puts(mem, receiver_event(m, a)), after(c, receiver_move(c, a))),
        sees(c, a),
{
    sides_own_distinct_slots(c);
    slots_follow_positions(c.receiver.seq as nat, m.capacity as nat);
    match a {
        ReceiverAccess::LoadEntry { index, entry } => {
            packing_round_trips(entry, 0);
            packing_round_trips(c.entries[index as int], 0);
        },
        ReceiverAccess::ClaimEntry { index, expect, given, acquire, found, done } => {
            packing_round_trips(expect, 0);
            packing_round_trips(found, 0);
            packing_round_trips(c.entries[index as int], 0);
        },
        _ => {},
    }
    what_is_there_shows(c, a);
}

/// That the sender leaves does to the cells what it does to the memory.
proof fn sender_leaving_mirrors<T>(m: &Shared<T>, mem: Memory<Option<Box<T>>>, c: Channel<T>)
    requires
        m.is_numbered(),
        mirrors(m, mem, c),
        !c.sender_gone,
        c.sender.phase is Idle,
    ensures
        can(c, Move::SenderGoes),
        mirrors(
            m,
            puts(mem, Event::ReleaseFlag { cell: m.sender_disconnected }),
            after(c, Move::SenderGoes),
        ),
{
}

/// That the receiver leaves does to the cells what it does to the memory.
proof fn receiver_leaving_mirrors<T>(m: &Shared<T>, mem: Memory<Option<Box<T>>>, c: Channel<T>)
    requires
        m.is_numbered(),
        mirrors(m, mem, c),
        !c.receiver_gone,
        c.receiver.phase is Idle,
    ensures
        can(c, Move::ReceiverGoes),
        mirrors(
            m,
            puts(mem, Event::RaiseFlag { cell: m.receiver_disconnected }),
            after(c, Move::ReceiverGoes),
        ),
{
}

/// How many times the sender has swapped an entry in `steps`.
pub open spec fn published_in<T>(steps: Seq<Step<Option<Box<T>>>>) -> nat
    decreases steps.len(),
{
    if steps.len() == 0 {
        0
    } else if steps.last().sender && steps.last().event is SwapWord {
        published_in(steps.drop_last()) + 1
    } else {
        published_in(steps.drop_last())
    }
}

/// In `steps`, in which the receiver makes the accesses of `taken`, the sender is never more than
/// 2^32 values ahead of a receiver that is about to claim one.
pub open spec fn keeps_up<T>(
    capacity: u32,
    taken: Seq<ReceiverAccess<T>>,
    steps: Seq<Step<Option<Box<T>>>>,
) -> bool
    decreases steps.len(),
{
    steps.len() == 0 || {
        let fewer = steps.drop_last();
        let so_far = taken.take(part(fewer, false).len() as int);
        &&& keeps_up(capacity, taken, fewer)
        &&& !steps.last().sender && steps.last().event is ReplaceWord ==> published_in(fewer)
            <= receiver_run(capacity, so_far)->0.seq + period()
    }
}

/// One more access of the sender is one more move.
#[verifier::spinoff_prover]
proof fn sender_goes_on<T>(
    m: &Shared<T>,
    moves: Seq<Move<T>>,
    c: Channel<T>,
    mem: Memory<Option<Box<T>>>,
    a: SenderAccess<T>,
) -> (mv: Move<T>)
    requires
        m.wf(),
        m.is_numbered(),
        m.starts_as(channel_start(m.capacity, m.slots_at_start())),
        play(channel_start(m.capacity, m.slots_at_start()), moves) == Some(c),
        mirrors(m, mem, c),
        !c.sender_gone,
        sender_run(m.capacity, sender_part(moves).push(a)) is Some,
        gets(mem, sender_event(m, a)),
        claims_keep_up(channel_start(m.capacity, m.slots_at_start()), moves),
        sent_by(sender_part(moves)).len() <= u64::MAX,
    ensures
        play(
            channel_start(m.capacity, m.slots_at_start()),
            moves.push(mv),
        ) matches Some(d) && mirrors(
            m,
            puts(mem, sender_event(m, a)),
            d,
        ) && d.sender_gone == c.sender_gone && d.receiver_gone == c.receiver_gone,
        sender_part(moves.push(mv)) == sender_part(moves).push(a),
        receiver_part(moves.push(mv)) == receiver_part(moves),
        claims_keep_up(channel_start(m.capacity, m.slots_at_start()), moves.push(mv)),
        play(
            channel_start(m.capacity, m.slots_at_start()),
            moves.push(mv),
        )->0.published == c.published + (if a is SwapEntry {
            1int
        } else {
            0
        }),
{
    let start = channel_start(m.capacity, m.slots_at_start());
    every_slot_has_one_owner(m.capacity, m.slots_at_start(), moves, c);
    what_is_published_was_sent(m.capacity, m.slots_at_start(), moves, c);
    values_arrive_in_order(m.capacity, m.slots_at_start(), moves, c);
    sender_run_extends(m.capacity, sender_part(moves), a);
    sender_access_mirrors(m, mem, c, a);
    let mv = sender_move(c, a);
    play_extends(start, moves, c, mv);
    assert(moves.push(mv).drop_last() =~= moves);
    mv
}

/// That the sender leaves is one more move.
#[verifier::spinoff_prover]
proof fn sender_goes<T>(
    m: &Shared<T>,
    moves: Seq<Move<T>>,
    c: Channel<T>,
    mem: Memory<Option<Box<T>>>,
)
    requires
        m.wf(),
        m.is_numbered(),
        m.starts_as(channel_start(m.capacity, m.slots_at_start())),
        play(channel_start(m.capacity, m.slots_at_start()), moves) == Some(c),
        mirrors(m, mem, c),
        !c.sender_gone,
        sender_run(m.capacity, sender_part(moves)) matches Some(s) && s.phase is Idle,
        claims_keep_up(channel_start(m.capacity, m.slots_at_start()), moves),
        sent_by(sender_part(moves)).len() <= u64::MAX,
    ensures
        play(
            channel_start(m.capacity, m.slots_at_start()),
            moves.push(Move::SenderGoes),
        ) matches Some(d) && mirrors(
            m,
            puts(mem, Event::ReleaseFlag { cell: m.sender_disconnected }),
            d,
        ) && d.sender_gone && d.receiver_gone == c.receiver_gone,
        sender_part(moves.push(Move::SenderGoes)) == sender_part(moves),
        receiver_part(moves.push(Move::SenderGoes)) == receiver_part(moves),
        claims_keep_up(channel_start(m.capacity, m.slots_at_start()), moves.push(Move::SenderGoes)),
        play(
            channel_start(m.capacity, m.slots_at_start()),
            moves.push(Move::SenderGoes),
        )->0.published == c.published,
{
    let start = channel_start(m.capacity, m.slots_at_start());
    every_slot_has_one_owner(m.capacity, m.slots_at_start(), moves, c);
    what_is_published_was_sent(m.capacity, m.slots_at_start(), moves, c);
    values_arrive_in_order(m.capacity, m.slots_at_start(), moves, c);
    sender_leaving_mirrors(m, mem, c);
    play_extends(start, moves, c, Move::SenderGoes);
    assert(moves.push(Move::SenderGoes).drop_last() =~= moves);
}

/// One more access of the receiver is one more move.
#[verifier::spinoff_prover]
proof fn receiver_goes_on<T>(
    m: &Shared<T>,
    moves: Seq<Move<T>>,
    c: Channel<T>,
    mem: Memory<Option<Box<T>>>,
    a: ReceiverAccess<T>,
) -> (mv: Move<T>)
    requires
        m.wf(),
        m.is_numbered(),
        m.starts_as(channel_start(m.capacity, m.slots_at_start())),
        play(channel_start(m.capacity, m.slots_at_start()), moves) == Some(c),
        mirrors(m, mem, c),
        !c.receiver_gone,
        receiver_run(m.capacity, receiver_part(moves).push(a)) is Some,
        gets(mem, receiver_event(m, a)),
        claims_keep_up(channel_start(m.capacity, m.slots_at_start()), moves),
        sent_by(sender_part(moves)).len() <= u64::MAX,
        a is ClaimEntry ==> c.published <= receiver_run(m.capacity, receiver_part(moves))->0.seq
            + period(),
    ensures
        play(
            channel_start(m.capacity, m.slots_at_start()),
            moves.push(mv),
        ) matches Some(d) && mirrors(
            m,
            puts(mem, receiver_event(m, a)),
            d,
        ) && d.sender_gone == c.sender_gone && d.receiver_gone == c.receiver_gone,
        receiver_part(moves.push(mv)) == receiver_part(moves).push(a),
        sender_part(moves.push(mv)) == sender_part(moves),
        claims_keep_up(channel_start(m.capacity, m.slots_at_start()), moves.push(mv)),
        play(
            channel_start(m.capacity, m.slots_at_start()),
            moves.push(mv),
        )->0.published == c.published,
{
    let start = channel_start(m.capacity, m.slots_at_start());
    every_slot_has_one_owner(m.capacity, m.slots_at_start(), moves, c);
    what_is_published_was_sent(m.capacity, m.slots_at_start(), moves, c);
    values_arrive_in_order(m.capacity, m.slots_at_start(), moves, c);
    receiver_run_extends(m.capacity, receiver_part(moves), a);
    receiver_access_mirrors(m, mem, c, a);
    let mv = receiver_move(c, a);
    play_extends(start, moves, c, mv);
    assert(moves.push(mv).drop_last() =~= moves);
    mv
}

/// That the receiver leaves is one more move.
#[verifier::spinoff_prover]
proof fn receiver_goes<T>(
    m: &Shared<T>,
    moves: Seq<Move<T>>,
    c: Channel<T>,
    mem: Memory<Option<Box<T>>>,
)
    requires
        m.wf(),
        m.is_numbered(),
        m.starts_as(channel_start(m.capacity, m.slots_at_start())),
        play(channel_start(m.capacity, m.slots_at_start()), moves) == Some(c),
        mirrors(m, mem, c),
        !c.receiver_gone,
        receiver_run(m.capacity, receiver_part(moves)) matches Some(s) && s.phase is Idle,
        claims_keep_up(channel_start(m.capacity, m.slots_at_start()), moves),
        sent_by(sender_part(moves)).len() <= u64::MAX,
    ensures
        play(
            channel_start(m.capacity, m.slots_at_start()),
            moves.push(Move::ReceiverGoes),
        ) matches Some(d) && mirrors(
            m,
            puts(mem, Event::RaiseFlag { cell: m.receiver_disconnected }),
            d,
        ) && d.receiver_gone && d.sender_gone == c.sender_gone,
        receiver_part(moves.push(Move::ReceiverGoes)) == receiver_part(moves),
        sender_part(moves.push(Move::ReceiverGoes)) == sender_part(moves),
        claims_keep_up(
            channel_start(m.capacity, m.slots_at_start()),
            moves.push(Move::ReceiverGoes),
        ),
        play(
            channel_start(m.capacity, m.slots_at_start()),
            moves.push(Move::ReceiverGoes),
        )->0.published == c.published,
{
    let start = channel_start(m.capacity, m.slots_at_start());
    every_slot_has_one_owner(m.capacity, m.slots_at_start(), moves, c);
    what_is_published_was_sent(m.capacity, m.slots_at_start(), moves, c);
    values_arrive_in_order(m.capacity, m.slots_at_start(), moves, c);
    receiver_leaving_mirrors(m, mem, c);
    play_extends(start, moves, c, Move::ReceiverGoes);
    assert(moves.push(Move::ReceiverGoes).drop_last() =~= moves);
}

/// Whatever the two sides do to the cells, in any order in which each access gets what its cell
/// holds, is a run of the protocol, in which the memory holds what the cells hold.
#[verifier::spinoff_prover]
proof fn cells_follow_the_protocol<T>(
    m: &Shared<T>,
    all: Seq<ReceiverAccess<T>>,
    steps: Seq<Step<Option<Box<T>>>>,
    sent: Seq<SenderAccess<T>>,
    tx_gone: bool,
    taken: Seq<ReceiverAccess<T>>,
    rx_gone: bool,
) -> (moves: Seq<Move<T>>)
    requires
        m.wf(),
        m.is_numbered(),
        m.starts_as(channel_start(m.capacity, m.slots_at_start())),
        sender_run(m.capacity, sent) is Some,
        receiver_run(m.capacity, taken) is Some,
        tx_gone ==> sender_run(m.capacity, sent)->0.phase is Idle,
        rx_gone ==> receiver_run(m.capacity, taken)->0.phase is Idle,
        part(steps, true) == sender_history(m, sent, tx_gone),
        part(steps, false) == receiver_history(m, taken, rx_gone),
        unfolds(steps) is Some,
        keeps_up(m.capacity, all, steps),
        taken.len() <= all.len(),
        taken == all.take(taken.len() as int),
        sent_by(sent).len() <= u64::MAX,
    ensures
        play(
            channel_start(m.capacity, m.slots_at_start()),
            moves,
        ) matches Some(c) && mirrors(m, unfolds(steps)->0, c)
            && c.sender_gone == tx_gone && c.receiver_gone == rx_gone,
        sender_part(moves) == sent,
        receiver_part(moves) == taken,
        claims_keep_up(channel_start(m.capacity, m.slots_at_start()), moves),
        play(
            channel_start(m.capacity, m.slots_at_start()),
            moves,
        )->0.published == published_in(steps),
    decreases steps.len(),
{
    let start = channel_start(m.capacity, m.slots_at_start());
    if steps.len() == 0 {
        assert(sender_history(m, sent, tx_gone).len() == 0);
        assert(receiver_history(m, taken, rx_gone).len() == 0);
        assert(sent =~= Seq::empty());
        assert(taken =~= Seq::empty());
        cells_hold_what_they_held_first(m);
        Seq::empty()
    } else {
        let fewer = steps.drop_last();
        let event = steps.last().event;
        let mem = unfolds(fewer)->0;
        if steps.last().sender {
            assert(part(steps, true).drop_last() =~= part(fewer, true));
            assert(part(steps, true).last() == event);
            if tx_gone {
                assert(sender_history(m, sent, true).drop_last() =~= sender_history(
                    m,
                    sent,
                    false,
                ));
                let moves = cells_follow_the_protocol(m, all, fewer, sent, false, taken, rx_gone);
                let c = play(start, moves)->0;
                sender_goes(m, moves, c, mem);
                moves.push(Move::SenderGoes)
            } else {
                let a = sent.last();
                let before = sent.drop_last();
                assert(sender_history(m, sent, false).drop_last() =~= sender_history(
                    m,
                    before,
                    false,
                ));
                assert(before.push(a) =~= sent);
                sent_by_extends(before, a);
                let moves = cells_follow_the_protocol(m, all, fewer, before, false, taken, rx_gone);
                let c = play(start, moves)->0;
                assert(event == sender_event(m, a));
                assert(before.push(a) =~= sent);
                let mv = sender_goes_on(m, moves, c, mem, a);
                moves.push(mv)
            }
        } else {
            assert(part(steps, false).drop_last() =~= part(fewer, false));
            assert(part(steps, false).last() == event);
            if rx_gone {
                assert(receiver_history(m, taken, true).drop_last() =~= receiver_history(
                    m,
                    taken,
                    false,
                ));
                let moves = cells_follow_the_protocol(m, all, fewer, sent, tx_gone, taken, false);
                let c = play(start, moves)->0;
                receiver_goes(m, moves, c, mem);
                moves.push(Move::ReceiverGoes)
            } else {
                let a = taken.last();
                let before = taken.drop_last();
                assert(receiver_history(m, taken, false).drop_last() =~= receiver_history(
                    m,
                    before,
                    false,
                ));
                assert(before =~= all.take(before.len() as int));
                assert(part(fewer, false).len() == before.len());
                let moves = cells_follow_the_protocol(m, all, fewer, sent, tx_gone, before, false);
                let c = play(start, moves)->0;
                assert(event == receiver_event(m, a));
                assert(before.push(a) =~= taken);
                let mv = receiver_goes_on(m, moves, c, mem, a);
                moves.push(mv)
            }
        }
    }
}

/// A history is what the log lists, and that the side has left if it has.
proof fn a_history_is_a_log<T>(tx: &Sender<T>, rx: &Receiver<T>)
    ensures
        tx.history(false) == tx.log@,
        tx.history(true) == tx.log@.push(
            Event::ReleaseFlag { cell: tx.shared.m().sender_disconnected },
        ),
        rx.history(false) == rx.log@,
        rx.history(true) == rx.log@.push(
            Event::RaiseFlag { cell: rx.shared.m().receiver_disconnected },
        ),
{
}

/// The two sides of a channel are between calls, unless they have left, and what they have done to
/// the cells came in the order of `steps`, in which each access gets what its cell holds.
pub open spec fn came_about<T>(
    tx: &Sender<T>,
    tx_gone: bool,
    rx: &Receiver<T>,
    rx_gone: bool,
    steps: Seq<Step<Option<Box<T>>>>,
) -> bool {
    &&& tx.wf()
    &&& rx.wf()
    &&& tx@.memory == rx@.memory
    &&& part(steps, true) == tx.history(tx_gone)
    &&& part(steps, false) == rx.history(rx_gone)
    &&& unfolds(steps) is Some
    &&& tx@.sent().len() <= u64::MAX
    &&& keeps_up(tx@.capacity, rx@.trace, steps)
}

/// In whatever order the two sides came to do what they did to the cells, what the receiver has
/// taken out of the cells is some of what the sender has put into them, in order and each value at
/// most once.
pub proof fn cells_carry_what_was_sent<T>(
    tx: &Sender<T>,
    tx_gone: bool,
    rx: &Receiver<T>,
    rx_gone: bool,
    steps: Seq<Step<Option<Box<T>>>>,
) -> (r: (Seq<Move<T>>, Channel<T>))
    requires
        came_about(tx, tx_gone, rx, rx_gone, steps),
    ensures
        picks(r.1.claimed.take(rx@.received().len() as int), tx@.sent(), rx@.received()),
        at_rest(tx, rx, r.0, r.1),
        r.1.sender_gone == tx_gone,
        r.1.receiver_gone == rx_gone,
{
    let moves = came_about_in_moves(tx, tx_gone, rx, rx_gone, steps);
    let c = play(channel_start(tx@.capacity, tx@.memory.slots_at_start()), moves)->0;
    what_was_sent_arrives(tx, rx, moves, c);
    (moves, c)
}

/// To leave is the last that a side does to the cells.
pub proof fn leaving_ends_a_history<T>(
    tx: &Sender<T>,
    tx_left: &Sender<T>,
    rx: &Receiver<T>,
    rx_left: &Receiver<T>,
)
    requires
        tx.recorded(),
        tx_left.has_left(tx),
        rx.recorded(),
        rx_left.has_left(rx),
    ensures
        tx_left.history(false) == tx.history(true),
        rx_left.history(false) == rx.history(true),
        is_release(tx.history(true).last()),
{
}

/// What a side leaves to the channel is what it had.
proof fn what_a_side_had_is_left<T>(
    tx: &Sender<T>,
    tx_left: &Sender<T>,
    rx: &Receiver<T>,
    rx_left: &Receiver<T>,
)
    requires
        tx.recorded(),
        tx_left.has_left(tx),
        rx.recorded(),
        rx_left.has_left(rx),
    ensures
        tx.shared.m().left_by_sender.was_left(tx.staged),
        rx.shared.m().left_by_receiver.was_left(rx.current),
{
}

/// What a side announces or exchanges it releases, and what it learns of the other it acquires.
pub proof fn the_sides_synchronise<T>(tx: &Sender<T>, rx: &Receiver<T>)
    requires
        tx.recorded(),
        rx.recorded(),
    ensures
        tx.history(false).len() == tx@.trace.len(),
        rx.history(false).len() == rx@.trace.len(),
        forall|i: int|
            0 <= i < tx@.trace.len() && #[trigger] tx@.trace[i] is SwapEntry ==> is_acquire(
                tx.history(false)[i],
            ),
        forall|i: int|
            0 <= i < tx@.trace.len() && #[trigger] tx@.trace[i] is SwapEntry ==> is_release(
                tx.history(false)[i],
            ),
        forall|i: int|
            0 <= i < tx@.trace.len() && #[trigger] tx@.trace[i] is StoreSeq ==> is_release(
                tx.history(false)[i],
            ),
        forall|i: int|
            0 <= i < rx@.trace.len() && #[trigger] rx@.trace[i] is LoadSeq ==> is_acquire(
                rx.history(false)[i],
            ),
        forall|i: int|
            0 <= i < rx@.trace.len() && #[trigger] rx@.trace[i] is LoadGone ==> is_acquire(
                rx.history(false)[i],
            ),
        forall|i: int|
            0 <= i < rx@.trace.len() && #[trigger] rx@.trace[i] is ClaimEntry ==> is_release(
                rx.history(false)[i],
            ),
        forall|i: int|
            0 <= i < rx@.trace.len() ==> (
            #[trigger] rx@.trace[i] matches ReceiverAccess::ClaimEntry {
                index,
                expect,
                given,
                acquire,
                found,
                done,
            } ==> is_acquire(rx.history(false)[i]) == acquire),
{
    a_history_is_a_log(tx, rx);
}

/// A side sees that the other is gone only if that has left, whatever overlaps: no call fails with
/// `Disconnected` before.
pub proof fn only_who_left_is_gone<T>(
    tx: &Sender<T>,
    tx_gone: bool,
    rx: &Receiver<T>,
    rx_gone: bool,
    steps: Seq<Step<Option<Box<T>>>>,
)
    requires
        came_about(tx, tx_gone, rx, rx_gone, steps),
    ensures
        rx@.trace.contains(ReceiverAccess::<T>::LoadGone(true)) ==> tx_gone,
{
    let moves = came_about_in_moves(tx, tx_gone, rx, rx_gone, steps);
    let start = channel_start(tx@.capacity, tx@.memory.slots_at_start());
    gone_is_seen_of_the_gone(start, moves, play(start, moves)->0);
}

/// A call to receive that returned `Disconnected`, which made the receiver what it is out of
/// `before`, did so because the sender has left and nothing that it sent is beyond where the
/// receiver is, whatever overlapped.
pub proof fn disconnected_means_all_arrived<T>(
    tx: &Sender<T>,
    tx_gone: bool,
    rx: &Receiver<T>,
    rx_gone: bool,
    steps: Seq<Step<Option<Box<T>>>>,
    before: ReceiverView<T>,
)
    requires
        came_about(tx, tx_gone, rx, rx_gone, steps),
        receives(before, Err(TryRecvError::Disconnected), rx@),
    ensures
        tx_gone,
        rx@.seq == tx@.sent().len(),
{
    let moves = came_about_in_moves(tx, tx_gone, rx, rx_gone, steps);
    let slots = tx@.memory.slots_at_start();
    let c = play(channel_start(tx@.capacity, slots), moves)->0;
    values_arrive_in_order(tx@.capacity, slots, moves, c);
    let p = choose|p: Polled|
        can_poll(before, p) && #[trigger] comes_to(
            before,
            p,
            Err(TryRecvError::Disconnected),
            rx@,
        );
    assert(p is Disconnected);
    let n = before.trace.len() as int;
    assert(rx@.trace[n + 1] == ReceiverAccess::<T>::LoadGone(true));
    disconnected_stays_drained(tx@.capacity, slots, moves, c);
}

/// What came about is a run of the protocol.
proof fn came_about_in_moves<T>(
    tx: &Sender<T>,
    tx_gone: bool,
    rx: &Receiver<T>,
    rx_gone: bool,
    steps: Seq<Step<Option<Box<T>>>>,
) -> (moves: Seq<Move<T>>)
    requires
        came_about(tx, tx_gone, rx, rx_gone, steps),
    ensures
        play(
            channel_start(tx@.capacity, tx@.memory.slots_at_start()),
            moves,
        ) matches Some(c) && mirrors(
            tx.shared.m(),
            unfolds(steps)->0,
            c,
        ) && c.sender_gone == tx_gone && c.receiver_gone == rx_gone,
        sender_part(moves) == tx@.trace,
        receiver_part(moves) == rx@.trace,
        claims_keep_up(channel_start(tx@.capacity, tx@.memory.slots_at_start()), moves),
        play(channel_start(tx@.capacity, tx@.memory.slots_at_start()), moves)->0.published
            == published_in(steps),
        play(channel_start(tx@.capacity, tx@.memory.slots_at_start()), moves)->0.published
            <= u64::MAX,
{
    let m = tx.shared.m();
    assert(m == rx.shared.m());
    a_history_is_a_log(tx, rx);
    reveal(Shared::is_set_up);
    assert(rx@.trace.take(rx@.trace.len() as int) =~= rx@.trace);
    let moves = cells_follow_the_protocol(
        m,
        rx@.trace,
        steps,
        tx@.trace,
        tx_gone,
        rx@.trace,
        rx_gone,
    );
    let c = play(channel_start(m.capacity, m.slots_at_start()), moves)->0;
    every_slot_has_one_owner(m.capacity, m.slots_at_start(), moves, c);
    what_is_published_was_sent(m.capacity, m.slots_at_start(), moves, c);
    moves
}

/// The events that made `after` out of `tx` are those of its accesses since.
proof fn what_the_sender_did_since<T>(
    tx: &Sender<T>,
    after: &Sender<T>,
    more: Seq<Event<Option<Box<T>>>>,
)
    requires
        tx.recorded(),
        after.recorded(),
        tx@.memory == after@.memory,
        after.history(false) == tx.history(false) + more,
        after@.trace.len() >= tx@.trace.len(),
    ensures
        more.len() == after@.trace.len() - tx@.trace.len(),
        forall|k: int|
            0 <= k < more.len() ==> #[trigger] more[k] == sender_event(
                tx.shared.m(),
                after@.trace[tx@.trace.len() + k],
            ),
{
    let n = tx@.trace.len() as int;
    assert(tx.history(false).len() == n);
    assert(after.history(false).len() == after@.trace.len());
    assert((tx.history(false) + more).len() == n + more.len());
    assert forall|k: int| 0 <= k < more.len() implies #[trigger] more[k] == sender_event(
        tx.shared.m(),
        after@.trace[n + k],
    ) by {
        assert((tx.history(false) + more)[n + k] == more[k]);
        assert(after.history(false)[n + k] == more[k]);
    }
}

/// The events that made `after` out of `rx` are those of its accesses since.
proof fn what_the_receiver_did_since<T>(
    rx: &Receiver<T>,
    after: &Receiver<T>,
    more: Seq<Event<Option<Box<T>>>>,
)
    requires
        rx.recorded(),
        after.recorded(),
        rx@.memory == after@.memory,
        after.history(false) == rx.history(false) + more,
        after@.trace.len() >= rx@.trace.len(),
    ensures
        more.len() == after@.trace.len() - rx@.trace.len(),
        forall|k: int|
            0 <= k < more.len() ==> #[trigger] more[k] == receiver_event(
                rx.shared.m(),
                after@.trace[rx@.trace.len() + k],
            ),
{
    let n = rx@.trace.len() as int;
    assert(rx.history(false).len() == n);
    assert(after.history(false).len() == after@.trace.len());
    assert((rx.history(false) + more).len() == n + more.len());
    assert forall|k: int| 0 <= k < more.len() implies #[trigger] more[k] == receiver_event(
        rx.shared.m(),
        after@.trace[n + k],
    ) by {
        assert((rx.history(false) + more)[n + k] == more[k]);
        assert(after.history(false)[n + k] == more[k]);
    }
}

/// What the sender does takes nothing from how far ahead it is of the receiver's claims.
proof fn sending_keeps_up<T>(
    capacity: u32,
    taken: Seq<ReceiverAccess<T>>,
    steps: Seq<Step<Option<Box<T>>>>,
    more: Seq<Event<Option<Box<T>>>>,
)
    requires
        keeps_up(capacity, taken, steps),
    ensures
        keeps_up(capacity, taken, followed(steps, true, more)),
    decreases more.len(),
{
    let all = followed(steps, true, more);
    if more.len() == 0 {
        assert(all =~= steps);
    } else {
        sending_keeps_up(capacity, taken, steps, more.drop_last());
        assert(all.drop_last() =~= followed(steps, true, more.drop_last()));
    }
}

/// How many of the events swap a word.
spec fn swaps_in<T>(events: Seq<Event<Option<Box<T>>>>) -> nat
    decreases events.len(),
{
    if events.len() == 0 {
        0
    } else if events.last() is SwapWord {
        swaps_in(events.drop_last()) + 1
    } else {
        swaps_in(events.drop_last())
    }
}

/// What the sender swaps in `steps` is what it swaps.
proof fn publications_are_the_senders<T>(steps: Seq<Step<Option<Box<T>>>>)
    ensures
        published_in(steps) == swaps_in(part(steps, true)),
    decreases steps.len(),
{
    if steps.len() > 0 {
        publications_are_the_senders(steps.drop_last());
        if steps.last().sender {
            assert(part(steps, true).drop_last() =~= part(steps.drop_last(), true));
        }
    }
}

/// The sender swaps an entry for each value that it has put into a slot, but for the last.
proof fn a_swap_for_each_value<T>(m: &Shared<T>, trace: Seq<SenderAccess<T>>)
    requires
        sender_run(m.capacity, trace) is Some,
    ensures
        sent_by(trace).len() == swaps_in(sender_events(m, trace)) + (if sender_run(
            m.capacity,
            trace,
        )->0.phase is Staged {
            1int
        } else {
            0
        }),
    decreases trace.len(),
{
    if trace.len() > 0 {
        a_swap_for_each_value(m, trace.drop_last());
        assert(sender_events(m, trace).drop_last() =~= sender_events(m, trace.drop_last()));
    }
}

/// If no more than 2^32 values are sent, the sender is never further ahead of a claim.
proof fn few_publications_keep_up<T>(
    capacity: u32,
    taken: Seq<ReceiverAccess<T>>,
    steps: Seq<Step<Option<Box<T>>>>,
)
    requires
        published_in(steps) <= period(),
    ensures
        keeps_up(capacity, taken, steps),
    decreases steps.len(),
{
    if steps.len() > 0 {
        few_publications_keep_up(capacity, taken, steps.drop_last());
    }
}

/// If no more than 2^32 values were sent, the sender was never further ahead of a receiver that was
/// about to claim one.
pub proof fn few_values_keep_up<T>(
    tx: &Sender<T>,
    tx_gone: bool,
    rx: &Receiver<T>,
    steps: Seq<Step<Option<Box<T>>>>,
)
    requires
        tx.wf(),
        part(steps, true) == tx.history(tx_gone),
        tx@.sent().len() <= period(),
    ensures
        keeps_up(tx@.capacity, rx@.trace, steps),
{
    let m = tx.shared.m();
    a_history_is_a_log(tx, rx);
    publications_are_the_senders(steps);
    a_swap_for_each_value(m, tx@.trace);
    if tx_gone {
        assert(tx.history(true).drop_last() =~= tx.history(false));
    }
    few_publications_keep_up(tx@.capacity, rx@.trace, steps);
}

/// What was sent is what it was, with the staged value at the end.
proof fn publishing_appends<T>(before: SenderView<T>, after: SenderView<T>)
    requires
        publishes(before, after),
    ensures
        after.sent() == before.sent().push(before.staged->0),
{
    broadcast use sent_by_extends;

}

/// After whatever the two sides have done to the cells, a call of [`Sender::publish`] that no call
/// of the receiver overlaps stages what was in the entry that it overwrites: the value that was
/// sent `capacity` values ago, if the receiver has not received that; else what the receiver gave
/// up for it, as the receiver left it; and what the channel was made with, if the channel was never
/// full. `after` is the sender after the call, and `more` what the call did to the cells.
#[verifier::spinoff_prover]
#[verifier::rlimit(60)]
pub proof fn publishing_through_the_cells<T>(
    tx: &Sender<T>,
    rx: &Receiver<T>,
    rx_gone: bool,
    steps: Seq<Step<Option<Box<T>>>>,
    after: &Sender<T>,
    more: Seq<Event<Option<Box<T>>>>,
) -> (r: (Seq<Move<T>>, Channel<T>))
    requires
        came_about(tx, false, rx, rx_gone, steps),
        after.in_phase(SenderPhase::Idle),
        publishes(tx@, after@),
        tx@.sent().len() < u64::MAX,
        after.history(false) == tx.history(false) + more,
        unfolds(followed(steps, true, more)) is Some,
    ensures
        after.wf(),
        after@.sent() == tx@.sent().push(tx@.staged->0),
        at_rest(tx, rx, r.0, r.1),
        after@.staged == overwritten(r.1),
        came_about(after, false, rx, rx_gone, followed(steps, true, more)),
{
    let m = tx.shared.m();
    let moves = came_about_in_moves(tx, false, rx, rx_gone, steps);
    let c = play(channel_start(tx@.capacity, tx@.memory.slots_at_start()), moves)->0;
    values_arrive_in_order(m.capacity, m.slots_at_start(), moves, c);
    every_slot_has_one_owner(m.capacity, m.slots_at_start(), moves, c);
    the_next_entry_is_overwritten(c);
    slots_follow_positions(tx@.seq as nat, m.capacity as nat);
    reveal(Shared::is_set_up);
    publishing_is_wait_free(tx@, after@);
    publishing_appends(tx@, after@);
    sending_keeps_up(tx@.capacity, rx@.trace, steps, more);
    let swap = after@.trace[tx@.trace.len() as int + 1];
    if let SenderAccess::SwapEntry { index, given, taken } = swap {
        packing_round_trips(taken, 0);
        packing_round_trips(c.entries[index as int], 0);
    }
    what_the_sender_did_since(tx, after, more);
    what_follows_comes_last(steps, true, more);
    what_follows_comes_about(steps, true, more);
    let n = tx@.trace.len() as int;
    assert forall|i: int| n <= i < after@.trace.len() implies sender_sees(
        c,
        #[trigger] after@.trace[i],
    ) by {
        assert(comes_about(steps, true, more, 0));
        if i > n {
            assert(comes_about(steps, true, more, 1));
        }
        if i > n + 1 {
            assert(comes_about(steps, true, more, 2));
        }
        if i > n + 2 {
            assert(comes_about(steps, true, more, 3));
        }
        assert(more[i - n] == sender_event(m, after@.trace[i]));
    }
    publishing_alone(tx, rx, moves, c, after@);
    (moves, c)
}

/// What the receiver reads of words and flags that nothing was put into since is what the memory
/// holds.
proof fn reads_see<T>(
    m: &Shared<T>,
    mem: Memory<Option<Box<T>>>,
    c: Channel<T>,
    now: Memory<Option<Box<T>>>,
    a: ReceiverAccess<T>,
)
    requires
        mirrors(m, mem, c),
        now.words == mem.words,
        now.flags == mem.flags,
        gets(now, receiver_event(m, a)),
        match a {
            ReceiverAccess::LoadSeq(_) => true,
            ReceiverAccess::LoadGone(_) => true,
            ReceiverAccess::LoadEntry { index, entry } => index < m.entries.len(),
            ReceiverAccess::ClaimEntry { index, expect, given, acquire, found, done } => index
                < m.entries.len(),
            _ => false,
        },
    ensures
        sees(c, a),
{
    match a {
        ReceiverAccess::LoadEntry { index, entry } => {
            packing_round_trips(entry, 0);
            packing_round_trips(c.entries[index as int], 0);
            assert(now.word(m.entries[index as int]) == mem.word(m.entries[index as int]));
        },
        ReceiverAccess::ClaimEntry { index, expect, given, acquire, found, done } => {
            packing_round_trips(expect, 0);
            packing_round_trips(found, 0);
            packing_round_trips(c.entries[index as int], 0);
            assert(now.word(m.entries[index as int]) == mem.word(m.entries[index as int]));
        },
        _ => {},
    }
}

/// What is taken out of a slot, if only another was filled since, is what the memory holds.
proof fn takes_see<T>(
    m: &Shared<T>,
    mem: Memory<Option<Box<T>>>,
    c: Channel<T>,
    now: Memory<Option<Box<T>>>,
    filled: u32,
    given: Option<Box<T>>,
    slot: u32,
    got: Option<T>,
)
    requires
        m.is_numbered(),
        mirrors(m, mem, c),
        filled < m.slots.len(),
        slot < m.slots.len(),
        slot != filled,
        now.slots == mem.slots.insert(m.slots[filled as int].id(), given),
        gets(now, receiver_event(m, ReceiverAccess::TakeSlot { slot, got })),
    ensures
        sees(c, ReceiverAccess::TakeSlot { slot, got }),
{
    assert(m.slots[slot as int].id() != m.slots[filled as int].id());
    assert(now.slot(m.slots[slot as int]) == mem.slot(m.slots[slot as int]));
}

/// A receiver that is told of news that is there sees what the memory holds, up to the first entry
/// that it claims and what it takes out of its slot. `more` is what it does, and `v` what it was.
#[verifier::spinoff_prover]
#[verifier::rlimit(60)]
proof fn news_is_seen<T>(
    m: &Shared<T>,
    c: Channel<T>,
    steps: Seq<Step<Option<Box<T>>>>,
    v: ReceiverView<T>,
    n: u64,
    r: Result<(), TryRecvError>,
    after: ReceiverView<T>,
    more: Seq<Event<Option<Box<T>>>>,
)
    requires
        m.wf(),
        m.is_numbered(),
        mirrors(m, unfolds(steps)->0, c),
        v.capacity == m.capacity,
        v.slot < slot_count(m.capacity),
        v.seq < n,
        comes_to(v, Polled::News { n }, r, after),
        ({
            let at = resume(m.capacity, v.seq, n);
            let e = c.entries[entry_of(m.capacity, at) as int];
            &&& entry_of(m.capacity, at) < m.capacity
            &&& e.0 == lower(at)
            &&& e.1 < slot_count(m.capacity)
            &&& e.1 != v.slot
        }),
        more.len() == after.trace.len() - v.trace.len(),
        forall|k: int|
            0 <= k < more.len() ==> #[trigger] more[k] == receiver_event(
                m,
                after.trace[v.trace.len() + k],
            ),
        unfolds(followed(steps, false, more)) is Some,
    ensures
        forall|i: int|
            v.trace.len() <= i < after.trace.len() && i < v.trace.len() + 5 ==> sees(
                c,
                #[trigger] after.trace[i],
            ),
{
    let mem = unfolds(steps)->0;
    what_follows_comes_about(steps, false, more);
    let k = v.trace.len() as int;
    let polled = after_poll(v, Polled::News { n });
    let claimed = !(r == Err::<(), TryRecvError>(TryRecvError::Raced));
    assert(tries(polled, claimed, after));
    let (displaced, first, second) = choose|displaced: Option<T>, first: Attempt, second: Attempt|
        {
            &&& can_go(polled.after_fill(displaced), first, second)
            &&& after == #[trigger] after_receive(polled, displaced, first, second, after.current)
            &&& claimed == won(first, second)
        };
    let parked = polled.after_fill(displaced);
    let tried = after_first(parked, first);
    let now1 = midway(steps, false, more, 1);
    let now2 = midway(steps, false, more, 2);
    let now3 = midway(steps, false, more, 3);
    let now4 = midway(steps, false, more, 4);
    assert(after.trace[k] == ReceiverAccess::<T>::LoadSeq(n));
    assert(comes_about(steps, false, more, 0));
    assert(more[0] == receiver_event(m, after.trace[k]));
    reads_see(m, mem, c, mem, after.trace[k]);
    assert(now1 == mem);
    assert(after.trace[k + 1] == parked.trace.last());
    assert(comes_about(steps, false, more, 1));
    assert(more[1] == receiver_event(m, after.trace[k + 1]));
    assert(now2.words == mem.words && now2.flags == mem.flags);
    assert(after.trace[k + 2] == tried.trace[k + 2]);
    assert(comes_about(steps, false, more, 2));
    assert(more[2] == receiver_event(m, after.trace[k + 2]));
    reads_see(m, mem, c, now2, after.trace[k + 2]);
    assert(now3 == now2);
    assert(!(first is Overwritten));
    assert(after.trace[k + 3] == tried.trace[k + 3]);
    assert(comes_about(steps, false, more, 3));
    assert(more[3] == receiver_event(m, after.trace[k + 3]));
    reads_see(m, mem, c, now3, after.trace[k + 3]);
    assert(first is Won);
    assert(now4.slots == now2.slots);
    assert(after == tried.after_take(after.current));
    assert(comes_about(steps, false, more, 4));
    assert(more[4] == receiver_event(m, after.trace[k + 4]));
    takes_see(
        m,
        mem,
        c,
        now4,
        v.slot,
        boxed(Some(v.current->0)),
        after.slot,
        after.current,
    );
}

/// The receiver first sees how much is announced.
proof fn the_first_look_sees<T>(
    m: &Shared<T>,
    c: Channel<T>,
    steps: Seq<Step<Option<Box<T>>>>,
    v: ReceiverView<T>,
    p: Polled,
    r: Result<(), TryRecvError>,
    after: ReceiverView<T>,
    more: Seq<Event<Option<Box<T>>>>,
)
    requires
        mirrors(m, unfolds(steps)->0, c),
        comes_to(v, p, r, after),
        more.len() == after.trace.len() - v.trace.len(),
        more.len() > 0,
        forall|k: int|
            0 <= k < more.len() ==> #[trigger] more[k] == receiver_event(
                m,
                after.trace[v.trace.len() + k],
            ),
        unfolds(followed(steps, false, more)) is Some,
    ensures
        match p {
            Polled::Empty { n } => n == c.tail,
            Polled::Disconnected { n, last } => n == c.tail,
            Polled::News { n } => n == c.tail,
            Polled::LateNews { n, last } => n == c.tail,
        },
{
    what_follows_comes_about(steps, false, more);
    assert(comes_about(steps, false, more, 0));
    assert(more[0] == receiver_event(m, after.trace[v.trace.len() as int]));
}

/// A receiver that is told of no news sees what the memory holds. `more` is what it does, and `v`
/// what it was.
#[verifier::spinoff_prover]
proof fn no_news_is_seen<T>(
    m: &Shared<T>,
    c: Channel<T>,
    steps: Seq<Step<Option<Box<T>>>>,
    v: ReceiverView<T>,
    p: Polled,
    r: Result<(), TryRecvError>,
    after: ReceiverView<T>,
    more: Seq<Event<Option<Box<T>>>>,
)
    requires
        mirrors(m, unfolds(steps)->0, c),
        can_poll(v, p),
        !(p is News),
        comes_to(v, p, r, after),
        more.len() == after.trace.len() - v.trace.len(),
        forall|k: int|
            0 <= k < more.len() ==> #[trigger] more[k] == receiver_event(
                m,
                after.trace[v.trace.len() + k],
            ),
        unfolds(followed(steps, false, more)) is Some,
    ensures
        forall|i: int|
            v.trace.len() <= i < after.trace.len() && i < v.trace.len() + 5 ==> sees(
                c,
                #[trigger] after.trace[i],
            ),
{
    let mem = unfolds(steps)->0;
    what_follows_comes_about(steps, false, more);
    let k = v.trace.len() as int;
    let polled = after_poll(v, p);
    assert(after.trace[k] == polled.trace[k]);
    assert(comes_about(steps, false, more, 0));
    assert(more[0] == receiver_event(m, after.trace[k]));
    reads_see(m, mem, c, mem, after.trace[k]);
    assert(midway(steps, false, more, 1) == mem);
    assert(after.trace[k + 1] == polled.trace[k + 1]);
    assert(comes_about(steps, false, more, 1));
    assert(more[1] == receiver_event(m, after.trace[k + 1]));
    reads_see(m, mem, c, mem, after.trace[k + 1]);
    if !(p is Empty) {
        assert(midway(steps, false, more, 2) == mem);
        assert(after.trace[k + 2] == polled.trace[k + 2]);
        assert(comes_about(steps, false, more, 2));
        assert(more[2] == receiver_event(m, after.trace[k + 2]));
        reads_see(m, mem, c, mem, after.trace[k + 2]);
    }
}

/// What the receiver is told of is in its entry, and not in the receiver's slot.
proof fn news_is_where_it_should_be<T>(
    tx: &Sender<T>,
    rx: &Receiver<T>,
    moves: Seq<Move<T>>,
    c: Channel<T>,
)
    requires
        at_rest(tx, rx, moves, c),
        rx@.seq < c.tail,
    ensures
        ({
            let at = resume(rx@.capacity, rx@.seq, c.tail as u64);
            let e = c.entries[entry_of(rx@.capacity, at) as int];
            &&& entry_of(rx@.capacity, at) < rx@.capacity
            &&& e.0 == lower(at)
            &&& e.1 < slot_count(rx@.capacity)
            &&& e.1 != rx@.slot
        }),
        c.tail <= u64::MAX,
{
    values_arrive_in_order(tx@.capacity, tx@.memory.slots_at_start(), moves, c);
    the_oldest_is_in_its_entry(c);
    slots_follow_positions(oldest_surviving(rx@.capacity, rx@.seq, c.tail), rx@.capacity as nat);
}

/// A receiver that no call of the sender overlaps sees what the memory holds, up to the first entry
/// that it claims and what it takes out of its slot.
#[verifier::spinoff_prover]
#[verifier::rlimit(60)]
proof fn a_lone_receiver_sees<T>(
    tx: &Sender<T>,
    tx_gone: bool,
    rx: &Receiver<T>,
    steps: Seq<Step<Option<Box<T>>>>,
    moves: Seq<Move<T>>,
    c: Channel<T>,
    r: Result<(), TryRecvError>,
    after: &Receiver<T>,
    more: Seq<Event<Option<Box<T>>>>,
)
    requires
        came_about(tx, tx_gone, rx, false, steps),
        at_rest(tx, rx, moves, c),
        mirrors(rx.shared.m(), unfolds(steps)->0, c),
        after.in_phase(ReceiverPhase::Idle),
        receives(rx@, r, after@),
        after.history(false) == rx.history(false) + more,
        unfolds(followed(steps, false, more)) is Some,
    ensures
        forall|i: int|
            rx@.trace.len() <= i < after@.trace.len() && i < rx@.trace.len() + 5 ==> sees(
                c,
                #[trigger] after@.trace[i],
            ),
{
    let m = rx.shared.m();
    assert(m.is_numbered()) by {
        reveal(Shared::is_set_up);
    }
    receiving_is_wait_free(rx@, r, after@);
    what_the_receiver_did_since(rx, after, more);
    let p = choose|p: Polled| can_poll(rx@, p) && #[trigger] comes_to(rx@, p, r, after@);
    match p {
        Polled::News { n } => {
            the_first_look_sees(m, c, steps, rx@, p, r, after@, more);
            news_is_where_it_should_be(tx, rx, moves, c);
            news_is_seen(m, c, steps, rx@, n, r, after@, more);
        },
        _ => {
            no_news_is_seen(m, c, steps, rx@, p, r, after@, more);
        },
    }
}

/// After whatever the two sides have done to the cells, a call of [`Receiver::try_recv`] that no
/// call of the sender overlaps lends the oldest surviving value that the receiver has neither
/// received nor skipped, and goes on after it; it fails if and only if there is none, with
/// `Disconnected` if the sender has left and with `Empty` if it has not, and then the current value
/// is what it was. `after` is the receiver after the call, and `more` what the call did to the
/// cells.
pub proof fn receiving_through_the_cells<T>(
    tx: &Sender<T>,
    tx_gone: bool,
    rx: &Receiver<T>,
    steps: Seq<Step<Option<Box<T>>>>,
    r: Result<(), TryRecvError>,
    after: &Receiver<T>,
    more: Seq<Event<Option<Box<T>>>>,
)
    requires
        came_about(tx, tx_gone, rx, false, steps),
        after.in_phase(ReceiverPhase::Idle),
        receives(rx@, r, after@),
        after.history(false) == rx.history(false) + more,
        unfolds(followed(steps, false, more)) is Some,
    ensures
        after.wf(),
        rx@.seq <= tx@.sent().len(),
        match r {
            Ok(()) => {
                let n = oldest_surviving(tx@.capacity, rx@.seq, tx@.sent().len());
                &&& rx@.seq < tx@.sent().len()
                &&& after@.current == Some(tx@.sent()[n as int])
                &&& after@.seq == n + 1
            },
            Err(TryRecvError::Disconnected) => rx@.seq == tx@.sent().len() && tx_gone
                && after@.current == rx@.current && after@.seq == rx@.seq,
            Err(TryRecvError::Empty) => rx@.seq == tx@.sent().len() && !tx_gone
                && after@.current == rx@.current && after@.seq == rx@.seq,
            Err(TryRecvError::Raced) => false,
        },
        keeps_up(tx@.capacity, after@.trace, followed(steps, false, more)) ==> came_about(
            tx,
            tx_gone,
            after,
            false,
            followed(steps, false, more),
        ),
{
    let moves = came_about_in_moves(tx, tx_gone, rx, false, steps);
    let c = play(channel_start(tx@.capacity, tx@.memory.slots_at_start()), moves)->0;
    a_lone_receiver_sees(tx, tx_gone, rx, steps, moves, c, r, after, more);
    receiving_alone(tx, rx, moves, c, r, after@);
    what_follows_comes_last(steps, false, more);
    what_was_sent_arrives(tx, rx, moves, c);
    values_arrive_in_order(tx@.capacity, tx@.memory.slots_at_start(), moves, c);
    let p = choose|p: Polled| can_poll(rx@, p) && #[trigger] comes_to(rx@, p, r, after@);
    assert(sees(c, after@.trace[rx@.trace.len() as int]));
}

/// A value that is sent into an empty channel, of whatever capacity, is the one that the next call
/// to receive lends, if no calls overlap. The channel is empty when the receiver is where the
/// sender is. `mid` is the sender after it has sent `val`, and `after` the receiver after it has
/// received it.
pub proof fn what_is_sent_is_received_next<T>(
    tx: &Sender<T>,
    rx: &Receiver<T>,
    steps: Seq<Step<Option<Box<T>>>>,
    val: T,
    mid: &Sender<T>,
    sending: Seq<Event<Option<Box<T>>>>,
    r: Result<(), TryRecvError>,
    after: &Receiver<T>,
    receiving: Seq<Event<Option<Box<T>>>>,
)
    requires
        came_about(tx, false, rx, false, steps),
        rx@.seq == tx@.sent().len() < u64::MAX,
        mid.in_phase(SenderPhase::Idle),
        publishes(tx@.staging(val), mid@),
        mid.history(false) == tx.history(false) + sending,
        unfolds(followed(steps, true, sending)) is Some,
        after.in_phase(ReceiverPhase::Idle),
        receives(rx@, r, after@),
        after.history(false) == rx.history(false) + receiving,
        unfolds(followed(followed(steps, true, sending), false, receiving)) is Some,
    ensures
        r is Ok,
        after@.current == Some(val),
        after@.seq == mid@.sent().len(),
{
    let tx2 = Sender { staged: Some(Box::new(val)), ..*tx };
    assert(tx2@ == tx@.staging(val));
    publishing_through_the_cells(&tx2, rx, false, steps, mid, sending);
    receiving_through_the_cells(
        mid,
        false,
        rx,
        followed(steps, true, sending),
        r,
        after,
        receiving,
    );
}

/// After whatever the two sides have done to the cells, [`Sender::is_connected`], with no call of
/// the other side overlapping, answers `true` if and only if the receiver has not left, and changes
/// no cell.
pub proof fn asking_the_cells_for_the_receiver<T>(
    tx: &Sender<T>,
    rx: &Receiver<T>,
    rx_gone: bool,
    steps: Seq<Step<Option<Box<T>>>>,
    connected: bool,
)
    requires
        came_about(tx, false, rx, rx_gone, steps),
        unfolds(followed(steps, true, seq![tx.asking(!connected)])) is Some,
    ensures
        tx@.memory.may_show_receiver_gone(!connected) <==> happened(tx.asking(!connected)),
        unfolds(followed(steps, true, seq![tx.asking(!connected)])) == unfolds(steps),
        connected == !rx_gone,
{
    let moves = came_about_in_moves(tx, false, rx, rx_gone, steps);
    let event = tx.asking(!connected);
    what_follows_comes_about(steps, true, seq![event]);
    assert(comes_about(steps, true, seq![event], 0));
    tx.shared.m().receiver_disconnected.reading_tells::<Option<Box<T>>>(!connected);
}

/// Construct a new bounded overwriting channel with the given capacity.
///
/// All slots are initialized with [`Default::default`]. The capacity must be at least 1, and at
/// most `u32::MAX - 2`.
///
/// The [`Receiver`] will not see any value until the [`Sender`] publishes one, but the receiver's
/// slot is always accessible via [`Receiver::get`] / [`Receiver::get_mut`].
pub fn channel<T: Default>(capacity: usize) -> (r: (Sender<T>, Receiver<T>))
    requires
        1 <= capacity <= u32::MAX - 2,
    ensures
        r.0.wf(),
        r.1.wf(),
        r.0@ == sender_at_start(capacity as u32, r.0@.memory, r.0@.initial),
        r.1@ == receiver_at_start(capacity as u32, r.0@.memory, r.0@.initial),
        r.0@.memory.starts_as(
            channel_start(capacity as u32, slots_with(capacity as u32, r.0@.initial)),
        ),
        r.0@.initial.len() == slot_count(capacity as u32),
        forall|i: int|
            0 <= i < r.0@.initial.len() ==> call_ensures(
                T::default,
                (),
                #[trigger] r.0@.initial[i],
            ),
{
    channel_with(capacity, T::default)
}

/// Construct a new bounded, overwriting channel with the given capacity, initializing all slots by
/// repeatedly calling `init`.
///
/// The capacity must be at least 1, and at most `u32::MAX - 2`. `init` is called `capacity + 2`
/// times.
pub fn channel_with<T>(capacity: usize, mut init: impl FnMut() -> T) -> (r: (
    Sender<T>,
    Receiver<T>,
))
    requires
        1 <= capacity <= u32::MAX - 2,
        init.requires(()),
    ensures
        r.0.wf(),
        r.1.wf(),
        r.0@ == sender_at_start(capacity as u32, r.0@.memory, r.0@.initial),
        r.1@ == receiver_at_start(capacity as u32, r.0@.memory, r.0@.initial),
        r.0@.memory.starts_as(
            channel_start(capacity as u32, slots_with(capacity as u32, r.0@.initial)),
        ),
        r.0@.initial.len() == slot_count(capacity as u32),
        forall|i: int|
            0 <= i < r.0@.initial.len() ==> init.ensures((), #[trigger] r.0@.initial[i]),
{
    let capacity: u32 = capacity as u32;
    let (mut region, tx_log, tx_pass, rx_log, rx_pass) = Region::new();
    let ghost name = region.name();
    let mut slots: Vec<Slot<Option<Box<T>>>> = Vec::new();
    let mut entries: Vec<Word> = Vec::new();
    let ghost mut initial: Seq<T> = Seq::empty();
    let ghost given = init;
    // Entry `i` holds slot `i`, under sequence number 0.
    let mut i: u32 = 0;
    while i < capacity
        invariant
            i <= capacity,
            slots.len() == i,
            entries.len() == i,
            region.name() == name,
            region.next() == 2 * i,
            forall|k: int| 0 <= k < slots.len() ==> (#[trigger] slots[k]).id() == 2 * k,
            forall|k: int| 0 <= k < entries.len() ==> (#[trigger] entries[k]).id() == 2 * k + 1,
            initial.len() == i,
            forall|k: int|
                0 <= k < slots.len() ==> (#[trigger] slots[k]).region() == name,
            forall|k: int|
                0 <= k < entries.len() ==> (#[trigger] entries[k]).region() == name,
            forall|k: int|
                0 <= k < i ==> unboxed((#[trigger] slots[k]).first()) == Some(initial[k]),
            forall|k: int|
                0 <= k < i ==> (#[trigger] entries[k]).first() == packed((0, k as u32)),
            init == given,
            init.requires(()),
            forall|k: int| 0 <= k < i ==> init.ensures((), #[trigger] initial[k]),
        decreases capacity - i,
    {
        let val = init();
        proof {
            initial = initial.push(val);
        }
        slots.push(Slot::new(Some(Box::new(val)), &mut region));
        entries.push(Word::new(Entry::pack(0, i), &mut region));
        i = i + 1;
    }
    // Slot `capacity` is the receiver's at the start, and slot `capacity + 1` the sender's.
    let current = init();
    let staged = init();
    proof {
        initial = initial.push(current).push(staged);
    }
    slots.push(Slot::new(None, &mut region));
    slots.push(Slot::new(None, &mut region));

    let shared = Arc::new(
        Shared {
            slots,
            entries,
            sender_seq: Word::new(0, &mut region),
            capacity,
            sender_disconnected: Flag::new::<Tx>(&mut region),
            receiver_disconnected: Flag::new::<Rx>(&mut region),
            left_by_sender: Place::new::<Tx>(None, &region),
            left_by_receiver: Place::new::<Rx>(None, &region),
        },
    );
    let tx = Sender {
        shared: Tie::new(shared.clone(), tx_pass),
        slot: capacity + 1,
        seq: 0,
        staged: Some(Box::new(staged)),
        log: tx_log,
        trace: Ghost(Seq::empty()),
        initial: Ghost(initial),
    };
    let rx = Receiver {
        shared: Tie::new(shared, rx_pass),
        slot: capacity,
        seq: 0,
        seen: 0,
        current: Some(Box::new(current)),
        log: rx_log,
        trace: Ghost(Seq::empty()),
        initial: Ghost(initial),
    };
    assert(tx.shared.m().slots_at_start() =~= slots_with(capacity, initial));
    assert(tx.shared.m().is_set_up()) by {
        reveal(Shared::is_set_up);
    }
    assert(tx.log@ =~= sender_events(tx.shared.m(), tx.trace@));
    assert(rx.log@ =~= receiver_events(rx.shared.m(), rx.trace@));
    (tx, rx)
}

} // verus!
