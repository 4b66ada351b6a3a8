//! The protocol of the overwriting channel.
//!
//! There are `capacity + 2` slots. Each of the `capacity` entries of a ring names one slot and the
//! sequence number under which it was published; the sender and the receiver each own one of the
//! two slots that no entry names. A side takes the value of the slot that it gets out of it, and
//! puts its value into the slot before it gives the slot up.
//!
//! [`sender_step`] and [`receiver_step`] say which accesses to shared memory each side makes, and
//! in which order. [`Channel`] is the whole channel: both sides and the memory between them. Its
//! accesses take effect one at a time, in any interleaving of the two sides; a load of what the
//! sender announces may miss what it announced last, and a load of an entry may see what the entry
//! held at any time since what the receiver last saw announced.
//!
//! Sequence numbers are positions in the stream of values, counted with 64 bits. An entry holds the
//! lower half of one.

use crate::counter::{
    counters_follow_positions, distances_are_modular, laps_share_slots,
    near_positions_have_own_slots, period, slot_of, slots_follow_positions, steps, wrap,
};
use vstd::prelude::*;

verus! {

/// An access of the sender to shared memory.
pub enum SenderAccess<T> {
    /// Puts a value into a slot. `displaced` was there before.
    FillSlot { slot: u32, val: T, displaced: Option<T> },
    /// Swaps the `(sequence number, slot)` pair of an entry.
    SwapEntry { index: u32, given: (u32, u32), taken: (u32, u32) },
    /// Announces how many values have been published.
    StoreSeq(u64),
    /// Takes what is in a slot out of it.
    TakeSlot { slot: u32, got: Option<T> },
}

/// An access of the receiver to shared memory.
pub enum ReceiverAccess<T> {
    /// Reads how many values have been announced.
    LoadSeq(u64),
    /// Reads whether the sender has disconnected.
    LoadGone(bool),
    /// Puts a value into a slot. `displaced` was there before.
    FillSlot { slot: u32, val: T, displaced: Option<T> },
    /// Reads the `(sequence number, slot)` pair of an entry.
    LoadEntry { index: u32, entry: (u32, u32) },
    /// Replaces the pair of an entry if it is still `expect`. `acquire` says whether to acquire the
    /// entry, `found` is the pair that was there, and `done` says whether it was replaced.
    ClaimEntry {
        index: u32,
        expect: (u32, u32),
        given: (u32, u32),
        acquire: bool,
        found: (u32, u32),
        done: bool,
    },
    /// Takes what is in a slot out of it.
    TakeSlot { slot: u32, got: Option<T> },
}

/// How far the sender is in publishing a value.
pub enum SenderPhase {
    /// Not publishing.
    Idle,
    /// The value is in the sender's slot.
    Staged,
    /// The slot is in an entry, and the slot that was there is the sender's.
    Swapped,
    /// The new sequence number is visible.
    Announced,
}

/// What the sender knows.
pub struct SenderState {
    pub capacity: u32,
    pub seq: u64,
    pub slot: u32,
    pub phase: SenderPhase,
}

/// How far the receiver is in receiving a value.
pub enum ReceiverPhase {
    /// Not receiving.
    Idle,
    /// Found nothing new.
    Dry,
    /// Found nothing new, and then found the sender gone.
    Orphaned,
    /// There is something new, from `seq` on.
    Due,
    /// The value the receiver held is in its slot; the entry at `seq` is next.
    First,
    /// The entry at `seq` was seen to hold the named slot.
    FirstSeen(u32),
    /// The sender overwrote the entry; the one after it is next.
    Second,
    /// The entry at `seq` was seen to hold the named slot.
    SecondSeen(u32),
    /// The receiver's slot was exchanged for that of an entry.
    Claimed,
    /// The sender overwrote the second entry, too.
    Missed,
}

/// What the receiver knows.
pub struct ReceiverState {
    pub capacity: u32,
    pub seq: u64,
    /// How many values were announced when the receiver last looked.
    pub seen: u64,
    pub slot: u32,
    pub phase: ReceiverPhase,
}

/// The number of slots of a channel.
pub open spec fn slot_count(capacity: u32) -> int {
    capacity + 2
}

/// The slot that a side owns after an exchange that gave it slot `got` for its slot `own`. An
/// entry never names a slot that does not exist.
pub open spec fn taken_slot(capacity: u32, got: u32, own: u32) -> u32 {
    if got < slot_count(capacity) {
        got
    } else {
        own
    }
}

/// The entry that sequence number `seq` falls on.
pub open spec fn entry_of(capacity: u32, seq: u64) -> u32 {
    slot_of(seq as nat, capacity as nat) as u32
}

/// The lower half of a sequence number, as entries hold it.
pub open spec fn lower(seq: u64) -> u32 {
    wrap(seq as nat)
}

/// The sequence number `by` steps after `seq`.
pub open spec fn ahead(seq: u64, by: int) -> u64 {
    if seq + by > u64::MAX {
        (seq + by - u64::MAX - 1) as u64
    } else {
        (seq + by) as u64
    }
}

/// The sequence number that the receiver goes on with when it is at `seq` and sees that the sender
/// has announced `n` values: if it was lapped, that of the oldest entry.
pub open spec fn resume(capacity: u32, seq: u64, n: u64) -> u64 {
    if n - seq > capacity {
        (n - capacity) as u64
    } else {
        seq
    }
}

/// The number in the entry at position `seen` as long as nothing is published there: that of a lap
/// before, or what the entry held at the start.
pub open spec fn outdated(capacity: u32, seen: u64) -> u32 {
    if seen >= capacity {
        lower((seen - capacity) as u64)
    } else {
        0
    }
}

/// The sequence number after the first one from `seq` on whose lower half is `number`.
pub open spec fn beyond(seq: u64, number: u32) -> u64 {
    ahead(seq, steps(lower(seq), number) + 1)
}

/// Where the receiver goes on when it is at `seq` and saw that the entry there holds `number`:
/// after the value that was published there. It stays if it may only have missed what was published
/// last.
pub open spec fn bumped(capacity: u32, seq: u64, seen: u64, number: u32) -> u64 {
    if seq == seen && number == outdated(capacity, seen) {
        seq
    } else {
        beyond(seq, number)
    }
}

/// The sender at the start.
pub open spec fn sender_start(capacity: u32) -> SenderState {
    SenderState { capacity, seq: 0, slot: (capacity + 1) as u32, phase: SenderPhase::Idle }
}

/// The receiver at the start.
pub open spec fn receiver_start(capacity: u32) -> ReceiverState {
    ReceiverState { capacity, seq: 0, seen: 0, slot: capacity, phase: ReceiverPhase::Idle }
}

/// The sender after access `a`, if it may make that access now.
pub open spec fn sender_step<T>(s: SenderState, a: SenderAccess<T>) -> Option<SenderState> {
    match (s.phase, a) {
        (SenderPhase::Idle, SenderAccess::FillSlot { slot, val, displaced }) => if slot == s.slot {
            Some(SenderState { phase: SenderPhase::Staged, ..s })
        } else {
            None
        },
        (SenderPhase::Staged, SenderAccess::SwapEntry { index, given, taken }) => {
            if index == entry_of(s.capacity, s.seq) && given == (lower(s.seq), s.slot) {
                Some(
                    SenderState {
                        seq: ahead(s.seq, 1),
                        slot: taken_slot(s.capacity, taken.1, s.slot),
                        phase: SenderPhase::Swapped,
                        ..s
                    },
                )
            } else {
                None
            }
        },
        (SenderPhase::Swapped, SenderAccess::StoreSeq(seq)) => if seq == s.seq {
            Some(SenderState { phase: SenderPhase::Announced, ..s })
        } else {
            None
        },
        (SenderPhase::Announced, SenderAccess::TakeSlot { slot, got }) => if slot == s.slot {
            Some(SenderState { phase: SenderPhase::Idle, ..s })
        } else {
            None
        },
        _ => None,
    }
}

/// The receiver after it has seen that `n` values are announced. If that does not go beyond where
/// it is, it found nothing new, and `dry` is next.
pub open spec fn receiver_looks(s: ReceiverState, n: u64, dry: ReceiverPhase) -> ReceiverState {
    if n <= s.seq {
        ReceiverState { seen: n, phase: dry, ..s }
    } else {
        ReceiverState {
            seq: resume(s.capacity, s.seq, n),
            seen: n,
            phase: ReceiverPhase::Due,
            ..s
        }
    }
}

/// The receiver after it has exchanged its slot for slot `slot` of the entry at `seq`.
pub open spec fn receiver_claims(s: ReceiverState, slot: u32) -> ReceiverState {
    ReceiverState {
        seq: ahead(s.seq, 1),
        slot: taken_slot(s.capacity, slot, s.slot),
        phase: ReceiverPhase::Claimed,
        ..s
    }
}

/// The receiver after access `a`, if it may make that access now.
pub open spec fn receiver_step<T>(s: ReceiverState, a: ReceiverAccess<T>) -> Option<ReceiverState> {
    match (s.phase, a) {
        (ReceiverPhase::Idle, ReceiverAccess::LoadSeq(n)) => Some(
            receiver_looks(s, n, ReceiverPhase::Dry),
        ),
        (ReceiverPhase::Dry, ReceiverAccess::LoadGone(gone)) => if gone {
            Some(ReceiverState { phase: ReceiverPhase::Orphaned, ..s })
        } else {
            Some(ReceiverState { phase: ReceiverPhase::Idle, ..s })
        },
        (ReceiverPhase::Orphaned, ReceiverAccess::LoadSeq(n)) => Some(
            receiver_looks(s, n, ReceiverPhase::Idle),
        ),
        (ReceiverPhase::Due, ReceiverAccess::FillSlot { slot, val, displaced }) => if slot
            == s.slot {
            Some(ReceiverState { phase: ReceiverPhase::First, ..s })
        } else {
            None
        },
        (ReceiverPhase::First, ReceiverAccess::LoadEntry { index, entry }) => {
            if index != entry_of(s.capacity, s.seq) {
                None
            } else if entry.0 == lower(s.seq) {
                Some(ReceiverState { phase: ReceiverPhase::FirstSeen(entry.1), ..s })
            } else {
                Some(ReceiverState { seq: ahead(s.seq, 1), phase: ReceiverPhase::Second, ..s })
            }
        },
        (
            ReceiverPhase::FirstSeen(seen),
            ReceiverAccess::ClaimEntry { index, expect, given, acquire, found, done },
        ) => {
            if index != entry_of(s.capacity, s.seq) || expect != (lower(s.seq), seen) || given != (
                lower(s.seq),
                s.slot,
            ) || acquire {
                None
            } else if done {
                Some(receiver_claims(s, seen))
            } else {
                Some(ReceiverState { seq: ahead(s.seq, 1), phase: ReceiverPhase::Second, ..s })
            }
        },
        (ReceiverPhase::Second, ReceiverAccess::LoadEntry { index, entry }) => {
            if index != entry_of(s.capacity, s.seq) {
                None
            } else if entry.0 == lower(s.seq) {
                Some(ReceiverState { phase: ReceiverPhase::SecondSeen(entry.1), ..s })
            } else {
                Some(
                    ReceiverState {
                        seq: bumped(s.capacity, s.seq, s.seen, entry.0),
                        phase: ReceiverPhase::Missed,
                        ..s
                    },
                )
            }
        },
        (
            ReceiverPhase::SecondSeen(seen),
            ReceiverAccess::ClaimEntry { index, expect, given, acquire, found, done },
        ) => {
            if index != entry_of(s.capacity, s.seq) || expect != (lower(s.seq), seen) || given != (
                lower(s.seq),
                s.slot,
            ) || !acquire {
                None
            } else if done {
                Some(receiver_claims(s, seen))
            } else {
                Some(
                    ReceiverState {
                        seq: beyond(s.seq, found.0),
                        phase: ReceiverPhase::Missed,
                        ..s
                    },
                )
            }
        },
        (ReceiverPhase::Claimed, ReceiverAccess::TakeSlot { slot, got }) => if slot == s.slot {
            Some(ReceiverState { phase: ReceiverPhase::Idle, ..s })
        } else {
            None
        },
        (ReceiverPhase::Missed, ReceiverAccess::TakeSlot { slot, got }) => if slot == s.slot {
            Some(ReceiverState { phase: ReceiverPhase::Idle, ..s })
        } else {
            None
        },
        _ => None,
    }
}

/// The sender, if it has come this far, after one more access.
pub open spec fn sender_then<T>(s: Option<SenderState>, a: SenderAccess<T>) -> Option<SenderState> {
    match s {
        Some(s) => sender_step(s, a),
        None => None,
    }
}

/// The receiver, if it has come this far, after one more access.
pub open spec fn receiver_then<T>(s: Option<ReceiverState>, a: ReceiverAccess<T>) -> Option<
    ReceiverState,
> {
    match s {
        Some(s) => receiver_step(s, a),
        None => None,
    }
}

/// The sender after all the accesses of `trace`, if it may make them.
pub open spec fn sender_run<T>(capacity: u32, trace: Seq<SenderAccess<T>>) -> Option<SenderState>
    decreases trace.len(),
{
    if trace.len() == 0 {
        Some(sender_start(capacity))
    } else {
        sender_then(sender_run(capacity, trace.drop_last()), trace.last())
    }
}

/// The receiver after all the accesses of `trace`, if it may make them.
pub open spec fn receiver_run<T>(capacity: u32, trace: Seq<ReceiverAccess<T>>) -> Option<
    ReceiverState,
>
    decreases trace.len(),
{
    if trace.len() == 0 {
        Some(receiver_start(capacity))
    } else {
        receiver_then(receiver_run(capacity, trace.drop_last()), trace.last())
    }
}

/// One more access of the sender.
pub proof fn sender_run_extends<T>(capacity: u32, trace: Seq<SenderAccess<T>>, a: SenderAccess<T>)
    ensures
        sender_run(capacity, trace.push(a)) == sender_then(sender_run(capacity, trace), a),
{
    assert(trace.push(a).drop_last() =~= trace);
}

/// One more access of the receiver.
pub proof fn receiver_run_extends<T>(
    capacity: u32,
    trace: Seq<ReceiverAccess<T>>,
    a: ReceiverAccess<T>,
)
    ensures
        receiver_run(capacity, trace.push(a)) == receiver_then(receiver_run(capacity, trace), a),
{
    assert(trace.push(a).drop_last() =~= trace);
}

/// The values that the sender has put into its slot to publish them, in order.
pub open spec fn sent_by<T>(trace: Seq<SenderAccess<T>>) -> Seq<T>
    decreases trace.len(),
{
    if trace.len() == 0 {
        Seq::empty()
    } else {
        match trace.last() {
            SenderAccess::FillSlot { slot, val, displaced } => sent_by(trace.drop_last()).push(val),
            _ => sent_by(trace.drop_last()),
        }
    }
}

/// The values that the receiver has got out of slots that it claimed, in order.
pub open spec fn received_by<T>(capacity: u32, trace: Seq<ReceiverAccess<T>>) -> Seq<T>
    decreases trace.len(),
{
    if trace.len() == 0 {
        Seq::empty()
    } else {
        let received = received_by(capacity, trace.drop_last());
        match (receiver_run(capacity, trace.drop_last()), trace.last()) {
            (Some(s), ReceiverAccess::TakeSlot { slot, got: Some(val) }) => if s.phase is Claimed {
                received.push(val)
            } else {
                received
            },
            _ => received,
        }
    }
}

/// The value that the receiver last put into its slot.
pub open spec fn held_by<T>(trace: Seq<ReceiverAccess<T>>) -> Option<T>
    decreases trace.len(),
{
    if trace.len() == 0 {
        None
    } else {
        match trace.last() {
            ReceiverAccess::FillSlot { slot, val, displaced } => Some(val),
            _ => held_by(trace.drop_last()),
        }
    }
}

/// The values that the receiver has given up for what it claimed, in order.
pub open spec fn returned_by<T>(trace: Seq<ReceiverAccess<T>>) -> Seq<T>
    decreases trace.len(),
{
    if trace.len() == 0 {
        Seq::empty()
    } else {
        match trace.last() {
            ReceiverAccess::ClaimEntry { index, expect, given, acquire, found, done: true } =>
                returned_by(trace.drop_last()).push(held_by(trace.drop_last())->0),
            _ => returned_by(trace.drop_last()),
        }
    }
}

/// What one more access of the sender adds to what it has sent.
pub broadcast proof fn sent_by_extends<T>(trace: Seq<SenderAccess<T>>, a: SenderAccess<T>)
    ensures
        #[trigger] sent_by(trace.push(a)) == (match a {
            SenderAccess::FillSlot { slot, val, displaced } => sent_by(trace).push(val),
            _ => sent_by(trace),
        }),
{
    assert(trace.push(a).drop_last() =~= trace);
}

/// What one more access of the receiver adds to what it has received.
pub broadcast proof fn received_by_extends<T>(
    capacity: u32,
    trace: Seq<ReceiverAccess<T>>,
    a: ReceiverAccess<T>,
)
    ensures
        #[trigger] received_by(capacity, trace.push(a)) == (match (
            receiver_run(capacity, trace),
            a,
        ) {
            (Some(s), ReceiverAccess::TakeSlot { slot, got: Some(val) }) => if s.phase is Claimed {
                received_by(capacity, trace).push(val)
            } else {
                received_by(capacity, trace)
            },
            _ => received_by(capacity, trace),
        }),
{
    assert(trace.push(a).drop_last() =~= trace);
}

/// What one more access of the receiver makes of the value that it last put into its slot.
pub broadcast proof fn held_by_extends<T>(trace: Seq<ReceiverAccess<T>>, a: ReceiverAccess<T>)
    ensures
        #[trigger] held_by(trace.push(a)) == (match a {
            ReceiverAccess::FillSlot { slot, val, displaced } => Some(val),
            _ => held_by(trace),
        }),
{
    assert(trace.push(a).drop_last() =~= trace);
}

/// What one more access of the receiver adds to what it has given up.
pub broadcast proof fn returned_by_extends<T>(trace: Seq<ReceiverAccess<T>>, a: ReceiverAccess<T>)
    ensures
        #[trigger] returned_by(trace.push(a)) == (match a {
            ReceiverAccess::ClaimEntry { index, expect, given, acquire, found, done: true } =>
                returned_by(trace).push(held_by(trace)->0),
            _ => returned_by(trace),
        }),
{
    assert(trace.push(a).drop_last() =~= trace);
}

/// The whole channel.
#[verifier::ext_equal]
pub struct Channel<T> {
    pub sender: SenderState,
    pub receiver: ReceiverState,
    /// What is in each slot. A side takes the value of the slot that it owns out of it.
    pub slots: Seq<Option<T>>,
    /// The `(sequence number, slot)` pair of each entry.
    pub entries: Seq<(u32, u32)>,
    /// How many values have been announced.
    pub tail: nat,
    /// Whether the sender has disconnected.
    pub sender_gone: bool,
    /// Whether the receiver has disconnected.
    pub receiver_gone: bool,
    /// Whether the sender was told that the receiver has disconnected.
    pub told_gone: bool,
    /// Every value that the sender has put into its slot to publish it, in order.
    pub sent: Seq<T>,
    /// How many of these it has published.
    pub published: nat,
    /// For each entry, the position in `sent` of the value last published there.
    pub last: Seq<Option<nat>>,
    /// The positions in `sent` that the receiver has claimed, in order.
    pub claimed: Seq<nat>,
    /// The values that the receiver has received, in order.
    pub received: Seq<T>,
    /// The values that the receiver has given up for what it claimed, in order.
    pub returned: Seq<T>,
    /// For each entry, what the receiver has put there since something was published there.
    pub left: Seq<Option<T>>,
    /// What was in each slot at first.
    pub first: Seq<Option<T>>,
    /// How many announced values the receiver does not miss if it looks again.
    pub known: nat,
    /// The value that the receiver last put into its slot.
    pub held: Option<T>,
    /// What was in the slot that the sender last got out of an entry.
    pub reclaimed: Option<T>,
}

/// A channel with the given slots at the start.
pub open spec fn channel_start<T>(capacity: u32, slots: Seq<Option<T>>) -> Channel<T> {
    Channel {
        sender: sender_start(capacity),
        receiver: receiver_start(capacity),
        slots,
        entries: Seq::new(capacity as nat, |i: int| (0u32, i as u32)),
        tail: 0,
        sender_gone: false,
        receiver_gone: false,
        told_gone: false,
        sent: Seq::empty(),
        published: 0,
        last: Seq::new(capacity as nat, |i: int| None),
        claimed: Seq::empty(),
        received: Seq::empty(),
        returned: Seq::empty(),
        left: Seq::new(capacity as nat, |i: int| None),
        first: slots,
        known: 0,
        held: None,
        reclaimed: None,
    }
}

/// The slots of a new channel: those of the entries hold a value each, and the two sides have the
/// values of theirs at hand.
pub open spec fn fit_to_start<T>(capacity: u32, slots: Seq<Option<T>>) -> bool {
    &&& slots.len() == slot_count(capacity)
    &&& forall|i: int| 0 <= i < capacity ==> #[trigger] slots[i] is Some
    &&& slots[capacity as int] is None
    &&& slots[capacity + 1] is None
}

/// Access `a` of the sender is one that it may make now, and it gets what the memory holds.
pub open spec fn sender_can<T>(c: Channel<T>, a: SenderAccess<T>) -> bool {
    &&& !c.sender_gone
    &&& sender_step(c.sender, a) is Some
    &&& match a {
        SenderAccess::FillSlot { slot, val, displaced } => displaced == c.slots[slot as int],
        SenderAccess::SwapEntry { index, given, taken } => taken == c.entries[index as int],
        SenderAccess::StoreSeq(_) => true,
        SenderAccess::TakeSlot { slot, got } => got == c.slots[slot as int],
    }
}

/// The channel after access `a` of the sender.
pub open spec fn after_sender<T>(c: Channel<T>, a: SenderAccess<T>) -> Channel<T> {
    let sender = sender_step(c.sender, a)->0;
    match a {
        SenderAccess::FillSlot { slot, val, displaced } => Channel {
            sender,
            slots: c.slots.update(slot as int, Some(val)),
            sent: c.sent.push(val),
            ..c
        },
        SenderAccess::SwapEntry { index, given, taken } => Channel {
            sender,
            entries: c.entries.update(index as int, given),
            published: c.published + 1,
            last: c.last.update(index as int, Some(c.published)),
            left: c.left.update(index as int, None),
            reclaimed: c.slots[taken.1 as int],
            ..c
        },
        SenderAccess::StoreSeq(_) => Channel { sender, tail: c.tail + 1, ..c },
        SenderAccess::TakeSlot { slot, got } => Channel {
            sender,
            slots: c.slots.update(slot as int, None),
            ..c
        },
    }
}

/// The value at position `q` is one that a look of the receiver at an entry may find there: it was
/// published there, and it was still there when what the receiver last saw was announced. If there
/// is only one entry, a second look does not find what the first saw to be overwritten.
pub open spec fn may_lie<T>(c: Channel<T>, index: u32, q: nat) -> bool {
    let cap = c.sender.capacity;
    &&& slot_of(q, cap as nat) == index
    &&& q < c.published
    &&& c.receiver.seen <= q + cap
    &&& cap == 1 && c.receiver.phase is Second ==> c.receiver.seq <= q
}

/// A look of the receiver at an entry shows `entry`, with the value at position `q`.
pub open spec fn shows_at<T>(c: Channel<T>, index: u32, entry: (u32, u32), q: nat) -> bool {
    &&& may_lie(c, index, q)
    &&& entry.0 == wrap(q)
    &&& c.last[index as int] == Some(q) ==> entry == c.entries[index as int]
}

/// A look of the receiver at an entry may show `entry`: what it held at some time since what the
/// receiver last saw was announced.
pub open spec fn shows<T>(c: Channel<T>, index: u32, entry: (u32, u32)) -> bool {
    ||| exists|q: nat| #[trigger] shows_at(c, index, entry, q)
    ||| c.receiver.seen <= index && entry.0 == 0
}

/// Access `a` of the receiver is one that it may make now, and it gets what the memory holds. A
/// look at what is announced may miss the latest, and so may a look at an entry. An attempt to
/// claim an entry does not; but if it fails, what it finds there may not be the latest that
/// overwrote what the receiver saw.
pub open spec fn receiver_can<T>(c: Channel<T>, a: ReceiverAccess<T>) -> bool {
    &&& !c.receiver_gone
    &&& receiver_step(c.receiver, a) is Some
    &&& match a {
        ReceiverAccess::LoadSeq(n) => c.known <= n <= c.tail,
        ReceiverAccess::LoadGone(gone) => gone ==> c.sender_gone,
        ReceiverAccess::FillSlot { slot, val, displaced } => displaced == c.slots[slot as int],
        ReceiverAccess::TakeSlot { slot, got } => got == c.slots[slot as int],
        ReceiverAccess::LoadEntry { index, entry } => shows(c, index, entry),
        ReceiverAccess::ClaimEntry { index, expect, given, acquire, found, done } => {
            &&& done == (c.entries[index as int] == expect)
            &&& if done {
                found == expect
            } else {
                exists|q: nat| #[trigger] shows_at(c, index, found, q) && c.receiver.seq < q
            }
        },
    }
}

/// The channel after access `a` of the receiver.
pub open spec fn after_receiver<T>(c: Channel<T>, a: ReceiverAccess<T>) -> Channel<T> {
    let receiver = receiver_step(c.receiver, a)->0;
    match a {
        ReceiverAccess::LoadSeq(n) => Channel { receiver, known: n as nat, ..c },
        ReceiverAccess::LoadGone(gone) => Channel {
            receiver,
            known: if gone {
                c.tail
            } else {
                c.known
            },
            ..c
        },
        ReceiverAccess::FillSlot { slot, val, displaced } => Channel {
            receiver,
            slots: c.slots.update(slot as int, Some(val)),
            held: Some(val),
            ..c
        },
        ReceiverAccess::TakeSlot { slot, got } => Channel {
            receiver,
            slots: c.slots.update(slot as int, None),
            received: match got {
                Some(val) => if c.receiver.phase is Claimed {
                    c.received.push(val)
                } else {
                    c.received
                },
                None => c.received,
            },
            ..c
        },
        ReceiverAccess::LoadEntry { index, entry } => Channel { receiver, ..c },
        ReceiverAccess::ClaimEntry { index, expect, given, acquire, found, done } => if done {
            Channel {
                receiver,
                entries: c.entries.update(index as int, given),
                claimed: match c.last[index as int] {
                    Some(p) => c.claimed.push(p),
                    None => c.claimed,
                },
                returned: c.returned.push(c.held->0),
                left: c.left.update(index as int, Some(c.held->0)),
                ..c
            }
        } else {
            Channel { receiver, ..c }
        },
    }
}

/// The owner of each slot: the slot that each entry names, then that of the receiver and that of
/// the sender.
pub open spec fn owned<T>(c: Channel<T>, k: int) -> u32 {
    if k < c.entries.len() {
        c.entries[k].1
    } else if k == c.entries.len() {
        c.receiver.slot
    } else {
        c.sender.slot
    }
}

/// Every slot has one owner, and every side and every entry owns one slot.
pub open spec fn slots_partitioned<T>(c: Channel<T>) -> bool {
    let cap = c.sender.capacity;
    &&& 1 <= cap <= u32::MAX - 2
    &&& c.receiver.capacity == cap
    &&& c.slots.len() == slot_count(cap)
    &&& c.entries.len() == cap
    &&& c.last.len() == cap
    &&& c.left.len() == cap
    &&& forall|k: int| 0 <= k < slot_count(cap) ==> #[trigger] owned(c, k) < slot_count(cap)
    &&& forall|j: int, k: int|
        0 <= j < k < slot_count(cap) ==> #[trigger] owned(c, j) != #[trigger] owned(c, k)
}

/// The slots are partitioned at the start.
pub proof fn partitioned_at_the_start<T>(capacity: u32, slots: Seq<Option<T>>)
    requires
        1 <= capacity <= u32::MAX - 2,
        fit_to_start(capacity, slots),
    ensures
        slots_partitioned(channel_start(capacity, slots)),
{
    let c = channel_start(capacity, slots);
    assert forall|k: int| 0 <= k < slot_count(capacity) implies #[trigger] owned(c, k) == k by {}
}

/// Whatever the sender does, the slots stay partitioned.
pub proof fn sender_keeps_partition<T>(c: Channel<T>, a: SenderAccess<T>)
    requires
        slots_partitioned(c),
        sender_can(c, a),
    ensures
        slots_partitioned(after_sender(c, a)),
{
    let d = after_sender(c, a);
    let cap = c.sender.capacity;
    sides_own_distinct_slots(c);
    match a {
        SenderAccess::SwapEntry { index, given, taken } => {
            let i = index as int;
            slots_follow_positions(c.sender.seq as nat, cap as nat);
            assert(i < cap);
            assert(owned(c, i) == taken.1);
            assert(owned(d, i) == c.sender.slot);
            assert(owned(c, cap + 1) == c.sender.slot);
            assert(owned(d, cap + 1) == taken.1);
            assert forall|k: int| 0 <= k < slot_count(cap) && k != i && k != cap
                + 1 implies #[trigger] owned(d, k) == owned(c, k) by {}
            assert forall|j: int, k: int| 0 <= j < k < slot_count(cap) implies #[trigger] owned(
                d,
                j,
            ) != #[trigger] owned(d, k) by {
                let jj = if j == i {
                    cap + 1
                } else if j == cap + 1 {
                    i
                } else {
                    j
                };
                let kk = if k == i {
                    cap + 1
                } else if k == cap + 1 {
                    i
                } else {
                    k
                };
                assert(owned(d, j) == owned(c, jj));
                assert(owned(d, k) == owned(c, kk));
            }
            assert forall|k: int| 0 <= k < slot_count(cap) implies #[trigger] owned(d, k)
                < slot_count(cap) by {
                if k != i && k != cap + 1 {
                    assert(owned(d, k) == owned(c, k));
                }
            }
        },
        _ => {
            assert forall|k: int| 0 <= k < slot_count(cap) implies #[trigger] owned(d, k) == owned(
                c,
                k,
            ) by {}
        },
    }
}

/// Whatever the receiver does, the slots stay partitioned.
pub proof fn receiver_keeps_partition<T>(c: Channel<T>, a: ReceiverAccess<T>)
    requires
        slots_partitioned(c),
        receiver_can(c, a),
    ensures
        slots_partitioned(after_receiver(c, a)),
{
    let d = after_receiver(c, a);
    let cap = c.sender.capacity;
    sides_own_distinct_slots(c);
    match a {
        ReceiverAccess::ClaimEntry { index, expect, given, acquire, found, done } => {
            let i = index as int;
            slots_follow_positions(c.receiver.seq as nat, cap as nat);
            assert(i < cap);
            if done {
                assert(owned(c, i) == found.1);
                assert(owned(d, i) == c.receiver.slot);
                assert(owned(c, cap as int) == c.receiver.slot);
                assert(owned(d, cap as int) == found.1);
                assert forall|k: int| 0 <= k < slot_count(cap) && k != i && k
                    != cap implies #[trigger] owned(d, k) == owned(c, k) by {}
                assert forall|j: int, k: int| 0 <= j < k < slot_count(cap) implies #[trigger] owned(
                    d,
                    j,
                ) != #[trigger] owned(d, k) by {
                    let jj = if j == i {
                        cap as int
                    } else if j == cap {
                        i
                    } else {
                        j
                    };
                    let kk = if k == i {
                        cap as int
                    } else if k == cap {
                        i
                    } else {
                        k
                    };
                    assert(owned(d, j) == owned(c, jj));
                    assert(owned(d, k) == owned(c, kk));
                }
                assert forall|k: int| 0 <= k < slot_count(cap) implies #[trigger] owned(d, k)
                    < slot_count(cap) by {
                    if k != i && k != cap {
                        assert(owned(d, k) == owned(c, k));
                    }
                }
            } else {
                assert forall|k: int| 0 <= k < slot_count(cap) implies #[trigger] owned(d, k)
                    == owned(c, k) by {}
            }
        },
        _ => {
            assert forall|k: int| 0 <= k < slot_count(cap) implies #[trigger] owned(d, k) == owned(
                c,
                k,
            ) by {}
        },
    }
}

/// The two sides never own the same slot, so that what one lends out the other cannot touch.
pub proof fn sides_own_distinct_slots<T>(c: Channel<T>)
    requires
        slots_partitioned(c),
    ensures
        c.sender.slot != c.receiver.slot,
        c.sender.slot < slot_count(c.sender.capacity),
        c.receiver.slot < slot_count(c.sender.capacity),
{
    let cap = c.sender.capacity;
    assert(owned(c, cap as int) != owned(c, cap + 1));
}

/// The slots of the entries hold a value each. That of a side is vacant while the side has the
/// value at hand.
pub open spec fn slots_filled<T>(c: Channel<T>) -> bool {
    &&& forall|e: int|
        0 <= e < c.sender.capacity ==> c.slots[(#[trigger] c.entries[e]).1 as int] is Some
    &&& c.slots[c.sender.slot as int] is None <==> c.sender.phase is Idle
    &&& c.slots[c.receiver.slot as int] is None <==> has_value_at_hand(c.receiver)
}

/// The receiver has the value of its slot at hand.
pub open spec fn has_value_at_hand(s: ReceiverState) -> bool {
    s.phase is Idle || s.phase is Dry || s.phase is Orphaned || s.phase is Due
}

/// Whatever happens, the slots of the entries stay filled.
pub proof fn moves_keep_slots_filled<T>(c: Channel<T>, m: Move<T>)
    requires
        slots_partitioned(c),
        slots_filled(c),
        can(c, m),
    ensures
        slots_filled(after(c, m)),
{
    let d = after(c, m);
    let cap = c.sender.capacity;
    sides_own_distinct_slots(c);
    assert forall|e: int| 0 <= e < cap implies (#[trigger] c.entries[e]).1 != c.sender.slot
        && c.entries[e].1 != c.receiver.slot && c.entries[e].1 < slot_count(cap) by {
        assert(owned(c, e) == c.entries[e].1);
        assert(owned(c, cap as int) == c.receiver.slot);
        assert(owned(c, cap + 1) == c.sender.slot);
    }
    slots_follow_positions(c.sender.seq as nat, cap as nat);
    slots_follow_positions(c.receiver.seq as nat, cap as nat);
    match m {
        Move::Sender(a) => {
            match a {
                SenderAccess::SwapEntry { index, given, taken } => {
                    assert(c.entries[index as int] == taken);
                },
                _ => {},
            }
        },
        Move::Receiver(a) => {
            match a {
                ReceiverAccess::ClaimEntry { index, expect, given, acquire, found, done } => {
                    assert(done ==> c.entries[index as int] == found);
                },
                _ => {},
            }
        },
        _ => {},
    }
}

/// The positions from here on have not been received.
pub open spec fn floor<T>(c: Channel<T>) -> nat {
    if c.claimed.len() == 0 {
        0
    } else {
        c.claimed.last() + 1
    }
}

/// What entry `e` holds: what the receiver has put there, if it has received the value published
/// there last; else that value; and what was there at first, if nothing was published there.
pub open spec fn entry_value<T>(c: Channel<T>, e: int) -> Option<T> {
    match (c.left[e], c.last[e]) {
        (Some(val), _) => Some(val),
        (None, Some(q)) => Some(c.sent[q as int]),
        (None, None) => c.first[e],
    }
}

/// What is in the entries: the value published last on each of them, or what the receiver gave up
/// for it, under its sequence number.
pub open spec fn entries_hold_last<T>(c: Channel<T>) -> bool {
    let cap = c.sender.capacity;
    &&& forall|e: int|
        0 <= e < cap ==> match #[trigger] c.last[e] {
            Some(q) => {
                &&& q < c.published
                &&& slot_of(q, cap as nat) == e
                &&& c.entries[e].0 == wrap(q)
                &&& c.left[e] is Some <==> c.claimed.contains(q)
            },
            None => c.entries[e].0 == 0 && c.left[e] is None,
        }
    &&& forall|e: int|
        0 <= e < cap ==> c.slots[(#[trigger] c.entries[e]).1 as int] == entry_value(c, e)
    &&& forall|i: int, e: int|
        0 <= i < c.claimed.len() && 0 <= e < cap && #[trigger] c.last[e] == Some(
            #[trigger] c.claimed[i],
        ) ==> c.left[e] == Some(c.returned[i])
    &&& forall|p: nat|
        p < c.published ==> match c.last[#[trigger] slot_of(p, cap as nat)] {
            Some(q) => p <= q,
            None => false,
        }
}

/// The receiver has taken up what it was sent, in order and each value at most once.
pub open spec fn receipts_in_order<T>(c: Channel<T>) -> bool {
    &&& forall|i: int| 0 <= i < c.claimed.len() ==> #[trigger] c.claimed[i] < c.published
    &&& forall|i: int, j: int|
        0 <= i < j < c.claimed.len() ==> #[trigger] c.claimed[i] < #[trigger] c.claimed[j]
    &&& forall|i: int|
        0 <= i < c.received.len() ==> #[trigger] c.received[i] == c.sent[c.claimed[i] as int]
    &&& c.returned.len() == c.claimed.len()
    &&& if c.receiver.phase is Claimed {
        &&& c.claimed.len() == c.received.len() + 1
        &&& c.slots[c.receiver.slot as int] == Some(c.sent[c.claimed.last() as int])
    } else {
        c.claimed.len() == c.received.len()
    }
}

/// If the receiver saw slot `slot` in the entry at its position, then that is in the entry unless
/// something was published there since.
pub open spec fn saw<T>(c: Channel<T>, slot: u32) -> bool {
    let e = entry_of(c.sender.capacity, c.receiver.seq) as int;
    c.last[e] == Some(c.receiver.seq as nat) ==> c.entries[e] == (lower(c.receiver.seq), slot)
}

/// Where the receiver is: it has received nothing from its position on, and as long as it tries to
/// claim an entry, what it tries to claim was published.
pub open spec fn receiver_on_course<T>(c: Channel<T>) -> bool {
    let cap = c.sender.capacity;
    let seq = c.receiver.seq;
    let seen = c.receiver.seen;
    let parked = c.held is Some && c.held == c.slots[c.receiver.slot as int];
    &&& floor(c) <= seq <= c.published
    &&& seen <= c.known <= c.tail
    &&& match c.receiver.phase {
        ReceiverPhase::Due => seq < seen <= seq + cap,
        ReceiverPhase::First => seq < seen <= seq + cap && parked,
        ReceiverPhase::FirstSeen(slot) => seq < seen <= seq + cap && parked && saw(c, slot),
        ReceiverPhase::Second => 1 <= seq <= seen < seq + cap <= c.published && parked,
        ReceiverPhase::SecondSeen(slot) => {
            &&& 1 <= seq <= seen < seq + cap <= c.published
            &&& parked
            &&& saw(c, slot)
        },
        ReceiverPhase::Missed => seen + 2 <= c.published && parked,
        ReceiverPhase::Orphaned => c.sender_gone && c.known == c.tail,
        _ => true,
    }
}

/// The channel delivers in order.
pub open spec fn in_order<T>(c: Channel<T>) -> bool {
    &&& slots_partitioned(c)
    &&& c.published <= u64::MAX
    &&& c.sender.seq == c.published
    &&& c.published == c.tail + (if c.sender.phase is Swapped {
        1int
    } else {
        0
    })
    &&& c.sent.len() == c.published + (if c.sender.phase is Staged {
        1int
    } else {
        0
    })
    &&& c.sender_gone ==> c.sender.phase is Idle
    &&& c.sender.phase is Staged ==> c.slots[c.sender.slot as int] == Some(c.sent.last())
    &&& c.sender.phase is Swapped || c.sender.phase is Announced ==> c.reclaimed
        == c.slots[c.sender.slot as int]
    &&& c.receiver_gone ==> c.receiver.phase is Idle
    &&& c.told_gone ==> c.receiver_gone
    &&& entries_hold_last(c)
    &&& receipts_in_order(c)
    &&& receiver_on_course(c)
}

/// A channel delivers in order at the start.
pub proof fn in_order_at_the_start<T>(capacity: u32, slots: Seq<Option<T>>)
    requires
        1 <= capacity <= u32::MAX - 2,
        fit_to_start(capacity, slots),
    ensures
        in_order(channel_start(capacity, slots)),
{
    partitioned_at_the_start(capacity, slots);
}

/// An entry that a position falls on is one of the channel.
proof fn entry_in_range(cap: u32, n: nat)
    requires
        cap >= 1,
    ensures
        0 <= slot_of(n, cap as nat) < cap,
{
    slots_follow_positions(n, cap as nat);
}

/// Swapping a slot into an entry keeps the channel in order.
#[verifier::spinoff_prover]
proof fn publishing_keeps_order<T>(c: Channel<T>, a: SenderAccess<T>)
    requires
        in_order(c),
        sender_can(c, a),
        a is SwapEntry,
        c.published < u64::MAX,
    ensures
        in_order(after_sender(c, a)),
{
    let d = after_sender(c, a);
    let cap = c.sender.capacity;
    let n = c.published;
    sender_keeps_partition(c, a);
    sides_own_distinct_slots(c);
    entry_in_range(cap, n);
    entry_in_range(cap, c.receiver.seq as nat);
    match a {
        SenderAccess::SwapEntry { index, given, taken } => {
            assert(index == slot_of(n, cap as nat));
            assert(owned(c, index as int) == taken.1);
            assert forall|p: nat| p < d.published implies match d.last[#[trigger] slot_of(
                p,
                cap as nat,
            )] {
                Some(q) => p <= q,
                None => false,
            } by {
                entry_in_range(cap, p);
            }
            assert(entries_hold_last(d));
            assert(receipts_in_order(d));
            assert(floor(d) == floor(c));
            assert(receiver_on_course(d));
        },
        _ => {},
    }
}

/// What the sender does keeps the channel in order.
#[verifier::spinoff_prover]
pub proof fn sender_keeps_order<T>(c: Channel<T>, a: SenderAccess<T>)
    requires
        in_order(c),
        sender_can(c, a),
        a is SwapEntry ==> c.published < u64::MAX,
    ensures
        in_order(after_sender(c, a)),
{
    let d = after_sender(c, a);
    let cap = c.sender.capacity;
    match a {
        SenderAccess::FillSlot { slot, .. } | SenderAccess::TakeSlot { slot, .. } => {
            sender_keeps_partition(c, a);
            sides_own_distinct_slots(c);
            assert(owned(c, cap + 1) == slot);
            assert forall|e: int| 0 <= e < cap implies (#[trigger] c.entries[e]).1 != slot
                && c.entries[e].1 < slot_count(cap) by {
                assert(owned(c, e) == c.entries[e].1);
            }
            assert(entries_hold_last(d));
            assert(receipts_in_order(d));
            assert(receiver_on_course(d));
        },
        SenderAccess::SwapEntry { index, given, taken } => {
            publishing_keeps_order(c, a);
        },
        SenderAccess::StoreSeq(_) => {
            sender_keeps_partition(c, a);
            assert(entries_hold_last(d));
            assert(receipts_in_order(d));
            assert(receiver_on_course(d));
        },
    }
}

/// Of two positions that share an entry, the later is at least `capacity` positions on.
proof fn later_is_a_lap_on(cap: u32, p: nat, q: nat)
    requires
        1 <= cap,
        p < q,
        slot_of(p, cap as nat) == slot_of(q, cap as nat),
    ensures
        p + cap <= q,
{
    if q < p + cap {
        near_positions_have_own_slots(p, q, cap as nat);
    }
}

/// The entry at a position that was published holds that position or, a lap or more later, another.
pub proof fn entry_is_as_new<T>(c: Channel<T>, p: nat)
    requires
        in_order(c),
        p < c.published,
    ensures
        ({
            let e = slot_of(p, c.sender.capacity as nat);
            &&& 0 <= e < c.sender.capacity
            &&& match c.last[e] {
                Some(q) => {
                    &&& p == q || p + c.sender.capacity <= q
                    &&& q < c.published
                    &&& c.entries[e].0 == wrap(q)
                    &&& slot_of(q, c.sender.capacity as nat) == e
                },
                None => false,
            }
        }),
{
    let cap = c.sender.capacity;
    entry_in_range(cap, p);
    match c.last[slot_of(p, cap as nat)] {
        Some(q) => {
            if p != q {
                later_is_a_lap_on(cap, p, q);
            }
        },
        None => {},
    }
}

/// What a look of the receiver at the entry at its position can find: the value at that position,
/// a later one, or, if the position was not seen announced, what the entry held before.
proof fn a_look_finds<T>(c: Channel<T>, index: u32, entry: (u32, u32))
    requires
        in_order(c),
        receiver_can(c, ReceiverAccess::LoadEntry { index, entry }),
    ensures
        ({
            let cap = c.sender.capacity;
            let seq = c.receiver.seq;
            ||| entry.0 == lower(seq) && saw(c, entry.1)
            ||| exists|q: nat| #[trigger] shows_at(c, index, entry, q) && seq + cap <= q
            ||| c.receiver.phase is Second && seq == c.receiver.seen && cap >= 2 && entry.0
                == outdated(cap, c.receiver.seen)
        }),
{
    let cap = c.sender.capacity;
    let seq = c.receiver.seq;
    let at = seq as nat;
    entry_is_as_new(c, at);
    let l = c.last[index as int]->0;
    if exists|q: nat| #[trigger] shows_at(c, index, entry, q) {
        let q: nat = choose|q: nat| #[trigger] shows_at(c, index, entry, q);
        assert(shows_at(c, index, entry, q));
        if q < at {
            later_is_a_lap_on(cap, q, at);
            assert(c.receiver.phase is Second);
            assert(q + cap == at) by {
                if q + cap < at {
                    assert(c.receiver.seen <= q + cap);
                }
            }
        } else if at < q {
            later_is_a_lap_on(cap, at, q);
        } else {
            assert(entry.0 == lower(seq));
        }
    } else {
        assert(c.receiver.seen <= index && entry.0 == 0);
        assert(at <= c.receiver.seen);
        assert(index == slot_of(at, cap as nat));
        vstd::arithmetic::div_mod::lemma_mod_decreases(at, cap as nat);
    }
}

/// Going on after what was found in an entry does not lead beyond what was published.
proof fn bumps_stay_behind(seq: u64, q: nat)
    requires
        seq <= q < u64::MAX,
    ensures
        seq < beyond(seq, wrap(q)) <= q + 1,
        q < seq + period() ==> beyond(seq, wrap(q)) == q + 1,
{
    distances_are_modular(seq as nat, q);
    vstd::arithmetic::div_mod::lemma_mod_decreases((q - seq) as nat, period() as nat);
    if q < seq + period() {
        counters_follow_positions(seq as nat, q);
    }
}

/// A look of the receiver keeps the channel in order.
#[verifier::spinoff_prover]
proof fn look_keeps_order<T>(c: Channel<T>, a: ReceiverAccess<T>)
    requires
        in_order(c),
        receiver_can(c, a),
        a is LoadEntry,
    ensures
        in_order(after_receiver(c, a)),
{
    let d = after_receiver(c, a);
    let cap = c.sender.capacity;
    receiver_keeps_partition(c, a);
    match a {
        ReceiverAccess::LoadEntry { index, entry } => {
            a_look_finds(c, index, entry);
            if exists|q: nat| #[trigger]
                shows_at(c, index, entry, q) && c.receiver.seq + cap <= q {
                let q: nat = choose|q: nat| #[trigger]
                    shows_at(c, index, entry, q) && c.receiver.seq + cap <= q;
                assert(shows_at(c, index, entry, q));
                bumps_stay_behind(c.receiver.seq, q);
                entry_is_as_new(c, c.receiver.seq as nat);
                assert(c.last[index as int] != Some(c.receiver.seq as nat)) by {
                    entry_is_as_new(c, q);
                }
            }
            assert(entries_hold_last(d));
            assert(receipts_in_order(d));
            assert(receiver_on_course(d));
        },
        _ => {},
    }
}

/// The attempt to claim an entry keeps the channel in order, if the sender is not 2^32 values
/// ahead.
#[verifier::spinoff_prover]
proof fn claim_keeps_order<T>(c: Channel<T>, a: ReceiverAccess<T>)
    requires
        in_order(c),
        receiver_can(c, a),
        a is ClaimEntry,
        c.published <= c.receiver.seq + period(),
    ensures
        in_order(after_receiver(c, a)),
{
    let d = after_receiver(c, a);
    receiver_keeps_partition(c, a);
    sides_own_distinct_slots(c);
    entry_is_as_new(c, c.receiver.seq as nat);
    match a {
        ReceiverAccess::ClaimEntry { index, expect, given, acquire, found, done } => {
            let q = c.last[index as int]->0;
            counters_follow_positions(c.receiver.seq as nat, q);
            if done {
                assert(owned(c, index as int) == found.1);
                assert(q == c.receiver.seq);
                assert(floor(d) == q + 1);
                assert forall|p: nat| #[trigger]
                    d.claimed.contains(p) == (c.claimed.contains(p) || p == q) by {
                    if c.claimed.contains(p) {
                        let i = choose|i: int| 0 <= i < c.claimed.len() && c.claimed[i] == p;
                        assert(d.claimed[i] == p);
                    }
                    if p == q {
                        assert(d.claimed[c.claimed.len() as int] == p);
                    }
                }
                assert forall|e: int| 0 <= e < c.sender.capacity && e != index implies #[trigger]
                    c.last[e] != Some(q) by {}
            } else {
                let p: nat = choose|p: nat| #[trigger]
                    shows_at(c, index, found, p) && c.receiver.seq < p;
                assert(shows_at(c, index, found, p));
                later_is_a_lap_on(c.sender.capacity, c.receiver.seq as nat, p);
                bumps_stay_behind(c.receiver.seq, p);
            }
            assert(entries_hold_last(d));
            assert(receipts_in_order(d));
            assert(receiver_on_course(d));
        },
        _ => {},
    }
}

/// What the receiver does keeps the channel in order. When it claims an entry, the sender must not
/// be 2^32 values ahead.
#[verifier::spinoff_prover]
pub proof fn receiver_keeps_order<T>(c: Channel<T>, a: ReceiverAccess<T>)
    requires
        in_order(c),
        receiver_can(c, a),
        a is ClaimEntry ==> c.published <= c.receiver.seq + period(),
    ensures
        in_order(after_receiver(c, a)),
{
    let d = after_receiver(c, a);
    let cap = c.sender.capacity;
    receiver_keeps_partition(c, a);
    sides_own_distinct_slots(c);
    match a {
        ReceiverAccess::FillSlot { slot, .. } | ReceiverAccess::TakeSlot { slot, .. } => {
            assert(owned(c, cap as int) == slot);
            assert forall|e: int| 0 <= e < cap implies (#[trigger] c.entries[e]).1 != slot
                && c.entries[e].1 < slot_count(cap) by {
                assert(owned(c, e) == c.entries[e].1);
            }
            assert(entries_hold_last(d));
            assert(receipts_in_order(d));
        },
        ReceiverAccess::ClaimEntry { index, expect, given, acquire, found, done } => {
            claim_keeps_order(c, a);
        },
        ReceiverAccess::LoadEntry { index, entry } => {
            look_keeps_order(c, a);
        },
        _ => {
            assert(entries_hold_last(d));
            assert(receipts_in_order(d));
        },
    }
}

/// That a side asks or goes keeps the channel in order.
proof fn leaving_keeps_order<T>(c: Channel<T>, m: Move<T>)
    requires
        in_order(c),
        can(c, m),
        !(m is Sender || m is Receiver),
    ensures
        in_order(after(c, m)),
{
    let d = after(c, m);
    assert forall|k: int| 0 <= k < slot_count(c.sender.capacity) implies #[trigger] owned(d, k)
        == owned(c, k) by {}
}

/// What can happen in a channel.
pub enum Move<T> {
    Sender(SenderAccess<T>),
    Receiver(ReceiverAccess<T>),
    /// The sender looks whether the receiver has disconnected, and is told so or not.
    SenderAsks(bool),
    /// The sender is dropped.
    SenderGoes,
    /// The receiver is dropped.
    ReceiverGoes,
}

/// Move `m` can happen now. Who looks whether the receiver has disconnected may miss that it did,
/// but not once it was told.
pub open spec fn can<T>(c: Channel<T>, m: Move<T>) -> bool {
    match m {
        Move::Sender(a) => sender_can(c, a),
        Move::Receiver(a) => receiver_can(c, a),
        Move::SenderAsks(gone) => {
            &&& !c.sender_gone
            &&& gone ==> c.receiver_gone
            &&& c.told_gone ==> gone
        },
        Move::SenderGoes => !c.sender_gone && c.sender.phase is Idle,
        Move::ReceiverGoes => !c.receiver_gone && c.receiver.phase is Idle,
    }
}

/// The channel after move `m`.
pub open spec fn after<T>(c: Channel<T>, m: Move<T>) -> Channel<T> {
    match m {
        Move::Sender(a) => after_sender(c, a),
        Move::Receiver(a) => after_receiver(c, a),
        Move::SenderAsks(gone) => Channel { told_gone: gone, ..c },
        Move::SenderGoes => Channel { sender_gone: true, ..c },
        Move::ReceiverGoes => Channel { receiver_gone: true, ..c },
    }
}

/// The channel after all of `moves`, if they can happen in that order.
pub open spec fn play<T>(start: Channel<T>, moves: Seq<Move<T>>) -> Option<Channel<T>>
    decreases moves.len(),
{
    if moves.len() == 0 {
        Some(start)
    } else {
        match play(start, moves.drop_last()) {
            Some(c) => if can(c, moves.last()) {
                Some(after(c, moves.last()))
            } else {
                None
            },
            None => None,
        }
    }
}

/// One more move.
pub proof fn play_extends<T>(start: Channel<T>, moves: Seq<Move<T>>, c: Channel<T>, m: Move<T>)
    requires
        play(start, moves) == Some(c),
        can(c, m),
    ensures
        play(start, moves.push(m)) == Some(after(c, m)),
{
    assert(moves.push(m).drop_last() =~= moves);
}

/// Who is gone stays gone, and who was told so is told so again.
pub proof fn gone_stays_gone<T>(c: Channel<T>, moves: Seq<Move<T>>, end: Channel<T>)
    requires
        play(c, moves) == Some(end),
    ensures
        c.sender_gone ==> end.sender_gone,
        c.receiver_gone ==> end.receiver_gone,
        c.told_gone ==> end.told_gone,
    decreases moves.len(),
{
    if moves.len() > 0 {
        let before = play(c, moves.drop_last())->0;
        gone_stays_gone(c, moves.drop_last(), before);
    }
}

/// The sender's look whether the receiver has disconnected gets what the memory holds now.
pub open spec fn asking_sees<T>(c: Channel<T>, gone: bool) -> bool {
    gone == c.receiver_gone
}

/// The sender never finds a slot that it took over vacant.
pub open spec fn sender_finds_values<T>(trace: Seq<SenderAccess<T>>) -> bool {
    forall|i: int|
        0 <= i < trace.len() ==> (#[trigger] trace[i] matches SenderAccess::TakeSlot { slot, got }
            ==> got is Some)
}

/// The receiver never finds a slot that it took over vacant.
pub open spec fn receiver_finds_values<T>(trace: Seq<ReceiverAccess<T>>) -> bool {
    forall|i: int|
        0 <= i < trace.len() ==> (#[trigger] trace[i] matches ReceiverAccess::TakeSlot { slot, got }
            ==> got is Some)
}

/// The accesses of the sender among `moves`.
pub open spec fn sender_part<T>(moves: Seq<Move<T>>) -> Seq<SenderAccess<T>>
    decreases moves.len(),
{
    if moves.len() == 0 {
        Seq::empty()
    } else {
        match moves.last() {
            Move::Sender(a) => sender_part(moves.drop_last()).push(a),
            _ => sender_part(moves.drop_last()),
        }
    }
}

/// The accesses of the receiver among `moves`.
pub open spec fn receiver_part<T>(moves: Seq<Move<T>>) -> Seq<ReceiverAccess<T>>
    decreases moves.len(),
{
    if moves.len() == 0 {
        Seq::empty()
    } else {
        match moves.last() {
            Move::Receiver(a) => receiver_part(moves.drop_last()).push(a),
            _ => receiver_part(moves.drop_last()),
        }
    }
}

/// However the two sides interleave, each is where its own accesses have brought it, and the slots
/// are partitioned: no slot is lost, and no two sides or entries own the same slot. A side finds a
/// value in each slot that it takes over.
pub proof fn every_slot_has_one_owner<T>(
    capacity: u32,
    slots: Seq<Option<T>>,
    moves: Seq<Move<T>>,
    end: Channel<T>,
)
    requires
        1 <= capacity <= u32::MAX - 2,
        fit_to_start(capacity, slots),
        play(channel_start(capacity, slots), moves) == Some(end),
    ensures
        slots_partitioned(end),
        end.sender.capacity == capacity,
        sender_run(capacity, sender_part(moves)) == Some(end.sender),
        receiver_run(capacity, receiver_part(moves)) == Some(end.receiver),
        slots_filled(end),
        sender_finds_values(sender_part(moves)),
        receiver_finds_values(receiver_part(moves)),
        end.first == slots,
        end.sent == sent_by(sender_part(moves)),
        end.received == received_by(capacity, receiver_part(moves)),
        end.held == held_by(receiver_part(moves)),
        end.returned == returned_by(receiver_part(moves)),
    decreases moves.len(),
{
    broadcast use {sent_by_extends, received_by_extends, held_by_extends, returned_by_extends};

    if moves.len() == 0 {
        partitioned_at_the_start(capacity, slots);
    } else {
        let before = play(channel_start(capacity, slots), moves.drop_last())->0;
        every_slot_has_one_owner(capacity, slots, moves.drop_last(), before);
        moves_keep_slots_filled(before, moves.last());
        match moves.last() {
            Move::Sender(a) => {
                sender_keeps_partition(before, a);
                sender_run_extends(capacity, sender_part(moves.drop_last()), a);
            },
            Move::Receiver(a) => {
                receiver_keeps_partition(before, a);
                receiver_run_extends(capacity, receiver_part(moves.drop_last()), a);
            },
            _ => {
                assert forall|k: int| 0 <= k < slot_count(capacity) implies #[trigger] owned(end, k)
                    == owned(before, k) by {}
            },
        }
    }
}

/// The sender is never more than 2^32 values ahead of a receiver that is about to claim one. This
/// holds of every run in which no more than 2^32 values are published.
pub open spec fn claims_keep_up<T>(start: Channel<T>, moves: Seq<Move<T>>) -> bool
    decreases moves.len(),
{
    moves.len() == 0 || {
        &&& claims_keep_up(start, moves.drop_last())
        &&& match (play(start, moves.drop_last()), moves.last()) {
            (Some(c), Move::Receiver(a)) => a is ClaimEntry ==> c.published <= c.receiver.seq
                + period(),
            _ => true,
        }
    }
}

/// However the two sides interleave, and whatever the receiver's looks miss, the receiver receives
/// values that were sent, in the order in which they were sent and each at most once: whenever no
/// more than 2^32 values are published, and otherwise as long as the sender does not get that far
/// ahead of a receiver that is about to claim a value. Sequence numbers have 64 bits.
pub proof fn values_arrive_in_order<T>(
    capacity: u32,
    slots: Seq<Option<T>>,
    moves: Seq<Move<T>>,
    end: Channel<T>,
)
    requires
        1 <= capacity <= u32::MAX - 2,
        fit_to_start(capacity, slots),
        play(channel_start(capacity, slots), moves) == Some(end),
        end.published <= u64::MAX,
        end.published <= period() || claims_keep_up(channel_start(capacity, slots), moves),
    ensures
        in_order(end),
        end.sender.capacity == capacity,
        sender_run(capacity, sender_part(moves)) == Some(end.sender),
        receiver_run(capacity, receiver_part(moves)) == Some(end.receiver),
        end.first == slots,
        end.sent == sent_by(sender_part(moves)),
        end.received == received_by(capacity, receiver_part(moves)),
        end.returned == returned_by(receiver_part(moves)),
        end.received.len() <= end.claimed.len(),
        forall|i: int|
            0 <= i < end.received.len() ==> #[trigger] end.received[i]
                == end.sent[end.claimed[i] as int] && end.claimed[i] < end.sent.len(),
        forall|i: int, j: int|
            0 <= i < j < end.claimed.len() ==> #[trigger] end.claimed[i]
                < #[trigger] end.claimed[j],
    decreases moves.len(),
{
    let start = channel_start(capacity, slots);
    every_slot_has_one_owner(capacity, slots, moves, end);
    if moves.len() == 0 {
        in_order_at_the_start(capacity, slots);
    } else {
        let before = play(start, moves.drop_last())->0;
        values_arrive_in_order(capacity, slots, moves.drop_last(), before);
        match moves.last() {
            Move::Sender(a) => {
                sender_keeps_order(before, a);
            },
            Move::Receiver(a) => {
                receiver_keeps_order(before, a);
            },
            _ => {
                leaving_keeps_order(before, moves.last());
            },
        }
    }
}

/// The receiver only moves forward: whatever happens after the channel was in state `mid`, what it
/// claims from then on was sent at its position then or later.
pub proof fn the_receiver_moves_forward<T>(
    capacity: u32,
    slots: Seq<Option<T>>,
    moves: Seq<Move<T>>,
    k: int,
    mid: Channel<T>,
    end: Channel<T>,
)
    requires
        1 <= capacity <= u32::MAX - 2,
        fit_to_start(capacity, slots),
        0 <= k <= moves.len(),
        play(channel_start(capacity, slots), moves.take(k)) == Some(mid),
        play(channel_start(capacity, slots), moves) == Some(end),
        end.published <= u64::MAX,
        end.published <= period() || claims_keep_up(channel_start(capacity, slots), moves),
    ensures
        mid.receiver.seq <= end.receiver.seq,
        mid.published <= end.published,
        mid.claimed.len() <= end.claimed.len(),
        end.claimed.take(mid.claimed.len() as int) == mid.claimed,
        forall|i: int|
            mid.claimed.len() <= i < end.claimed.len() ==> mid.receiver.seq
                <= #[trigger] end.claimed[i],
    decreases moves.len(),
{
    let start = channel_start(capacity, slots);
    if k == moves.len() {
        assert(moves.take(k) =~= moves);
        assert(end.claimed.take(mid.claimed.len() as int) =~= mid.claimed);
    } else {
        let before = play(start, moves.drop_last())->0;
        assert(moves.drop_last().take(k) =~= moves.take(k));
        values_arrive_in_order(capacity, slots, moves.drop_last(), before);
        values_arrive_in_order(capacity, slots, moves, end);
        the_receiver_moves_forward(capacity, slots, moves.drop_last(), k, mid, before);
        match moves.last() {
            Move::Receiver(a) => {
                a_step_leads_forward(before, a);
                assert(end.claimed.take(mid.claimed.len() as int) =~= mid.claimed);
            },
            _ => {},
        }
    }
}

/// No access leads the receiver back, and what it claims is the value at its position.
proof fn a_step_leads_forward<T>(c: Channel<T>, a: ReceiverAccess<T>)
    requires
        in_order(c),
        receiver_can(c, a),
        a is ClaimEntry ==> c.published <= c.receiver.seq + period(),
    ensures
        c.receiver.seq <= after_receiver(c, a).receiver.seq,
        after_receiver(c, a).claimed == c.claimed || after_receiver(c, a).claimed == c.claimed.push(
            c.receiver.seq as nat,
        ),
{
    match a {
        ReceiverAccess::LoadEntry { index, entry } => {
            a_look_finds(c, index, entry);
            if exists|q: nat| #[trigger]
                shows_at(c, index, entry, q) && c.receiver.seq + c.sender.capacity <= q {
                let q: nat = choose|q: nat| #[trigger]
                    shows_at(c, index, entry, q) && c.receiver.seq + c.sender.capacity <= q;
                assert(shows_at(c, index, entry, q));
                bumps_stay_behind(c.receiver.seq, q);
            }
        },
        ReceiverAccess::ClaimEntry { index, expect, given, acquire, found, done } => {
            entry_is_as_new(c, c.receiver.seq as nat);
            let q = c.last[index as int]->0;
            counters_follow_positions(c.receiver.seq as nat, q);
            if !done {
                let p: nat = choose|p: nat| #[trigger]
                    shows_at(c, index, found, p) && c.receiver.seq < p;
                assert(shows_at(c, index, found, p));
                bumps_stay_behind(c.receiver.seq, p);
            }
        },
        _ => {},
    }
}

/// The number in an entry cannot be mistaken for another: no more than 2^32 values are published in
/// all, or, together with `capacity` more, from where the receiver is.
pub open spec fn in_reach<T>(c: Channel<T>) -> bool {
    c.published <= period() || c.published + c.sender.capacity <= c.receiver.seq + period()
}

/// A receiver that gives up because the entry that it looked at was overwritten goes on after what
/// was published there: it will not see what was sent up to that.
pub proof fn a_raced_receiver_skips<T>(c: Channel<T>, a: ReceiverAccess<T>, q: nat)
    requires
        in_order(c),
        in_reach(c),
        receiver_can(c, a),
        after_receiver(c, a).receiver.phase is Missed,
        match a {
            ReceiverAccess::LoadEntry { index, entry } => shows_at(c, index, entry, q)
                && c.receiver.seq < q,
            ReceiverAccess::ClaimEntry { index, expect, given, acquire, found, done } => shows_at(
                c,
                index,
                found,
                q,
            ) && c.receiver.seq < q,
            _ => false,
        },
    ensures
        after_receiver(c, a).receiver.seq == q + 1,
{
    let cap = c.sender.capacity;
    let at = c.receiver.seq as nat;
    entry_is_as_new(c, at);
    bumps_stay_behind(c.receiver.seq, q);
    counters_follow_positions(at, q);
    match a {
        ReceiverAccess::LoadEntry { index, entry } => {
            let seen = c.receiver.seen;
            if at == seen && seen >= cap {
                counters_follow_positions((seen - cap) as nat, q);
            } else if at == seen {
                counters_follow_positions(0, q);
            }
            assert(at == seen ==> entry.0 != outdated(cap, seen));
        },
        _ => {},
    }
}

/// The receiver gives up only if two values were published since what it last saw was announced,
/// and it still has what it had: that is in its slot.
pub proof fn raced_means_raced<T>(c: Channel<T>, slot: u32, got: Option<T>)
    requires
        in_order(c),
        c.receiver.phase is Missed,
        receiver_can(c, ReceiverAccess::TakeSlot { slot, got }),
    ensures
        c.receiver.seen + 2 <= c.published,
        c.held == got,
        got is Some,
{
}

/// After a receiver has given up because the entry that it looked at was overwritten by the value
/// at position `q`, it receives only values that were sent after that one. Move `k` is the access
/// that made it give up.
#[verifier::spinoff_prover]
pub proof fn after_a_race_only_later_values<T>(
    capacity: u32,
    slots: Seq<Option<T>>,
    moves: Seq<Move<T>>,
    k: int,
    a: ReceiverAccess<T>,
    q: nat,
    c: Channel<T>,
    end: Channel<T>,
)
    requires
        1 <= capacity <= u32::MAX - 2,
        fit_to_start(capacity, slots),
        0 <= k < moves.len(),
        moves[k] == Move::Receiver(a),
        play(channel_start(capacity, slots), moves.take(k)) == Some(c),
        play(channel_start(capacity, slots), moves) == Some(end),
        end.published <= u64::MAX,
        end.published <= period() || claims_keep_up(channel_start(capacity, slots), moves),
        in_reach(c),
        after_receiver(c, a).receiver.phase is Missed,
        match a {
            ReceiverAccess::LoadEntry { index, entry } => shows_at(c, index, entry, q)
                && c.receiver.seq < q,
            ReceiverAccess::ClaimEntry { index, expect, given, acquire, found, done } => shows_at(
                c,
                index,
                found,
                q,
            ) && c.receiver.seq < q,
            _ => false,
        },
    ensures
        c.claimed.len() <= end.claimed.len(),
        forall|i: int|
            c.claimed.len() <= i < end.claimed.len() ==> q < #[trigger] end.claimed[i],
{
    let start = channel_start(capacity, slots);
    let upto = moves.take(k + 1);
    assert(upto.drop_last() =~= moves.take(k));
    a_play_has_its_beginnings(start, moves, k);
    a_play_has_its_beginnings(start, moves, k + 1);
    let mid = play(start, upto)->0;
    the_receiver_moves_forward(capacity, slots, moves, k, c, end);
    values_arrive_in_order(capacity, slots, moves.take(k), c);
    a_raced_receiver_skips(c, a, q);
    the_receiver_moves_forward(capacity, slots, moves, k + 1, mid, end);
}

/// A run that can happen can happen up to any of its moves.
proof fn a_play_has_its_beginnings<T>(start: Channel<T>, moves: Seq<Move<T>>, k: int)
    requires
        0 <= k <= moves.len(),
        play(start, moves) is Some,
    ensures
        play(start, moves.take(k)) is Some,
        claims_keep_up(start, moves) ==> claims_keep_up(start, moves.take(k)),
    decreases moves.len(),
{
    if k == moves.len() {
        assert(moves.take(k) =~= moves);
    } else {
        assert(moves.drop_last().take(k) =~= moves.take(k));
        a_play_has_its_beginnings(start, moves.drop_last(), k);
    }
}

/// A receiver that has given up, and then got out what was in its slot, has got what it had put
/// there before, and at least two values were published since what it last saw was announced.
pub proof fn a_raced_receiver_keeps_its_value<T>(
    capacity: u32,
    slots: Seq<Option<T>>,
    moves: Seq<Move<T>>,
    end: Channel<T>,
)
    requires
        1 <= capacity <= u32::MAX - 2,
        fit_to_start(capacity, slots),
        play(channel_start(capacity, slots), moves) == Some(end),
        end.published <= u64::MAX,
        end.published <= period() || claims_keep_up(channel_start(capacity, slots), moves),
    ensures
        receiver_part(moves).len() > 0 ==> {
            let part = receiver_part(moves);
            match (receiver_run(capacity, part.drop_last()), part.last()) {
                (Some(s), ReceiverAccess::TakeSlot { slot, got }) => s.phase is Missed ==> {
                    &&& held_by(part.drop_last()) == got
                    &&& got is Some
                    &&& end.receiver.seen + 2 <= end.published
                },
                _ => true,
            }
        },
    decreases moves.len(),
{
    if moves.len() > 0 {
        let before = play(channel_start(capacity, slots), moves.drop_last())->0;
        a_raced_receiver_keeps_its_value(capacity, slots, moves.drop_last(), before);
        values_arrive_in_order(capacity, slots, moves.drop_last(), before);
        every_slot_has_one_owner(capacity, slots, moves.drop_last(), before);
        match moves.last() {
            Move::Receiver(a) => {
                assert(receiver_part(moves).drop_last() =~= receiver_part(moves.drop_last()));
            },
            _ => {},
        }
    }
}

/// What the sender gets when it has published is what was in the entry that it overwrote: the value
/// that was published there last, if that was not received; what the receiver gave up for it, if it
/// was.
pub proof fn the_sender_reclaims<T>(c: Channel<T>, a: SenderAccess<T>)
    requires
        in_order(c),
        sender_can(c, a),
    ensures
        match a {
            SenderAccess::FillSlot { slot, val, displaced } => true,
            SenderAccess::SwapEntry { index, given, taken } => after_sender(c, a).reclaimed
                == overwritten(c),
            SenderAccess::StoreSeq(_) => after_sender(c, a).reclaimed == c.reclaimed,
            SenderAccess::TakeSlot { slot, got } => got == c.reclaimed,
        },
{
    entry_in_range(c.sender.capacity, c.published);
    if a is SwapEntry {
        the_next_entry_is_overwritten(c);
    }
}

/// What is in the entry that the sender overwrites next: what it held at first, if the channel was
/// never full; else the value that was sent `capacity` values ago, or, if the receiver has received
/// that, what it gave up for it.
pub open spec fn overwritten<T>(c: Channel<T>) -> Option<T> {
    let cap = c.sender.capacity;
    if c.published < cap {
        c.first[c.published as int]
    } else {
        given_for(c, (c.published - cap) as nat)
    }
}

/// What the receiver gave up for the value at position `p`, or that value, if it was not received.
pub open spec fn given_for<T>(c: Channel<T>, p: nat) -> Option<T> {
    if exists|i: int| 0 <= i < c.claimed.len() && #[trigger] c.claimed[i] == p {
        let i = choose|i: int| 0 <= i < c.claimed.len() && #[trigger] c.claimed[i] == p;
        Some(c.returned[i])
    } else {
        Some(c.sent[p as int])
    }
}

/// The oldest position that is not received and survives when `tail` values are published and the
/// receiver is at `seq`.
pub open spec fn oldest_surviving(capacity: u32, seq: u64, tail: nat) -> nat {
    if tail - seq > capacity {
        (tail - capacity) as nat
    } else {
        seq as nat
    }
}

/// Access `a` of the sender gets what the memory holds now.
pub open spec fn sender_sees<T>(c: Channel<T>, a: SenderAccess<T>) -> bool {
    match a {
        SenderAccess::FillSlot { slot, val, displaced } => displaced == c.slots[slot as int],
        SenderAccess::SwapEntry { index, given, taken } => taken == c.entries[index as int],
        SenderAccess::StoreSeq(_) => true,
        SenderAccess::TakeSlot { slot, got } => got == c.slots[slot as int],
    }
}

/// The slot of the entry that the sender overwrites next is not the sender's, and what is in it is
/// what [`overwritten`] says.
pub proof fn the_next_entry_is_overwritten<T>(c: Channel<T>)
    requires
        in_order(c),
        c.sender.phase is Idle || c.sender.phase is Staged,
    ensures
        ({
            let cap = c.sender.capacity;
            let slot = c.entries[entry_of(cap, c.sender.seq) as int].1;
            &&& slot < slot_count(cap)
            &&& slot != c.sender.slot
            &&& slot != c.receiver.slot
            &&& c.slots[slot as int] == overwritten(c)
        }),
{
    let cap = c.sender.capacity;
    let e = slot_of(c.published, cap as nat);
    entry_in_range(cap, c.published);
    assert(owned(c, e) != owned(c, cap + 1));
    assert(owned(c, e) != owned(c, cap as int));
    assert(owned(c, e) < slot_count(cap));
    assert(c.slots[c.entries[e].1 as int] == entry_value(c, e));
    if cap <= c.published {
        let p = (c.published - cap) as nat;
        laps_share_slots(p, cap as nat);
        entry_is_as_new(c, p);
        assert(c.last[e] == Some(p));
        if c.claimed.contains(p) {
            let i = choose|i: int| 0 <= i < c.claimed.len() && #[trigger] c.claimed[i] == p;
            assert(c.last[e] == Some(c.claimed[i]));
        }
    } else {
        vstd::arithmetic::div_mod::lemma_small_mod(c.published, cap as nat);
        assert(c.last[e] is None) by {
            if c.last[e] is Some {
                let q = c.last[e]->0;
                later_is_a_lap_on(cap, q, c.published);
            }
        }
    }
}

/// Access `a` of the receiver gets what the memory holds now.
pub open spec fn sees<T>(c: Channel<T>, a: ReceiverAccess<T>) -> bool {
    match a {
        ReceiverAccess::LoadSeq(n) => n == c.tail,
        ReceiverAccess::LoadGone(gone) => gone == c.sender_gone,
        ReceiverAccess::FillSlot { slot, val, displaced } => displaced == c.slots[slot as int],
        ReceiverAccess::TakeSlot { slot, got } => got == c.slots[slot as int],
        ReceiverAccess::LoadEntry { index, entry } => entry == c.entries[index as int],
        ReceiverAccess::ClaimEntry { index, expect, given, acquire, found, done } => {
            &&& found == c.entries[index as int]
            &&& done == (found == expect)
        },
    }
}

/// What is published was sent.
pub proof fn what_is_published_was_sent<T>(
    capacity: u32,
    slots: Seq<Option<T>>,
    moves: Seq<Move<T>>,
    end: Channel<T>,
)
    requires
        play(channel_start(capacity, slots), moves) == Some(end),
    ensures
        end.sent.len() == end.published + (if end.sender.phase is Staged {
            1int
        } else {
            0
        }),
    decreases moves.len(),
{
    if moves.len() > 0 {
        let before = play(channel_start(capacity, slots), moves.drop_last())->0;
        what_is_published_was_sent(capacity, slots, moves.drop_last(), before);
    }
}

/// An access of the receiver that gets what the memory holds now can happen.
#[verifier::spinoff_prover]
pub proof fn what_is_there_shows<T>(c: Channel<T>, a: ReceiverAccess<T>)
    requires
        in_order(c),
        !c.receiver_gone,
        receiver_step(c.receiver, a) is Some,
        sees(c, a),
    ensures
        receiver_can(c, a),
{
    let cap = c.sender.capacity;
    entry_in_range(cap, c.receiver.seq as nat);
    match a {
        ReceiverAccess::LoadEntry { index, entry } => {
            the_last_shows(c, index);
        },
        ReceiverAccess::ClaimEntry { index, expect, given, acquire, found, done } => {
            if !done {
                the_last_shows(c, index);
                entry_is_as_new(c, c.receiver.seq as nat);
                let q = c.last[index as int]->0;
                assert(shows_at(c, index, found, q));
            }
        },
        _ => {},
    }
}

/// What an entry holds now is what a look of the receiver may show.
proof fn the_last_shows<T>(c: Channel<T>, index: u32)
    requires
        in_order(c),
        index < c.sender.capacity,
    ensures
        match c.last[index as int] {
            Some(q) => shows_at(c, index, c.entries[index as int], q),
            None => c.receiver.seen <= index && c.entries[index as int].0 == 0,
        },
{
    let cap = c.sender.capacity;
    match c.last[index as int] {
        Some(q) => {
            if q + cap < c.published {
                let p = (q + cap) as nat;
                laps_share_slots(q, cap as nat);
                assert(slot_of(p, cap as nat) == index);
                assert(match c.last[slot_of(p, cap as nat)] {
                    Some(l) => p <= l,
                    None => false,
                });
            }
        },
        None => {
            if index < c.receiver.seen {
                vstd::arithmetic::div_mod::lemma_small_mod(index as nat, cap as nat);
                assert(slot_of(index as nat, cap as nat) == index);
            }
        },
    }
}

/// The entry at the oldest surviving position holds the value that was sent there, and its slot is
/// not the receiver's.
pub proof fn the_oldest_is_in_its_entry<T>(c: Channel<T>)
    requires
        in_order(c),
        !(c.sender.phase is Swapped),
        c.receiver.seq < c.tail,
    ensures
        ({
            let n = oldest_surviving(c.sender.capacity, c.receiver.seq, c.tail);
            let e = c.entries[slot_of(n, c.sender.capacity as nat)];
            &&& n < c.sent.len()
            &&& n == resume(c.sender.capacity, c.receiver.seq, c.tail as u64)
            &&& e.0 == wrap(n)
            &&& e.1 < slot_count(c.sender.capacity)
            &&& e.1 != c.receiver.slot
            &&& c.slots[e.1 as int] == Some(c.sent[n as int])
        }),
{
    let cap = c.sender.capacity;
    let n = oldest_surviving(cap, c.receiver.seq, c.tail);
    let e = slot_of(n, cap as nat);
    entry_is_as_new(c, n);
    assert(owned(c, e) != owned(c, cap as int));
    assert(owned(c, e) < slot_count(cap));
    assert(c.slots[c.entries[e].1 as int] == entry_value(c, e));
    assert(c.last[e] == Some(n));
    assert(!c.claimed.contains(n));
}

/// The receiver finds the channel disconnected only when the sender is gone and nothing was sent
/// beyond where the receiver is.
pub proof fn disconnected_means_drained<T>(c: Channel<T>, n: u64)
    requires
        in_order(c),
        c.receiver.phase is Orphaned,
        receiver_can(c, ReceiverAccess::LoadSeq(n)),
        n <= c.receiver.seq,
    ensures
        c.sender_gone,
        c.receiver.seq == c.sent.len(),
{
}

/// Once the receiver has found the channel disconnected, which it did last, the sender is gone and
/// nothing was sent beyond where the receiver is.
pub proof fn disconnected_stays_drained<T>(
    capacity: u32,
    slots: Seq<Option<T>>,
    moves: Seq<Move<T>>,
    end: Channel<T>,
)
    requires
        1 <= capacity <= u32::MAX - 2,
        fit_to_start(capacity, slots),
        play(channel_start(capacity, slots), moves) == Some(end),
        end.published <= u64::MAX,
        end.published <= period() || claims_keep_up(channel_start(capacity, slots), moves),
        receiver_part(moves).len() >= 2,
        receiver_part(moves)[receiver_part(moves).len() - 2] == ReceiverAccess::<T>::LoadGone(true),
        receiver_part(moves).last() is LoadSeq,
        end.receiver.phase is Idle,
    ensures
        end.sender_gone,
        end.receiver.seq == end.sent.len(),
    decreases moves.len(),
{
    let start = channel_start(capacity, slots);
    let before = play(start, moves.drop_last())->0;
    values_arrive_in_order(capacity, slots, moves.drop_last(), before);
    match moves.last() {
        Move::Receiver(a) => {
            let part = receiver_part(moves.drop_last());
            assert(part.last() == ReceiverAccess::<T>::LoadGone(true));
            receiver_run_extends(capacity, part.drop_last(), part.last());
            assert(part.drop_last().push(part.last()) =~= part);
            match a {
                ReceiverAccess::LoadSeq(n) => {
                    disconnected_means_drained(before, n);
                },
                _ => {},
            }
        },
        _ => {
            disconnected_stays_drained(capacity, slots, moves.drop_last(), before);
        },
    }
}

/// Who saw that the other side is gone saw what is so.
pub proof fn gone_is_seen_of_the_gone<T>(start: Channel<T>, moves: Seq<Move<T>>, end: Channel<T>)
    requires
        play(start, moves) == Some(end),
    ensures
        forall|i: int|
            0 <= i < receiver_part(moves).len() && #[trigger] receiver_part(moves)[i]
                == ReceiverAccess::<T>::LoadGone(true) ==> end.sender_gone,
    decreases moves.len(),
{
    if moves.len() > 0 {
        let before = play(start, moves.drop_last())->0;
        gone_is_seen_of_the_gone(start, moves.drop_last(), before);
    }
}

} // verus!
