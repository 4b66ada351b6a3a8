//! The protocol of the bounded, lending channel.
//!
//! There are `capacity + 2` slots. The sender and the receiver each stand at a position of the
//! stream of values, have the value of the slot that it falls on at hand, and announce their
//! position to each other. The positions in between are those of the values that wait to be
//! received.
//!
//! [`sender_step`] and [`receiver_step`] say which accesses to shared memory each side makes, and
//! in which order. [`Channel`] is the whole channel: both sides and the memory between them. Its
//! accesses take effect one at a time, in any interleaving of the two sides; a load of what the
//! other side announces may miss what it announced last.

use crate::counter::{
    a_slot_is_fresh, counters_follow_positions, laps_share_slots, near_positions_have_own_slots,
    next_slot, slot_of, slots_follow_positions, steps, succ, wrap,
};
use vstd::prelude::*;

verus! {

/// An access of the sender to shared memory.
pub enum SenderAccess<T> {
    /// Reads whether the receiver has disconnected.
    LoadGone(bool),
    /// Reads the receiver's position.
    LoadSeq(u32),
    /// Takes what is in a slot.
    TakeSlot { slot: u32, got: Option<T> },
    /// Puts a value into a slot, in place of what was there.
    FillSlot { slot: u32, val: T, displaced: Option<T> },
    /// Announces the sender's position.
    StoreSeq(u32),
}

/// An access of the receiver to shared memory.
pub enum ReceiverAccess<T> {
    /// Reads whether the sender has disconnected.
    LoadGone(bool),
    /// Reads the sender's position.
    LoadSeq(u32),
    /// Reads the sender's position again, once the sender was seen to be gone.
    ReloadSeq(u32),
    /// Takes what is in a slot.
    TakeSlot { slot: u32, got: Option<T> },
    /// Puts a value into a slot, in place of what was there.
    FillSlot { slot: u32, val: T, displaced: Option<T> },
    /// Announces the receiver's position.
    StoreSeq(u32),
}

/// How far the sender is in publishing a value.
pub enum SenderPhase {
    /// Not publishing.
    Idle,
    /// The receiver was not seen to be gone.
    Open,
    /// There is room for another value.
    Vetted,
    /// The value of the next slot was taken.
    Taken,
    /// The value to be published is in its slot.
    Filled,
}

/// What the sender knows.
pub struct SenderState {
    pub capacity: u32,
    pub seq: u32,
    pub index: u32,
    pub cached_receiver_seq: u32,
    pub phase: SenderPhase,
}

/// How far the receiver is in receiving a value.
pub enum ReceiverPhase {
    /// Not receiving.
    Idle,
    /// Found no value.
    Dry,
    /// Found no value, and then found the sender gone.
    Orphaned,
    /// Found a value.
    Due,
    /// The value of the next slot was taken.
    Taken,
    /// The value that the receiver had is back in its slot.
    Filled,
}

/// What the receiver knows.
pub struct ReceiverState {
    pub capacity: u32,
    pub seq: u32,
    pub index: u32,
    pub cached_sender_seq: u32,
    pub phase: ReceiverPhase,
}

/// The number of slots of a channel.
pub open spec fn slot_count(capacity: u32) -> int {
    capacity + 2
}

/// The slot of a channel after slot `index`.
pub open spec fn slot_after(capacity: u32, index: u32) -> u32 {
    next_slot(index, slot_count(capacity))
}

/// A sender at `seq` has room for another value when the receiver is at `receiver_seq`.
pub open spec fn has_room(capacity: u32, seq: u32, receiver_seq: u32) -> bool {
    steps(receiver_seq, seq) <= capacity
}

/// There is a value for a receiver at `seq` when the sender is at `sender_seq`.
pub open spec fn has_value(seq: u32, sender_seq: u32) -> bool {
    steps(seq, sender_seq) >= 2
}

/// The sender at the start.
pub open spec fn sender_start(capacity: u32) -> SenderState {
    SenderState { capacity, seq: 1, index: 1, cached_receiver_seq: 0, phase: SenderPhase::Idle }
}

/// The receiver at the start.
pub open spec fn receiver_start(capacity: u32) -> ReceiverState {
    ReceiverState { capacity, seq: 0, index: 0, cached_sender_seq: 1, phase: ReceiverPhase::Idle }
}

/// The sender after it has taken what is in the next slot. If there is nothing, it gives up.
pub open spec fn sender_takes<T>(s: SenderState, slot: u32, got: Option<T>) -> Option<SenderState> {
    if slot != slot_after(s.capacity, s.index) {
        None
    } else {
        Some(
            SenderState {
                phase: if got is Some {
                    SenderPhase::Taken
                } else {
                    SenderPhase::Idle
                },
                ..s
            },
        )
    }
}

/// The sender after access `a`, if it may make that access now.
pub open spec fn sender_step<T>(s: SenderState, a: SenderAccess<T>) -> Option<SenderState> {
    let room = has_room(s.capacity, s.seq, s.cached_receiver_seq);
    match (s.phase, a) {
        (SenderPhase::Idle, SenderAccess::LoadGone(gone)) => Some(
            SenderState {
                phase: if gone {
                    SenderPhase::Idle
                } else {
                    SenderPhase::Open
                },
                ..s
            },
        ),
        (SenderPhase::Idle, SenderAccess::LoadSeq(seq)) => if room {
            None
        } else {
            Some(SenderState { cached_receiver_seq: seq, ..s })
        },
        (SenderPhase::Open, SenderAccess::LoadSeq(seq)) => if room {
            None
        } else {
            Some(
                SenderState {
                    cached_receiver_seq: seq,
                    phase: if has_room(s.capacity, s.seq, seq) {
                        SenderPhase::Vetted
                    } else {
                        SenderPhase::Idle
                    },
                    ..s
                },
            )
        },
        (SenderPhase::Open, SenderAccess::TakeSlot { slot, got }) => if room {
            sender_takes(s, slot, got)
        } else {
            None
        },
        (SenderPhase::Vetted, SenderAccess::TakeSlot { slot, got }) => sender_takes(s, slot, got),
        (SenderPhase::Taken, SenderAccess::FillSlot { slot, val, displaced }) => if slot
            == s.index {
            Some(SenderState { phase: SenderPhase::Filled, ..s })
        } else {
            None
        },
        (SenderPhase::Filled, SenderAccess::StoreSeq(seq)) => if seq == succ(s.seq) {
            Some(
                SenderState {
                    seq,
                    index: slot_after(s.capacity, s.index),
                    phase: SenderPhase::Idle,
                    ..s
                },
            )
        } else {
            None
        },
        _ => None,
    }
}

/// The receiver after it has taken what is in the next slot. If there is nothing, it gives up.
pub open spec fn receiver_takes<T>(s: ReceiverState, slot: u32, got: Option<T>) -> Option<
    ReceiverState,
> {
    if slot != slot_after(s.capacity, s.index) {
        None
    } else {
        Some(
            ReceiverState {
                phase: if got is Some {
                    ReceiverPhase::Taken
                } else {
                    ReceiverPhase::Idle
                },
                ..s
            },
        )
    }
}

/// The receiver after access `a`, if it may make that access now.
pub open spec fn receiver_step<T>(s: ReceiverState, a: ReceiverAccess<T>) -> Option<ReceiverState> {
    let value = has_value(s.seq, s.cached_sender_seq);
    match (s.phase, a) {
        (ReceiverPhase::Idle, ReceiverAccess::TakeSlot { slot, got }) => if value {
            receiver_takes(s, slot, got)
        } else {
            None
        },
        (ReceiverPhase::Idle, ReceiverAccess::LoadSeq(seq)) => if value {
            None
        } else {
            Some(
                ReceiverState {
                    cached_sender_seq: seq,
                    phase: if has_value(s.seq, seq) {
                        ReceiverPhase::Due
                    } else {
                        ReceiverPhase::Dry
                    },
                    ..s
                },
            )
        },
        (ReceiverPhase::Dry, ReceiverAccess::LoadGone(gone)) => Some(
            ReceiverState {
                phase: if gone {
                    ReceiverPhase::Orphaned
                } else {
                    ReceiverPhase::Idle
                },
                ..s
            },
        ),
        (ReceiverPhase::Orphaned, ReceiverAccess::ReloadSeq(seq)) => Some(
            ReceiverState {
                cached_sender_seq: seq,
                phase: if has_value(s.seq, seq) {
                    ReceiverPhase::Due
                } else {
                    ReceiverPhase::Idle
                },
                ..s
            },
        ),
        (ReceiverPhase::Due, ReceiverAccess::TakeSlot { slot, got }) => receiver_takes(
            s,
            slot,
            got,
        ),
        (ReceiverPhase::Taken, ReceiverAccess::FillSlot { slot, val, displaced }) => if slot
            == s.index {
            Some(ReceiverState { phase: ReceiverPhase::Filled, ..s })
        } else {
            None
        },
        (ReceiverPhase::Filled, ReceiverAccess::StoreSeq(seq)) => if seq == succ(s.seq) {
            Some(
                ReceiverState {
                    seq,
                    index: slot_after(s.capacity, s.index),
                    phase: ReceiverPhase::Idle,
                    ..s
                },
            )
        } else {
            None
        },
        _ => None,
    }
}

/// The sender, if it has come this far, after one more access.
pub open spec fn sender_then<T>(s: Option<SenderState>, a: SenderAccess<T>) -> Option<SenderState> {
    match s {
        Some(s) => sender_step(s, a),
        None => None,
    }
}

/// The receiver, if it has come this far, after one more access.
pub open spec fn receiver_then<T>(s: Option<ReceiverState>, a: ReceiverAccess<T>) -> Option<
    ReceiverState,
> {
    match s {
        Some(s) => receiver_step(s, a),
        None => None,
    }
}

/// The sender after all the accesses of `trace`, if it may make them.
pub open spec fn sender_run<T>(capacity: u32, trace: Seq<SenderAccess<T>>) -> Option<SenderState>
    decreases trace.len(),
{
    if trace.len() == 0 {
        Some(sender_start(capacity))
    } else {
        sender_then(sender_run(capacity, trace.drop_last()), trace.last())
    }
}

/// The receiver after all the accesses of `trace`, if it may make them.
pub open spec fn receiver_run<T>(capacity: u32, trace: Seq<ReceiverAccess<T>>) -> Option<
    ReceiverState,
>
    decreases trace.len(),
{
    if trace.len() == 0 {
        Some(receiver_start(capacity))
    } else {
        receiver_then(receiver_run(capacity, trace.drop_last()), trace.last())
    }
}

/// One more access of the sender.
pub proof fn sender_run_extends<T>(capacity: u32, trace: Seq<SenderAccess<T>>, a: SenderAccess<T>)
    ensures
        sender_run(capacity, trace.push(a)) == sender_then(sender_run(capacity, trace), a),
{
    assert(trace.push(a).drop_last() =~= trace);
}

/// One more access of the receiver.
pub proof fn receiver_run_extends<T>(
    capacity: u32,
    trace: Seq<ReceiverAccess<T>>,
    a: ReceiverAccess<T>,
)
    ensures
        receiver_run(capacity, trace.push(a)) == receiver_then(receiver_run(capacity, trace), a),
{
    assert(trace.push(a).drop_last() =~= trace);
}

/// The values that the sender has put into slots to publish them, in order.
pub open spec fn sent_by<T>(trace: Seq<SenderAccess<T>>) -> Seq<T>
    decreases trace.len(),
{
    if trace.len() == 0 {
        Seq::empty()
    } else {
        match trace.last() {
            SenderAccess::FillSlot { slot, val, displaced } => sent_by(trace.drop_last()).push(val),
            _ => sent_by(trace.drop_last()),
        }
    }
}

/// The values that the receiver has taken, in order.
pub open spec fn received_by<T>(trace: Seq<ReceiverAccess<T>>) -> Seq<T>
    decreases trace.len(),
{
    if trace.len() == 0 {
        Seq::empty()
    } else {
        match trace.last() {
            ReceiverAccess::TakeSlot { slot, got: Some(val) } => received_by(
                trace.drop_last(),
            ).push(val),
            _ => received_by(trace.drop_last()),
        }
    }
}

/// What one more access of the sender adds to what it has sent.
pub broadcast proof fn sent_by_extends<T>(trace: Seq<SenderAccess<T>>, a: SenderAccess<T>)
    ensures
        #[trigger] sent_by(trace.push(a)) == (match a {
            SenderAccess::FillSlot { slot, val, displaced } => sent_by(trace).push(val),
            _ => sent_by(trace),
        }),
{
    assert(trace.push(a).drop_last() =~= trace);
}

/// What one more access of the receiver adds to what it has received.
pub broadcast proof fn received_by_extends<T>(trace: Seq<ReceiverAccess<T>>, a: ReceiverAccess<T>)
    ensures
        #[trigger] received_by(trace.push(a)) == (match a {
            ReceiverAccess::TakeSlot { slot, got: Some(val) } => received_by(trace).push(val),
            _ => received_by(trace),
        }),
{
    assert(trace.push(a).drop_last() =~= trace);
}

/// The values that the sender has taken to stage them, in order.
pub open spec fn regained_by<T>(trace: Seq<SenderAccess<T>>) -> Seq<T>
    decreases trace.len(),
{
    if trace.len() == 0 {
        Seq::empty()
    } else {
        match trace.last() {
            SenderAccess::TakeSlot { slot, got: Some(val) } => regained_by(trace.drop_last()).push(
                val,
            ),
            _ => regained_by(trace.drop_last()),
        }
    }
}

/// The values that the receiver has put back, in order.
pub open spec fn returned_by<T>(trace: Seq<ReceiverAccess<T>>) -> Seq<T>
    decreases trace.len(),
{
    if trace.len() == 0 {
        Seq::empty()
    } else {
        match trace.last() {
            ReceiverAccess::FillSlot { slot, val, displaced } => returned_by(
                trace.drop_last(),
            ).push(val),
            _ => returned_by(trace.drop_last()),
        }
    }
}

/// What one more access of the sender adds to what it has regained.
pub broadcast proof fn regained_by_extends<T>(trace: Seq<SenderAccess<T>>, a: SenderAccess<T>)
    ensures
        #[trigger] regained_by(trace.push(a)) == (match a {
            SenderAccess::TakeSlot { slot, got: Some(val) } => regained_by(trace).push(val),
            _ => regained_by(trace),
        }),
{
    assert(trace.push(a).drop_last() =~= trace);
}

/// What one more access of the receiver adds to what it has returned.
pub broadcast proof fn returned_by_extends<T>(trace: Seq<ReceiverAccess<T>>, a: ReceiverAccess<T>)
    ensures
        #[trigger] returned_by(trace.push(a)) == (match a {
            ReceiverAccess::FillSlot { slot, val, displaced } => returned_by(trace).push(val),
            _ => returned_by(trace),
        }),
{
    assert(trace.push(a).drop_last() =~= trace);
}

/// The whole channel. Positions are counted from that of the receiver at the start.
#[verifier::ext_equal]
pub struct Channel<T> {
    pub sender: SenderState,
    pub receiver: ReceiverState,
    /// What is in each slot.
    pub slots: Seq<Option<T>>,
    /// The position that the sender announces.
    pub tail: nat,
    /// The position that the receiver announces.
    pub head: nat,
    /// The position of the receiver that the sender knows of.
    pub seen_head: nat,
    /// The position of the sender that the receiver knows of.
    pub seen_tail: nat,
    /// A position of the sender that the receiver does not miss if it looks again.
    pub visible_tail: nat,
    pub sender_gone: bool,
    pub receiver_gone: bool,
    /// Whether the sender, when it asked, was told that the receiver has disconnected.
    pub sender_told: bool,
    /// Whether the receiver, when it asked, was told that the sender has disconnected.
    pub receiver_told: bool,
    /// Every value that the sender has put into its slot to publish it, in order.
    pub sent: Seq<T>,
    /// Every value that the receiver has taken, in order.
    pub received: Seq<T>,
    /// Every value that the receiver has put back, in order.
    pub returned: Seq<T>,
    /// Every value that the sender has taken to stage it, in order.
    pub regained: Seq<T>,
    /// What was in each slot at the start.
    pub initial: Seq<Option<T>>,
}

/// A channel with the given slots at the start. Those of the two sides are vacant.
pub open spec fn channel_start<T>(capacity: u32, slots: Seq<Option<T>>) -> Channel<T> {
    Channel {
        sender: sender_start(capacity),
        receiver: receiver_start(capacity),
        slots,
        tail: 1,
        head: 0,
        seen_head: 0,
        seen_tail: 1,
        visible_tail: 1,
        sender_gone: false,
        receiver_gone: false,
        sender_told: false,
        receiver_told: false,
        sent: Seq::empty(),
        received: Seq::empty(),
        returned: Seq::empty(),
        regained: Seq::empty(),
        initial: slots,
    }
}

/// What can happen in a channel.
pub enum Move<T> {
    Sender(SenderAccess<T>),
    Receiver(ReceiverAccess<T>),
    /// The sender sees the receiver at the given position, which may not be its latest.
    SenderLooks(nat),
    /// The receiver sees the sender at the given position, which may not be its latest.
    ReceiverLooks(nat),
    /// The receiver looks again, once it saw that the sender is gone.
    ReceiverLooksAgain(nat),
    /// The sender looks whether the receiver has disconnected, and is told so or not.
    SenderAsks(bool),
    /// The receiver looks whether the sender has disconnected, and is told so or not.
    ReceiverAsks(bool),
    /// The sender is dropped.
    SenderGoes,
    /// The receiver is dropped.
    ReceiverGoes,
}

/// Move `m` can happen now, and it gets what the memory holds.
///
/// A side sees the other at a position between the last that it saw and the latest. A receiver that
/// sees that the sender is gone does not miss anything that the sender announced.
/// Who asks whether the other side has disconnected may miss that it did, but not once it was told.
pub open spec fn can<T>(c: Channel<T>, m: Move<T>) -> bool {
    match m {
        Move::Sender(a) => {
            &&& !c.sender_gone
            &&& sender_step(c.sender, a) is Some
            &&& match a {
                SenderAccess::LoadGone(gone) => gone ==> c.receiver_gone,
                SenderAccess::LoadSeq(_) => false,
                SenderAccess::TakeSlot { slot, got } => got == c.slots[slot as int],
                SenderAccess::FillSlot { slot, val, displaced } => displaced
                    == c.slots[slot as int],
                SenderAccess::StoreSeq(_) => true,
            }
        },
        Move::Receiver(a) => {
            &&& !c.receiver_gone
            &&& receiver_step(c.receiver, a) is Some
            &&& match a {
                ReceiverAccess::LoadGone(gone) => gone ==> c.sender_gone,
                ReceiverAccess::LoadSeq(_) => false,
                ReceiverAccess::ReloadSeq(_) => false,
                ReceiverAccess::TakeSlot { slot, got } => got == c.slots[slot as int],
                ReceiverAccess::FillSlot { slot, val, displaced } => displaced
                    == c.slots[slot as int],
                ReceiverAccess::StoreSeq(_) => true,
            }
        },
        Move::SenderLooks(n) => {
            &&& !c.sender_gone
            &&& sender_step(c.sender, SenderAccess::<T>::LoadSeq(wrap(n))) is Some
            &&& c.seen_head <= n <= c.head
        },
        Move::ReceiverLooks(n) => {
            &&& !c.receiver_gone
            &&& receiver_step(c.receiver, ReceiverAccess::<T>::LoadSeq(wrap(n))) is Some
            &&& c.visible_tail <= n <= c.tail
        },
        Move::ReceiverLooksAgain(n) => {
            &&& !c.receiver_gone
            &&& receiver_step(c.receiver, ReceiverAccess::<T>::ReloadSeq(wrap(n))) is Some
            &&& c.visible_tail <= n <= c.tail
        },
        Move::SenderAsks(gone) => {
            &&& !c.sender_gone
            &&& gone ==> c.receiver_gone
            &&& c.sender_told ==> gone
        },
        Move::ReceiverAsks(gone) => {
            &&& !c.receiver_gone
            &&& gone ==> c.sender_gone
            &&& c.receiver_told ==> gone
        },
        Move::SenderGoes => !c.sender_gone && c.sender.phase is Idle,
        Move::ReceiverGoes => !c.receiver_gone && c.receiver.phase is Idle,
    }
}

/// The channel after move `m`.
pub open spec fn after<T>(c: Channel<T>, m: Move<T>) -> Channel<T> {
    match m {
        Move::Sender(a) => {
            let sender = sender_step(c.sender, a)->0;
            match a {
                SenderAccess::TakeSlot { slot, got } => Channel {
                    sender,
                    slots: c.slots.update(slot as int, None),
                    regained: match got {
                        Some(val) => c.regained.push(val),
                        None => c.regained,
                    },
                    ..c
                },
                SenderAccess::FillSlot { slot, val, displaced } => Channel {
                    sender,
                    slots: c.slots.update(slot as int, Some(val)),
                    sent: c.sent.push(val),
                    ..c
                },
                SenderAccess::StoreSeq(_) => Channel { sender, tail: c.tail + 1, ..c },
                _ => Channel { sender, ..c },
            }
        },
        Move::Receiver(a) => {
            let receiver = receiver_step(c.receiver, a)->0;
            match a {
                ReceiverAccess::LoadGone(gone) => Channel {
                    receiver,
                    visible_tail: if gone {
                        c.tail
                    } else {
                        c.visible_tail
                    },
                    ..c
                },
                ReceiverAccess::TakeSlot { slot, got } => Channel {
                    receiver,
                    slots: c.slots.update(slot as int, None),
                    received: match got {
                        Some(val) => c.received.push(val),
                        None => c.received,
                    },
                    ..c
                },
                ReceiverAccess::FillSlot { slot, val, displaced } => Channel {
                    receiver,
                    slots: c.slots.update(slot as int, Some(val)),
                    returned: c.returned.push(val),
                    ..c
                },
                ReceiverAccess::StoreSeq(_) => Channel { receiver, head: c.head + 1, ..c },
                _ => Channel { receiver, ..c },
            }
        },
        Move::SenderLooks(n) => Channel {
            sender: sender_step(c.sender, SenderAccess::<T>::LoadSeq(wrap(n)))->0,
            seen_head: n,
            ..c
        },
        Move::ReceiverLooks(n) => Channel {
            receiver: receiver_step(c.receiver, ReceiverAccess::<T>::LoadSeq(wrap(n)))->0,
            seen_tail: n,
            visible_tail: n,
            ..c
        },
        Move::ReceiverLooksAgain(n) => Channel {
            receiver: receiver_step(c.receiver, ReceiverAccess::<T>::ReloadSeq(wrap(n)))->0,
            seen_tail: n,
            visible_tail: n,
            ..c
        },
        Move::SenderAsks(gone) => Channel { sender_told: gone, ..c },
        Move::ReceiverAsks(gone) => Channel { receiver_told: gone, ..c },
        Move::SenderGoes => Channel { sender_gone: true, ..c },
        Move::ReceiverGoes => Channel { receiver_gone: true, ..c },
    }
}

/// Access `a` of the sender gets what the memory holds now, except for the sender's own slot.
pub open spec fn sender_sees<T>(c: Channel<T>, a: SenderAccess<T>) -> bool {
    match a {
        SenderAccess::LoadGone(gone) => gone == c.receiver_gone,
        SenderAccess::LoadSeq(seq) => seq == wrap(c.head),
        SenderAccess::TakeSlot { slot, got } => got == c.slots[slot as int],
        _ => true,
    }
}

/// Access `a` of the receiver gets what the memory holds now, except for the receiver's own slot.
pub open spec fn receiver_sees<T>(c: Channel<T>, a: ReceiverAccess<T>) -> bool {
    match a {
        ReceiverAccess::LoadGone(gone) => gone == c.sender_gone,
        ReceiverAccess::LoadSeq(seq) => seq == wrap(c.tail),
        ReceiverAccess::ReloadSeq(seq) => seq == wrap(c.tail),
        ReceiverAccess::TakeSlot { slot, got } => got == c.slots[slot as int],
        _ => true,
    }
}

/// Whenever the sender took what is in the next slot, something was there.
pub open spec fn never_vacant<T>(trace: Seq<SenderAccess<T>>) -> bool {
    forall|i: int|
        0 <= i < trace.len() ==> !(#[trigger] trace[i] matches SenderAccess::TakeSlot {
            slot,
            got: None,
        })
}

/// The first position whose value the receiver does not have at hand.
pub open spec fn waiting_from<T>(c: Channel<T>) -> nat {
    if c.receiver.phase is Taken || c.receiver.phase is Filled {
        c.head + 2
    } else {
        c.head + 1
    }
}

/// The first position that is not published.
pub open spec fn waiting_to<T>(c: Channel<T>) -> nat {
    if c.sender.phase is Filled {
        c.tail + 1
    } else {
        c.tail
    }
}

/// The last position whose slot is in use.
pub open spec fn in_use_to<T>(c: Channel<T>) -> nat {
    if c.sender.phase is Taken || c.sender.phase is Filled {
        c.tail + 1
    } else {
        c.tail
    }
}

/// The value of slot `j` is at hand with one of the sides.
pub open spec fn at_hand<T>(c: Channel<T>, j: int) -> bool {
    let len = slot_count(c.sender.capacity) as nat;
    ||| j == slot_of(c.head, len) && !(c.receiver.phase is Filled)
    ||| j == slot_of((c.head + 1) as nat, len) && (c.receiver.phase is Taken
        || c.receiver.phase is Filled)
    ||| j == slot_of(c.tail, len) && !(c.sender.phase is Filled)
    ||| j == slot_of((c.tail + 1) as nat, len) && (c.sender.phase is Taken
        || c.sender.phase is Filled)
}

/// The state that a channel is always in.
pub open spec fn consistent<T>(c: Channel<T>) -> bool {
    let cap = c.sender.capacity;
    let len = slot_count(cap) as nat;
    &&& 1 <= cap <= u32::MAX - 2
    &&& c.receiver.capacity == cap
    &&& c.slots.len() == len
    // The counters stand for the positions.
    &&& c.sender.seq == wrap(c.tail)
    &&& c.sender.index == slot_of(c.tail, len)
    &&& c.sender.cached_receiver_seq == wrap(c.seen_head)
    &&& c.receiver.seq == wrap(c.head)
    &&& c.receiver.index == slot_of(c.head, len)
    &&& c.receiver.cached_sender_seq == wrap(c.seen_tail)
    &&& c.seen_head <= c.head < c.seen_tail <= c.visible_tail <= c.tail <= c.seen_head + cap + 1
    &&& c.sender.phase is Vetted || c.sender.phase is Taken || c.sender.phase is Filled ==> c.tail
        <= c.seen_head + cap
    &&& c.receiver.phase is Due || c.receiver.phase is Taken || c.receiver.phase is Filled
        ==> c.head + 2 <= c.seen_tail
    // What waits in the slots is what was sent.
    &&& c.sent.len() + 1 == waiting_to(c)
    &&& c.received.len() + 1 == waiting_from(c)
    &&& forall|n: nat|
        waiting_from(c) <= n < waiting_to(c) ==> c.slots[#[trigger] slot_of(n, len)] == Some(
            c.sent[n - 1],
        )
    &&& forall|i: int| 0 <= i < c.received.len() ==> #[trigger] c.received[i] == c.sent[i]
    // Slots in use are distinct, and those whose value is not at hand are filled.
    &&& forall|n: nat, m: nat|
        c.head <= n < m <= in_use_to(c) ==> #[trigger] slot_of(n, len) != #[trigger] slot_of(m, len)
    &&& forall|j: int| 0 <= j < len ==> (#[trigger] c.slots[j] is None <==> at_hand(c, j))
    // The sides leave only between calls.
    &&& c.sender_gone ==> c.sender.phase is Idle
    &&& c.receiver_gone ==> c.receiver.phase is Idle
    &&& c.receiver.phase is Orphaned ==> c.sender_gone && c.visible_tail == c.tail
}

/// A channel is consistent at the start.
pub proof fn consistent_at_the_start<T>(capacity: u32, slots: Seq<Option<T>>)
    requires
        1 <= capacity <= u32::MAX - 2,
        slots.len() == slot_count(capacity),
        forall|j: int| 0 <= j < slots.len() ==> (#[trigger] slots[j] is None <==> j < 2),
    ensures
        consistent(channel_start(capacity, slots)),
{
    let c = channel_start(capacity, slots);
    let len = slot_count(capacity) as nat;
    assert(slot_of(0, len) == 0 && slot_of(1, len) == 1) by {
        vstd::arithmetic::div_mod::lemma_small_mod(0, len);
        vstd::arithmetic::div_mod::lemma_small_mod(1, len);
    }
}

/// Facts about the counters and slots of the positions that the two sides are at.
pub proof fn positions<T>(c: Channel<T>)
    requires
        consistent(c),
    ensures
        ({
            let cap = c.sender.capacity;
            let len = slot_count(cap) as nat;
            &&& steps(c.sender.cached_receiver_seq, c.sender.seq) == c.tail - c.seen_head
            &&& steps(c.receiver.seq, c.receiver.cached_sender_seq) == c.seen_tail - c.head
            &&& succ(c.sender.seq) == wrap((c.tail + 1) as nat)
            &&& succ(c.receiver.seq) == wrap((c.head + 1) as nat)
            &&& slot_after(cap, c.sender.index) == slot_of((c.tail + 1) as nat, len)
            &&& slot_after(cap, c.receiver.index) == slot_of((c.head + 1) as nat, len)
            &&& forall|n: nat| 0 <= #[trigger] slot_of(n, len) < len
        }),
{
    counters_follow_positions(c.seen_head, c.tail);
    counters_follow_positions(c.head, c.seen_tail);
    counters_follow_positions(c.tail, c.tail);
    let len = slot_count(c.sender.capacity) as nat;
    slots_follow_positions(c.tail, len);
    slots_follow_positions(c.head, len);
    assert forall|n: nat| 0 <= #[trigger] slot_of(n, len) < len by {
        slots_follow_positions(n, len);
    }
}

/// The sender's accesses keep a channel consistent.
#[verifier::spinoff_prover]
proof fn sender_keeps_consistency<T>(c: Channel<T>, a: SenderAccess<T>)
    requires
        consistent(c),
        can(c, Move::Sender(a)),
    ensures
        consistent(after(c, Move::Sender(a))),
{
    let d = after(c, Move::Sender(a));
    let len = slot_count(c.sender.capacity) as nat;
    positions(c);
    match a {
        SenderAccess::TakeSlot { slot, got } => {
            assert(slot == slot_of((c.tail + 1) as nat, len));
            a_slot_is_fresh(c.head, (c.tail + 1) as nat, len);
            assert(!at_hand(c, slot as int));
            assert(got is Some);
            assert forall|j: int| 0 <= j < len implies (#[trigger] d.slots[j] is None <==> at_hand(
                d,
                j,
            )) by {
                assert(c.slots[j] is None <==> at_hand(c, j));
            }
            assert forall|n: nat| waiting_from(d) <= n < waiting_to(d) implies d.slots[
                #[trigger] slot_of(n, len)] == Some(d.sent[n - 1]) by {
                assert(slot_of(n, len) != slot_of((c.tail + 1) as nat, len));
            }
        },
        SenderAccess::FillSlot { slot, val, displaced } => {
            assert(slot == slot_of(c.tail, len));
            assert forall|j: int| 0 <= j < len implies (#[trigger] d.slots[j] is None <==> at_hand(
                d,
                j,
            )) by {
                assert(c.slots[j] is None <==> at_hand(c, j));
            }
            assert forall|n: nat| waiting_from(d) <= n < waiting_to(d) implies d.slots[
                #[trigger] slot_of(n, len)] == Some(d.sent[n - 1]) by {
                if n < c.tail {
                    assert(slot_of(n, len) != slot_of(c.tail, len));
                }
            }
        },
        _ => {
            assert forall|j: int| 0 <= j < len implies (#[trigger] d.slots[j] is None <==> at_hand(
                d,
                j,
            )) by {
                assert(c.slots[j] is None <==> at_hand(c, j));
            }
        },
    }
}

/// The receiver's accesses keep a channel consistent.
#[verifier::spinoff_prover]
proof fn receiver_keeps_consistency<T>(c: Channel<T>, a: ReceiverAccess<T>)
    requires
        consistent(c),
        can(c, Move::Receiver(a)),
    ensures
        consistent(after(c, Move::Receiver(a))),
{
    let d = after(c, Move::Receiver(a));
    let len = slot_count(c.sender.capacity) as nat;
    positions(c);
    match a {
        ReceiverAccess::TakeSlot { slot, got } => {
            assert(slot == slot_of((c.head + 1) as nat, len));
            assert(got == Some(c.sent[c.head as int]));
            assert forall|j: int| 0 <= j < len implies (#[trigger] d.slots[j] is None <==> at_hand(
                d,
                j,
            )) by {
                assert(c.slots[j] is None <==> at_hand(c, j));
            }
            assert forall|n: nat| waiting_from(d) <= n < waiting_to(d) implies d.slots[
                #[trigger] slot_of(n, len)] == Some(d.sent[n - 1]) by {
                assert(slot_of(n, len) != slot_of((c.head + 1) as nat, len));
            }
        },
        ReceiverAccess::FillSlot { slot, val, displaced } => {
            assert(slot == slot_of(c.head, len));
            assert forall|j: int| 0 <= j < len implies (#[trigger] d.slots[j] is None <==> at_hand(
                d,
                j,
            )) by {
                assert(c.slots[j] is None <==> at_hand(c, j));
            }
            assert forall|n: nat| waiting_from(d) <= n < waiting_to(d) implies d.slots[
                #[trigger] slot_of(n, len)] == Some(d.sent[n - 1]) by {
                assert(slot_of(n, len) != slot_of(c.head, len));
            }
        },
        _ => {
            assert forall|j: int| 0 <= j < len implies (#[trigger] d.slots[j] is None <==> at_hand(
                d,
                j,
            )) by {
                assert(c.slots[j] is None <==> at_hand(c, j));
            }
        },
    }
}

/// Whatever happens, a channel stays consistent.
pub proof fn moves_keep_consistency<T>(c: Channel<T>, m: Move<T>)
    requires
        consistent(c),
        can(c, m),
    ensures
        consistent(after(c, m)),
{
    let d = after(c, m);
    let len = slot_count(c.sender.capacity) as nat;
    positions(c);
    match m {
        Move::Sender(a) => {
            sender_keeps_consistency(c, a);
        },
        Move::Receiver(a) => {
            receiver_keeps_consistency(c, a);
        },
        Move::SenderLooks(n) => {
            counters_follow_positions(n, c.tail);
            assert forall|j: int| 0 <= j < len implies (#[trigger] d.slots[j] is None <==> at_hand(
                d,
                j,
            )) by {
                assert(c.slots[j] is None <==> at_hand(c, j));
            }
        },
        Move::ReceiverLooks(n) => {
            counters_follow_positions(c.head, n);
            assert forall|j: int| 0 <= j < len implies (#[trigger] d.slots[j] is None <==> at_hand(
                d,
                j,
            )) by {
                assert(c.slots[j] is None <==> at_hand(c, j));
            }
        },
        Move::ReceiverLooksAgain(n) => {
            counters_follow_positions(c.head, n);
            assert forall|j: int| 0 <= j < len implies (#[trigger] d.slots[j] is None <==> at_hand(
                d,
                j,
            )) by {
                assert(c.slots[j] is None <==> at_hand(c, j));
            }
        },
        _ => {
            assert forall|j: int| 0 <= j < len implies (#[trigger] d.slots[j] is None <==> at_hand(
                d,
                j,
            )) by {
                assert(c.slots[j] is None <==> at_hand(c, j));
            }
        },
    }
}

/// The value that lies in the slot of position `n` while no side uses it: the one that the receiver
/// put back there a lap before, or one of those at the start.
pub open spec fn resting<T>(c: Channel<T>, n: nat) -> Option<T> {
    let len = slot_count(c.sender.capacity);
    if n < len {
        c.initial[n as int]
    } else {
        Some(c.returned[n - len])
    }
}

/// The values of the channel go round: what the sender gets is what rests in the next slot.
pub open spec fn rotates<T>(c: Channel<T>) -> bool {
    let len = slot_count(c.sender.capacity) as nat;
    &&& c.returned.len() == c.head + (if c.receiver.phase is Filled {
        1int
    } else {
        0
    })
    &&& c.regained.len() + 1 == in_use_to(c)
    &&& forall|n: nat|
        in_use_to(c) < n < c.returned.len() + len ==> c.slots[#[trigger] slot_of(n, len)]
            == resting(c, n)
    &&& forall|i: int|
        0 <= i < c.regained.len() ==> Some(#[trigger] c.regained[i]) == resting(c, (i + 2) as nat)
}

/// The values of a channel go round at the start.
proof fn rotates_at_the_start<T>(capacity: u32, slots: Seq<Option<T>>)
    requires
        slots.len() == slot_count(capacity),
    ensures
        rotates(channel_start(capacity, slots)),
{
    let c = channel_start(capacity, slots);
    let len = slot_count(capacity) as nat;
    assert forall|n: nat| in_use_to(c) < n < c.returned.len() + len implies c.slots[
        #[trigger] slot_of(n, len)] == resting(c, n) by {
        vstd::arithmetic::div_mod::lemma_small_mod(n, len);
    }
}

/// Whatever happens, the values of a channel go round.
#[verifier::spinoff_prover]
proof fn moves_keep_rotation<T>(c: Channel<T>, m: Move<T>)
    requires
        consistent(c),
        rotates(c),
        can(c, m),
    ensures
        rotates(after(c, m)),
{
    let d = after(c, m);
    let len = slot_count(c.sender.capacity) as nat;
    positions(c);
    match m {
        Move::Sender(SenderAccess::TakeSlot { slot, got }) => {
            let at = (c.tail + 1) as nat;
            slots_that_are_taken_are_filled(c, slot, got);
            assert(c.slots[slot_of(at, len)] == resting(c, at));
            assert forall|n: nat| in_use_to(d) < n < d.returned.len() + len implies d.slots[
                #[trigger] slot_of(n, len)] == resting(d, n) by {
                near_positions_have_own_slots(at, n, len);
            }
        },
        Move::Sender(SenderAccess::FillSlot { slot, val, displaced }) => {
            assert forall|n: nat| in_use_to(d) < n < d.returned.len() + len implies d.slots[
                #[trigger] slot_of(n, len)] == resting(d, n) by {
                near_positions_have_own_slots(c.tail, n, len);
            }
        },
        Move::Receiver(ReceiverAccess::TakeSlot { slot, got }) => {
            slots_that_are_taken_are_filled(c, slot, got);
            let at = (c.head + 1) as nat;
            assert forall|n: nat| in_use_to(d) < n < d.returned.len() + len implies d.slots[
                #[trigger] slot_of(n, len)] == resting(d, n) by {
                near_positions_have_own_slots(at, n, len);
            }
        },
        Move::Receiver(ReceiverAccess::FillSlot { slot, val, displaced }) => {
            assert forall|n: nat| in_use_to(d) < n < d.returned.len() + len implies d.slots[
                #[trigger] slot_of(n, len)] == resting(d, n) by {
                if n < c.head + len {
                    near_positions_have_own_slots(c.head, n, len);
                } else {
                    laps_share_slots(c.head, len);
                }
            }
        },
        _ => {},
    }
}

/// The sender gets back the values that the channel owns in rotation: first those that were in the
/// slots at the start, and then what the receiver has put back. If the receiver puts back what it
/// received, the sender gets back what it sent `capacity + 2` values before.
pub proof fn values_come_back_in_rotation<T>(c: Channel<T>, i: int)
    requires
        consistent(c),
        rotates(c),
        0 <= i < c.regained.len(),
    ensures
        i < c.sender.capacity ==> Some(c.regained[i]) == c.initial[i + 2],
        i >= c.sender.capacity ==> c.regained[i] == c.returned[i - c.sender.capacity],
        i > c.sender.capacity && c.returned[i - c.sender.capacity] == c.received[i
            - c.sender.capacity - 1] ==> c.regained[i] == c.sent[i - c.sender.capacity - 1],
{
    assert(Some(c.regained[i]) == resting(c, (i + 2) as nat));
}

/// The channel after all of `moves`, if they can happen in that order.
pub open spec fn play<T>(start: Channel<T>, moves: Seq<Move<T>>) -> Option<Channel<T>>
    decreases moves.len(),
{
    if moves.len() == 0 {
        Some(start)
    } else {
        match play(start, moves.drop_last()) {
            Some(c) => if can(c, moves.last()) {
                Some(after(c, moves.last()))
            } else {
                None
            },
            None => None,
        }
    }
}

/// One more move.
pub proof fn play_extends<T>(start: Channel<T>, moves: Seq<Move<T>>, c: Channel<T>, m: Move<T>)
    requires
        play(start, moves) == Some(c),
        can(c, m),
    ensures
        play(start, moves.push(m)) == Some(after(c, m)),
{
    assert(moves.push(m).drop_last() =~= moves);
}

/// The accesses of the sender among `moves`.
pub open spec fn sender_part<T>(moves: Seq<Move<T>>) -> Seq<SenderAccess<T>>
    decreases moves.len(),
{
    if moves.len() == 0 {
        Seq::empty()
    } else {
        match moves.last() {
            Move::Sender(a) => sender_part(moves.drop_last()).push(a),
            Move::SenderLooks(n) => sender_part(moves.drop_last()).push(
                SenderAccess::LoadSeq(wrap(n)),
            ),
            _ => sender_part(moves.drop_last()),
        }
    }
}

/// The accesses of the receiver among `moves`.
pub open spec fn receiver_part<T>(moves: Seq<Move<T>>) -> Seq<ReceiverAccess<T>>
    decreases moves.len(),
{
    if moves.len() == 0 {
        Seq::empty()
    } else {
        match moves.last() {
            Move::Receiver(a) => receiver_part(moves.drop_last()).push(a),
            Move::ReceiverLooks(n) => receiver_part(moves.drop_last()).push(
                ReceiverAccess::LoadSeq(wrap(n)),
            ),
            Move::ReceiverLooksAgain(n) => receiver_part(moves.drop_last()).push(
                ReceiverAccess::ReloadSeq(wrap(n)),
            ),
            _ => receiver_part(moves.drop_last()),
        }
    }
}

/// However the two sides interleave, each is where its own accesses have brought it, and the
/// receiver takes the values that were sent: all of them, in the order in which they were sent, up
/// to those that still wait, which are never more than `capacity`.
pub proof fn values_arrive_in_order<T>(
    capacity: u32,
    slots: Seq<Option<T>>,
    moves: Seq<Move<T>>,
    end: Channel<T>,
)
    requires
        1 <= capacity <= u32::MAX - 2,
        slots.len() == slot_count(capacity),
        forall|j: int| 0 <= j < slots.len() ==> (#[trigger] slots[j] is None <==> j < 2),
        play(channel_start(capacity, slots), moves) == Some(end),
    ensures
        consistent(end),
        rotates(end),
        end.initial == slots,
        never_vacant(sender_part(moves)),
        end.regained == regained_by(sender_part(moves)),
        end.returned == returned_by(receiver_part(moves)),
        end.sender.capacity == capacity,
        sender_run(capacity, sender_part(moves)) == Some(end.sender),
        receiver_run(capacity, receiver_part(moves)) == Some(end.receiver),
        end.received.len() <= end.sent.len() <= end.received.len() + capacity,
        end.received == end.sent.take(end.received.len() as int),
        end.sent == sent_by(sender_part(moves)),
        end.received == received_by(receiver_part(moves)),
    decreases moves.len(),
{
    broadcast use {
        sent_by_extends,
        received_by_extends,
        regained_by_extends,
        returned_by_extends,
    };

    let start = channel_start(capacity, slots);
    if moves.len() == 0 {
        consistent_at_the_start(capacity, slots);
        rotates_at_the_start(capacity, slots);
    } else {
        let before = play(start, moves.drop_last())->0;
        values_arrive_in_order(capacity, slots, moves.drop_last(), before);
        moves_keep_consistency(before, moves.last());
        moves_keep_rotation(before, moves.last());
        match moves.last() {
            Move::Sender(a) => {
                match a {
                    SenderAccess::TakeSlot { slot, got } => {
                        slots_that_are_taken_are_filled(before, slot, got);
                    },
                    _ => {},
                }
                sender_run_extends(capacity, sender_part(moves.drop_last()), a);
            },
            Move::SenderLooks(n) => {
                sender_run_extends(
                    capacity,
                    sender_part(moves.drop_last()),
                    SenderAccess::LoadSeq(wrap(n)),
                );
            },
            Move::Receiver(a) => {
                receiver_run_extends(capacity, receiver_part(moves.drop_last()), a);
            },
            Move::ReceiverLooks(n) => {
                receiver_run_extends(
                    capacity,
                    receiver_part(moves.drop_last()),
                    ReceiverAccess::LoadSeq(wrap(n)),
                );
            },
            Move::ReceiverLooksAgain(n) => {
                receiver_run_extends(
                    capacity,
                    receiver_part(moves.drop_last()),
                    ReceiverAccess::ReloadSeq(wrap(n)),
                );
            },
            _ => {},
        }
    }
    assert(end.received =~= end.sent.take(end.received.len() as int));
}

/// A slot that a side takes holds a value: the one that the sender moves on to an old one, and the
/// one that the receiver moves on to the value that was sent next.
pub proof fn slots_that_are_taken_are_filled<T>(c: Channel<T>, slot: u32, got: Option<T>)
    requires
        consistent(c),
    ensures
        can(c, Move::Sender(SenderAccess::TakeSlot { slot, got })) ==> got is Some,
        can(c, Move::Receiver(ReceiverAccess::TakeSlot { slot, got })) ==> c.received.len()
            < c.sent.len() && got == Some(c.sent[c.received.len() as int]),
{
    positions(c);
    let len = slot_count(c.sender.capacity) as nat;
    if can(c, Move::Sender(SenderAccess::TakeSlot { slot, got })) {
        a_slot_is_fresh(c.head, (c.tail + 1) as nat, len);
        assert(!at_hand(c, slot as int));
        assert(c.slots[slot as int] is Some);
    }
}

/// The two sides never touch the same slot: from the time that the sender has room to the time that
/// it announces what it has published, and from the time that the receiver has a value to the time
/// that it announces that it has taken it, the slots that they move between are four.
pub proof fn sides_touch_distinct_slots<T>(c: Channel<T>)
    requires
        consistent(c),
        c.sender.phase is Taken || c.sender.phase is Filled,
        c.receiver.phase is Due || c.receiver.phase is Taken || c.receiver.phase is Filled,
    ensures
        ({
            let len = slot_count(c.sender.capacity) as nat;
            let from = slot_of(c.tail, len);
            let to = slot_of((c.tail + 1) as nat, len);
            &&& slot_of(c.head, len) != from && slot_of(c.head, len) != to
            &&& slot_of((c.head + 1) as nat, len) != from && slot_of((c.head + 1) as nat, len) != to
        }),
{
}

/// Between calls, the counters tell how many values wait; the next one is in the slot after the
/// receiver's, and if there is room, there is an old value in the slot after the sender's.
pub proof fn counters_tell_what_waits<T>(c: Channel<T>)
    requires
        consistent(c),
        c.sender.phase is Idle,
        c.receiver.phase is Idle,
    ensures
        has_room(c.sender.capacity, c.sender.seq, wrap(c.head)) <==> c.sent.len()
            < c.received.len() + c.sender.capacity,
        has_room(c.sender.capacity, c.sender.seq, c.sender.cached_receiver_seq) ==> c.sent.len()
            < c.received.len() + c.sender.capacity,
        c.sent.len() < c.received.len() + c.sender.capacity ==> c.slots[slot_after(
            c.sender.capacity,
            c.sender.index,
        ) as int] is Some,
        has_value(c.receiver.seq, wrap(c.tail)) <==> c.received.len() < c.sent.len(),
        has_value(c.receiver.seq, c.receiver.cached_sender_seq) ==> c.received.len()
            < c.sent.len(),
        c.received.len() < c.sent.len() ==> c.slots[slot_after(
            c.receiver.capacity,
            c.receiver.index,
        ) as int] == Some(c.sent[c.received.len() as int]),
{
    let len = slot_count(c.sender.capacity) as nat;
    positions(c);
    counters_follow_positions(c.head, c.tail);
    counters_follow_positions(c.seen_head, c.tail);
    counters_follow_positions(c.head, c.seen_tail);
    if c.sent.len() < c.received.len() + c.sender.capacity {
        a_slot_is_fresh(c.head, (c.tail + 1) as nat, len);
        assert(!at_hand(c, slot_of((c.tail + 1) as nat, len)));
    }
}

/// A sender finds the channel full only if it saw the receiver at a position behind which
/// `capacity` values wait; if that is the receiver's latest position, they all wait still.
pub proof fn full_means_full<T>(c: Channel<T>, n: nat)
    requires
        consistent(c),
        can(c, Move::SenderLooks(n)),
        !has_room(c.sender.capacity, c.sender.seq, wrap(n)),
    ensures
        c.sent.len() == n + c.sender.capacity,
        n == c.head && !(c.receiver.phase is Taken || c.receiver.phase is Filled) ==> c.sent.len()
            == c.received.len() + c.sender.capacity,
{
    counters_follow_positions(n, c.tail);
}

/// A sender that sees the receiver's latest position finds room if fewer than `capacity` values
/// wait.
pub proof fn room_is_found<T>(c: Channel<T>)
    requires
        consistent(c),
        can(c, Move::SenderLooks(c.head)),
        c.sent.len() < c.head + c.sender.capacity,
    ensures
        has_room(c.sender.capacity, c.sender.seq, wrap(c.head)),
{
    counters_follow_positions(c.head, c.tail);
}

/// A receiver that sees the sender's latest position finds a value if one waits.
pub proof fn a_waiting_value_is_found<T>(c: Channel<T>)
    requires
        consistent(c),
        can(c, Move::ReceiverLooks(c.tail)),
        c.received.len() + 1 < c.tail,
    ensures
        has_value(c.receiver.seq, wrap(c.tail)),
{
    counters_follow_positions(c.head, c.tail);
}

/// The receiver finds the channel disconnected only when the sender is gone and every value that
/// was sent was received.
pub proof fn disconnected_means_drained<T>(c: Channel<T>, n: nat)
    requires
        consistent(c),
        c.receiver.phase is Orphaned,
        can(c, Move::ReceiverLooksAgain(n)),
        !has_value(c.receiver.seq, wrap(n)),
    ensures
        c.sender_gone,
        c.received == c.sent,
{
    counters_follow_positions(c.head, n);
    assert(c.received =~= c.sent);
}

/// Once the receiver has found the channel disconnected, which it did last, the sender is gone and
/// every value that was sent was received.
pub proof fn disconnected_stays_drained<T>(
    capacity: u32,
    slots: Seq<Option<T>>,
    moves: Seq<Move<T>>,
    end: Channel<T>,
)
    requires
        1 <= capacity <= u32::MAX - 2,
        slots.len() == slot_count(capacity),
        forall|j: int| 0 <= j < slots.len() ==> (#[trigger] slots[j] is None <==> j < 2),
        play(channel_start(capacity, slots), moves) == Some(end),
        receiver_part(moves).len() > 0,
        receiver_part(moves).last() is ReloadSeq,
        end.receiver.phase is Idle,
    ensures
        end.sender_gone,
        end.received == end.sent,
    decreases moves.len(),
{
    let before = play(channel_start(capacity, slots), moves.drop_last())->0;
    values_arrive_in_order(capacity, slots, moves.drop_last(), before);
    match moves.last() {
        Move::ReceiverLooksAgain(n) => {
            disconnected_means_drained(before, n);
        },
        Move::Receiver(_) => {},
        Move::ReceiverLooks(_) => {},
        _ => {
            disconnected_stays_drained(capacity, slots, moves.drop_last(), before);
        },
    }
}

/// The sender's look whether the receiver has disconnected gets what the memory holds now.
pub open spec fn sender_asking_sees<T>(c: Channel<T>, gone: bool) -> bool {
    gone == c.receiver_gone
}

/// The receiver's look whether the sender has disconnected gets what the memory holds now.
pub open spec fn receiver_asking_sees<T>(c: Channel<T>, gone: bool) -> bool {
    gone == c.sender_gone
}

/// Who is gone stays gone, and who was told so is told so again.
pub proof fn gone_stays_gone<T>(c: Channel<T>, moves: Seq<Move<T>>, end: Channel<T>)
    requires
        play(c, moves) == Some(end),
    ensures
        c.sender_gone ==> end.sender_gone,
        c.receiver_gone ==> end.receiver_gone,
        c.sender_told ==> end.sender_told,
        c.receiver_told ==> end.receiver_told,
    decreases moves.len(),
{
    if moves.len() > 0 {
        let before = play(c, moves.drop_last())->0;
        gone_stays_gone(c, moves.drop_last(), before);
    }
}

/// Who saw that the other side is gone saw what is so.
pub proof fn gone_is_seen_of_the_gone<T>(start: Channel<T>, moves: Seq<Move<T>>, end: Channel<T>)
    requires
        play(start, moves) == Some(end),
    ensures
        forall|i: int|
            0 <= i < sender_part(moves).len() && #[trigger] sender_part(moves)[i]
                == SenderAccess::<T>::LoadGone(true) ==> end.receiver_gone,
        forall|i: int|
            0 <= i < receiver_part(moves).len() && #[trigger] receiver_part(moves)[i]
                == ReceiverAccess::<T>::LoadGone(true) ==> end.sender_gone,
    decreases moves.len(),
{
    if moves.len() > 0 {
        let before = play(start, moves.drop_last())->0;
        gone_is_seen_of_the_gone(start, moves.drop_last(), before);
    }
}

} // verus!
