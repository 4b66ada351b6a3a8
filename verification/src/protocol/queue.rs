//! The protocol of the bounded queue.
//!
//! There are `capacity` slots. The sender and the receiver each stand at a position of the stream
//! of values and announce it to each other. The positions from that of the receiver up to that of
//! the sender are those of the values that wait to be received.
//!
//! [`sender_step`] and [`receiver_step`] say which accesses to shared memory each side makes, and
//! in which order. [`Channel`] is the whole channel: both sides and the memory between them. Its
//! accesses take effect one at a time, in any interleaving of the two sides; a load of what the
//! other side announces may miss what it announced last.

use crate::counter::{
    a_slot_is_fresh, counters_follow_positions, near_positions_have_own_slots, next_slot, slot_of,
    slots_follow_positions, steps, succ, wrap,
};
use vstd::prelude::*;

verus! {

/// An access of the sender to shared memory.
pub enum SenderAccess<T> {
    /// Reads whether the receiver has disconnected.
    LoadGone(bool),
    /// Reads the receiver's position.
    LoadSeq(u32),
    /// Puts a value into a slot, in place of what was there.
    FillSlot { slot: u32, val: T, displaced: Option<T> },
    /// Announces the sender's position.
    StoreSeq(u32),
}

/// An access of the receiver to shared memory.
pub enum ReceiverAccess<T> {
    /// Reads whether the sender has disconnected.
    LoadGone(bool),
    /// Reads the sender's position.
    LoadSeq(u32),
    /// Reads the sender's position again, once the sender was seen to be gone.
    ReloadSeq(u32),
    /// Takes what is in a slot.
    TakeSlot { slot: u32, got: Option<T> },
    /// Announces the receiver's position.
    StoreSeq(u32),
}

/// How far the sender is in sending a value.
pub enum SenderPhase {
    /// Not sending.
    Idle,
    /// The receiver was not seen to be gone.
    Open,
    /// There is room for another value.
    Vetted,
    /// The value is in its slot.
    Filled,
}

/// What the sender knows.
pub struct SenderState {
    pub capacity: u32,
    pub seq: u32,
    pub index: u32,
    pub cached_receiver_seq: u32,
    pub phase: SenderPhase,
}

/// How far the receiver is in receiving a value.
pub enum ReceiverPhase {
    /// Not receiving.
    Idle,
    /// Found no value.
    Dry,
    /// Found no value, and then found the sender gone.
    Orphaned,
    /// Found a value.
    Due,
    /// The value was taken.
    Taken,
}

/// What the receiver knows.
pub struct ReceiverState {
    pub capacity: u32,
    pub seq: u32,
    pub index: u32,
    pub cached_sender_seq: u32,
    pub phase: ReceiverPhase,
}

/// A sender at `seq` has room for another value when the receiver is at `receiver_seq`.
pub open spec fn has_room(capacity: u32, seq: u32, receiver_seq: u32) -> bool {
    steps(receiver_seq, seq) < capacity
}

/// The channel is full for a sender at `seq` when the receiver is at `receiver_seq`.
pub open spec fn is_full_at(capacity: u32, seq: u32, receiver_seq: u32) -> bool {
    !has_room(capacity, seq, receiver_seq)
}

/// The sender at the start.
pub open spec fn sender_start(capacity: u32) -> SenderState {
    SenderState { capacity, seq: 0, index: 0, cached_receiver_seq: 0, phase: SenderPhase::Idle }
}

/// The receiver at the start.
pub open spec fn receiver_start(capacity: u32) -> ReceiverState {
    ReceiverState { capacity, seq: 0, index: 0, cached_sender_seq: 0, phase: ReceiverPhase::Idle }
}

/// The sender after it has put a value into its slot.
pub open spec fn sender_fills(s: SenderState, slot: u32) -> Option<SenderState> {
    if slot == s.index {
        Some(SenderState { phase: SenderPhase::Filled, ..s })
    } else {
        None
    }
}

/// The sender after access `a`, if it may make that access now.
pub open spec fn sender_step<T>(s: SenderState, a: SenderAccess<T>) -> Option<SenderState> {
    let room = has_room(s.capacity, s.seq, s.cached_receiver_seq);
    match (s.phase, a) {
        (SenderPhase::Idle, SenderAccess::LoadGone(gone)) => Some(
            SenderState {
                phase: if gone {
                    SenderPhase::Idle
                } else {
                    SenderPhase::Open
                },
                ..s
            },
        ),
        (SenderPhase::Idle, SenderAccess::LoadSeq(seq)) => if room {
            None
        } else {
            Some(SenderState { cached_receiver_seq: seq, ..s })
        },
        (SenderPhase::Open, SenderAccess::LoadSeq(seq)) => if room {
            None
        } else {
            Some(
                SenderState {
                    cached_receiver_seq: seq,
                    phase: if is_full_at(s.capacity, s.seq, seq) {
                        SenderPhase::Idle
                    } else {
                        SenderPhase::Vetted
                    },
                    ..s
                },
            )
        },
        (SenderPhase::Open, SenderAccess::FillSlot { slot, val, displaced }) => if room {
            sender_fills(s, slot)
        } else {
            None
        },
        (SenderPhase::Vetted, SenderAccess::FillSlot { slot, val, displaced }) => sender_fills(
            s,
            slot,
        ),
        (SenderPhase::Filled, SenderAccess::StoreSeq(seq)) => if seq == succ(s.seq) {
            Some(
                SenderState {
                    seq,
                    index: next_slot(s.index, s.capacity as int),
                    phase: SenderPhase::Idle,
                    ..s
                },
            )
        } else {
            None
        },
        _ => None,
    }
}

/// The receiver after it has taken what is in its slot. If there is nothing, it gives up.
pub open spec fn receiver_takes<T>(s: ReceiverState, slot: u32, got: Option<T>) -> Option<
    ReceiverState,
> {
    if slot != s.index {
        None
    } else {
        Some(
            ReceiverState {
                phase: if got is Some {
                    ReceiverPhase::Taken
                } else {
                    ReceiverPhase::Idle
                },
                ..s
            },
        )
    }
}

/// The receiver after access `a`, if it may make that access now.
pub open spec fn receiver_step<T>(s: ReceiverState, a: ReceiverAccess<T>) -> Option<ReceiverState> {
    match (s.phase, a) {
        (ReceiverPhase::Idle, ReceiverAccess::TakeSlot { slot, got }) => if s.cached_sender_seq
            != s.seq {
            receiver_takes(s, slot, got)
        } else {
            None
        },
        (ReceiverPhase::Idle, ReceiverAccess::LoadSeq(seq)) => if s.cached_sender_seq != s.seq {
            None
        } else {
            Some(
                ReceiverState {
                    cached_sender_seq: seq,
                    phase: if seq != s.seq {
                        ReceiverPhase::Due
                    } else {
                        ReceiverPhase::Dry
                    },
                    ..s
                },
            )
        },
        (ReceiverPhase::Dry, ReceiverAccess::LoadGone(gone)) => Some(
            ReceiverState {
                phase: if gone {
                    ReceiverPhase::Orphaned
                } else {
                    ReceiverPhase::Idle
                },
                ..s
            },
        ),
        (ReceiverPhase::Orphaned, ReceiverAccess::ReloadSeq(seq)) => Some(
            ReceiverState {
                cached_sender_seq: seq,
                phase: if seq != s.seq {
                    ReceiverPhase::Due
                } else {
                    ReceiverPhase::Idle
                },
                ..s
            },
        ),
        (ReceiverPhase::Due, ReceiverAccess::TakeSlot { slot, got }) => receiver_takes(
            s,
            slot,
            got,
        ),
        (ReceiverPhase::Taken, ReceiverAccess::StoreSeq(seq)) => if seq == succ(s.seq) {
            Some(
                ReceiverState {
                    seq,
                    index: next_slot(s.index, s.capacity as int),
                    phase: ReceiverPhase::Idle,
                    ..s
                },
            )
        } else {
            None
        },
        _ => None,
    }
}

/// The sender, if it has come this far, after one more access.
pub open spec fn sender_then<T>(s: Option<SenderState>, a: SenderAccess<T>) -> Option<SenderState> {
    match s {
        Some(s) => sender_step(s, a),
        None => None,
    }
}

/// The receiver, if it has come this far, after one more access.
pub open spec fn receiver_then<T>(s: Option<ReceiverState>, a: ReceiverAccess<T>) -> Option<
    ReceiverState,
> {
    match s {
        Some(s) => receiver_step(s, a),
        None => None,
    }
}

/// The sender after all the accesses of `trace`, if it may make them.
pub open spec fn sender_run<T>(capacity: u32, trace: Seq<SenderAccess<T>>) -> Option<SenderState>
    decreases trace.len(),
{
    if trace.len() == 0 {
        Some(sender_start(capacity))
    } else {
        sender_then(sender_run(capacity, trace.drop_last()), trace.last())
    }
}

/// The receiver after all the accesses of `trace`, if it may make them.
pub open spec fn receiver_run<T>(capacity: u32, trace: Seq<ReceiverAccess<T>>) -> Option<
    ReceiverState,
>
    decreases trace.len(),
{
    if trace.len() == 0 {
        Some(receiver_start(capacity))
    } else {
        receiver_then(receiver_run(capacity, trace.drop_last()), trace.last())
    }
}

/// One more access of the sender.
pub proof fn sender_run_extends<T>(capacity: u32, trace: Seq<SenderAccess<T>>, a: SenderAccess<T>)
    ensures
        sender_run(capacity, trace.push(a)) == sender_then(sender_run(capacity, trace), a),
{
    assert(trace.push(a).drop_last() =~= trace);
}

/// One more access of the receiver.
pub proof fn receiver_run_extends<T>(
    capacity: u32,
    trace: Seq<ReceiverAccess<T>>,
    a: ReceiverAccess<T>,
)
    ensures
        receiver_run(capacity, trace.push(a)) == receiver_then(receiver_run(capacity, trace), a),
{
    assert(trace.push(a).drop_last() =~= trace);
}

/// The values that the sender has put into slots to send them, in order.
pub open spec fn sent_by<T>(trace: Seq<SenderAccess<T>>) -> Seq<T>
    decreases trace.len(),
{
    if trace.len() == 0 {
        Seq::empty()
    } else {
        match trace.last() {
            SenderAccess::FillSlot { slot, val, displaced } => sent_by(trace.drop_last()).push(val),
            _ => sent_by(trace.drop_last()),
        }
    }
}

/// The values that the receiver has taken, in order.
pub open spec fn received_by<T>(trace: Seq<ReceiverAccess<T>>) -> Seq<T>
    decreases trace.len(),
{
    if trace.len() == 0 {
        Seq::empty()
    } else {
        match trace.last() {
            ReceiverAccess::TakeSlot { slot, got: Some(val) } => received_by(
                trace.drop_last(),
            ).push(val),
            _ => received_by(trace.drop_last()),
        }
    }
}

/// What one more access of the sender adds to what it has sent.
pub broadcast proof fn sent_by_extends<T>(trace: Seq<SenderAccess<T>>, a: SenderAccess<T>)
    ensures
        #[trigger] sent_by(trace.push(a)) == (match a {
            SenderAccess::FillSlot { slot, val, displaced } => sent_by(trace).push(val),
            _ => sent_by(trace),
        }),
{
    assert(trace.push(a).drop_last() =~= trace);
}

/// What one more access of the receiver adds to what it has received.
pub broadcast proof fn received_by_extends<T>(trace: Seq<ReceiverAccess<T>>, a: ReceiverAccess<T>)
    ensures
        #[trigger] received_by(trace.push(a)) == (match a {
            ReceiverAccess::TakeSlot { slot, got: Some(val) } => received_by(trace).push(val),
            _ => received_by(trace),
        }),
{
    assert(trace.push(a).drop_last() =~= trace);
}

/// The whole channel.
#[verifier::ext_equal]
pub struct Channel<T> {
    pub sender: SenderState,
    pub receiver: ReceiverState,
    /// What is in each slot.
    pub slots: Seq<Option<T>>,
    /// The position that the sender announces.
    pub tail: nat,
    /// The position that the receiver announces.
    pub head: nat,
    /// The position of the receiver that the sender knows of.
    pub seen_head: nat,
    /// The position of the sender that the receiver knows of.
    pub seen_tail: nat,
    /// A position of the sender that the receiver does not miss if it looks again.
    pub visible_tail: nat,
    pub sender_gone: bool,
    pub receiver_gone: bool,
    /// Whether the sender, when it asked, was told that the receiver has disconnected.
    pub sender_told: bool,
    /// Whether the receiver, when it asked, was told that the sender has disconnected.
    pub receiver_told: bool,
    /// Every value that the sender has put into a slot, in order.
    pub sent: Seq<T>,
    /// Every value that the receiver has taken, in order.
    pub received: Seq<T>,
}

/// A channel at the start: every slot is vacant.
pub open spec fn channel_start<T>(capacity: u32) -> Channel<T> {
    Channel {
        sender: sender_start(capacity),
        receiver: receiver_start(capacity),
        slots: Seq::new(capacity as nat, |i: int| None),
        tail: 0,
        head: 0,
        seen_head: 0,
        seen_tail: 0,
        visible_tail: 0,
        sender_gone: false,
        receiver_gone: false,
        sender_told: false,
        receiver_told: false,
        sent: Seq::empty(),
        received: Seq::empty(),
    }
}

/// What can happen in a channel.
pub enum Move<T> {
    Sender(SenderAccess<T>),
    Receiver(ReceiverAccess<T>),
    /// The sender sees the receiver at the given position, which may not be its latest.
    SenderLooks(nat),
    /// The receiver sees the sender at the given position, which may not be its latest.
    ReceiverLooks(nat),
    /// The receiver looks again, once it saw that the sender is gone.
    ReceiverLooksAgain(nat),
    /// The sender looks whether the receiver has disconnected, and is told so or not.
    SenderAsks(bool),
    /// The receiver looks whether the sender has disconnected, and is told so or not.
    ReceiverAsks(bool),
    /// The sender is dropped.
    SenderGoes,
    /// The receiver is dropped.
    ReceiverGoes,
}

/// Move `m` can happen now, and it gets what the memory holds.
///
/// A side sees the other at a position between the last that it saw and the latest. A receiver that
/// sees that the sender is gone does not miss anything that the sender announced.
/// Who asks whether the other side has disconnected may miss that it did, but not once it was told.
pub open spec fn can<T>(c: Channel<T>, m: Move<T>) -> bool {
    match m {
        Move::Sender(a) => {
            &&& !c.sender_gone
            &&& sender_step(c.sender, a) is Some
            &&& match a {
                SenderAccess::LoadGone(gone) => gone ==> c.receiver_gone,
                SenderAccess::LoadSeq(_) => false,
                SenderAccess::FillSlot { slot, val, displaced } => displaced
                    == c.slots[slot as int],
                SenderAccess::StoreSeq(_) => true,
            }
        },
        Move::Receiver(a) => {
            &&& !c.receiver_gone
            &&& receiver_step(c.receiver, a) is Some
            &&& match a {
                ReceiverAccess::LoadGone(gone) => gone ==> c.sender_gone,
                ReceiverAccess::LoadSeq(_) => false,
                ReceiverAccess::ReloadSeq(_) => false,
                ReceiverAccess::TakeSlot { slot, got } => got == c.slots[slot as int],
                ReceiverAccess::StoreSeq(_) => true,
            }
        },
        Move::SenderLooks(n) => {
            &&& !c.sender_gone
            &&& sender_step(c.sender, SenderAccess::<T>::LoadSeq(wrap(n))) is Some
            &&& c.seen_head <= n <= c.head
        },
        Move::ReceiverLooks(n) => {
            &&& !c.receiver_gone
            &&& receiver_step(c.receiver, ReceiverAccess::<T>::LoadSeq(wrap(n))) is Some
            &&& c.visible_tail <= n <= c.tail
        },
        Move::ReceiverLooksAgain(n) => {
            &&& !c.receiver_gone
            &&& receiver_step(c.receiver, ReceiverAccess::<T>::ReloadSeq(wrap(n))) is Some
            &&& c.visible_tail <= n <= c.tail
        },
        Move::SenderAsks(gone) => {
            &&& !c.sender_gone
            &&& gone ==> c.receiver_gone
            &&& c.sender_told ==> gone
        },
        Move::ReceiverAsks(gone) => {
            &&& !c.receiver_gone
            &&& gone ==> c.sender_gone
            &&& c.receiver_told ==> gone
        },
        Move::SenderGoes => !c.sender_gone && c.sender.phase is Idle,
        Move::ReceiverGoes => !c.receiver_gone && c.receiver.phase is Idle,
    }
}

/// The channel after move `m`.
pub open spec fn after<T>(c: Channel<T>, m: Move<T>) -> Channel<T> {
    match m {
        Move::Sender(a) => {
            let sender = sender_step(c.sender, a)->0;
            match a {
                SenderAccess::FillSlot { slot, val, displaced } => Channel {
                    sender,
                    slots: c.slots.update(slot as int, Some(val)),
                    sent: c.sent.push(val),
                    ..c
                },
                SenderAccess::StoreSeq(_) => Channel { sender, tail: c.tail + 1, ..c },
                _ => Channel { sender, ..c },
            }
        },
        Move::Receiver(a) => {
            let receiver = receiver_step(c.receiver, a)->0;
            match a {
                ReceiverAccess::LoadGone(gone) => Channel {
                    receiver,
                    visible_tail: if gone {
                        c.tail
                    } else {
                        c.visible_tail
                    },
                    ..c
                },
                ReceiverAccess::TakeSlot { slot, got } => Channel {
                    receiver,
                    slots: c.slots.update(slot as int, None),
                    received: match got {
                        Some(val) => c.received.push(val),
                        None => c.received,
                    },
                    ..c
                },
                ReceiverAccess::StoreSeq(_) => Channel { receiver, head: c.head + 1, ..c },
                _ => Channel { receiver, ..c },
            }
        },
        Move::SenderLooks(n) => Channel {
            sender: sender_step(c.sender, SenderAccess::<T>::LoadSeq(wrap(n)))->0,
            seen_head: n,
            ..c
        },
        Move::ReceiverLooks(n) => Channel {
            receiver: receiver_step(c.receiver, ReceiverAccess::<T>::LoadSeq(wrap(n)))->0,
            seen_tail: n,
            visible_tail: n,
            ..c
        },
        Move::ReceiverLooksAgain(n) => Channel {
            receiver: receiver_step(c.receiver, ReceiverAccess::<T>::ReloadSeq(wrap(n)))->0,
            seen_tail: n,
            visible_tail: n,
            ..c
        },
        Move::SenderAsks(gone) => Channel { sender_told: gone, ..c },
        Move::ReceiverAsks(gone) => Channel { receiver_told: gone, ..c },
        Move::SenderGoes => Channel { sender_gone: true, ..c },
        Move::ReceiverGoes => Channel { receiver_gone: true, ..c },
    }
}

/// Access `a` of the sender gets what the memory holds now.
pub open spec fn sender_sees<T>(c: Channel<T>, a: SenderAccess<T>) -> bool {
    match a {
        SenderAccess::LoadGone(gone) => gone == c.receiver_gone,
        SenderAccess::LoadSeq(seq) => seq == wrap(c.head),
        SenderAccess::FillSlot { slot, val, displaced } => displaced == c.slots[slot as int],
        SenderAccess::StoreSeq(_) => true,
    }
}

/// Access `a` of the receiver gets what the memory holds now.
pub open spec fn receiver_sees<T>(c: Channel<T>, a: ReceiverAccess<T>) -> bool {
    match a {
        ReceiverAccess::LoadGone(gone) => gone == c.sender_gone,
        ReceiverAccess::LoadSeq(seq) => seq == wrap(c.tail),
        ReceiverAccess::ReloadSeq(seq) => seq == wrap(c.tail),
        ReceiverAccess::TakeSlot { slot, got } => got == c.slots[slot as int],
        ReceiverAccess::StoreSeq(_) => true,
    }
}

/// The first position whose value the receiver has not taken.
pub open spec fn waiting_from<T>(c: Channel<T>) -> nat {
    if c.receiver.phase is Taken {
        c.head + 1
    } else {
        c.head
    }
}

/// The first position whose value the sender has not put into its slot.
pub open spec fn waiting_to<T>(c: Channel<T>) -> nat {
    if c.sender.phase is Filled {
        c.tail + 1
    } else {
        c.tail
    }
}

/// A value waits in slot `j`.
pub open spec fn waits<T>(c: Channel<T>, j: int) -> bool {
    exists|n: nat|
        waiting_from(c) <= n < waiting_to(c) && #[trigger] slot_of(n, c.sender.capacity as nat) == j
}

/// The state that a channel is always in.
pub open spec fn consistent<T>(c: Channel<T>) -> bool {
    let cap = c.sender.capacity;
    let len = cap as nat;
    &&& 1 <= cap
    &&& c.receiver.capacity == cap
    &&& c.slots.len() == len
    // The counters stand for the positions.
    &&& c.sender.seq == wrap(c.tail)
    &&& c.sender.index == slot_of(c.tail, len)
    &&& c.sender.cached_receiver_seq == wrap(c.seen_head)
    &&& c.receiver.seq == wrap(c.head)
    &&& c.receiver.index == slot_of(c.head, len)
    &&& c.receiver.cached_sender_seq == wrap(c.seen_tail)
    &&& c.seen_head <= c.head <= c.seen_tail <= c.visible_tail <= c.tail <= c.seen_head + cap
    &&& c.sender.phase is Vetted || c.sender.phase is Filled ==> c.tail < c.seen_head + cap
    &&& c.receiver.phase is Due || c.receiver.phase is Taken ==> c.head < c.seen_tail
    // What waits in the slots is what was sent.
    &&& c.sent.len() == waiting_to(c)
    &&& c.received.len() == waiting_from(c)
    &&& forall|n: nat|
        waiting_from(c) <= n < waiting_to(c) ==> c.slots[#[trigger] slot_of(n, len)] == Some(
            c.sent[n as int],
        )
    &&& forall|i: int| 0 <= i < c.received.len() ==> #[trigger] c.received[i] == c.sent[i]
    // Slots in use are distinct, and nothing is in the others.
    &&& forall|n: nat, m: nat|
        waiting_from(c) <= n < m < waiting_to(c) ==> #[trigger] slot_of(n, len)
            != #[trigger] slot_of(m, len)
    &&& forall|j: int| 0 <= j < len && #[trigger] c.slots[j] is Some ==> waits(c, j)
    // The sides leave only between calls.
    &&& c.sender_gone ==> c.sender.phase is Idle
    &&& c.receiver_gone ==> c.receiver.phase is Idle
    &&& c.receiver.phase is Orphaned ==> c.sender_gone && c.visible_tail == c.tail
}

/// A channel is consistent at the start.
pub proof fn consistent_at_the_start<T>(capacity: u32)
    requires
        1 <= capacity,
    ensures
        consistent(channel_start::<T>(capacity)),
{
}

/// Facts about the counters and slots of the positions that the two sides are at.
pub proof fn positions<T>(c: Channel<T>)
    requires
        consistent(c),
    ensures
        ({
            let cap = c.sender.capacity;
            let len = cap as nat;
            &&& steps(c.sender.cached_receiver_seq, c.sender.seq) == c.tail - c.seen_head
            &&& c.receiver.seq == c.receiver.cached_sender_seq <==> c.seen_tail == c.head
            &&& succ(c.sender.seq) == wrap((c.tail + 1) as nat)
            &&& succ(c.receiver.seq) == wrap((c.head + 1) as nat)
            &&& next_slot(c.sender.index, cap as int) == slot_of((c.tail + 1) as nat, len)
            &&& next_slot(c.receiver.index, cap as int) == slot_of((c.head + 1) as nat, len)
            &&& forall|n: nat| 0 <= #[trigger] slot_of(n, len) < len
        }),
{
    counters_follow_positions(c.seen_head, c.tail);
    counters_follow_positions(c.head, c.seen_tail);
    counters_follow_positions(c.tail, c.tail);
    let len = c.sender.capacity as nat;
    slots_follow_positions(c.tail, len);
    slots_follow_positions(c.head, len);
    assert forall|n: nat| 0 <= #[trigger] slot_of(n, len) < len by {
        slots_follow_positions(n, len);
    }
}

/// What waits in the slots waits on while neither the slots nor the values that wait change.
proof fn slots_wait_on<T>(c: Channel<T>, d: Channel<T>)
    requires
        consistent(c),
        d.slots == c.slots,
        d.sender.capacity == c.sender.capacity,
        waiting_from(d) == waiting_from(c),
        waiting_to(d) == waiting_to(c),
    ensures
        forall|j: int|
            0 <= j < d.sender.capacity && #[trigger] d.slots[j] is Some ==> waits(d, j),
{
    let len = c.sender.capacity as nat;
    assert forall|j: int| 0 <= j < d.sender.capacity && #[trigger] d.slots[j] is Some implies waits(
        d,
        j,
    ) by {
        assert(c.slots[j] is Some);
        assert(waits(c, j));
        let n: nat = choose|n: nat|
            waiting_from(c) <= n < waiting_to(c) && #[trigger] slot_of(n, len) == j;
        assert(waiting_from(d) <= n < waiting_to(d) && slot_of(n, len) == j);
    }
}

/// The sender's accesses keep a channel consistent.
#[verifier::spinoff_prover]
proof fn sender_keeps_consistency<T>(c: Channel<T>, a: SenderAccess<T>)
    requires
        consistent(c),
        can(c, Move::Sender(a)),
    ensures
        consistent(after(c, Move::Sender(a))),
{
    let d = after(c, Move::Sender(a));
    let len = c.sender.capacity as nat;
    positions(c);
    match a {
        SenderAccess::FillSlot { slot, val, displaced } => {
            assert(slot == slot_of(c.tail, len));
            a_slot_is_fresh(waiting_from(c), c.tail, len);
            assert forall|j: int| 0 <= j < len && #[trigger] d.slots[j] is Some implies waits(
                d,
                j,
            ) by {
                if j == slot {
                    assert(waiting_from(d) <= c.tail < waiting_to(d));
                } else {
                    assert(c.slots[j] is Some);
                    assert(waits(c, j));
                }
            }
        },
        _ => {
            slots_wait_on(c, d);
        },
    }
}

/// The receiver's accesses keep a channel consistent.
#[verifier::spinoff_prover]
proof fn receiver_keeps_consistency<T>(c: Channel<T>, a: ReceiverAccess<T>)
    requires
        consistent(c),
        can(c, Move::Receiver(a)),
    ensures
        consistent(after(c, Move::Receiver(a))),
{
    let d = after(c, Move::Receiver(a));
    let len = c.sender.capacity as nat;
    positions(c);
    match a {
        ReceiverAccess::TakeSlot { slot, got } => {
            assert(slot == slot_of(c.head, len));
            assert(got == Some(c.sent[c.head as int]));
            assert forall|j: int| 0 <= j < len && #[trigger] d.slots[j] is Some implies waits(
                d,
                j,
            ) by {
                assert(c.slots[j] is Some);
                assert(waits(c, j));
            }
        },
        _ => {
            slots_wait_on(c, d);
        },
    }
}

/// Whatever happens, a channel stays consistent.
pub proof fn moves_keep_consistency<T>(c: Channel<T>, m: Move<T>)
    requires
        consistent(c),
        can(c, m),
    ensures
        consistent(after(c, m)),
{
    let d = after(c, m);
    positions(c);
    match m {
        Move::Sender(a) => {
            sender_keeps_consistency(c, a);
        },
        Move::Receiver(a) => {
            receiver_keeps_consistency(c, a);
        },
        _ => {
            match m {
                Move::SenderLooks(n) => {
                    counters_follow_positions(n, c.tail);
                },
                Move::ReceiverLooks(n) => {
                    counters_follow_positions(c.head, n);
                },
                Move::ReceiverLooksAgain(n) => {
                    counters_follow_positions(c.head, n);
                },
                _ => {},
            }
            slots_wait_on(c, d);
        },
    }
}

/// The channel after all of `moves`, if they can happen in that order.
pub open spec fn play<T>(start: Channel<T>, moves: Seq<Move<T>>) -> Option<Channel<T>>
    decreases moves.len(),
{
    if moves.len() == 0 {
        Some(start)
    } else {
        match play(start, moves.drop_last()) {
            Some(c) => if can(c, moves.last()) {
                Some(after(c, moves.last()))
            } else {
                None
            },
            None => None,
        }
    }
}

/// One more move.
pub proof fn play_extends<T>(start: Channel<T>, moves: Seq<Move<T>>, c: Channel<T>, m: Move<T>)
    requires
        play(start, moves) == Some(c),
        can(c, m),
    ensures
        play(start, moves.push(m)) == Some(after(c, m)),
{
    assert(moves.push(m).drop_last() =~= moves);
}

/// The accesses of the sender among `moves`.
pub open spec fn sender_part<T>(moves: Seq<Move<T>>) -> Seq<SenderAccess<T>>
    decreases moves.len(),
{
    if moves.len() == 0 {
        Seq::empty()
    } else {
        match moves.last() {
            Move::Sender(a) => sender_part(moves.drop_last()).push(a),
            Move::SenderLooks(n) => sender_part(moves.drop_last()).push(
                SenderAccess::LoadSeq(wrap(n)),
            ),
            _ => sender_part(moves.drop_last()),
        }
    }
}

/// The accesses of the receiver among `moves`.
pub open spec fn receiver_part<T>(moves: Seq<Move<T>>) -> Seq<ReceiverAccess<T>>
    decreases moves.len(),
{
    if moves.len() == 0 {
        Seq::empty()
    } else {
        match moves.last() {
            Move::Receiver(a) => receiver_part(moves.drop_last()).push(a),
            Move::ReceiverLooks(n) => receiver_part(moves.drop_last()).push(
                ReceiverAccess::LoadSeq(wrap(n)),
            ),
            Move::ReceiverLooksAgain(n) => receiver_part(moves.drop_last()).push(
                ReceiverAccess::ReloadSeq(wrap(n)),
            ),
            _ => receiver_part(moves.drop_last()),
        }
    }
}

/// However the two sides interleave, each is where its own accesses have brought it, and the
/// receiver takes the values that were sent: all of them, in the order in which they were sent, up
/// to those that still wait, which are never more than `capacity`.
pub proof fn values_arrive_in_order<T>(capacity: u32, moves: Seq<Move<T>>, end: Channel<T>)
    requires
        1 <= capacity,
        play(channel_start(capacity), moves) == Some(end),
    ensures
        consistent(end),
        end.sender.capacity == capacity,
        sender_run(capacity, sender_part(moves)) == Some(end.sender),
        receiver_run(capacity, receiver_part(moves)) == Some(end.receiver),
        end.received.len() <= end.sent.len() <= end.received.len() + capacity,
        end.received == end.sent.take(end.received.len() as int),
        end.sent == sent_by(sender_part(moves)),
        end.received == received_by(receiver_part(moves)),
    decreases moves.len(),
{
    broadcast use {sent_by_extends, received_by_extends};

    let start = channel_start::<T>(capacity);
    if moves.len() == 0 {
        consistent_at_the_start::<T>(capacity);
    } else {
        let before = play(start, moves.drop_last())->0;
        values_arrive_in_order(capacity, moves.drop_last(), before);
        moves_keep_consistency(before, moves.last());
        match moves.last() {
            Move::Sender(a) => {
                sender_run_extends(capacity, sender_part(moves.drop_last()), a);
            },
            Move::SenderLooks(n) => {
                sender_run_extends(
                    capacity,
                    sender_part(moves.drop_last()),
                    SenderAccess::LoadSeq(wrap(n)),
                );
            },
            Move::Receiver(a) => {
                receiver_run_extends(capacity, receiver_part(moves.drop_last()), a);
            },
            Move::ReceiverLooks(n) => {
                receiver_run_extends(
                    capacity,
                    receiver_part(moves.drop_last()),
                    ReceiverAccess::LoadSeq(wrap(n)),
                );
            },
            Move::ReceiverLooksAgain(n) => {
                receiver_run_extends(
                    capacity,
                    receiver_part(moves.drop_last()),
                    ReceiverAccess::ReloadSeq(wrap(n)),
                );
            },
            _ => {},
        }
    }
    assert(end.received =~= end.sent.take(end.received.len() as int));
}

/// The sender puts a value only into a slot that is vacant, so that no value is lost, and the slot
/// that the receiver takes from holds the value that was sent next.
pub proof fn no_value_is_lost<T>(
    c: Channel<T>,
    slot: u32,
    val: T,
    displaced: Option<T>,
    got: Option<T>,
)
    requires
        consistent(c),
    ensures
        can(c, Move::Sender(SenderAccess::FillSlot { slot, val, displaced })) ==> displaced
            is None,
        can(c, Move::Receiver(ReceiverAccess::TakeSlot { slot, got })) ==> c.received.len()
            < c.sent.len() && got == Some(c.sent[c.received.len() as int]),
{
    positions(c);
    if can(c, Move::Sender(SenderAccess::FillSlot { slot, val, displaced })) {
        a_slot_is_fresh(waiting_from(c), c.tail, c.sender.capacity as nat);
        assert(c.slots[slot as int] is Some ==> waits(c, slot as int));
    }
}

/// The two sides never touch the same slot: the slot that a sender that has room fills, until it
/// announces that, is not the slot of a value that the receiver has found and not taken.
pub proof fn sides_touch_distinct_slots<T>(c: Channel<T>)
    requires
        consistent(c),
        c.tail < c.seen_head + c.sender.capacity,
        c.receiver.cached_sender_seq != c.receiver.seq,
        !(c.receiver.phase is Taken),
    ensures
        c.sender.index != c.receiver.index,
{
    positions(c);
    a_slot_is_fresh(c.head, c.tail, c.sender.capacity as nat);
}

/// Between calls, the counters tell how many values wait, and the next one is in the receiver's
/// slot.
pub proof fn counters_tell_what_waits<T>(c: Channel<T>)
    requires
        consistent(c),
        c.sender.phase is Idle,
        c.receiver.phase is Idle,
    ensures
        has_room(c.sender.capacity, c.sender.seq, wrap(c.head)) <==> c.sent.len()
            < c.received.len() + c.sender.capacity,
        has_room(c.sender.capacity, c.sender.seq, c.sender.cached_receiver_seq) ==> c.sent.len()
            < c.received.len() + c.sender.capacity,
        wrap(c.tail) == c.receiver.seq <==> c.received.len() == c.sent.len(),
        c.receiver.cached_sender_seq != c.receiver.seq ==> c.received.len() < c.sent.len(),
        c.received.len() < c.sent.len() ==> c.slots[c.receiver.index as int] == Some(
            c.sent[c.received.len() as int],
        ),
{
    positions(c);
    counters_follow_positions(c.head, c.tail);
    counters_follow_positions(c.seen_head, c.tail);
    counters_follow_positions(c.head, c.seen_tail);
}

/// A sender finds the channel full only if it saw the receiver at a position behind which
/// `capacity` values wait; if that is the receiver's latest position, they all wait still. If it
/// does not find the channel full, it knows of room.
pub proof fn full_means_full<T>(c: Channel<T>, n: nat)
    requires
        consistent(c),
        can(c, Move::SenderLooks(n)),
    ensures
        is_full_at(c.sender.capacity, c.sender.seq, wrap(n)) <==> c.sent.len() == n
            + c.sender.capacity,
        is_full_at(c.sender.capacity, c.sender.seq, wrap(n)) && n == c.head
            && !(c.receiver.phase is Taken) ==> c.sent.len() == c.received.len()
            + c.sender.capacity,
        !is_full_at(c.sender.capacity, c.sender.seq, wrap(n)) ==> has_room(
            c.sender.capacity,
            c.sender.seq,
            wrap(n),
        ),
{
    counters_follow_positions(n, c.tail);
}

/// A receiver that sees the sender's latest position finds a value if one waits.
pub proof fn a_waiting_value_is_found<T>(c: Channel<T>)
    requires
        consistent(c),
        can(c, Move::ReceiverLooks(c.tail)),
        c.received.len() < c.tail,
    ensures
        wrap(c.tail) != c.receiver.seq,
{
    counters_follow_positions(c.head, c.tail);
}

/// The receiver finds the channel disconnected only when the sender is gone and every value that
/// was sent was received.
pub proof fn disconnected_means_drained<T>(c: Channel<T>, n: nat)
    requires
        consistent(c),
        c.receiver.phase is Orphaned,
        can(c, Move::ReceiverLooksAgain(n)),
        wrap(n) == c.receiver.seq,
    ensures
        c.sender_gone,
        c.received == c.sent,
{
    counters_follow_positions(c.head, n);
    assert(c.received =~= c.sent);
}

/// Once the receiver has found the channel disconnected, which it did last, the sender is gone and
/// every value that was sent was received.
pub proof fn disconnected_stays_drained<T>(capacity: u32, moves: Seq<Move<T>>, end: Channel<T>)
    requires
        1 <= capacity,
        play(channel_start(capacity), moves) == Some(end),
        receiver_part(moves).len() > 0,
        receiver_part(moves).last() is ReloadSeq,
        end.receiver.phase is Idle,
    ensures
        end.sender_gone,
        end.received == end.sent,
    decreases moves.len(),
{
    let before = play(channel_start(capacity), moves.drop_last())->0;
    values_arrive_in_order(capacity, moves.drop_last(), before);
    match moves.last() {
        Move::ReceiverLooksAgain(n) => {
            disconnected_means_drained(before, n);
        },
        Move::Receiver(_) => {},
        Move::ReceiverLooks(_) => {},
        _ => {
            disconnected_stays_drained(capacity, moves.drop_last(), before);
        },
    }
}

/// The sender's look whether the receiver has disconnected gets what the memory holds now.
pub open spec fn sender_asking_sees<T>(c: Channel<T>, gone: bool) -> bool {
    gone == c.receiver_gone
}

/// The receiver's look whether the sender has disconnected gets what the memory holds now.
pub open spec fn receiver_asking_sees<T>(c: Channel<T>, gone: bool) -> bool {
    gone == c.sender_gone
}

/// Who is gone stays gone, and who was told so is told so again.
pub proof fn gone_stays_gone<T>(c: Channel<T>, moves: Seq<Move<T>>, end: Channel<T>)
    requires
        play(c, moves) == Some(end),
    ensures
        c.sender_gone ==> end.sender_gone,
        c.receiver_gone ==> end.receiver_gone,
        c.sender_told ==> end.sender_told,
        c.receiver_told ==> end.receiver_told,
    decreases moves.len(),
{
    if moves.len() > 0 {
        let before = play(c, moves.drop_last())->0;
        gone_stays_gone(c, moves.drop_last(), before);
    }
}

/// What is in the slots when one goes through them from slot `from` on.
pub open spec fn slots_from<T>(slots: Seq<T>, from: u32) -> Seq<T> {
    slots.skip(from as int) + slots.take(from as int)
}

/// Between calls, who goes through the slots from the receiver's on finds what waits in the order
/// in which it was sent, and then nothing.
pub proof fn what_waits_lies_in_order<T>(c: Channel<T>)
    requires
        consistent(c),
        c.sender.phase is Idle,
        c.receiver.phase is Idle,
    ensures
        slots_from(c.slots, c.receiver.index).len() == c.sender.capacity,
        forall|k: int|
            0 <= k < c.sender.capacity ==> #[trigger] slots_from(c.slots, c.receiver.index)[k] == (
            if k < c.sent.len() - c.received.len() {
                Some(c.sent[c.received.len() + k])
            } else {
                None
            }),
{
    let len = c.sender.capacity as nat;
    let turned = slots_from(c.slots, c.receiver.index);
    slots_follow_positions(c.head, len);
    assert forall|k: int| 0 <= k < len implies #[trigger] turned[k] == (if k < c.sent.len()
        - c.received.len() {
        Some(c.sent[c.received.len() + k])
    } else {
        None
    }) by {
        let n = (c.head + k) as nat;
        let j = slot_of(n, len);
        slots_follow_positions(n, len);
        positions_turn(c.head, k, len);
        assert(turned[k] == c.slots[j]);
        if n < c.tail {
            assert(c.slots[slot_of(n, len)] == Some(c.sent[n as int]));
        } else if c.slots[j] is Some {
            assert(waits(c, j));
            let m: nat = choose|m: nat|
                waiting_from(c) <= m < waiting_to(c) && #[trigger] slot_of(m, len) == j;
            near_positions_have_own_slots(m, n, len);
        }
    }
}

/// The slot `k` positions on is `k` slots on, around the ring.
proof fn positions_turn(n: nat, k: int, len: nat)
    requires
        0 <= k < len,
    ensures
        slot_of((n + k) as nat, len) == (if slot_of(n, len) + k < len {
            slot_of(n, len) + k
        } else {
            slot_of(n, len) + k - len
        }),
{
    let i = (n % len) as int;
    let m = len as int;
    vstd::arithmetic::div_mod::lemma_fundamental_div_mod(n as int, m);
    vstd::arithmetic::div_mod::lemma_mod_multiples_vanish(n as int / m, i + k, m);
    if i + k < m {
        vstd::arithmetic::div_mod::lemma_small_mod((i + k) as nat, len);
    } else {
        vstd::arithmetic::div_mod::lemma_mod_sub_multiples_vanish(i + k, m);
        vstd::arithmetic::div_mod::lemma_small_mod((i + k - m) as nat, len);
    }
}

/// Who saw that the other side is gone saw what is so.
pub proof fn gone_is_seen_of_the_gone<T>(start: Channel<T>, moves: Seq<Move<T>>, end: Channel<T>)
    requires
        play(start, moves) == Some(end),
    ensures
        forall|i: int|
            0 <= i < sender_part(moves).len() && #[trigger] sender_part(moves)[i]
                == SenderAccess::<T>::LoadGone(true) ==> end.receiver_gone,
        forall|i: int|
            0 <= i < receiver_part(moves).len() && #[trigger] receiver_part(moves)[i]
                == ReceiverAccess::<T>::LoadGone(true) ==> end.sender_gone,
    decreases moves.len(),
{
    if moves.len() > 0 {
        let before = play(start, moves.drop_last())->0;
        gone_is_seen_of_the_gone(start, moves.drop_last(), before);
    }
}

} // verus!
