//! The protocol of the triple buffer.
//!
//! There are three slots. The sender and the receiver own one each; the third, the back-buffer, is
//! named by a stamp, together with whether the sender has published it and whether the sender has
//! disconnected. Publishing swaps the sender's slot for the back-buffer, and receiving swaps the
//! receiver's slot for it. A side takes the value of the slot that it gets out of it, and puts its
//! value into the slot before it gives the slot up.
//!
//! [`sender_step`] and [`receiver_step`] say which accesses to shared memory each side makes, and
//! in which order. [`Channel`] is the whole channel: both sides and the memory between them. Its
//! accesses take effect one at a time, in any interleaving of the two sides; a plain load of the
//! stamp may miss what the sender did last.

use vstd::prelude::*;

verus! {

/// The bits of a stamp that name the back-buffer.
pub const BACKBUFFER_MASK: u8 = 3;

/// The bit of a stamp that says that the back-buffer was published and not received.
pub const VALUE_SENT_MASK: u8 = 4;

/// The bit of a stamp that says that the sender has disconnected.
pub const SENDER_DISCONNECTED_MASK: u8 = 8;

/// The slot that a stamp names.
pub open spec fn back(stamp: u8) -> u8 {
    stamp & BACKBUFFER_MASK
}

/// The stamp says that the back-buffer was published and not received.
pub open spec fn is_sent(stamp: u8) -> bool {
    stamp & VALUE_SENT_MASK != 0
}

/// The stamp says that the sender has disconnected.
pub open spec fn is_gone(stamp: u8) -> bool {
    stamp & SENDER_DISCONNECTED_MASK != 0
}

/// The stamp by which the sender publishes slot `index`.
pub open spec fn sent_stamp(index: u8) -> u8 {
    VALUE_SENT_MASK | index
}

/// The stamp that was `stamp` before the sender disconnected.
pub open spec fn gone_stamp(stamp: u8) -> u8 {
    stamp | SENDER_DISCONNECTED_MASK
}

/// What the bits of stamps say.
pub proof fn stamps_read_back(index: u8, stamp: u8)
    requires
        index < 3,
    ensures
        back(index) == index && !is_sent(index) && !is_gone(index),
        back(sent_stamp(index)) == index && is_sent(sent_stamp(index)) && !is_gone(
            sent_stamp(index),
        ),
        back(gone_stamp(stamp)) == back(stamp) && is_sent(gone_stamp(stamp)) == is_sent(stamp)
            && is_gone(gone_stamp(stamp)),
        back(stamp) <= 3,
{
    assert(index & 3 == index && index & 4 == 0 && index & 8 == 0) by (bit_vector)
        requires
            index < 3,
    ;
    assert((4 | index) & 3 == index && (4 | index) & 4 != 0 && (4 | index) & 8 == 0) by (bit_vector)
        requires
            index < 3,
    ;
    assert((stamp | 8) & 3 == stamp & 3 && (stamp | 8) & 4 == stamp & 4 && (stamp | 8) & 8 != 0
        && stamp & 3 <= 3) by (bit_vector);
}

/// An access of the sender to shared memory.
pub enum SenderAccess<T> {
    /// Puts a value into a slot. `displaced` was there before.
    FillSlot { slot: u8, val: T, displaced: Option<T> },
    /// Swaps the stamp.
    SwapStamp { given: u8, taken: u8 },
    /// Takes what is in a slot out of it.
    TakeSlot { slot: u8, got: Option<T> },
}

/// An access of the receiver to shared memory.
pub enum ReceiverAccess<T> {
    /// Reads the stamp.
    LoadStamp(u8),
    /// Puts a value into a slot. `displaced` was there before.
    FillSlot { slot: u8, val: T, displaced: Option<T> },
    /// Swaps the stamp.
    SwapStamp { given: u8, taken: u8 },
    /// Takes what is in a slot out of it.
    TakeSlot { slot: u8, got: Option<T> },
}

/// How far the sender is in publishing a value.
pub enum SenderPhase {
    /// Not publishing.
    Idle,
    /// The value is in the sender's slot.
    Staged,
    /// The slot was swapped for the back-buffer.
    Swapped,
}

/// What the sender knows.
pub struct SenderState {
    pub index: u8,
    pub phase: SenderPhase,
}

/// How far the receiver is in receiving a value.
pub enum ReceiverPhase {
    /// Not receiving.
    Idle,
    /// A value was seen to be published.
    Due,
    /// The value that the receiver held is in its slot.
    Parked,
    /// The slot was swapped for the back-buffer.
    Swapped,
}

/// What the receiver knows.
pub struct ReceiverState {
    pub index: u8,
    /// The sender was seen to have disconnected.
    pub gone: bool,
    pub phase: ReceiverPhase,
}

/// The slot that a side owns after it got `stamp` for its slot `own`. A stamp never names a slot
/// that does not exist.
pub open spec fn taken_slot(stamp: u8, own: u8) -> u8 {
    if back(stamp) < 3 {
        back(stamp)
    } else {
        own
    }
}

/// The sender at the start.
pub open spec fn sender_start() -> SenderState {
    SenderState { index: 1, phase: SenderPhase::Idle }
}

/// The receiver at the start.
pub open spec fn receiver_start() -> ReceiverState {
    ReceiverState { index: 0, gone: false, phase: ReceiverPhase::Idle }
}

/// The sender after access `a`, if it may make that access now.
pub open spec fn sender_step<T>(s: SenderState, a: SenderAccess<T>) -> Option<SenderState> {
    match (s.phase, a) {
        (SenderPhase::Idle, SenderAccess::FillSlot { slot, val, displaced }) => if slot == s.index {
            Some(SenderState { phase: SenderPhase::Staged, ..s })
        } else {
            None
        },
        (SenderPhase::Staged, SenderAccess::SwapStamp { given, taken }) => if given == sent_stamp(
            s.index,
        ) {
            Some(SenderState { index: taken_slot(taken, s.index), phase: SenderPhase::Swapped })
        } else {
            None
        },
        (SenderPhase::Swapped, SenderAccess::TakeSlot { slot, got }) => if slot == s.index {
            Some(SenderState { phase: SenderPhase::Idle, ..s })
        } else {
            None
        },
        _ => None,
    }
}

/// The receiver after access `a`, if it may make that access now.
pub open spec fn receiver_step<T>(s: ReceiverState, a: ReceiverAccess<T>) -> Option<ReceiverState> {
    match (s.phase, a) {
        (ReceiverPhase::Idle, ReceiverAccess::LoadStamp(stamp)) => Some(
            ReceiverState {
                gone: s.gone || is_gone(stamp),
                phase: if is_sent(stamp) {
                    ReceiverPhase::Due
                } else {
                    ReceiverPhase::Idle
                },
                ..s
            },
        ),
        (ReceiverPhase::Due, ReceiverAccess::FillSlot { slot, val, displaced }) => if slot
            == s.index {
            Some(ReceiverState { phase: ReceiverPhase::Parked, ..s })
        } else {
            None
        },
        (ReceiverPhase::Parked, ReceiverAccess::SwapStamp { given, taken }) => if given == s.index {
            Some(
                ReceiverState {
                    index: taken_slot(taken, s.index),
                    gone: s.gone || is_gone(taken),
                    phase: ReceiverPhase::Swapped,
                },
            )
        } else {
            None
        },
        (ReceiverPhase::Swapped, ReceiverAccess::TakeSlot { slot, got }) => if slot == s.index {
            Some(ReceiverState { phase: ReceiverPhase::Idle, ..s })
        } else {
            None
        },
        _ => None,
    }
}

/// The sender, if it has come this far, after one more access.
pub open spec fn sender_then<T>(s: Option<SenderState>, a: SenderAccess<T>) -> Option<SenderState> {
    match s {
        Some(s) => sender_step(s, a),
        None => None,
    }
}

/// The receiver, if it has come this far, after one more access.
pub open spec fn receiver_then<T>(s: Option<ReceiverState>, a: ReceiverAccess<T>) -> Option<
    ReceiverState,
> {
    match s {
        Some(s) => receiver_step(s, a),
        None => None,
    }
}

/// The sender after all the accesses of `trace`, if it may make them.
pub open spec fn sender_run<T>(trace: Seq<SenderAccess<T>>) -> Option<SenderState>
    decreases trace.len(),
{
    if trace.len() == 0 {
        Some(sender_start())
    } else {
        sender_then(sender_run(trace.drop_last()), trace.last())
    }
}

/// The receiver after all the accesses of `trace`, if it may make them.
pub open spec fn receiver_run<T>(trace: Seq<ReceiverAccess<T>>) -> Option<ReceiverState>
    decreases trace.len(),
{
    if trace.len() == 0 {
        Some(receiver_start())
    } else {
        receiver_then(receiver_run(trace.drop_last()), trace.last())
    }
}

/// One more access of the sender.
pub proof fn sender_run_extends<T>(trace: Seq<SenderAccess<T>>, a: SenderAccess<T>)
    ensures
        sender_run(trace.push(a)) == sender_then(sender_run(trace), a),
{
    assert(trace.push(a).drop_last() =~= trace);
}

/// One more access of the receiver.
pub proof fn receiver_run_extends<T>(trace: Seq<ReceiverAccess<T>>, a: ReceiverAccess<T>)
    ensures
        receiver_run(trace.push(a)) == receiver_then(receiver_run(trace), a),
{
    assert(trace.push(a).drop_last() =~= trace);
}

/// The values that the sender has put into its slot to publish them, in order.
pub open spec fn sent_by<T>(trace: Seq<SenderAccess<T>>) -> Seq<T>
    decreases trace.len(),
{
    if trace.len() == 0 {
        Seq::empty()
    } else {
        match trace.last() {
            SenderAccess::FillSlot { slot, val, displaced } => sent_by(trace.drop_last()).push(val),
            _ => sent_by(trace.drop_last()),
        }
    }
}

/// The values that the receiver has got out of slots that it claimed, in order.
pub open spec fn received_by<T>(trace: Seq<ReceiverAccess<T>>) -> Seq<T>
    decreases trace.len(),
{
    if trace.len() == 0 {
        Seq::empty()
    } else {
        match trace.last() {
            ReceiverAccess::TakeSlot { slot, got: Some(val) } => received_by(
                trace.drop_last(),
            ).push(val),
            _ => received_by(trace.drop_last()),
        }
    }
}

/// The values that the receiver has put into its slot to give them up, in order.
pub open spec fn returned_by<T>(trace: Seq<ReceiverAccess<T>>) -> Seq<T>
    decreases trace.len(),
{
    if trace.len() == 0 {
        Seq::empty()
    } else {
        match trace.last() {
            ReceiverAccess::FillSlot { slot, val, displaced } => returned_by(
                trace.drop_last(),
            ).push(val),
            _ => returned_by(trace.drop_last()),
        }
    }
}

/// What one more access of the sender adds to what it has sent.
pub broadcast proof fn sent_by_extends<T>(trace: Seq<SenderAccess<T>>, a: SenderAccess<T>)
    ensures
        #[trigger] sent_by(trace.push(a)) == (match a {
            SenderAccess::FillSlot { slot, val, displaced } => sent_by(trace).push(val),
            _ => sent_by(trace),
        }),
{
    assert(trace.push(a).drop_last() =~= trace);
}

/// What one more access of the receiver adds to what it has received.
pub broadcast proof fn received_by_extends<T>(trace: Seq<ReceiverAccess<T>>, a: ReceiverAccess<T>)
    ensures
        #[trigger] received_by(trace.push(a)) == (match a {
            ReceiverAccess::TakeSlot { slot, got: Some(val) } => received_by(trace).push(val),
            _ => received_by(trace),
        }),
{
    assert(trace.push(a).drop_last() =~= trace);
}

/// What one more access of the receiver adds to what it has given up.
pub broadcast proof fn returned_by_extends<T>(trace: Seq<ReceiverAccess<T>>, a: ReceiverAccess<T>)
    ensures
        #[trigger] returned_by(trace.push(a)) == (match a {
            ReceiverAccess::FillSlot { slot, val, displaced } => returned_by(trace).push(val),
            _ => returned_by(trace),
        }),
{
    assert(trace.push(a).drop_last() =~= trace);
}

/// The whole channel.
#[verifier::ext_equal]
pub struct Channel<T> {
    pub sender: SenderState,
    pub receiver: ReceiverState,
    /// What is in each slot. A side takes the value of the slot that it owns out of it.
    pub slots: Seq<Option<T>>,
    pub stamp: u8,
    /// Whether the sender has disconnected.
    pub sender_gone: bool,
    /// Whether the receiver has disconnected.
    pub receiver_gone: bool,
    /// Whether the sender was told that the receiver has disconnected.
    pub told_gone: bool,
    /// Every value that the sender has put into its slot to publish it, in order.
    pub sent: Seq<T>,
    /// How many of these it has published.
    pub published: nat,
    /// The positions in `sent` that the receiver has claimed, in order.
    pub claimed: Seq<nat>,
    /// The values that the receiver has received, in order.
    pub received: Seq<T>,
    /// Every value that the receiver has put into its slot to give it up, in order.
    pub returned: Seq<T>,
    /// What was in the back-buffer at first.
    pub spare: Option<T>,
    /// What was in the back-buffer when the sender last swapped it in.
    pub reclaimed: Option<T>,
}

/// A channel with the given slots at the start.
pub open spec fn channel_start<T>(slots: Seq<Option<T>>) -> Channel<T> {
    Channel {
        sender: sender_start(),
        receiver: receiver_start(),
        slots,
        stamp: 2,
        sender_gone: false,
        receiver_gone: false,
        told_gone: false,
        sent: Seq::empty(),
        published: 0,
        claimed: Seq::empty(),
        received: Seq::empty(),
        returned: Seq::empty(),
        spare: slots[2],
        reclaimed: None,
    }
}

/// The slots of a new channel: the two sides have the values of theirs at hand, and the back-buffer
/// holds one.
pub open spec fn fit_to_start<T>(slots: Seq<Option<T>>) -> bool {
    &&& slots.len() == 3
    &&& slots[0] is None
    &&& slots[1] is None
    &&& slots[2] is Some
}

/// What can happen in a channel.
pub enum Move<T> {
    Sender(SenderAccess<T>),
    Receiver(ReceiverAccess<T>),
    /// The sender looks whether the receiver has disconnected, and is told so or not.
    SenderAsks(bool),
    /// The sender is dropped.
    SenderGoes,
    /// The receiver is dropped.
    ReceiverGoes,
}

/// Move `m` can happen now, and it gets what the memory holds.
///
/// A load may see an older stamp than the latest. It sees nothing from before the receiver's last
/// swap, which cleared the stamp, and the disconnect is the last that the sender does to the stamp.
/// Who looks whether the receiver has disconnected may miss that it did, but not once it was told.
pub open spec fn can<T>(c: Channel<T>, m: Move<T>) -> bool {
    match m {
        Move::Sender(a) => {
            &&& !c.sender_gone
            &&& sender_step(c.sender, a) is Some
            &&& match a {
                SenderAccess::FillSlot { slot, val, displaced } => displaced
                    == c.slots[slot as int],
                SenderAccess::SwapStamp { given, taken } => taken == c.stamp,
                SenderAccess::TakeSlot { slot, got } => got == c.slots[slot as int],
            }
        },
        Move::Receiver(a) => {
            &&& !c.receiver_gone
            &&& receiver_step(c.receiver, a) is Some
            &&& match a {
                ReceiverAccess::LoadStamp(stamp) => {
                    &&& is_sent(stamp) ==> is_sent(c.stamp)
                    &&& is_gone(stamp) ==> stamp == c.stamp
                },
                ReceiverAccess::FillSlot { slot, val, displaced } => displaced
                    == c.slots[slot as int],
                ReceiverAccess::SwapStamp { given, taken } => taken == c.stamp,
                ReceiverAccess::TakeSlot { slot, got } => got == c.slots[slot as int],
            }
        },
        Move::SenderAsks(gone) => {
            &&& !c.sender_gone
            &&& gone ==> c.receiver_gone
            &&& c.told_gone ==> gone
        },
        Move::SenderGoes => !c.sender_gone && c.sender.phase is Idle,
        Move::ReceiverGoes => !c.receiver_gone && c.receiver.phase is Idle,
    }
}

/// The channel after move `m`.
pub open spec fn after<T>(c: Channel<T>, m: Move<T>) -> Channel<T> {
    match m {
        Move::Sender(a) => {
            let sender = sender_step(c.sender, a)->0;
            match a {
                SenderAccess::FillSlot { slot, val, displaced } => Channel {
                    sender,
                    slots: c.slots.update(slot as int, Some(val)),
                    sent: c.sent.push(val),
                    ..c
                },
                SenderAccess::SwapStamp { given, taken } => Channel {
                    sender,
                    stamp: given,
                    published: c.published + 1,
                    reclaimed: c.slots[back(taken) as int],
                    ..c
                },
                SenderAccess::TakeSlot { slot, got } => Channel {
                    sender,
                    slots: c.slots.update(slot as int, None),
                    ..c
                },
            }
        },
        Move::Receiver(a) => {
            let receiver = receiver_step(c.receiver, a)->0;
            match a {
                ReceiverAccess::LoadStamp(_) => Channel { receiver, ..c },
                ReceiverAccess::FillSlot { slot, val, displaced } => Channel {
                    receiver,
                    slots: c.slots.update(slot as int, Some(val)),
                    returned: c.returned.push(val),
                    ..c
                },
                ReceiverAccess::SwapStamp { given, taken } => Channel {
                    receiver,
                    stamp: given,
                    claimed: c.claimed.push((c.published - 1) as nat),
                    ..c
                },
                ReceiverAccess::TakeSlot { slot, got } => Channel {
                    receiver,
                    slots: c.slots.update(slot as int, None),
                    received: match got {
                        Some(val) => c.received.push(val),
                        None => c.received,
                    },
                    ..c
                },
            }
        },
        Move::SenderAsks(gone) => Channel { told_gone: gone, ..c },
        Move::SenderGoes => Channel { sender_gone: true, stamp: gone_stamp(c.stamp), ..c },
        Move::ReceiverGoes => Channel { receiver_gone: true, ..c },
    }
}

/// The channel after all of `moves`, if they can happen in that order.
pub open spec fn play<T>(start: Channel<T>, moves: Seq<Move<T>>) -> Option<Channel<T>>
    decreases moves.len(),
{
    if moves.len() == 0 {
        Some(start)
    } else {
        match play(start, moves.drop_last()) {
            Some(c) => if can(c, moves.last()) {
                Some(after(c, moves.last()))
            } else {
                None
            },
            None => None,
        }
    }
}

/// One more move.
pub proof fn play_extends<T>(start: Channel<T>, moves: Seq<Move<T>>, c: Channel<T>, m: Move<T>)
    requires
        play(start, moves) == Some(c),
        can(c, m),
    ensures
        play(start, moves.push(m)) == Some(after(c, m)),
{
    assert(moves.push(m).drop_last() =~= moves);
}

/// A run can be cut in two: what comes after the first `k` moves is a run from where they led.
pub proof fn a_play_continues<T>(start: Channel<T>, moves: Seq<Move<T>>, k: int)
    requires
        0 <= k <= moves.len(),
        play(start, moves) is Some,
    ensures
        play(start, moves.take(k)) matches Some(mid) && play(mid, moves.skip(k)) == play(
            start,
            moves,
        ),
    decreases moves.len(),
{
    if k == moves.len() {
        assert(moves.take(k) =~= moves);
        assert(moves.skip(k) =~= Seq::empty());
    } else {
        assert(moves.drop_last().take(k) =~= moves.take(k));
        assert(moves.drop_last().skip(k) =~= moves.skip(k).drop_last());
        a_play_continues(start, moves.drop_last(), k);
    }
}

/// The accesses of the sender among `moves`.
pub open spec fn sender_part<T>(moves: Seq<Move<T>>) -> Seq<SenderAccess<T>>
    decreases moves.len(),
{
    if moves.len() == 0 {
        Seq::empty()
    } else {
        match moves.last() {
            Move::Sender(a) => sender_part(moves.drop_last()).push(a),
            _ => sender_part(moves.drop_last()),
        }
    }
}

/// The accesses of the receiver among `moves`.
pub open spec fn receiver_part<T>(moves: Seq<Move<T>>) -> Seq<ReceiverAccess<T>>
    decreases moves.len(),
{
    if moves.len() == 0 {
        Seq::empty()
    } else {
        match moves.last() {
            Move::Receiver(a) => receiver_part(moves.drop_last()).push(a),
            _ => receiver_part(moves.drop_last()),
        }
    }
}

/// The sender, the receiver and the stamp own one slot each.
pub open spec fn slots_partitioned<T>(c: Channel<T>) -> bool {
    &&& c.slots.len() == 3
    &&& c.sender.index < 3
    &&& c.receiver.index < 3
    &&& back(c.stamp) < 3
    &&& c.sender.index != c.receiver.index
    &&& c.sender.index != back(c.stamp)
    &&& c.receiver.index != back(c.stamp)
}

/// The receiver has received the value published last.
pub open spec fn up_to_date<T>(c: Channel<T>) -> bool {
    c.published == 0 || (c.claimed.len() > 0 && c.claimed.last() + 1 == c.published)
}

/// What the back-buffer holds: the value published last, if the receiver has not received it; else
/// what the receiver gave up for it; and what it held at first, if nothing was received.
pub open spec fn back_value<T>(c: Channel<T>) -> Option<T> {
    if !up_to_date(c) {
        Some(c.sent[c.published - 1])
    } else if c.claimed.len() > 0 {
        Some(c.returned[c.claimed.len() - 1])
    } else {
        c.spare
    }
}

/// The state that a channel is always in.
pub open spec fn consistent<T>(c: Channel<T>) -> bool {
    &&& slots_partitioned(c)
    &&& c.sent.len() == c.published + (if c.sender.phase is Staged {
        1int
    } else {
        0
    })
    &&& c.slots[c.sender.index as int] == (match c.sender.phase {
        SenderPhase::Idle => None,
        SenderPhase::Staged => Some(c.sent.last()),
        SenderPhase::Swapped => c.reclaimed,
    })
    &&& c.sender.phase is Swapped ==> c.reclaimed is Some
    // What is published and not received is the value published last.
    &&& c.slots[back(c.stamp) as int] == back_value(c)
    &&& c.spare is Some
    &&& is_sent(c.stamp) <==> !up_to_date(c)
    &&& c.receiver.phase is Due || c.receiver.phase is Parked ==> is_sent(c.stamp)
    // What was received is what was sent, in order.
    &&& forall|i: int| 0 <= i < c.claimed.len() ==> #[trigger] c.claimed[i] < c.published
    &&& forall|i: int, j: int|
        0 <= i < j < c.claimed.len() ==> #[trigger] c.claimed[i] < #[trigger] c.claimed[j]
    &&& forall|i: int|
        0 <= i < c.received.len() ==> #[trigger] c.received[i] == c.sent[c.claimed[i] as int]
    &&& c.claimed.len() == c.received.len() + (if c.receiver.phase is Swapped {
        1int
    } else {
        0
    })
    &&& c.returned.len() == c.claimed.len() + (if c.receiver.phase is Parked {
        1int
    } else {
        0
    })
    &&& c.slots[c.receiver.index as int] == (match c.receiver.phase {
        ReceiverPhase::Idle => None,
        ReceiverPhase::Due => None,
        ReceiverPhase::Parked => Some(c.returned.last()),
        ReceiverPhase::Swapped => Some(c.sent[c.claimed.last() as int]),
    })
    // The disconnect is in the stamp until the receiver has taken note of it.
    &&& c.sender_gone ==> c.sender.phase is Idle && (is_gone(c.stamp) || c.receiver.gone)
    &&& is_gone(c.stamp) || c.receiver.gone ==> c.sender_gone
    &&& c.receiver.gone && (c.receiver.phase is Idle || c.receiver.phase is Swapped) ==> !is_sent(
        c.stamp,
    )
    &&& c.receiver_gone ==> c.receiver.phase is Idle
    &&& c.told_gone ==> c.receiver_gone
}

/// A channel is consistent at the start.
pub proof fn consistent_at_the_start<T>(slots: Seq<Option<T>>)
    requires
        fit_to_start(slots),
    ensures
        consistent(channel_start(slots)),
{
    stamps_read_back(2, 0);
}

/// Whatever happens, a channel stays consistent.
pub proof fn moves_keep_consistency<T>(c: Channel<T>, m: Move<T>)
    requires
        consistent(c),
        can(c, m),
    ensures
        consistent(after(c, m)),
{
    stamps_read_back(c.sender.index, c.stamp);
    stamps_read_back(c.receiver.index, c.stamp);
}

/// The sender never finds a slot that it took over vacant.
pub open spec fn sender_finds_values<T>(trace: Seq<SenderAccess<T>>) -> bool {
    forall|i: int|
        0 <= i < trace.len() ==> (#[trigger] trace[i] matches SenderAccess::TakeSlot { slot, got }
            ==> got is Some)
}

/// The receiver never finds a slot that it took over vacant.
pub open spec fn receiver_finds_values<T>(trace: Seq<ReceiverAccess<T>>) -> bool {
    forall|i: int|
        0 <= i < trace.len() ==> (#[trigger] trace[i] matches ReceiverAccess::TakeSlot { slot, got }
            ==> got is Some)
}

/// However the two sides interleave, each is where its own accesses have brought it; each of the
/// three slots has one owner; a side finds a value in each slot that it takes over; and the
/// receiver receives values that were sent, in the order in which they were sent and each at most
/// once.
pub proof fn values_arrive_in_order<T>(slots: Seq<Option<T>>, moves: Seq<Move<T>>, end: Channel<T>)
    requires
        fit_to_start(slots),
        play(channel_start(slots), moves) == Some(end),
    ensures
        consistent(end),
        slots_partitioned(end),
        sender_run(sender_part(moves)) == Some(end.sender),
        receiver_run(receiver_part(moves)) == Some(end.receiver),
        sender_finds_values(sender_part(moves)),
        receiver_finds_values(receiver_part(moves)),
        end.sent == sent_by(sender_part(moves)),
        end.received == received_by(receiver_part(moves)),
        end.returned == returned_by(receiver_part(moves)),
        end.spare == slots[2],
        end.received.len() <= end.claimed.len(),
        forall|i: int|
            0 <= i < end.received.len() ==> #[trigger] end.received[i]
                == end.sent[end.claimed[i] as int] && end.claimed[i] < end.sent.len(),
        forall|i: int, j: int|
            0 <= i < j < end.claimed.len() ==> #[trigger] end.claimed[i]
                < #[trigger] end.claimed[j],
    decreases moves.len(),
{
    broadcast use {sent_by_extends, received_by_extends, returned_by_extends};

    if moves.len() == 0 {
        consistent_at_the_start(slots);
    } else {
        let before = play(channel_start(slots), moves.drop_last())->0;
        values_arrive_in_order(slots, moves.drop_last(), before);
        moves_keep_consistency(before, moves.last());
        match moves.last() {
            Move::Sender(a) => {
                sender_run_extends(sender_part(moves.drop_last()), a);
            },
            Move::Receiver(a) => {
                receiver_run_extends(receiver_part(moves.drop_last()), a);
            },
            _ => {},
        }
    }
}

/// What the receiver claims is the value that the sender published last.
pub proof fn the_latest_value_is_claimed<T>(c: Channel<T>, given: u8, taken: u8)
    requires
        consistent(c),
        can(c, Move::Receiver(ReceiverAccess::SwapStamp { given, taken })),
    ensures
        ({
            let d = after(c, Move::Receiver(ReceiverAccess::SwapStamp { given, taken }));
            &&& d.claimed == c.claimed.push((c.published - 1) as nat)
            &&& d.slots[d.receiver.index as int] == Some(c.sent[c.published - 1])
            &&& d.slots[back(d.stamp) as int] == Some(c.returned.last())
            &&& up_to_date(d)
        }),
{
    stamps_read_back(c.receiver.index, c.stamp);
}

/// What the sender gets when it has published is what was in the back-buffer: the value published
/// before, if the receiver has not received that; else what the receiver gave up for it.
pub proof fn the_sender_gets_the_back_buffer<T>(c: Channel<T>, a: SenderAccess<T>)
    requires
        consistent(c),
        can(c, Move::Sender(a)),
    ensures
        match a {
            SenderAccess::FillSlot { slot, val, displaced } => displaced is None,
            SenderAccess::SwapStamp { given, taken } => after(c, Move::Sender(a)).reclaimed
                == back_value(c),
            SenderAccess::TakeSlot { slot, got } => got == c.reclaimed && got is Some,
        },
{
}

/// The value that was published last when the receiver read the stamp, as it then was, or a later
/// one, is received by the end of that update, whatever the sender does meanwhile.
pub proof fn an_update_catches_up<T>(c: Channel<T>, rest: Seq<Move<T>>, end: Channel<T>)
    requires
        consistent(c),
        c.receiver.phase is Idle,
        !c.receiver_gone,
        play(after(c, Move::Receiver(ReceiverAccess::LoadStamp(c.stamp))), rest) == Some(end),
        end.receiver.phase is Idle,
    ensures
        c.published > 0 ==> end.claimed.len() > 0 && end.claimed.last() + 1 >= c.published,
{
    let look = Move::Receiver(ReceiverAccess::LoadStamp(c.stamp));
    moves_keep_consistency(c, look);
    if c.published > 0 {
        catching_up(c.published, after(c, look), rest, end);
    }
}

/// The receiver has claimed the value at `n`, or a later one, or is about to.
spec fn catches_up<T>(n: nat, c: Channel<T>) -> bool {
    ||| c.claimed.len() > 0 && c.claimed.last() + 1 >= n
    ||| (c.receiver.phase is Due || c.receiver.phase is Parked) && c.published >= n
}

/// A receiver that catches up keeps doing so.
proof fn catching_up<T>(n: nat, c: Channel<T>, moves: Seq<Move<T>>, end: Channel<T>)
    requires
        n > 0,
        consistent(c),
        catches_up(n, c),
        play(c, moves) == Some(end),
    ensures
        consistent(end),
        catches_up(n, end),
    decreases moves.len(),
{
    if moves.len() > 0 {
        let before = play(c, moves.drop_last())->0;
        catching_up(n, c, moves.drop_last(), before);
        moves_keep_consistency(before, moves.last());
    }
}

/// Who is gone stays gone, and who was told so is told so again.
pub proof fn gone_stays_gone<T>(c: Channel<T>, moves: Seq<Move<T>>, end: Channel<T>)
    requires
        play(c, moves) == Some(end),
    ensures
        c.sender_gone ==> end.sender_gone,
        c.receiver_gone ==> end.receiver_gone,
        c.told_gone ==> end.told_gone,
    decreases moves.len(),
{
    if moves.len() > 0 {
        let before = play(c, moves.drop_last())->0;
        gone_stays_gone(c, moves.drop_last(), before);
    }
}

/// The sender's look whether the receiver has disconnected gets what the memory holds now.
pub open spec fn asking_sees<T>(c: Channel<T>, gone: bool) -> bool {
    gone == c.receiver_gone
}

/// Access `a` of the sender gets what the memory holds now.
pub open spec fn sender_sees<T>(c: Channel<T>, a: SenderAccess<T>) -> bool {
    match a {
        SenderAccess::FillSlot { slot, val, displaced } => displaced == c.slots[slot as int],
        SenderAccess::SwapStamp { given, taken } => taken == c.stamp,
        SenderAccess::TakeSlot { slot, got } => got == c.slots[slot as int],
    }
}

/// Access `a` of the receiver gets what the memory holds now.
pub open spec fn sees<T>(c: Channel<T>, a: ReceiverAccess<T>) -> bool {
    match a {
        ReceiverAccess::LoadStamp(stamp) => stamp == c.stamp,
        ReceiverAccess::FillSlot { slot, val, displaced } => displaced == c.slots[slot as int],
        ReceiverAccess::SwapStamp { given, taken } => taken == c.stamp,
        ReceiverAccess::TakeSlot { slot, got } => got == c.slots[slot as int],
    }
}

/// The receiver finds the channel empty and disconnected only when the sender is gone and the value
/// published last was received.
pub proof fn disconnected_means_drained<T>(c: Channel<T>, stamp: u8)
    requires
        consistent(c),
        c.receiver.phase is Idle,
        can(c, Move::Receiver(ReceiverAccess::LoadStamp(stamp))),
        !is_sent(stamp),
        c.receiver.gone || is_gone(stamp),
    ensures
        c.sender_gone,
        up_to_date(c),
{
}

/// Once the sender is gone and the value published last was received, a receiver that reads the
/// latest stamp finds the channel empty and disconnected.
pub proof fn a_disconnect_is_noticed<T>(c: Channel<T>)
    requires
        consistent(c),
        c.receiver.phase is Idle,
        c.sender_gone,
        !c.receiver_gone,
        up_to_date(c),
    ensures
        ({
            let d = after(c, Move::Receiver(ReceiverAccess::LoadStamp(c.stamp)));
            &&& can(c, Move::Receiver(ReceiverAccess::LoadStamp(c.stamp)))
            &&& d.receiver.phase is Idle
            &&& d.receiver.gone
        }),
{
}

} // verus!
