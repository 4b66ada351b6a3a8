//! The protocol of the accumulating triple buffer.
//!
//! There are three slots, which the sender and the receiver go round. A switch says whether the
//! sender has published a value that the receiver has not consumed. The sender turns it on when it
//! moves on, which it does only while the switch is off; the receiver turns it off when it moves
//! on, which it does only while the switch is on.
//!
//! [`sender_step`] and [`receiver_step`] say which accesses to shared memory each side makes, and
//! in which order. [`Channel`] is the whole channel: both sides and the memory between them. Its
//! accesses take effect one at a time, in any interleaving of the two sides; a load of the switch
//! may miss what the other side did to it last.

use vstd::prelude::*;

verus! {

/// An access of the sender to shared memory.
pub enum SenderAccess<T> {
    /// Reads whether the receiver has disconnected.
    LoadGone(bool),
    /// Reads the switch.
    LoadPublished(bool),
    /// Acquires the switch.
    AcquirePublished(bool),
    /// Takes what is in a slot.
    TakeSlot { slot: u8, got: Option<T> },
    /// Puts a value into a slot, in place of what was there.
    FillSlot { slot: u8, val: T, displaced: Option<T> },
    /// Turns the switch on.
    Publish,
}

/// An access of the receiver to shared memory.
pub enum ReceiverAccess<T> {
    /// Acquires the switch.
    AcquirePublished(bool),
    /// Reads whether the sender has disconnected.
    LoadGone(bool),
    /// Acquires whether the sender has disconnected.
    AcquireGone(bool),
    /// Takes what is in a slot.
    TakeSlot { slot: u8, got: Option<T> },
    /// Puts a value into a slot, in place of what was there.
    FillSlot { slot: u8, val: T, displaced: Option<T> },
    /// Turns the switch off.
    Clear,
}

/// How far the sender is in publishing a value.
pub enum SenderPhase {
    /// Not publishing.
    Idle,
    /// The receiver was not seen to be gone.
    Open,
    /// The switch was seen to be off.
    Unpublished,
    /// The switch was acquired.
    Vetted,
    /// What was in the next slot was taken.
    Taken,
    /// The value is in its slot.
    Filled,
}

/// What the sender knows.
pub struct SenderState {
    pub index: u8,
    pub phase: SenderPhase,
}

/// How far the receiver is in receiving a value.
pub enum ReceiverPhase {
    /// Not receiving.
    Idle,
    /// The switch was seen to be off.
    Dry,
    /// The switch was seen to be off, and then the sender was seen to be gone.
    Suspicious,
    /// That the sender is gone was acquired.
    Orphaned,
    /// The switch was seen to be on.
    Due,
    /// What was in the next slot was taken.
    Taken,
    /// The old value is back in its slot.
    Filled,
}

/// What the receiver knows.
pub struct ReceiverState {
    pub index: u8,
    pub phase: ReceiverPhase,
}

/// The slot after slot `index`.
pub open spec fn next_index(index: u8) -> u8 {
    ((index + 1) % 3) as u8
}

/// The sender at the start.
pub open spec fn sender_start() -> SenderState {
    SenderState { index: 1, phase: SenderPhase::Idle }
}

/// The receiver at the start.
pub open spec fn receiver_start() -> ReceiverState {
    ReceiverState { index: 0, phase: ReceiverPhase::Idle }
}

/// The sender after access `a`, if it may make that access now. What the switch says when it
/// is acquired does not matter.
pub open spec fn sender_step<T>(s: SenderState, a: SenderAccess<T>) -> Option<SenderState> {
    match (s.phase, a) {
        (SenderPhase::Idle, SenderAccess::LoadGone(gone)) => Some(
            SenderState {
                phase: if gone {
                    SenderPhase::Idle
                } else {
                    SenderPhase::Open
                },
                ..s
            },
        ),
        (SenderPhase::Open, SenderAccess::LoadPublished(on)) => Some(
            SenderState {
                phase: if on {
                    SenderPhase::Idle
                } else {
                    SenderPhase::Unpublished
                },
                ..s
            },
        ),
        (SenderPhase::Unpublished, SenderAccess::AcquirePublished(on)) => Some(
            SenderState { phase: SenderPhase::Vetted, ..s },
        ),
        (SenderPhase::Vetted, SenderAccess::TakeSlot { slot, got }) => if slot == next_index(
            s.index,
        ) {
            Some(
                SenderState {
                    phase: if got is Some {
                        SenderPhase::Taken
                    } else {
                        SenderPhase::Idle
                    },
                    ..s
                },
            )
        } else {
            None
        },
        (SenderPhase::Taken, SenderAccess::FillSlot { slot, val, displaced }) => if slot
            == s.index {
            Some(SenderState { phase: SenderPhase::Filled, ..s })
        } else {
            None
        },
        (SenderPhase::Filled, SenderAccess::Publish) => Some(
            SenderState { index: next_index(s.index), phase: SenderPhase::Idle },
        ),
        _ => None,
    }
}

/// The receiver after access `a`, if it may make that access now. It has seen that the sender is
/// gone before it acquires that, so what it reads then does not matter.
pub open spec fn receiver_step<T>(s: ReceiverState, a: ReceiverAccess<T>) -> Option<ReceiverState> {
    match (s.phase, a) {
        (ReceiverPhase::Idle, ReceiverAccess::AcquirePublished(on)) => Some(
            ReceiverState {
                phase: if on {
                    ReceiverPhase::Due
                } else {
                    ReceiverPhase::Dry
                },
                ..s
            },
        ),
        (ReceiverPhase::Dry, ReceiverAccess::LoadGone(gone)) => Some(
            ReceiverState {
                phase: if gone {
                    ReceiverPhase::Suspicious
                } else {
                    ReceiverPhase::Idle
                },
                ..s
            },
        ),
        (ReceiverPhase::Suspicious, ReceiverAccess::AcquireGone(gone)) => Some(
            ReceiverState { phase: ReceiverPhase::Orphaned, ..s },
        ),
        (ReceiverPhase::Orphaned, ReceiverAccess::AcquirePublished(on)) => Some(
            ReceiverState {
                phase: if on {
                    ReceiverPhase::Due
                } else {
                    ReceiverPhase::Idle
                },
                ..s
            },
        ),
        (ReceiverPhase::Due, ReceiverAccess::TakeSlot { slot, got }) => if slot == next_index(
            s.index,
        ) {
            Some(
                ReceiverState {
                    phase: if got is Some {
                        ReceiverPhase::Taken
                    } else {
                        ReceiverPhase::Idle
                    },
                    ..s
                },
            )
        } else {
            None
        },
        (ReceiverPhase::Taken, ReceiverAccess::FillSlot { slot, val, displaced }) => if slot
            == s.index {
            Some(ReceiverState { phase: ReceiverPhase::Filled, ..s })
        } else {
            None
        },
        (ReceiverPhase::Filled, ReceiverAccess::Clear) => Some(
            ReceiverState { index: next_index(s.index), phase: ReceiverPhase::Idle },
        ),
        _ => None,
    }
}

/// The sender, if it has come this far, after one more access.
pub open spec fn sender_then<T>(s: Option<SenderState>, a: SenderAccess<T>) -> Option<SenderState> {
    match s {
        Some(s) => sender_step(s, a),
        None => None,
    }
}

/// The receiver, if it has come this far, after one more access.
pub open spec fn receiver_then<T>(s: Option<ReceiverState>, a: ReceiverAccess<T>) -> Option<
    ReceiverState,
> {
    match s {
        Some(s) => receiver_step(s, a),
        None => None,
    }
}

/// The sender after all the accesses of `trace`, if it may make them.
pub open spec fn sender_run<T>(trace: Seq<SenderAccess<T>>) -> Option<SenderState>
    decreases trace.len(),
{
    if trace.len() == 0 {
        Some(sender_start())
    } else {
        sender_then(sender_run(trace.drop_last()), trace.last())
    }
}

/// The receiver after all the accesses of `trace`, if it may make them.
pub open spec fn receiver_run<T>(trace: Seq<ReceiverAccess<T>>) -> Option<ReceiverState>
    decreases trace.len(),
{
    if trace.len() == 0 {
        Some(receiver_start())
    } else {
        receiver_then(receiver_run(trace.drop_last()), trace.last())
    }
}

/// One more access of the sender.
pub proof fn sender_run_extends<T>(trace: Seq<SenderAccess<T>>, a: SenderAccess<T>)
    ensures
        sender_run(trace.push(a)) == sender_then(sender_run(trace), a),
{
    assert(trace.push(a).drop_last() =~= trace);
}

/// One more access of the receiver.
pub proof fn receiver_run_extends<T>(trace: Seq<ReceiverAccess<T>>, a: ReceiverAccess<T>)
    ensures
        receiver_run(trace.push(a)) == receiver_then(receiver_run(trace), a),
{
    assert(trace.push(a).drop_last() =~= trace);
}

/// The values that the sender has put into slots to publish them, in order.
pub open spec fn sent_by<T>(trace: Seq<SenderAccess<T>>) -> Seq<T>
    decreases trace.len(),
{
    if trace.len() == 0 {
        Seq::empty()
    } else {
        match trace.last() {
            SenderAccess::FillSlot { slot, val, displaced } => sent_by(trace.drop_last()).push(val),
            _ => sent_by(trace.drop_last()),
        }
    }
}

/// The values that the receiver has taken, in order.
pub open spec fn received_by<T>(trace: Seq<ReceiverAccess<T>>) -> Seq<T>
    decreases trace.len(),
{
    if trace.len() == 0 {
        Seq::empty()
    } else {
        match trace.last() {
            ReceiverAccess::TakeSlot { slot, got: Some(val) } => received_by(
                trace.drop_last(),
            ).push(val),
            _ => received_by(trace.drop_last()),
        }
    }
}

/// What one more access of the sender adds to what it has sent.
pub broadcast proof fn sent_by_extends<T>(trace: Seq<SenderAccess<T>>, a: SenderAccess<T>)
    ensures
        #[trigger] sent_by(trace.push(a)) == (match a {
            SenderAccess::FillSlot { slot, val, displaced } => sent_by(trace).push(val),
            _ => sent_by(trace),
        }),
{
    assert(trace.push(a).drop_last() =~= trace);
}

/// What one more access of the receiver adds to what it has received.
pub broadcast proof fn received_by_extends<T>(trace: Seq<ReceiverAccess<T>>, a: ReceiverAccess<T>)
    ensures
        #[trigger] received_by(trace.push(a)) == (match a {
            ReceiverAccess::TakeSlot { slot, got: Some(val) } => received_by(trace).push(val),
            _ => received_by(trace),
        }),
{
    assert(trace.push(a).drop_last() =~= trace);
}

/// The values that the sender has taken to stage them, in order.
pub open spec fn regained_by<T>(trace: Seq<SenderAccess<T>>) -> Seq<T>
    decreases trace.len(),
{
    if trace.len() == 0 {
        Seq::empty()
    } else {
        match trace.last() {
            SenderAccess::TakeSlot { slot, got: Some(val) } => regained_by(trace.drop_last()).push(
                val,
            ),
            _ => regained_by(trace.drop_last()),
        }
    }
}

/// The values that the receiver has put back, in order.
pub open spec fn returned_by<T>(trace: Seq<ReceiverAccess<T>>) -> Seq<T>
    decreases trace.len(),
{
    if trace.len() == 0 {
        Seq::empty()
    } else {
        match trace.last() {
            ReceiverAccess::FillSlot { slot, val, displaced } => returned_by(
                trace.drop_last(),
            ).push(val),
            _ => returned_by(trace.drop_last()),
        }
    }
}

/// What one more access of the sender adds to what it has regained.
pub broadcast proof fn regained_by_extends<T>(trace: Seq<SenderAccess<T>>, a: SenderAccess<T>)
    ensures
        #[trigger] regained_by(trace.push(a)) == (match a {
            SenderAccess::TakeSlot { slot, got: Some(val) } => regained_by(trace).push(val),
            _ => regained_by(trace),
        }),
{
    assert(trace.push(a).drop_last() =~= trace);
}

/// What one more access of the receiver adds to what it has returned.
pub broadcast proof fn returned_by_extends<T>(trace: Seq<ReceiverAccess<T>>, a: ReceiverAccess<T>)
    ensures
        #[trigger] returned_by(trace.push(a)) == (match a {
            ReceiverAccess::FillSlot { slot, val, displaced } => returned_by(trace).push(val),
            _ => returned_by(trace),
        }),
{
    assert(trace.push(a).drop_last() =~= trace);
}

/// The whole channel.
#[verifier::ext_equal]
pub struct Channel<T> {
    pub sender: SenderState,
    pub receiver: ReceiverState,
    /// What is in each slot.
    pub slots: Seq<Option<T>>,
    /// How often the sender has turned the switch on.
    pub publications: nat,
    /// How often the receiver has turned the switch off.
    pub clearances: nat,
    /// How many of the turns of the switch the sender knows of.
    pub sender_seen: nat,
    /// How many of the turns of the switch the receiver knows of.
    pub receiver_seen: nat,
    pub sender_gone: bool,
    pub receiver_gone: bool,
    /// Whether the sender, when it asked, was told that the receiver has disconnected.
    pub sender_told: bool,
    /// Whether the receiver, when it asked, was told that the sender has disconnected.
    pub receiver_told: bool,
    /// Every value that the sender has put into its slot to publish it, in order.
    pub sent: Seq<T>,
    /// Every value that the receiver has taken, in order.
    pub received: Seq<T>,
    /// Every value that the receiver has put back, in order.
    pub returned: Seq<T>,
    /// Every value that the sender has taken to stage it, in order.
    pub regained: Seq<T>,
    /// What was in each slot at the start.
    pub initial: Seq<Option<T>>,
}

/// A channel with the given slots at the start. Those of the two sides are vacant.
pub open spec fn channel_start<T>(slots: Seq<Option<T>>) -> Channel<T> {
    Channel {
        sender: sender_start(),
        receiver: receiver_start(),
        slots,
        publications: 0,
        clearances: 0,
        sender_seen: 0,
        receiver_seen: 0,
        sender_gone: false,
        receiver_gone: false,
        sender_told: false,
        receiver_told: false,
        sent: Seq::empty(),
        received: Seq::empty(),
        returned: Seq::empty(),
        regained: Seq::empty(),
        initial: slots,
    }
}

/// How often the switch was turned.
pub open spec fn turns<T>(c: Channel<T>) -> nat {
    c.publications + c.clearances
}

/// The switch is on after `n` turns.
pub open spec fn is_on(n: nat) -> bool {
    n % 2 == 1
}

/// What can happen in a channel.
pub enum Move<T> {
    Sender(SenderAccess<T>),
    Receiver(ReceiverAccess<T>),
    /// The sender, to publish, sees the switch as it was after the given number of turns, which may
    /// not be the latest.
    SenderLooks(nat),
    /// The sender, to publish, sees the switch when it acquires it.
    SenderAcquires(nat),
    /// The receiver, to receive, sees the switch as it was after the given number of turns, which
    /// may not be the latest.
    ReceiverLooks(nat),
    /// The sender sees the switch between calls to publish.
    SenderPeeks(nat),
    /// The receiver sees the switch between calls to receive.
    ReceiverPeeks(nat),
    /// The sender looks whether the receiver has disconnected, and is told so or not.
    SenderAsks(bool),
    /// The receiver looks whether the sender has disconnected, and is told so or not.
    ReceiverAsks(bool),
    /// The sender is dropped.
    SenderGoes,
    /// The receiver is dropped.
    ReceiverGoes,
}

/// Move `m` can happen now, and it gets what the memory holds.
///
/// A side sees the switch as it was at some time after the last that it saw. Who saw that the other
/// side is gone does so again. A receiver that acquires that the sender is gone does not miss
/// anything that the sender did.
/// Who asks whether the other side has disconnected may miss that it did, but not once it was told.
pub open spec fn can<T>(c: Channel<T>, m: Move<T>) -> bool {
    match m {
        Move::Sender(a) => {
            &&& !c.sender_gone
            &&& sender_step(c.sender, a) is Some
            &&& match a {
                SenderAccess::LoadGone(gone) => gone ==> c.receiver_gone,
                SenderAccess::LoadPublished(_) => false,
                SenderAccess::AcquirePublished(_) => false,
                SenderAccess::TakeSlot { slot, got } => got == c.slots[slot as int],
                SenderAccess::FillSlot { slot, val, displaced } => displaced
                    == c.slots[slot as int],
                SenderAccess::Publish => true,
            }
        },
        Move::Receiver(a) => {
            &&& !c.receiver_gone
            &&& receiver_step(c.receiver, a) is Some
            &&& match a {
                ReceiverAccess::AcquirePublished(_) => false,
                ReceiverAccess::LoadGone(gone) => gone ==> c.sender_gone,
                ReceiverAccess::AcquireGone(gone) => gone,
                ReceiverAccess::TakeSlot { slot, got } => got == c.slots[slot as int],
                ReceiverAccess::FillSlot { slot, val, displaced } => displaced
                    == c.slots[slot as int],
                ReceiverAccess::Clear => true,
            }
        },
        Move::SenderLooks(n) => {
            &&& !c.sender_gone
            &&& sender_step(c.sender, SenderAccess::<T>::LoadPublished(is_on(n))) is Some
            &&& c.sender_seen <= n <= turns(c)
        },
        Move::SenderAcquires(n) => {
            &&& !c.sender_gone
            &&& sender_step(c.sender, SenderAccess::<T>::AcquirePublished(is_on(n))) is Some
            &&& c.sender_seen <= n <= turns(c)
        },
        Move::ReceiverLooks(n) => {
            &&& !c.receiver_gone
            &&& receiver_step(c.receiver, ReceiverAccess::<T>::AcquirePublished(is_on(n))) is Some
            &&& c.receiver_seen <= n <= turns(c)
        },
        Move::SenderPeeks(n) => {
            &&& !c.sender_gone
            &&& c.sender.phase is Idle
            &&& c.sender_seen <= n <= turns(c)
        },
        Move::ReceiverPeeks(n) => {
            &&& !c.receiver_gone
            &&& c.receiver.phase is Idle
            &&& c.receiver_seen <= n <= turns(c)
        },
        Move::SenderAsks(gone) => {
            &&& !c.sender_gone
            &&& gone ==> c.receiver_gone
            &&& c.sender_told ==> gone
        },
        Move::ReceiverAsks(gone) => {
            &&& !c.receiver_gone
            &&& gone ==> c.sender_gone
            &&& c.receiver_told ==> gone
        },
        Move::SenderGoes => !c.sender_gone && c.sender.phase is Idle,
        Move::ReceiverGoes => !c.receiver_gone && c.receiver.phase is Idle,
    }
}

/// The channel after move `m`.
pub open spec fn after<T>(c: Channel<T>, m: Move<T>) -> Channel<T> {
    match m {
        Move::Sender(a) => {
            let sender = sender_step(c.sender, a)->0;
            match a {
                SenderAccess::TakeSlot { slot, got } => Channel {
                    sender,
                    slots: c.slots.update(slot as int, None),
                    regained: match got {
                        Some(val) => c.regained.push(val),
                        None => c.regained,
                    },
                    ..c
                },
                SenderAccess::FillSlot { slot, val, displaced } => Channel {
                    sender,
                    slots: c.slots.update(slot as int, Some(val)),
                    sent: c.sent.push(val),
                    ..c
                },
                SenderAccess::Publish => Channel {
                    sender,
                    publications: c.publications + 1,
                    sender_seen: turns(c) + 1,
                    ..c
                },
                _ => Channel { sender, ..c },
            }
        },
        Move::Receiver(a) => {
            let receiver = receiver_step(c.receiver, a)->0;
            match a {
                ReceiverAccess::AcquireGone(gone) => Channel {
                    receiver,
                    receiver_seen: turns(c),
                    ..c
                },
                ReceiverAccess::TakeSlot { slot, got } => Channel {
                    receiver,
                    slots: c.slots.update(slot as int, None),
                    received: match got {
                        Some(val) => c.received.push(val),
                        None => c.received,
                    },
                    ..c
                },
                ReceiverAccess::FillSlot { slot, val, displaced } => Channel {
                    receiver,
                    slots: c.slots.update(slot as int, Some(val)),
                    returned: c.returned.push(val),
                    ..c
                },
                ReceiverAccess::Clear => Channel {
                    receiver,
                    clearances: c.clearances + 1,
                    receiver_seen: turns(c) + 1,
                    ..c
                },
                _ => Channel { receiver, ..c },
            }
        },
        Move::SenderLooks(n) => Channel {
            sender: sender_step(c.sender, SenderAccess::<T>::LoadPublished(is_on(n)))->0,
            sender_seen: n,
            ..c
        },
        Move::SenderAcquires(n) => Channel {
            sender: sender_step(c.sender, SenderAccess::<T>::AcquirePublished(is_on(n)))->0,
            sender_seen: n,
            ..c
        },
        Move::ReceiverLooks(n) => Channel {
            receiver: receiver_step(c.receiver, ReceiverAccess::<T>::AcquirePublished(is_on(n)))->0,
            receiver_seen: n,
            ..c
        },
        Move::SenderPeeks(n) => Channel { sender_seen: n, ..c },
        Move::ReceiverPeeks(n) => Channel { receiver_seen: n, ..c },
        Move::SenderAsks(gone) => Channel { sender_told: gone, ..c },
        Move::ReceiverAsks(gone) => Channel { receiver_told: gone, ..c },
        Move::SenderGoes => Channel { sender_gone: true, ..c },
        Move::ReceiverGoes => Channel { receiver_gone: true, ..c },
    }
}

/// The sender has found the switch off and has not turned it on.
pub open spec fn is_publishing<T>(c: Channel<T>) -> bool {
    c.sender.phase is Unpublished || c.sender.phase is Vetted || c.sender.phase is Taken
        || c.sender.phase is Filled
}

/// The receiver has found the switch on and has not turned it off.
pub open spec fn is_receiving<T>(c: Channel<T>) -> bool {
    c.receiver.phase is Due || c.receiver.phase is Taken || c.receiver.phase is Filled
}

/// What is in the slots. Each side has the value of its own slot at hand. The third slot holds a
/// spare value while the switch is off, and the published value while it is on, but for when a side
/// that moves on has the values of two slots at hand.
pub open spec fn slots_in_place<T>(c: Channel<T>) -> bool {
    let s = c.sender.index as int;
    let r = c.receiver.index as int;
    if c.publications == c.clearances {
        let spare = next_index(c.sender.index) as int;
        &&& c.slots[r] is None
        &&& if c.sender.phase is Filled {
            c.slots[s] == Some(c.sent.last()) && c.slots[spare] is None
        } else {
            c.slots[s] is None && (c.slots[spare] is None <==> c.sender.phase is Taken)
        }
    } else {
        let published = next_index(c.receiver.index) as int;
        &&& c.slots[s] is None
        &&& match c.receiver.phase {
            ReceiverPhase::Taken => c.slots[r] is None && c.slots[published] is None,
            ReceiverPhase::Filled => c.slots[r] is Some && c.slots[published] is None,
            _ => c.slots[r] is None && c.slots[published] == Some(c.sent.last()),
        }
    }
}

/// The state that a channel is always in.
pub open spec fn consistent<T>(c: Channel<T>) -> bool {
    &&& c.slots.len() == 3
    &&& c.clearances <= c.publications <= c.clearances + 1
    // The sides go round the slots, the sender ahead.
    &&& c.sender.index == (c.publications + 1) % 3
    &&& c.receiver.index == c.clearances % 3
    // A side knows of its own turns of the switch.
    &&& 2 * c.publications <= c.sender_seen + 1
    &&& c.sender_seen <= turns(c)
    &&& 2 * c.clearances <= c.receiver_seen <= turns(c)
    // A side moves on only while it is its turn.
    &&& is_publishing(c) ==> c.publications == c.clearances
    &&& is_receiving(c) ==> c.publications == c.clearances + 1
    &&& slots_in_place(c)
    // What was received is what was sent.
    &&& c.sent.len() == if c.sender.phase is Filled {
        c.publications + 1
    } else {
        c.publications
    }
    &&& c.received.len() == if c.receiver.phase is Taken || c.receiver.phase is Filled {
        c.clearances + 1
    } else {
        c.clearances
    }
    &&& forall|i: int| 0 <= i < c.received.len() ==> #[trigger] c.received[i] == c.sent[i]
    // The sides leave only between calls.
    &&& c.sender_gone ==> c.sender.phase is Idle
    &&& c.receiver_gone ==> c.receiver.phase is Idle
    &&& c.receiver.phase is Suspicious ==> c.sender_gone
    &&& c.receiver.phase is Orphaned ==> c.sender_gone && c.receiver_seen == turns(c)
}

/// A channel is consistent at the start: the receiver has slot 0, the sender slot 1, and slot 2
/// holds a value.
pub proof fn consistent_at_the_start<T>(slots: Seq<Option<T>>)
    requires
        slots.len() == 3,
        slots[0] is None,
        slots[1] is None,
        slots[2] is Some,
    ensures
        consistent(channel_start(slots)),
{
}

/// Whatever happens, a channel stays consistent.
#[verifier::spinoff_prover]
pub proof fn moves_keep_consistency<T>(c: Channel<T>, m: Move<T>)
    requires
        consistent(c),
        can(c, m),
    ensures
        consistent(after(c, m)),
{
}

/// The values of the channel go round: what the sender gets is what the receiver put back last, or
/// at first what was in the third slot at the start.
pub open spec fn rotates<T>(c: Channel<T>) -> bool {
    let spare = next_index(c.sender.index) as int;
    &&& c.returned.len() == c.clearances + (if c.receiver.phase is Filled {
        1int
    } else {
        0
    })
    &&& c.regained.len() == c.publications + (if c.sender.phase is Taken
        || c.sender.phase is Filled {
        1int
    } else {
        0
    })
    &&& c.publications == c.clearances && !(c.sender.phase is Taken || c.sender.phase is Filled)
        ==> c.slots[spare] == (if c.publications == 0 {
        c.initial[2]
    } else {
        Some(c.returned[c.publications - 1])
    })
    &&& c.receiver.phase is Filled ==> c.slots[c.receiver.index as int] == Some(c.returned.last())
    &&& c.regained.len() > 0 ==> Some(c.regained[0]) == c.initial[2]
    &&& forall|i: int|
        0 < i < c.regained.len() ==> #[trigger] c.regained[i] == c.returned[i - 1]
}

/// Whatever happens, the values of a channel go round.
#[verifier::spinoff_prover]
proof fn moves_keep_rotation<T>(c: Channel<T>, m: Move<T>)
    requires
        consistent(c),
        rotates(c),
        can(c, m),
    ensures
        rotates(after(c, m)),
{
}

/// Access `a` of the sender gets what the memory holds now, except for the sender's own slot.
pub open spec fn sender_sees<T>(c: Channel<T>, a: SenderAccess<T>) -> bool {
    match a {
        SenderAccess::LoadGone(gone) => gone == c.receiver_gone,
        SenderAccess::LoadPublished(on) => on == is_on(turns(c)),
        SenderAccess::AcquirePublished(on) => on == is_on(turns(c)),
        SenderAccess::TakeSlot { slot, got } => got == c.slots[slot as int],
        _ => true,
    }
}

/// Access `a` of the receiver gets what the memory holds now, except for the receiver's own slot.
pub open spec fn receiver_sees<T>(c: Channel<T>, a: ReceiverAccess<T>) -> bool {
    match a {
        ReceiverAccess::AcquirePublished(on) => on == is_on(turns(c)),
        ReceiverAccess::LoadGone(gone) => gone == c.sender_gone,
        ReceiverAccess::AcquireGone(gone) => gone == c.sender_gone,
        ReceiverAccess::TakeSlot { slot, got } => got == c.slots[slot as int],
        _ => true,
    }
}

/// Whenever the sender took what is in the next slot, something was there.
pub open spec fn sender_finds_values<T>(trace: Seq<SenderAccess<T>>) -> bool {
    forall|i: int|
        0 <= i < trace.len() ==> !(#[trigger] trace[i] matches SenderAccess::TakeSlot {
            slot,
            got: None,
        })
}

/// Whenever the receiver took what is in the next slot, something was there.
pub open spec fn receiver_finds_values<T>(trace: Seq<ReceiverAccess<T>>) -> bool {
    forall|i: int|
        0 <= i < trace.len() ==> !(#[trigger] trace[i] matches ReceiverAccess::TakeSlot {
            slot,
            got: None,
        })
}

/// The channel after all of `moves`, if they can happen in that order.
pub open spec fn play<T>(start: Channel<T>, moves: Seq<Move<T>>) -> Option<Channel<T>>
    decreases moves.len(),
{
    if moves.len() == 0 {
        Some(start)
    } else {
        match play(start, moves.drop_last()) {
            Some(c) => if can(c, moves.last()) {
                Some(after(c, moves.last()))
            } else {
                None
            },
            None => None,
        }
    }
}

/// One more move.
pub proof fn play_extends<T>(start: Channel<T>, moves: Seq<Move<T>>, c: Channel<T>, m: Move<T>)
    requires
        play(start, moves) == Some(c),
        can(c, m),
    ensures
        play(start, moves.push(m)) == Some(after(c, m)),
{
    assert(moves.push(m).drop_last() =~= moves);
}

/// The accesses of the sender among `moves`.
pub open spec fn sender_part<T>(moves: Seq<Move<T>>) -> Seq<SenderAccess<T>>
    decreases moves.len(),
{
    if moves.len() == 0 {
        Seq::empty()
    } else {
        match moves.last() {
            Move::Sender(a) => sender_part(moves.drop_last()).push(a),
            Move::SenderLooks(n) => sender_part(moves.drop_last()).push(
                SenderAccess::LoadPublished(is_on(n)),
            ),
            Move::SenderAcquires(n) => sender_part(moves.drop_last()).push(
                SenderAccess::AcquirePublished(is_on(n)),
            ),
            _ => sender_part(moves.drop_last()),
        }
    }
}

/// The accesses of the receiver among `moves`.
pub open spec fn receiver_part<T>(moves: Seq<Move<T>>) -> Seq<ReceiverAccess<T>>
    decreases moves.len(),
{
    if moves.len() == 0 {
        Seq::empty()
    } else {
        match moves.last() {
            Move::Receiver(a) => receiver_part(moves.drop_last()).push(a),
            Move::ReceiverLooks(n) => receiver_part(moves.drop_last()).push(
                ReceiverAccess::AcquirePublished(is_on(n)),
            ),
            _ => receiver_part(moves.drop_last()),
        }
    }
}

/// However the two sides interleave, each is where its own accesses have brought it, and the
/// receiver takes the values that were published: all of them, in the order in which they were
/// published, up to the last, which may still wait.
pub proof fn values_arrive_in_order<T>(
    slots: Seq<Option<T>>,
    moves: Seq<Move<T>>,
    end: Channel<T>,
)
    requires
        slots.len() == 3,
        slots[0] is None,
        slots[1] is None,
        slots[2] is Some,
        play(channel_start(slots), moves) == Some(end),
    ensures
        consistent(end),
        rotates(end),
        end.initial == slots,
        end.regained == regained_by(sender_part(moves)),
        end.returned == returned_by(receiver_part(moves)),
        sender_finds_values(sender_part(moves)),
        receiver_finds_values(receiver_part(moves)),
        sender_run(sender_part(moves)) == Some(end.sender),
        receiver_run(receiver_part(moves)) == Some(end.receiver),
        end.received.len() <= end.sent.len() <= end.received.len() + 1,
        end.received == end.sent.take(end.received.len() as int),
        end.sent == sent_by(sender_part(moves)),
        end.received == received_by(receiver_part(moves)),
    decreases moves.len(),
{
    broadcast use {
        sent_by_extends,
        received_by_extends,
        regained_by_extends,
        returned_by_extends,
    };

    let start = channel_start(slots);
    if moves.len() == 0 {
        consistent_at_the_start(slots);
    } else {
        let before = play(start, moves.drop_last())->0;
        values_arrive_in_order(slots, moves.drop_last(), before);
        moves_keep_consistency(before, moves.last());
        moves_keep_rotation(before, moves.last());
        match moves.last() {
            Move::Sender(a) => {
                match a {
                    SenderAccess::TakeSlot { slot, got } => {
                        assert(got is Some);
                    },
                    _ => {},
                }
                sender_run_extends(sender_part(moves.drop_last()), a);
            },
            Move::SenderLooks(n) => {
                sender_run_extends(
                    sender_part(moves.drop_last()),
                    SenderAccess::LoadPublished(is_on(n)),
                );
            },
            Move::SenderAcquires(n) => {
                sender_run_extends(
                    sender_part(moves.drop_last()),
                    SenderAccess::AcquirePublished(is_on(n)),
                );
            },
            Move::Receiver(a) => {
                match a {
                    ReceiverAccess::TakeSlot { slot, got } => {
                        assert(got is Some);
                    },
                    _ => {},
                }
                receiver_run_extends(receiver_part(moves.drop_last()), a);
            },
            Move::ReceiverLooks(n) => {
                receiver_run_extends(
                    receiver_part(moves.drop_last()),
                    ReceiverAccess::AcquirePublished(is_on(n)),
                );
            },
            _ => {},
        }
    }
    assert(end.received =~= end.sent.take(end.received.len() as int));
}

/// Slots that a side takes from hold a value, which for the receiver is the one that was published
/// next, and slots that a side puts a value into are vacant, so that no value is lost.
pub proof fn no_value_is_lost<T>(
    c: Channel<T>,
    slot: u8,
    val: T,
    displaced: Option<T>,
    got: Option<T>,
)
    requires
        consistent(c),
    ensures
        can(c, Move::Sender(SenderAccess::TakeSlot { slot, got })) ==> got is Some,
        can(c, Move::Sender(SenderAccess::FillSlot { slot, val, displaced })) ==> displaced is None,
        can(c, Move::Receiver(ReceiverAccess::TakeSlot { slot, got })) ==> c.received.len()
            < c.sent.len() && got == Some(c.sent[c.received.len() as int]),
        can(c, Move::Receiver(ReceiverAccess::FillSlot { slot, val, displaced })) ==> displaced
            is None,
{
}

/// The two sides never touch the same slot: they occupy two slots, and at most one of them is on
/// the way to the third.
pub proof fn sides_touch_distinct_slots<T>(c: Channel<T>)
    requires
        consistent(c),
    ensures
        c.sender.index != c.receiver.index,
        !(is_publishing(c) && is_receiving(c)),
        is_publishing(c) ==> next_index(c.sender.index) != c.receiver.index,
        is_receiving(c) ==> next_index(c.receiver.index) != c.sender.index,
{
}

/// A sender that sees the switch off knows that the receiver has consumed every value that was
/// published; if it sees the latest turn of the switch, it sees the switch on only if the receiver
/// has not consumed the last.
pub proof fn full_means_full<T>(c: Channel<T>, n: nat)
    requires
        consistent(c),
        can(c, Move::SenderLooks(n)) || can(c, Move::SenderPeeks(n)),
    ensures
        !is_on(n) ==> c.publications == c.clearances,
        n == turns(c) ==> (is_on(n) <==> c.publications == c.clearances + 1),
{
}

/// Once the sender has seen the switch off, it sees it off until it publishes: its next call to
/// publish is not refused for the channel being full.
pub proof fn seen_room_stays<T>(c: Channel<T>, m: Move<T>)
    requires
        consistent(c),
        can(c, m),
        !is_on(c.sender_seen),
    ensures
        m matches Move::SenderLooks(n) ==> !is_on(n),
        m matches Move::SenderAcquires(n) ==> !is_on(n),
        m matches Move::SenderPeeks(n) ==> !is_on(n),
        m == Move::Sender(SenderAccess::<T>::Publish) || !is_on(after(c, m).sender_seen),
{
}

/// Once the receiver has seen the switch on, it sees it on until it clears it: its next call to
/// receive finds a value.
pub proof fn a_seen_value_stays<T>(c: Channel<T>, m: Move<T>)
    requires
        consistent(c),
        can(c, m),
        is_on(c.receiver_seen),
    ensures
        m matches Move::ReceiverLooks(n) ==> is_on(n),
        m matches Move::ReceiverPeeks(n) ==> is_on(n),
        m == Move::Receiver(ReceiverAccess::<T>::Clear) || is_on(after(c, m).receiver_seen),
{
}

/// Between calls, the switch tells whether a value waits; if one does, it is in the slot after the
/// receiver's, and if none does, there is an old value in the slot after the sender's.
pub proof fn the_switch_tells_what_waits<T>(c: Channel<T>)
    requires
        consistent(c),
        c.sender.phase is Idle,
        c.receiver.phase is Idle,
    ensures
        is_on(turns(c)) <==> c.sent.len() == c.received.len() + 1,
        is_on(turns(c)) ==> c.slots[next_index(c.receiver.index) as int] == Some(c.sent.last()),
        !is_on(turns(c)) ==> c.slots[next_index(c.sender.index) as int] is Some,
{
}

/// If the sender has seen the switch off by state `mid`, then until it publishes it does not see
/// the switch on, whatever the receiver does.
pub proof fn seen_room_is_found<T>(
    slots: Seq<Option<T>>,
    moves: Seq<Move<T>>,
    k: int,
    mid: Channel<T>,
    end: Channel<T>,
)
    requires
        slots.len() == 3,
        slots[0] is None,
        slots[1] is None,
        slots[2] is Some,
        0 <= k <= moves.len(),
        play(channel_start(slots), moves.take(k)) == Some(mid),
        play(channel_start(slots), moves) == Some(end),
        !is_on(mid.sender_seen),
        forall|i: int|
            sender_part(moves.take(k)).len() <= i < sender_part(moves).len() ==> !(
            #[trigger] sender_part(moves)[i] is Publish),
    ensures
        !is_on(end.sender_seen),
        sender_part(moves.take(k)).len() <= sender_part(moves).len(),
        forall|i: int|
            sender_part(moves.take(k)).len() <= i < sender_part(moves).len()
                ==> #[trigger] sender_part(moves)[i] != SenderAccess::<T>::LoadPublished(true),
    decreases moves.len(),
{
    if k == moves.len() {
        assert(moves.take(k) =~= moves);
    } else {
        let start = channel_start(slots);
        let before = play(start, moves.drop_last())->0;
        let part = sender_part(moves.drop_last());
        assert(moves.drop_last().take(k) =~= moves.take(k));
        values_arrive_in_order(slots, moves.drop_last(), before);
        assert forall|i: int| sender_part(moves.take(k)).len() <= i < part.len() implies !(
        #[trigger] part[i] is Publish) by {
            assert(sender_part(moves)[i] == part[i]);
        }
        seen_room_is_found(slots, moves.drop_last(), k, mid, before);
        if sender_part(moves).len() > part.len() {
            assert(!(sender_part(moves)[part.len() as int] is Publish));
        }
        seen_room_stays(before, moves.last());
        assert forall|i: int|
            sender_part(moves.take(k)).len() <= i < sender_part(moves).len()
            implies #[trigger] sender_part(moves)[i] != SenderAccess::<T>::LoadPublished(true) by {
            if i < part.len() {
                assert(sender_part(moves)[i] == part[i]);
            }
        }
    }
}

/// If the receiver has seen the switch on by state `mid`, then until it clears it, it does not see
/// the switch off, and nothing more is published, whatever the sender does.
pub proof fn a_seen_value_is_found<T>(
    slots: Seq<Option<T>>,
    moves: Seq<Move<T>>,
    k: int,
    mid: Channel<T>,
    end: Channel<T>,
)
    requires
        slots.len() == 3,
        slots[0] is None,
        slots[1] is None,
        slots[2] is Some,
        0 <= k <= moves.len(),
        play(channel_start(slots), moves.take(k)) == Some(mid),
        play(channel_start(slots), moves) == Some(end),
        is_on(mid.receiver_seen),
        forall|i: int|
            receiver_part(moves.take(k)).len() <= i < receiver_part(moves).len() ==> !(
            #[trigger] receiver_part(moves)[i] is Clear),
    ensures
        is_on(end.receiver_seen),
        receiver_part(moves.take(k)).len() <= receiver_part(moves).len(),
        forall|i: int|
            receiver_part(moves.take(k)).len() <= i < receiver_part(moves).len()
                ==> #[trigger] receiver_part(moves)[i] != ReceiverAccess::<T>::AcquirePublished(
                false,
            ),
    decreases moves.len(),
{
    if k == moves.len() {
        assert(moves.take(k) =~= moves);
    } else {
        let start = channel_start(slots);
        let before = play(start, moves.drop_last())->0;
        let part = receiver_part(moves.drop_last());
        assert(moves.drop_last().take(k) =~= moves.take(k));
        values_arrive_in_order(slots, moves.drop_last(), before);
        assert forall|i: int| receiver_part(moves.take(k)).len() <= i < part.len() implies !(
        #[trigger] part[i] is Clear) by {
            assert(receiver_part(moves)[i] == part[i]);
        }
        a_seen_value_is_found(slots, moves.drop_last(), k, mid, before);
        if receiver_part(moves).len() > part.len() {
            assert(!(receiver_part(moves)[part.len() as int] is Clear));
        }
        a_seen_value_stays(before, moves.last());
        assert forall|i: int|
            receiver_part(moves.take(k)).len() <= i < receiver_part(moves).len()
            implies #[trigger] receiver_part(moves)[i] != ReceiverAccess::<T>::AcquirePublished(
            false,
        ) by {
            if i < part.len() {
                assert(receiver_part(moves)[i] == part[i]);
            }
        }
    }
}

/// What was sent stays sent.
pub proof fn what_was_sent_stays<T>(
    start: Channel<T>,
    moves: Seq<Move<T>>,
    k: int,
    mid: Channel<T>,
    end: Channel<T>,
)
    requires
        0 <= k <= moves.len(),
        play(start, moves.take(k)) == Some(mid),
        play(start, moves) == Some(end),
    ensures
        mid.sent.len() <= end.sent.len(),
        end.sent.take(mid.sent.len() as int) == mid.sent,
    decreases moves.len(),
{
    if k == moves.len() {
        assert(moves.take(k) =~= moves);
    } else {
        let before = play(start, moves.drop_last())->0;
        assert(moves.drop_last().take(k) =~= moves.take(k));
        what_was_sent_stays(start, moves.drop_last(), k, mid, before);
    }
    assert(end.sent.take(mid.sent.len() as int) =~= mid.sent);
}

/// A receiver that sees the latest turn of the switch finds a value if one waits.
pub proof fn a_waiting_value_is_found<T>(c: Channel<T>)
    requires
        consistent(c),
        can(c, Move::ReceiverLooks(turns(c))),
        c.received.len() < c.publications,
    ensures
        is_on(turns(c)),
{
}

/// The receiver finds the channel disconnected only when the sender is gone and every value that
/// was published was received.
pub proof fn disconnected_means_drained<T>(c: Channel<T>, n: nat)
    requires
        consistent(c),
        c.receiver.phase is Orphaned,
        can(c, Move::ReceiverLooks(n)),
        !is_on(n),
    ensures
        c.sender_gone,
        c.received == c.sent,
{
    assert(c.received =~= c.sent);
}

/// Once the receiver has found the channel disconnected, which it did last, the sender is gone and
/// every value that was published was received.
pub proof fn disconnected_stays_drained<T>(
    slots: Seq<Option<T>>,
    moves: Seq<Move<T>>,
    end: Channel<T>,
)
    requires
        slots.len() == 3,
        slots[0] is None,
        slots[1] is None,
        slots[2] is Some,
        play(channel_start(slots), moves) == Some(end),
        receiver_part(moves).len() >= 2,
        receiver_part(moves)[receiver_part(moves).len() - 2] is AcquireGone,
        receiver_part(moves).last() == ReceiverAccess::<T>::AcquirePublished(false),
    ensures
        end.sender_gone,
        end.received == end.sent,
    decreases moves.len(),
{
    let before = play(channel_start(slots), moves.drop_last())->0;
    let part = receiver_part(moves.drop_last());
    values_arrive_in_order(slots, moves.drop_last(), before);
    if receiver_part(moves) == part {
        disconnected_stays_drained(slots, moves.drop_last(), before);
    } else {
        match moves.last() {
            Move::ReceiverLooks(n) => {
                assert(part.last() is AcquireGone);
                assert(before.receiver.phase is Orphaned);
                disconnected_means_drained(before, n);
            },
            _ => {},
        }
    }
}

/// The sender's look whether the receiver has disconnected gets what the memory holds now.
pub open spec fn sender_asking_sees<T>(c: Channel<T>, gone: bool) -> bool {
    gone == c.receiver_gone
}

/// The receiver's look whether the sender has disconnected gets what the memory holds now.
pub open spec fn receiver_asking_sees<T>(c: Channel<T>, gone: bool) -> bool {
    gone == c.sender_gone
}

/// Who is gone stays gone, and who was told so is told so again.
pub proof fn gone_stays_gone<T>(c: Channel<T>, moves: Seq<Move<T>>, end: Channel<T>)
    requires
        play(c, moves) == Some(end),
    ensures
        c.sender_gone ==> end.sender_gone,
        c.receiver_gone ==> end.receiver_gone,
        c.sender_told ==> end.sender_told,
        c.receiver_told ==> end.receiver_told,
    decreases moves.len(),
{
    if moves.len() > 0 {
        let before = play(c, moves.drop_last())->0;
        gone_stays_gone(c, moves.drop_last(), before);
    }
}

/// Who saw that the other side is gone saw what is so.
pub proof fn gone_is_seen_of_the_gone<T>(start: Channel<T>, moves: Seq<Move<T>>, end: Channel<T>)
    requires
        play(start, moves) == Some(end),
    ensures
        forall|i: int|
            0 <= i < sender_part(moves).len() && #[trigger] sender_part(moves)[i]
                == SenderAccess::<T>::LoadGone(true) ==> end.receiver_gone,
        forall|i: int|
            0 <= i < receiver_part(moves).len() && #[trigger] receiver_part(moves)[i]
                == ReceiverAccess::<T>::LoadGone(true) ==> end.sender_gone,
    decreases moves.len(),
{
    if moves.len() > 0 {
        let before = play(start, moves.drop_last())->0;
        gone_is_seen_of_the_gone(start, moves.drop_last(), before);
    }
}

} // verus!
