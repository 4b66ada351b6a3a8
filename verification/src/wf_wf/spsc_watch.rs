//! A single-producer, single-consumer channel. The consumer reads the latest-produced value.
//!
//! The sender and receiver are wait-free.
//!
//! The [`Sender`] regains ownership over old values, both read and unread, allowing it to reuse
//! old values. The [`Receiver`] gets mutable access to the value it's reading, allowing sending
//! signals back to the sender (or, e.g., [`core::mem::take`]).
//!
//! This is [`crate::watch::lending::swap`] for sides that need not know whether the other is
//! connected.

use crate::cell::Event;
use crate::memory::{followed, part, unfolds, Step};
use crate::protocol::picks;
use crate::protocol::triple::{
    back, channel_start, play, receiver_part, receiver_run, sees, sender_part, sender_run,
    sender_sees, up_to_date, Channel, Move, ReceiverPhase, ReceiverState, SenderPhase, SenderState,
};
use crate::watch::lending::swap;
use crate::watch::lending::swap::{
    has_news, held, publishes, receiver_at_start, sender_at_start, then_publish, then_receive,
    updates, ReceiverView, SenderView,
};
use vstd::prelude::*;

verus! {

/// The sender part of the channel.
#[verifier::reject_recursive_types(T)]
pub struct Sender<T> {
    side: swap::Sender<T>,
}

/// The receiver part of the channel.
#[verifier::reject_recursive_types(T)]
pub struct Receiver<T> {
    side: swap::Receiver<T>,
}

impl<T> Sender<T> {
    /// The sender as the contracts see it.
    pub closed spec fn view(&self) -> SenderView<T> {
        self.side@
    }

    /// The channel has its slots, and the accesses of the trace were made.
    pub closed spec fn recorded(&self) -> bool {
        &&& self.side.sized()
        &&& self.side.recorded()
    }

    /// Everything that the sender has done to the cells, and that it has left if `gone` says so.
    pub closed spec fn history(&self, gone: bool) -> Seq<Event<Option<Box<T>>>> {
        self.side.history(gone)
    }

    /// The sender's accesses were made, and it is not in the middle of publishing.
    pub open spec fn is_idle(&self) -> bool {
        &&& self.recorded()
        &&& sender_run(self@.trace) == Some(
            SenderState { index: self@.index, phase: SenderPhase::Idle },
        )
        &&& self@.index < 3
    }

    /// The sender has followed the protocol, is not in the middle of publishing, and has a staged
    /// value.
    pub open spec fn wf(&self) -> bool {
        &&& self.is_idle()
        &&& self@.staged is Some
    }

    /// Send a new value (i.e., set the next value the reader will read).
    ///
    /// This returns the previously staged value to allow reuse.
    ///
    /// This is equivalent to replacing the value from [`Self::get_mut`] followed by
    /// [`Self::publish`].
    pub fn send(&mut self, val: T) -> (prev: T)
        requires
            old(self).wf(),
        ensures
            final(self).is_idle(),
            final(self)@.staged is Some ==> final(self).wf(),
            Some(prev) == old(self)@.staged,
            publishes(old(self)@.staging(val), final(self)@),
            final(self)@.sent() == old(self)@.sent().push(val),
    {
        self.side.send(val)
    }

    /// Get the sender's currently staged value mutably, for in-place modification.
    ///
    /// Use [`publish`](Self::publish) to publish the staged value.
    pub fn get_mut(&mut self) -> (r: &mut T)
        requires
            old(self).wf(),
        ensures
            Some(*r) == old(self)@.staged,
            final(self)@ == old(self)@.staging(*final(r)),
            final(self).wf(),
    {
        self.side.get_mut()
    }

    /// Publish the sender's staged value, making it visible to the receiver.
    ///
    /// The channel's back-buffer becomes the sender's new staged value in exchange.
    pub fn publish(&mut self)
        requires
            old(self).wf(),
        ensures
            final(self).is_idle(),
            final(self)@.staged is Some ==> final(self).wf(),
            publishes(old(self)@, final(self)@),
            final(self)@.sent() == old(self)@.sent().push(old(self)@.staged->0),
    {
        self.side.publish();
    }

    /// Returns `true` if there is a staged value. A sender of a new channel has one, and
    /// [`publishing_stages_a_value`] says when it gets one in exchange for what it publishes.
    pub fn has_staged(&self) -> (r: bool)
        ensures
            r == (self@.staged is Some),
    {
        self.side.has_staged()
    }
}

impl<T> Receiver<T> {
    /// The receiver as the contracts see it.
    pub closed spec fn view(&self) -> ReceiverView<T> {
        self.side@
    }

    /// The channel has its slots, and the accesses of the trace were made.
    pub closed spec fn recorded(&self) -> bool {
        &&& self.side.sized()
        &&& self.side.recorded()
    }

    /// Everything that the receiver has done to the cells, and that it has left if `gone` says so.
    pub closed spec fn history(&self, gone: bool) -> Seq<Event<Option<Box<T>>>> {
        self.side.history(gone)
    }

    /// The receiver's accesses were made, and it is not in the middle of receiving.
    pub open spec fn is_idle(&self) -> bool {
        &&& self.recorded()
        &&& receiver_run(self@.trace) == Some(
            ReceiverState {
                index: self@.index,
                gone: self@.sender_disconnected,
                phase: ReceiverPhase::Idle,
            },
        )
        &&& self@.index < 3
    }

    /// The receiver has followed the protocol, is not in the middle of receiving, and has a current
    /// value.
    pub open spec fn wf(&self) -> bool {
        &&& self.is_idle()
        &&& self@.current is Some
    }

    /// Receive the next value. If the sender has not sent a new value, this returns `None`.
    pub fn recv(&mut self) -> (r: Option<&mut T>)
        requires
            old(self).wf(),
        ensures
            final(self).is_idle(),
            final(self)@.current is Some ==> final(self).wf(),
            match r {
                Some(val) => exists|mid: ReceiverView<T>|
                    {
                        &&& #[trigger] updates(old(self)@, true, mid)
                        &&& mid.received() == old(self)@.received().push(mid.current->0)
                        &&& mid.returned() == old(self)@.returned().push(old(self)@.current->0)
                        &&& Some(*val) == mid.current
                        &&& final(self)@ == mid.holding(*final(val))
                    },
                None => {
                    &&& updates(old(self)@, false, final(self)@)
                    &&& final(self)@.received() == old(self)@.received()
                },
            },
    {
        self.recv_mut()
    }

    /// Receive the next value. If the sender has not sent a new value, this returns `None`.
    pub fn recv_mut(&mut self) -> (r: Option<&mut T>)
        requires
            old(self).wf(),
        ensures
            final(self).is_idle(),
            final(self)@.current is Some ==> final(self).wf(),
            match r {
                Some(val) => exists|mid: ReceiverView<T>|
                    {
                        &&& #[trigger] updates(old(self)@, true, mid)
                        &&& mid.received() == old(self)@.received().push(mid.current->0)
                        &&& mid.returned() == old(self)@.returned().push(old(self)@.current->0)
                        &&& Some(*val) == mid.current
                        &&& final(self)@ == mid.holding(*final(val))
                    },
                None => {
                    &&& updates(old(self)@, false, final(self)@)
                    &&& final(self)@.received() == old(self)@.received()
                },
            },
    {
        if self.update() {
            Some(self.get_mut())
        } else {
            None
        }
    }

    /// Get the current value.
    pub fn get(&mut self) -> (r: &T)
        requires
            old(self).wf(),
        ensures
            Some(*r) == old(self)@.current,
            final(self)@ == old(self)@,
            final(self).wf(),
    {
        self.side.get()
    }

    /// Get the current value mutably. If you want to take the value out of the channel, consider
    /// using the channel with an `Option<T>` and calling `rx.get_mut().take()`.
    pub fn get_mut(&mut self) -> (r: &mut T)
        requires
            old(self).wf(),
        ensures
            Some(*r) == old(self)@.current,
            final(self)@ == old(self)@.holding(*final(r)),
            final(self).wf(),
    {
        self.side.get_mut()
    }

    /// Check for and swap in the next value the reader should observe.
    pub fn update(&mut self) -> (fresh: bool)
        requires
            old(self).wf(),
        ensures
            final(self).is_idle(),
            final(self)@.current is Some ==> final(self).wf(),
            updates(old(self)@, fresh, final(self)@),
            fresh ==> final(self)@.received() == old(self)@.received().push(
                final(self)@.current->0,
            ) && final(self)@.returned() == old(self)@.returned().push(old(self)@.current->0),
            !fresh ==> final(self)@.received() == old(self)@.received(),
    {
        self.side.update()
    }

    /// Returns `true` if there is a current value. A receiver of a new channel has one, and
    /// [`updating_keeps_a_value`] says when it keeps having one.
    pub fn has_current(&self) -> (r: bool)
        ensures
            r == (self@.current is Some),
    {
        self.side.has_current()
    }
}

/// Whatever the two sides of a channel have done so far, and however that interleaved, what was
/// received is some of what was sent, in order and each value at most once.
pub proof fn what_was_sent_arrives<T>(
    tx: &Sender<T>,
    rx: &Receiver<T>,
    moves: Seq<Move<T>>,
    end: Channel<T>,
)
    requires
        tx.wf(),
        rx.wf(),
        tx@.memory == rx@.memory,
        play(channel_start(tx@.memory.slots_at_start()), moves) == Some(end),
        sender_part(moves) == tx@.trace,
        receiver_part(moves) == rx@.trace,
    ensures
        picks(end.claimed.take(rx@.received().len() as int), tx@.sent(), rx@.received()),
{
    swap::what_was_sent_arrives(&tx.side, &rx.side, moves, end);
}

/// In every run, [`Sender::publish`] finds a value in the slot that it takes over: the sender has a
/// staged value again.
pub proof fn publishing_stages_a_value<T>(
    tx: &Sender<T>,
    before: SenderView<T>,
    moves: Seq<Move<T>>,
    end: Channel<T>,
)
    requires
        tx.is_idle(),
        publishes(before, tx@),
        play(channel_start(tx@.memory.slots_at_start()), moves) == Some(end),
        sender_part(moves) == tx@.trace,
    ensures
        tx@.staged is Some,
        tx.wf(),
{
    swap::publishing_stages_a_value(&tx.side, before, moves, end);
}

/// In every run, [`Receiver::update`] finds a value in the slot that it takes over: the receiver
/// has a current value whatever it answers.
pub proof fn updating_keeps_a_value<T>(
    rx: &Receiver<T>,
    before: ReceiverView<T>,
    fresh: bool,
    moves: Seq<Move<T>>,
    end: Channel<T>,
)
    requires
        rx.is_idle(),
        before.current is Some,
        updates(before, fresh, rx@),
        play(channel_start(rx@.memory.slots_at_start()), moves) == Some(end),
        receiver_part(moves) == rx@.trace,
    ensures
        rx@.current is Some,
        rx.wf(),
        !fresh ==> rx@.current == before.current,
{
    swap::updating_keeps_a_value(&rx.side, before, fresh, moves, end);
}

/// When no call of the receiver overlaps, and the sender sees what the memory holds, what
/// [`Sender::publish`] stages is what was in the back-buffer: the value that was sent last, if the
/// receiver has not received that; else what the receiver gave up for it, as the receiver left it;
/// and what the channel was made with, if nothing was received. The back-buffer then holds what was
/// staged before.
pub proof fn publishing_alone<T>(
    tx: &Sender<T>,
    rx: &Receiver<T>,
    moves: Seq<Move<T>>,
    c: Channel<T>,
    after: SenderView<T>,
) -> (d: Channel<T>)
    requires
        tx.wf(),
        rx.wf(),
        tx@.memory == rx@.memory,
        play(channel_start(tx@.memory.slots_at_start()), moves) == Some(c),
        sender_part(moves) == tx@.trace,
        receiver_part(moves) == rx@.trace,
        !c.sender_gone,
        publishes(tx@, after),
        forall|i: int|
            tx@.trace.len() <= i < after.trace.len() ==> sender_sees(c, #[trigger] after.trace[i]),
    ensures
        after.staged == c.slots[back(c.stamp) as int],
        after.staged == (if !up_to_date(c) {
            Some(tx@.sent().last())
        } else if rx@.returned().len() > 0 {
            Some(rx@.returned().last())
        } else {
            tx@.memory.slots_at_start()[2]
        }),
        after.staged is Some,
        play(channel_start(tx@.memory.slots_at_start()), then_publish(moves, tx@, after)) == Some(
            d,
        ),
        d.slots[back(d.stamp) as int] == tx@.staged,
        d.receiver == c.receiver,
        !up_to_date(d),
{
    swap::publishing_alone(&tx.side, &rx.side, moves, c, after)
}

/// When no call of the receiver overlaps, and the sender sees what the memory holds,
/// [`Sender::send`] puts its argument in the place of the value that it returns: no other value
/// enters the channel or leaves it, what was in the back-buffer is staged, and the receiver's value
/// is what it was.
pub proof fn sending_exchanges<T>(
    tx: &Sender<T>,
    rx: &Receiver<T>,
    moves: Seq<Move<T>>,
    c: Channel<T>,
    val: T,
    prev: T,
    after: SenderView<T>,
) -> (d: Channel<T>)
    requires
        tx.wf(),
        rx.wf(),
        tx@.memory == rx@.memory,
        play(channel_start(tx@.memory.slots_at_start()), moves) == Some(c),
        sender_part(moves) == tx@.trace,
        receiver_part(moves) == rx@.trace,
        !c.sender_gone,
        Some(prev) == tx@.staged,
        publishes(tx@.staging(val), after),
        forall|i: int|
            tx@.trace.len() <= i < after.trace.len() ==> sender_sees(c, #[trigger] after.trace[i]),
    ensures
        play(channel_start(tx@.memory.slots_at_start()), then_publish(moves, tx@, after)) == Some(
            d,
        ),
        after.staged == c.slots[back(c.stamp) as int],
        d.slots[back(d.stamp) as int] == Some(val),
        d.receiver == c.receiver,
        held(after.staged, d.slots[back(d.stamp) as int], rx@.current) == held(
            tx@.staged,
            c.slots[back(c.stamp) as int],
            rx@.current,
        ).remove(Some(prev)).insert(Some(val)),
{
    swap::sending_exchanges(&tx.side, &rx.side, moves, c, val, prev, after)
}

/// When no call of the sender overlaps, and the receiver sees what the memory holds,
/// [`Receiver::update`] swaps in the value that was sent last, if and only if the receiver has not
/// received it; and it learns whether the sender is gone. If it does, the back-buffer then holds
/// the value that was current before; if not, that stays current.
pub proof fn updating_alone<T>(
    tx: &Sender<T>,
    rx: &Receiver<T>,
    moves: Seq<Move<T>>,
    c: Channel<T>,
    fresh: bool,
    after: ReceiverView<T>,
)
    requires
        tx.wf(),
        rx.wf(),
        tx@.memory == rx@.memory,
        play(channel_start(tx@.memory.slots_at_start()), moves) == Some(c),
        sender_part(moves) == tx@.trace,
        receiver_part(moves) == rx@.trace,
        !c.receiver_gone,
        updates(rx@, fresh, after),
        forall|i: int|
            rx@.trace.len() <= i < after.trace.len() ==> sees(c, #[trigger] after.trace[i]),
    ensures
        fresh <==> !up_to_date(c),
        fresh ==> tx@.sent().len() > 0 && after.current == Some(tx@.sent().last()),
        !fresh ==> after.current == rx@.current,
        after.sender_disconnected == c.sender_gone,
        fresh ==> (play(
            channel_start(tx@.memory.slots_at_start()),
            then_receive(moves, rx@, after),
        ) matches Some(d) && d.slots[back(d.stamp) as int] == rx@.current && d.sender == c.sender
            && up_to_date(d)),
{
    swap::updating_alone(&tx.side, &rx.side, moves, c, fresh, after);
}

/// An update that begins after a value was sent sees it, or one that was sent later, whatever the
/// sender does meanwhile, if the receiver reads the stamp as it then is. Move `k` reads the stamp,
/// and `c` is the channel then.
pub proof fn an_update_sees_what_was_sent<T>(
    before: ReceiverView<T>,
    fresh: bool,
    rx: &Receiver<T>,
    moves: Seq<Move<T>>,
    k: int,
    c: Channel<T>,
    end: Channel<T>,
)
    requires
        rx.is_idle(),
        updates(before, fresh, rx@),
        0 <= k < moves.len(),
        play(channel_start(rx@.memory.slots_at_start()), moves.take(k)) == Some(c),
        moves[k] == Move::Receiver(rx@.trace[before.trace.len() as int]),
        receiver_part(moves.take(k)) == before.trace,
        sees(c, rx@.trace[before.trace.len() as int]),
        play(channel_start(rx@.memory.slots_at_start()), moves) == Some(end),
        receiver_part(moves) == rx@.trace,
        c.published > 0,
    ensures
        end.claimed.len() > 0,
        c.published <= end.claimed.last() + 1,
        rx@.received().len() == end.claimed.len(),
        rx@.received().last() == end.sent[end.claimed.last() as int],
{
    swap::an_update_sees_what_was_sent(before, fresh, &rx.side, moves, k, c, end);
}

/// The two sides of a channel are between calls, unless they have left, and what they have done to
/// the cells came in the order of `steps`, in which each access gets what its cell holds.
pub open spec fn came_about<T>(
    tx: &Sender<T>,
    tx_gone: bool,
    rx: &Receiver<T>,
    rx_gone: bool,
    steps: Seq<Step<Option<Box<T>>>>,
) -> bool {
    &&& tx.wf()
    &&& rx.wf()
    &&& tx@.memory == rx@.memory
    &&& part(steps, true) == tx.history(tx_gone)
    &&& part(steps, false) == rx.history(rx_gone)
    &&& unfolds(steps) is Some
}

/// In whatever order the two sides came to do what they did to the cells, what the receiver has
/// taken out of the cells is some of what the sender has put into them, in order and each value at
/// most once.
pub proof fn cells_carry_what_was_sent<T>(
    tx: &Sender<T>,
    tx_gone: bool,
    rx: &Receiver<T>,
    rx_gone: bool,
    steps: Seq<Step<Option<Box<T>>>>,
) -> (r: (Seq<Move<T>>, Channel<T>))
    requires
        came_about(tx, tx_gone, rx, rx_gone, steps),
    ensures
        picks(r.1.claimed.take(rx@.received().len() as int), tx@.sent(), rx@.received()),
        play(channel_start(tx@.memory.slots_at_start()), r.0) == Some(r.1),
        sender_part(r.0) == tx@.trace,
        receiver_part(r.0) == rx@.trace,
        r.1.sender_gone == tx_gone,
        r.1.receiver_gone == rx_gone,
{
    swap::cells_carry_what_was_sent(&tx.side, tx_gone, &rx.side, rx_gone, steps)
}

/// After whatever the two sides have done to the cells, a call of [`Sender::publish`] that no call
/// of the receiver overlaps makes what was staged the news, and stages what was in the back-buffer:
/// the value that was sent last, if that was still news; else what the receiver gave up for it; and
/// what the channel was made with, if nothing was received. `after` is the sender after the call,
/// and `more` what the call did to the cells.
pub proof fn publishing_through_the_cells<T>(
    tx: &Sender<T>,
    rx: &Receiver<T>,
    rx_gone: bool,
    steps: Seq<Step<Option<Box<T>>>>,
    after: &Sender<T>,
    more: Seq<Event<Option<Box<T>>>>,
)
    requires
        came_about(tx, false, rx, rx_gone, steps),
        after.is_idle(),
        publishes(tx@, after@),
        after.history(false) == tx.history(false) + more,
        unfolds(followed(steps, true, more)) is Some,
    ensures
        after.wf(),
        after@.sent() == tx@.sent().push(tx@.staged->0),
        after@.staged == (if has_news(tx@.memory, steps) {
            Some(tx@.sent().last())
        } else if rx@.returned().len() > 0 {
            Some(rx@.returned().last())
        } else {
            tx@.memory.slots_at_start()[2]
        }),
        has_news(tx@.memory, followed(steps, true, more)),
        came_about(after, false, rx, rx_gone, followed(steps, true, more)),
{
    swap::publishing_through_the_cells(&tx.side, &rx.side, rx_gone, steps, &after.side, more);
}

/// After whatever the two sides have done to the cells, a call of [`Sender::send`] that no call of
/// the receiver overlaps makes its argument the news, and stages what was in the back-buffer.
/// `after` is the sender after the call, and `more` what the call did to the cells.
pub proof fn sending_through_the_cells<T>(
    tx: &Sender<T>,
    rx: &Receiver<T>,
    rx_gone: bool,
    steps: Seq<Step<Option<Box<T>>>>,
    val: T,
    after: &Sender<T>,
    more: Seq<Event<Option<Box<T>>>>,
)
    requires
        came_about(tx, false, rx, rx_gone, steps),
        after.is_idle(),
        publishes(tx@.staging(val), after@),
        after.history(false) == tx.history(false) + more,
        unfolds(followed(steps, true, more)) is Some,
    ensures
        after.wf(),
        after@.sent() == tx@.sent().push(val),
        after@.staged == (if has_news(tx@.memory, steps) {
            Some(tx@.sent().last())
        } else if rx@.returned().len() > 0 {
            Some(rx@.returned().last())
        } else {
            tx@.memory.slots_at_start()[2]
        }),
        has_news(tx@.memory, followed(steps, true, more)),
        came_about(after, false, rx, rx_gone, followed(steps, true, more)),
{
    swap::sending_through_the_cells(&tx.side, &rx.side, rx_gone, steps, val, &after.side, more);
}

/// After whatever the two sides have done to the cells, a call of [`Receiver::update`] that no call
/// of the sender overlaps swaps in the value that was sent last, if and only if that is news, which
/// it then no longer is; if not, the current value stays. `after` is the receiver after the call,
/// and `more` what the call did to the cells.
pub proof fn updating_through_the_cells<T>(
    tx: &Sender<T>,
    tx_gone: bool,
    rx: &Receiver<T>,
    steps: Seq<Step<Option<Box<T>>>>,
    fresh: bool,
    after: &Receiver<T>,
    more: Seq<Event<Option<Box<T>>>>,
)
    requires
        came_about(tx, tx_gone, rx, false, steps),
        after.is_idle(),
        updates(rx@, fresh, after@),
        after.history(false) == rx.history(false) + more,
        unfolds(followed(steps, false, more)) is Some,
    ensures
        after.wf(),
        fresh <==> has_news(tx@.memory, steps),
        fresh ==> tx@.sent().len() > 0 && after@.current == Some(tx@.sent().last())
            && after@.received() == rx@.received().push(tx@.sent().last()),
        !fresh ==> after@.current == rx@.current && after@.received() == rx@.received(),
        !has_news(tx@.memory, followed(steps, false, more)),
        came_about(tx, tx_gone, after, false, followed(steps, false, more)),
{
    swap::updating_through_the_cells(
        &tx.side,
        tx_gone,
        &rx.side,
        steps,
        fresh,
        &after.side,
        more,
    );
}

/// There is no news in a new channel.
pub proof fn no_news_at_first<T>(tx: &Sender<T>)
    requires
        tx.wf(),
    ensures
        !has_news(tx@.memory, Seq::empty()),
{
    swap::no_news_at_first(&tx.side);
}

/// Construct a new channel.
///
/// The [`Receiver`] will see `init` immediately. The [`Sender`]'s staged value and the back-buffer
/// are initialized with `T::default()`.
pub fn channel<T: Default>(init: T) -> (r: (Sender<T>, Receiver<T>))
    ensures
        r.0.wf(),
        r.1.wf(),
        r.0@.initial.len() == 3,
        r.0@.initial[0] == init,
        call_ensures(T::default, (), r.0@.initial[1]),
        call_ensures(T::default, (), r.0@.initial[2]),
        r.0@ == sender_at_start(r.0@.memory, r.0@.initial),
        r.1@ == receiver_at_start(r.0@.memory, r.0@.initial),
        r.0@.memory.starts_as(channel_start(seq![None, None, Some(r.0@.initial[2])])),
{
    let (tx, rx) = swap::channel(init);
    (Sender { side: tx }, Receiver { side: rx })
}

/// Construct a new channel, explicitly setting the initial, staged, and back-buffer values.
///
/// The [`Receiver`] will see `init` immediately. The [`Sender`]'s initial staged value is `staged`
/// and `back` is the back-buffer.
pub fn channel_with<T>(init: T, staged: T, back: T) -> (r: (Sender<T>, Receiver<T>))
    ensures
        r.0.wf(),
        r.1.wf(),
        r.0@ == sender_at_start(r.0@.memory, seq![init, staged, back]),
        r.1@ == receiver_at_start(r.0@.memory, seq![init, staged, back]),
        r.0@.memory.starts_as(channel_start(seq![None, None, Some(back)])),
{
    let (tx, rx) = swap::channel_with(init, staged, back);
    (Sender { side: tx }, Receiver { side: rx })
}

} // verus!
