//! What the cells of a channel hold.
//!
//! [`unfolds`] says what the cells hold after everything that two logs list, in the order in which
//! it was done: a cell holds what was last put into it, and before that what it held first, and who
//! accesses a cell gets what it holds. The laws of the channels that speak of cells speak of any
//! such order.

use crate::cell::{is_load, Counter, Event, Flag, Slot, Stamp, Switch, Word};
use vstd::prelude::*;

verus! {

/// What was put into the cells of a channel, by their numbers.
#[verifier::ext_equal]
pub struct Memory<V> {
    pub flags: Map<int, bool>,
    pub switches: Map<int, bool>,
    pub counters: Map<int, u32>,
    pub stamps: Map<int, u8>,
    pub words: Map<int, u64>,
    pub slots: Map<int, V>,
}

impl<V> Memory<V> {
    /// Cells that nothing was put into.
    pub open spec fn untouched() -> Self {
        Memory {
            flags: Map::empty(),
            switches: Map::empty(),
            counters: Map::empty(),
            stamps: Map::empty(),
            words: Map::empty(),
            slots: Map::empty(),
        }
    }

    /// Whether the flag is raised.
    pub open spec fn flag(self, cell: Flag) -> bool {
        if self.flags.contains_key(cell.id()) {
            self.flags[cell.id()]
        } else {
            cell.first()
        }
    }

    /// Whether the switch is on.
    pub open spec fn switch(self, cell: Switch) -> bool {
        if self.switches.contains_key(cell.id()) {
            self.switches[cell.id()]
        } else {
            cell.first()
        }
    }

    /// What the counter holds.
    pub open spec fn counter(self, cell: Counter) -> u32 {
        if self.counters.contains_key(cell.id()) {
            self.counters[cell.id()]
        } else {
            cell.first()
        }
    }

    /// What the stamp holds.
    pub open spec fn stamp(self, cell: Stamp) -> u8 {
        if self.stamps.contains_key(cell.id()) {
            self.stamps[cell.id()]
        } else {
            cell.first()
        }
    }

    /// What the word holds.
    pub open spec fn word(self, cell: Word) -> u64 {
        if self.words.contains_key(cell.id()) {
            self.words[cell.id()]
        } else {
            cell.first()
        }
    }

    /// What the slot holds.
    pub open spec fn slot(self, cell: Slot<V>) -> V {
        if self.slots.contains_key(cell.id()) {
            self.slots[cell.id()]
        } else {
            cell.first()
        }
    }
}

/// The event gets what its cell holds.
pub open spec fn gets<V>(mem: Memory<V>, event: Event<V>) -> bool {
    match event {
        Event::ReadFlag { cell, got } => got == mem.flag(cell),
        Event::AcquireFlag { cell, got } => got == mem.flag(cell),
        Event::RaiseFlag { cell } => true,
        Event::ReleaseFlag { cell } => true,
        Event::ReadSwitch { cell, got } => got == mem.switch(cell),
        Event::AcquireSwitch { cell, got } => got == mem.switch(cell),
        Event::ReleaseSwitch { cell, on } => true,
        Event::ReadCounter { cell, got } => got == mem.counter(cell),
        Event::AcquireCounter { cell, got } => got == mem.counter(cell),
        Event::ReleaseCounter { cell, value } => true,
        Event::ReadStamp { cell, got } => got == mem.stamp(cell),
        Event::SwapStamp { cell, value, got } => got == mem.stamp(cell),
        Event::MarkStamp { cell, bits } => true,
        Event::ReadWord { cell, got } => got == mem.word(cell),
        Event::AcquireWord { cell, got } => got == mem.word(cell),
        Event::ReleaseWord { cell, value } => true,
        Event::SwapWord { cell, value, got } => got == mem.word(cell),
        Event::ReplaceWord { cell, expect, value, acquire, got, done } => {
            &&& got == mem.word(cell)
            &&& done == (got == expect)
        },
        Event::ExchangeSlot { cell, given, got } => got == mem.slot(cell),
    }
}

/// What the cells hold after the event.
pub open spec fn puts<V>(mem: Memory<V>, event: Event<V>) -> Memory<V> {
    match event {
        Event::RaiseFlag { cell } => Memory { flags: mem.flags.insert(cell.id(), true), ..mem },
        Event::ReleaseFlag { cell } => Memory { flags: mem.flags.insert(cell.id(), true), ..mem },
        Event::ReleaseSwitch { cell, on } => Memory {
            switches: mem.switches.insert(cell.id(), on),
            ..mem
        },
        Event::ReleaseCounter { cell, value } => Memory {
            counters: mem.counters.insert(cell.id(), value),
            ..mem
        },
        Event::SwapStamp { cell, value, got } => Memory {
            stamps: mem.stamps.insert(cell.id(), value),
            ..mem
        },
        Event::MarkStamp { cell, bits } => Memory {
            stamps: mem.stamps.insert(cell.id(), mem.stamp(cell) | bits),
            ..mem
        },
        Event::ReleaseWord { cell, value } => Memory {
            words: mem.words.insert(cell.id(), value),
            ..mem
        },
        Event::SwapWord { cell, value, got } => Memory {
            words: mem.words.insert(cell.id(), value),
            ..mem
        },
        Event::ReplaceWord { cell, expect, value, acquire, got, done } => if done {
            Memory { words: mem.words.insert(cell.id(), value), ..mem }
        } else {
            mem
        },
        Event::ExchangeSlot { cell, given, got } => Memory {
            slots: mem.slots.insert(cell.id(), given),
            ..mem
        },
        _ => mem,
    }
}

/// An event, and who did it.
#[verifier::reject_recursive_types(V)]
pub struct Step<V> {
    pub sender: bool,
    pub event: Event<V>,
}

/// What the cells hold after all of `steps`, if each gets what its cell holds.
pub open spec fn unfolds<V>(steps: Seq<Step<V>>) -> Option<Memory<V>>
    decreases steps.len(),
{
    if steps.len() == 0 {
        Some(Memory::untouched())
    } else {
        match unfolds(steps.drop_last()) {
            Some(mem) => if gets(mem, steps.last().event) {
                Some(puts(mem, steps.last().event))
            } else {
                None
            },
            None => None,
        }
    }
}

/// What one of the two sides does in `steps`.
pub open spec fn part<V>(steps: Seq<Step<V>>, sender: bool) -> Seq<Event<V>>
    decreases steps.len(),
{
    if steps.len() == 0 {
        Seq::empty()
    } else if steps.last().sender == sender {
        part(steps.drop_last(), sender).push(steps.last().event)
    } else {
        part(steps.drop_last(), sender)
    }
}

/// `steps`, and then `events`, all of one side.
pub open spec fn followed<V>(steps: Seq<Step<V>>, sender: bool, events: Seq<Event<V>>) -> Seq<
    Step<V>,
> {
    steps + events.map_values(|event: Event<V>| Step { sender, event })
}

/// What follows `steps` is the last that its side did, the other side does nothing in it, and each
/// of its events gets what the cells hold after those before.
pub proof fn what_follows_comes_last<V>(steps: Seq<Step<V>>, sender: bool, events: Seq<Event<V>>)
    ensures
        part(followed(steps, sender, events), sender) == part(steps, sender) + events,
        part(followed(steps, sender, events), !sender) == part(steps, !sender),
    decreases events.len(),
{
    let all = followed(steps, sender, events);
    if events.len() == 0 {
        assert(all =~= steps);
        assert(part(steps, sender) + events =~= part(steps, sender));
    } else {
        what_follows_comes_last(steps, sender, events.drop_last());
        assert(all.drop_last() =~= followed(steps, sender, events.drop_last()));
        assert(part(steps, sender) + events =~= (part(steps, sender) + events.drop_last()).push(
            events.last(),
        ));
    }
}

/// The cells after the first `k` events of what follows `steps`.
pub open spec fn midway<V>(
    steps: Seq<Step<V>>,
    sender: bool,
    events: Seq<Event<V>>,
    k: int,
) -> Memory<V> {
    unfolds(followed(steps, sender, events.take(k)))->0
}

/// Event `k` of what follows `steps` gets what the cells hold after those before.
pub open spec fn comes_about<V>(
    steps: Seq<Step<V>>,
    sender: bool,
    events: Seq<Event<V>>,
    k: int,
) -> bool {
    &&& gets(midway(steps, sender, events, k), events[k])
    &&& midway(steps, sender, events, k + 1) == puts(midway(steps, sender, events, k), events[k])
}

/// If what follows `steps` can happen, so can `steps`, and each event of what follows gets what the
/// cells hold after those before.
pub proof fn what_follows_comes_about<V>(steps: Seq<Step<V>>, sender: bool, events: Seq<Event<V>>)
    requires
        unfolds(followed(steps, sender, events)) is Some,
    ensures
        unfolds(steps) == Some(midway(steps, sender, events, 0)),
        unfolds(followed(steps, sender, events)) == Some(
            midway(steps, sender, events, events.len() as int),
        ),
        forall|k: int|
            0 <= k < events.len() ==> #[trigger] comes_about(steps, sender, events, k),
    decreases events.len(),
{
    let all = followed(steps, sender, events);
    assert(events.take(events.len() as int) =~= events);
    if events.len() == 0 {
        assert(all =~= steps);
    } else {
        let fewer = events.drop_last();
        assert(all.drop_last() =~= followed(steps, sender, fewer));
        what_follows_comes_about(steps, sender, fewer);
        assert(events.take(0) =~= fewer.take(0));
        assert forall|k: int| 0 <= k < events.len() implies #[trigger] comes_about(
            steps,
            sender,
            events,
            k,
        ) by {
            assert(events.take(k) =~= fewer.take(k));
            if k < fewer.len() {
                assert(events.take(k + 1) =~= fewer.take(k + 1));
                assert(comes_about(steps, sender, fewer, k));
            } else {
                assert(fewer.take(k) =~= fewer);
                assert(events.take(k + 1) =~= events);
            }
        }
    }
}

/// A load leaves the cells as they are.
pub proof fn loads_change_nothing<V>(mem: Memory<V>, event: Event<V>)
    requires
        is_load(event),
    ensures
        puts(mem, event) == mem,
{
}

/// Who accesses a flag, a switch or a counter gets what it holds, and nothing else; who only stores
/// gets nothing.
pub proof fn loads_get_what_is_there<V>(
    mem: Memory<V>,
    flag: Flag,
    switch: Switch,
    counter: Counter,
    up: bool,
    number: u32,
)
    ensures
        gets(mem, Event::ReadFlag { cell: flag, got: up }) <==> up == mem.flag(flag),
        gets(mem, Event::AcquireFlag { cell: flag, got: up }) <==> up == mem.flag(flag),
        gets(mem, Event::RaiseFlag { cell: flag }),
        gets(mem, Event::ReleaseFlag { cell: flag }),
        gets(mem, Event::ReadSwitch { cell: switch, got: up }) <==> up == mem.switch(switch),
        gets(mem, Event::AcquireSwitch { cell: switch, got: up }) <==> up == mem.switch(switch),
        gets(mem, Event::ReleaseSwitch { cell: switch, on: up }),
        gets(mem, Event::ReadCounter { cell: counter, got: number }) <==> number == mem.counter(
            counter,
        ),
        gets(mem, Event::AcquireCounter { cell: counter, got: number }) <==> number
            == mem.counter(counter),
        gets(mem, Event::ReleaseCounter { cell: counter, value: number }),
{
}

/// Who accesses a stamp, a word or a slot gets what it holds, and nothing else; who only stores
/// gets nothing. A replacement is done if and only if it finds what it expects.
pub proof fn swaps_get_what_is_there<V>(
    mem: Memory<V>,
    stamp: Stamp,
    bits: u8,
    old_bits: u8,
    word: Word,
    expect: u64,
    value: u64,
    acquire: bool,
    found: u64,
    done: bool,
    slot: Slot<V>,
    given: V,
    got: V,
)
    ensures
        gets(mem, Event::ReadStamp { cell: stamp, got: bits }) <==> bits == mem.stamp(stamp),
        gets(mem, Event::SwapStamp { cell: stamp, value: bits, got: old_bits }) <==> old_bits
            == mem.stamp(stamp),
        gets(mem, Event::MarkStamp { cell: stamp, bits }),
        gets(mem, Event::ReadWord { cell: word, got: found }) <==> found == mem.word(word),
        gets(mem, Event::AcquireWord { cell: word, got: found }) <==> found == mem.word(word),
        gets(mem, Event::ReleaseWord { cell: word, value }),
        gets(mem, Event::SwapWord { cell: word, value, got: found }) <==> found == mem.word(word),
        gets(mem, Event::ReplaceWord { cell: word, expect, value, acquire, got: found, done })
            <==> found == mem.word(word) && done == (found == expect),
        gets(mem, Event::ExchangeSlot { cell: slot, given, got }) <==> got == mem.slot(slot),
{
}

/// One more step comes about if it gets what its cell holds, and then the cells hold what it puts
/// there.
pub proof fn a_step_comes_about<V>(steps: Seq<Step<V>>, step: Step<V>)
    requires
        unfolds(steps) is Some,
    ensures
        unfolds(steps.push(step)) == (if gets(unfolds(steps)->0, step.event) {
            Some(puts(unfolds(steps)->0, step.event))
        } else {
            None
        }),
        part(steps.push(step), step.sender) == part(steps, step.sender).push(step.event),
        part(steps.push(step), !step.sender) == part(steps, !step.sender),
{
    assert(steps.push(step).drop_last() =~= steps);
}

/// A flag that was raised stays so, and nothing else raises it.
pub proof fn a_flag_stays_raised<V>(mem: Memory<V>, cell: Flag, event: Event<V>)
    ensures
        puts(mem, Event::RaiseFlag { cell }).flag(cell),
        puts(mem, Event::ReleaseFlag { cell }).flag(cell),
        mem.flag(cell) ==> puts(mem, event).flag(cell),
        !mem.flag(cell) && puts(mem, event).flag(cell) ==> match event {
            Event::RaiseFlag { cell: raised } => raised.id() == cell.id(),
            Event::ReleaseFlag { cell: raised } => raised.id() == cell.id(),
            _ => false,
        },
{
}

/// A switch holds what it was last set to.
pub proof fn a_switch_holds_what_it_was_given<V>(
    mem: Memory<V>,
    cell: Switch,
    on: bool,
    event: Event<V>,
)
    ensures
        puts(mem, Event::ReleaseSwitch { cell, on }).switch(cell) == on,
        !(event matches Event::ReleaseSwitch { cell: other, on: _ } && other.id() == cell.id())
            ==> puts(mem, event).switch(cell) == mem.switch(cell),
{
}

/// A counter holds what was released last, until something is released again.
pub proof fn a_counter_holds_what_it_was_given<V>(
    mem: Memory<V>,
    cell: Counter,
    value: u32,
    event: Event<V>,
)
    ensures
        puts(mem, Event::ReleaseCounter { cell, value }).counter(cell) == value,
        !(event matches Event::ReleaseCounter { cell: other, value: _ } && other.id() == cell.id())
            ==> puts(mem, event).counter(cell) == mem.counter(cell),
{
}

/// A stamp holds what it was last swapped for, with the bits that it was marked with since.
pub proof fn a_stamp_holds_what_it_was_given<V>(
    mem: Memory<V>,
    cell: Stamp,
    value: u8,
    got: u8,
    event: Event<V>,
)
    ensures
        puts(mem, Event::SwapStamp { cell, value, got }).stamp(cell) == value,
        puts(mem, Event::MarkStamp { cell, bits: value }).stamp(cell) == mem.stamp(cell) | value,
        puts(mem, event).stamp(cell) != mem.stamp(cell) ==> match event {
            Event::SwapStamp { cell: other, value: _, got: _ } => other.id() == cell.id(),
            Event::MarkStamp { cell: other, bits: _ } => other.id() == cell.id(),
            _ => false,
        },
{
}

/// A word holds what was last stored to it, by whatever means; a replacement that did not find what
/// it expected stores nothing.
pub proof fn a_word_holds_what_it_was_given<V>(
    mem: Memory<V>,
    cell: Word,
    expect: u64,
    value: u64,
    acquire: bool,
    got: u64,
    event: Event<V>,
)
    ensures
        puts(mem, Event::ReleaseWord { cell, value }).word(cell) == value,
        puts(mem, Event::SwapWord { cell, value, got }).word(cell) == value,
        puts(
            mem,
            Event::ReplaceWord { cell, expect, value, acquire, got, done: true },
        ).word(cell) == value,
        puts(mem, Event::ReplaceWord { cell, expect, value, acquire, got, done: false }) == mem,
        puts(mem, event).word(cell) != mem.word(cell) ==> match event {
            Event::ReleaseWord { cell: other, value: _ } => other.id() == cell.id(),
            Event::SwapWord { cell: other, value: _, got: _ } => other.id() == cell.id(),
            Event::ReplaceWord {
                cell: other,
                expect: _,
                value: _,
                acquire: _,
                got: _,
                done,
            } => other.id() == cell.id() && done,
            _ => false,
        },
{
}

/// A slot holds what was last given to it.
pub proof fn a_slot_holds_what_it_was_given<V>(
    mem: Memory<V>,
    cell: Slot<V>,
    given: V,
    got: V,
    event: Event<V>,
)
    ensures
        puts(mem, Event::ExchangeSlot { cell, given, got }).slot(cell) == given,
        !(event matches Event::ExchangeSlot { cell: other, given: _, got: _ } && other.id()
            == cell.id()) ==> puts(mem, event).slot(cell) == mem.slot(cell),
{
}

} // verus!
