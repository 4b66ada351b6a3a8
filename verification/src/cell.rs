//! The shared memory cells that the channels are built from.
//!
//! A value that travels through a channel rests in a [`Slot`]; the counters, stamps and flags that
//! decide who may touch which slot are the atomics of the standard library. Cells that the two
//! sides of a channel write are kept on cache lines of their own with [`CachePadded`].
//!
//! What a cell holds is up to both sides of a channel, so nothing is known of it in advance, except
//! what it held first. Each side keeps a [`Log`] instead, in which every access records the cell,
//! what was handed over and what came back. The atomics are kept in [`crate::vault`], which lets
//! nothing be done to them that is not recorded, and records that it was done; [`crate::memory`]
//! says what the cells hold after what the logs list.

use crate::vault::{Begins, Does, Log, Name, Niche, Pass, Region, Side, Tx, Vault};
use crossbeam_utils::atomic::AtomicCell;
use crossbeam_utils::CachePadded;
use std::sync::atomic::{AtomicBool, AtomicU32, AtomicU64, AtomicU8, Ordering};
use vstd::prelude::*;

verus! {

/// [`crossbeam_utils::CachePadded`]: a value alone on its cache line. Opaque to the proofs.
#[verifier::external_type_specification]
#[verifier::external_body]
#[verifier::reject_recursive_types(T)]
pub struct ExCachePadded<T>(CachePadded<T>);

/// [`crossbeam_utils::atomic::AtomicCell`]: a memory location that threads share. Opaque to the
/// proofs.
#[verifier::external_type_specification]
#[verifier::external_body]
#[verifier::reject_recursive_types(T)]
pub struct ExAtomicCell<T>(AtomicCell<T>);

/// [`CachePadded::new`] pads a value. Nothing is claimed of the padded value, which is opaque.
pub assume_specification<T>[ CachePadded::<T>::new ](t: T) -> CachePadded<T>;

/// [`AtomicCell::new`] makes a cell that holds `val`. Nothing is claimed of it: what it holds
/// changes under shared references.
pub assume_specification<T>[ AtomicCell::<T>::new ](val: T) -> AtomicCell<T>;

/// Dereferences a [`CachePadded`], which hands out a reference to the value inside. Both types are
/// opaque to the proofs, so nothing is claimed of the reference.
#[verifier::external_body]
pub(crate) fn unpad<T>(cell: &CachePadded<T>) -> &T {
    cell
}

/// Puts `val` into the cell and returns what was there, through [`AtomicCell::swap`], which does
/// not unwind: it moves both values and drops neither. What was there is up to both sides of a
/// channel: nothing is claimed of it.
#[verifier::external_body]
pub(crate) fn replace_content<V>(cell: &CachePadded<AtomicCell<V>>, val: V) -> V
    opens_invariants none
    no_unwind
{
    cell.swap(val)
}

/// Stores `true` through [`AtomicBool::store`], which does not take a load's ordering. It does not
/// unwind. What other threads see of the flag, and when, is left unsaid.
#[verifier::external_body]
pub(crate) fn store_true(flag: &AtomicBool, order: Ordering)
    requires
        order is Relaxed || order is Release,
    opens_invariants none
    no_unwind
{
    flag.store(true, order);
}

/// Sets `bits` with `Relaxed` ordering through [`AtomicU8::fetch_or`]. It does not unwind. What
/// other threads see of the stamp, and when, is left unsaid. It is for the one bit that says that
/// the sender is gone.
#[verifier::external_body]
pub(crate) fn set_bits(stamp: &CachePadded<AtomicU8>, bits: u8)
    requires
        bits == 8,
    opens_invariants none
    no_unwind
{
    stamp.fetch_or(bits, Ordering::Relaxed);
}

/// Moves the first `mid` items behind the others, through [`slice::rotate_left`], which keeps the
/// order of both parts. It does not unwind, since `mid` is not beyond the end.
#[verifier::external_body]
pub(crate) fn rotate<V>(items: &mut Vec<V>, mid: usize)
    requires
        mid <= old(items).len(),
    ensures
        final(items)@ == old(items)@.skip(mid as int) + old(items)@.take(mid as int),
    opens_invariants none
    no_unwind
{
    items.rotate_left(mid);
}

/// What was done to a cell, and what came back.
#[allow(inconsistent_fields)]
#[verifier::reject_recursive_types(V)]
pub enum Event<V> {
    /// A flag was read with `Relaxed` ordering.
    ReadFlag { cell: Flag, got: bool },
    /// A flag was read with `Acquire` ordering.
    AcquireFlag { cell: Flag, got: bool },
    /// A flag was raised with `Relaxed` ordering.
    RaiseFlag { cell: Flag },
    /// A flag was raised with `Release` ordering.
    ReleaseFlag { cell: Flag },
    /// A switch was read with `Relaxed` ordering.
    ReadSwitch { cell: Switch, got: bool },
    /// A switch was read with `Acquire` ordering.
    AcquireSwitch { cell: Switch, got: bool },
    /// A switch was set with `Release` ordering.
    ReleaseSwitch { cell: Switch, on: bool },
    /// A counter was read with `Relaxed` ordering.
    ReadCounter { cell: Counter, got: u32 },
    /// A counter was read with `Acquire` ordering.
    AcquireCounter { cell: Counter, got: u32 },
    /// A counter was set with `Release` ordering.
    ReleaseCounter { cell: Counter, value: u32 },
    /// A stamp was read with `Relaxed` ordering.
    ReadStamp { cell: Stamp, got: u8 },
    /// A stamp was swapped with `AcqRel` ordering.
    SwapStamp { cell: Stamp, value: u8, got: u8 },
    /// Bits of a stamp were set with `Relaxed` ordering.
    MarkStamp { cell: Stamp, bits: u8 },
    /// A word was read with `Relaxed` ordering.
    ReadWord { cell: Word, got: u64 },
    /// A word was read with `Acquire` ordering.
    AcquireWord { cell: Word, got: u64 },
    /// A word was set with `Release` ordering.
    ReleaseWord { cell: Word, value: u64 },
    /// A word was swapped with `AcqRel` ordering.
    SwapWord { cell: Word, value: u64, got: u64 },
    /// A word was to be replaced, if it is `expect`, with `Release` ordering, or `AcqRel` ordering
    /// if `acquire` says so. `done` says whether it was.
    ReplaceWord { cell: Word, expect: u64, value: u64, acquire: bool, got: u64, done: bool },
    /// A slot's value was exchanged.
    ExchangeSlot { cell: Slot<V>, given: V, got: V },
}

/// The event is a load.
pub open spec fn is_load<V>(event: Event<V>) -> bool {
    match event {
        Event::ReadFlag { cell, got } => true,
        Event::AcquireFlag { cell, got } => true,
        Event::ReadSwitch { cell, got } => true,
        Event::AcquireSwitch { cell, got } => true,
        Event::ReadCounter { cell, got } => true,
        Event::AcquireCounter { cell, got } => true,
        Event::ReadStamp { cell, got } => true,
        Event::ReadWord { cell, got } => true,
        Event::AcquireWord { cell, got } => true,
        _ => false,
    }
}

/// What was stored before what the event gets was stored is visible after it.
pub open spec fn is_acquire<V>(event: Event<V>) -> bool {
    match event {
        Event::AcquireFlag { cell, got } => true,
        Event::AcquireSwitch { cell, got } => true,
        Event::AcquireCounter { cell, got } => true,
        Event::SwapStamp { cell, value, got } => true,
        Event::AcquireWord { cell, got } => true,
        Event::SwapWord { cell, value, got } => true,
        Event::ReplaceWord { cell, expect, value, acquire, got, done } => acquire,
        _ => false,
    }
}

/// What was stored before the event is visible to who acquires what it stores.
pub open spec fn is_release<V>(event: Event<V>) -> bool {
    match event {
        Event::ReleaseFlag { cell } => true,
        Event::ReleaseSwitch { cell, on } => true,
        Event::ReleaseCounter { cell, value } => true,
        Event::SwapStamp { cell, value, got } => true,
        Event::ReleaseWord { cell, value } => true,
        Event::SwapWord { cell, value, got } => true,
        Event::ReplaceWord { cell, expect, value, acquire, got, done } => true,
        _ => false,
    }
}

/// The call that the event speaks of may give what the event says came back. Nothing is known of
/// what such a call may give until it is made.
pub closed spec fn happened<V>(event: Event<V>) -> bool {
    match event {
        Event::ReadFlag { cell, got } => cell.cell.does(event),
        Event::AcquireFlag { cell, got } => cell.cell.does(event),
        Event::RaiseFlag { cell } => cell.cell.raises(Ordering::Relaxed),
        Event::ReleaseFlag { cell } => cell.cell.raises(Ordering::Release),
        Event::ReadSwitch { cell, got } => cell.cell.does(event),
        Event::AcquireSwitch { cell, got } => cell.cell.does(event),
        Event::ReleaseSwitch { cell, on } => cell.cell.does(event),
        Event::ReadCounter { cell, got } => cell.cell.does(event),
        Event::AcquireCounter { cell, got } => cell.cell.does(event),
        Event::ReleaseCounter { cell, value } => cell.cell.does(event),
        Event::ReadStamp { cell, got } => cell.cell.does(event),
        Event::SwapStamp { cell, value, got } => cell.cell.does(event),
        Event::MarkStamp { cell, bits } => cell.cell.marks(bits),
        Event::ReadWord { cell, got } => cell.cell.does(event),
        Event::AcquireWord { cell, got } => cell.cell.does(event),
        Event::ReleaseWord { cell, value } => cell.cell.does(event),
        Event::SwapWord { cell, value, got } => cell.cell.does(event),
        Event::ReplaceWord { cell, expect, value, acquire, got, done } => cell.cell.does(event),
        Event::ExchangeSlot { cell, given, got } => cell.cell.swaps(given, got),
    }
}

impl Begins<bool> for AtomicBool {
    open spec fn begins(&self, first: bool) -> bool {
        call_ensures(AtomicBool::new, (first,), *self)
    }
}

impl Begins<u32> for AtomicU32 {
    open spec fn begins(&self, first: u32) -> bool {
        call_ensures(AtomicU32::new, (first,), *self)
    }
}

impl Begins<u8> for AtomicU8 {
    open spec fn begins(&self, first: u8) -> bool {
        call_ensures(AtomicU8::new, (first,), *self)
    }
}

impl Begins<u64> for AtomicU64 {
    open spec fn begins(&self, first: u64) -> bool {
        call_ensures(AtomicU64::new, (first,), *self)
    }
}

impl<V> Begins<V> for AtomicCell<V> {
    open spec fn begins(&self, first: V) -> bool {
        call_ensures(AtomicCell::<V>::new, (first,), *self)
    }
}

impl<V> Does<Event<V>> for AtomicBool {
    open spec fn does(&self, event: Event<V>) -> bool {
        match event {
            Event::ReadFlag { cell, got } => call_ensures(
                AtomicBool::load,
                (self, Ordering::Relaxed),
                got,
            ),
            Event::AcquireFlag { cell, got } => call_ensures(
                AtomicBool::load,
                (self, Ordering::Acquire),
                got,
            ),
            Event::ReadSwitch { cell, got } => call_ensures(
                AtomicBool::load,
                (self, Ordering::Relaxed),
                got,
            ),
            Event::AcquireSwitch { cell, got } => call_ensures(
                AtomicBool::load,
                (self, Ordering::Acquire),
                got,
            ),
            Event::ReleaseSwitch { cell, on } => call_ensures(
                AtomicBool::store,
                (self, on, Ordering::Release),
                (),
            ),
            _ => false,
        }
    }
}

impl<V> Does<Event<V>> for AtomicU32 {
    open spec fn does(&self, event: Event<V>) -> bool {
        match event {
            Event::ReadCounter { cell, got } => call_ensures(
                AtomicU32::load,
                (self, Ordering::Relaxed),
                got,
            ),
            Event::AcquireCounter { cell, got } => call_ensures(
                AtomicU32::load,
                (self, Ordering::Acquire),
                got,
            ),
            Event::ReleaseCounter { cell, value } => call_ensures(
                AtomicU32::store,
                (self, value, Ordering::Release),
                (),
            ),
            _ => false,
        }
    }
}

impl<V> Does<Event<V>> for AtomicU8 {
    open spec fn does(&self, event: Event<V>) -> bool {
        match event {
            Event::ReadStamp { cell, got } => call_ensures(
                AtomicU8::load,
                (self, Ordering::Relaxed),
                got,
            ),
            Event::SwapStamp { cell, value, got } => call_ensures(
                AtomicU8::swap,
                (self, value, Ordering::AcqRel),
                got,
            ),
            _ => false,
        }
    }
}

impl<V> Does<Event<V>> for AtomicU64 {
    open spec fn does(&self, event: Event<V>) -> bool {
        match event {
            Event::ReadWord { cell, got } => call_ensures(
                AtomicU64::load,
                (self, Ordering::Relaxed),
                got,
            ),
            Event::AcquireWord { cell, got } => call_ensures(
                AtomicU64::load,
                (self, Ordering::Acquire),
                got,
            ),
            Event::ReleaseWord { cell, value } => call_ensures(
                AtomicU64::store,
                (self, value, Ordering::Release),
                (),
            ),
            Event::SwapWord { cell, value, got } => call_ensures(
                AtomicU64::swap,
                (self, value, Ordering::AcqRel),
                got,
            ),
            Event::ReplaceWord { cell, expect, value, acquire, got, done } => call_ensures(
                AtomicU64::compare_exchange,
                (
                    self,
                    expect,
                    value,
                    if acquire {
                        Ordering::AcqRel
                    } else {
                        Ordering::Release
                    },
                    Ordering::Relaxed,
                ),
                if done {
                    Ok(got)
                } else {
                    Err(got)
                },
            ),
            _ => false,
        }
    }
}

/// An atomic begins as what its own constructor makes.
pub proof fn atomics_begin_as_they_are_made<V>(
    flag: AtomicBool,
    counter: AtomicU32,
    stamp: AtomicU8,
    word: AtomicU64,
    slot: AtomicCell<V>,
)
    ensures
        forall|first: bool| #[trigger]
            flag.begins(first) <==> call_ensures(AtomicBool::new, (first,), flag),
        forall|first: u32| #[trigger]
            counter.begins(first) <==> call_ensures(AtomicU32::new, (first,), counter),
        forall|first: u8| #[trigger]
            stamp.begins(first) <==> call_ensures(AtomicU8::new, (first,), stamp),
        forall|first: u64| #[trigger]
            word.begins(first) <==> call_ensures(AtomicU64::new, (first,), word),
        forall|first: V| #[trigger]
            slot.begins(first) <==> call_ensures(AtomicCell::<V>::new, (first,), slot),
{
}

/// To read or to acquire a flag or a switch is to load it, to release a switch is to store, and
/// nothing else is recorded of their atomic: what is recorded changes no flag.
pub proof fn a_bool_is_loaded_and_stored<V>(
    c: &AtomicBool,
    flag: Flag,
    switch: Switch,
    value: bool,
    event: Event<V>,
)
    ensures
        c.does(Event::<V>::ReadFlag { cell: flag, got: value }) <==> call_ensures(
            AtomicBool::load,
            (c, Ordering::Relaxed),
            value,
        ),
        c.does(Event::<V>::AcquireFlag { cell: flag, got: value }) <==> call_ensures(
            AtomicBool::load,
            (c, Ordering::Acquire),
            value,
        ),
        c.does(Event::<V>::ReadSwitch { cell: switch, got: value }) <==> call_ensures(
            AtomicBool::load,
            (c, Ordering::Relaxed),
            value,
        ),
        c.does(Event::<V>::AcquireSwitch { cell: switch, got: value }) <==> call_ensures(
            AtomicBool::load,
            (c, Ordering::Acquire),
            value,
        ),
        c.does(Event::<V>::ReleaseSwitch { cell: switch, on: value }) <==> call_ensures(
            AtomicBool::store,
            (c, value, Ordering::Release),
            (),
        ),
        c.does(event) ==> is_load(event) || event is ReleaseSwitch,
{
}

/// To read or to acquire a counter is to load it, to release it is to store, and nothing else is
/// recorded of its atomic.
pub proof fn a_counter_is_loaded_and_stored<V>(
    c: &AtomicU32,
    cell: Counter,
    value: u32,
    event: Event<V>,
)
    ensures
        c.does(Event::<V>::ReadCounter { cell, got: value }) <==> call_ensures(
            AtomicU32::load,
            (c, Ordering::Relaxed),
            value,
        ),
        c.does(Event::<V>::AcquireCounter { cell, got: value }) <==> call_ensures(
            AtomicU32::load,
            (c, Ordering::Acquire),
            value,
        ),
        c.does(Event::<V>::ReleaseCounter { cell, value }) <==> call_ensures(
            AtomicU32::store,
            (c, value, Ordering::Release),
            (),
        ),
        c.does(event) ==> is_load(event) || event is ReleaseCounter,
{
}

/// To read a stamp is to load it, to swap it is to swap, and nothing else is recorded of its atomic
/// but that the sender marks it when it leaves.
pub proof fn a_stamp_is_loaded_and_swapped<V>(
    c: &AtomicU8,
    cell: Stamp,
    value: u8,
    got: u8,
    event: Event<V>,
)
    ensures
        c.does(Event::<V>::ReadStamp { cell, got }) <==> call_ensures(
            AtomicU8::load,
            (c, Ordering::Relaxed),
            got,
        ),
        c.does(Event::<V>::SwapStamp { cell, value, got }) <==> call_ensures(
            AtomicU8::swap,
            (c, value, Ordering::AcqRel),
            got,
        ),
        c.does(event) ==> is_load(event) || event is SwapStamp,
{
}

/// To read or to acquire a word is to load it, to release it is to store, to swap it is to swap, to
/// replace it is to compare and exchange, and nothing else is recorded of its atomic.
pub proof fn a_word_is_loaded_stored_and_exchanged<V>(
    c: &AtomicU64,
    cell: Word,
    expect: u64,
    value: u64,
    got: u64,
    event: Event<V>,
)
    ensures
        c.does(Event::<V>::ReadWord { cell, got }) <==> call_ensures(
            AtomicU64::load,
            (c, Ordering::Relaxed),
            got,
        ),
        c.does(Event::<V>::AcquireWord { cell, got }) <==> call_ensures(
            AtomicU64::load,
            (c, Ordering::Acquire),
            got,
        ),
        c.does(Event::<V>::ReleaseWord { cell, value }) <==> call_ensures(
            AtomicU64::store,
            (c, value, Ordering::Release),
            (),
        ),
        c.does(Event::<V>::SwapWord { cell, value, got }) <==> call_ensures(
            AtomicU64::swap,
            (c, value, Ordering::AcqRel),
            got,
        ),
        c.does(
            Event::<V>::ReplaceWord { cell, expect, value, acquire: true, got, done: true },
        ) <==> call_ensures(
            AtomicU64::compare_exchange,
            (c, expect, value, Ordering::AcqRel, Ordering::Relaxed),
            Ok(got),
        ),
        c.does(
            Event::<V>::ReplaceWord { cell, expect, value, acquire: true, got, done: false },
        ) <==> call_ensures(
            AtomicU64::compare_exchange,
            (c, expect, value, Ordering::AcqRel, Ordering::Relaxed),
            Err(got),
        ),
        c.does(
            Event::<V>::ReplaceWord { cell, expect, value, acquire: false, got, done: true },
        ) <==> call_ensures(
            AtomicU64::compare_exchange,
            (c, expect, value, Ordering::Release, Ordering::Relaxed),
            Ok(got),
        ),
        c.does(
            Event::<V>::ReplaceWord { cell, expect, value, acquire: false, got, done: false },
        ) <==> call_ensures(
            AtomicU64::compare_exchange,
            (c, expect, value, Ordering::Release, Ordering::Relaxed),
            Err(got),
        ),
        c.does(event) ==> is_load(event) || event is ReleaseWord || event is SwapWord
            || event is ReplaceWord,
{
}

/// What happened to a cell is what was called on the atomic in it: a flag is raised, a stamp is
/// marked, what is in a slot is swapped, and everything else is a load, a store, a swap or a
/// replacement, as the event says.
proof fn what_happened_is_in_the_cell<V>(
    flag: Flag,
    switch: Switch,
    on: bool,
    counter: Counter,
    number: u32,
    stamp: Stamp,
    bits: u8,
    old_bits: u8,
    slot: Slot<V>,
    given: V,
    got: V,
)
    ensures
        happened(Event::<V>::RaiseFlag { cell: flag }) <==> flag.cell.raises(Ordering::Relaxed),
        happened(Event::<V>::ReleaseFlag { cell: flag }) <==> flag.cell.raises(Ordering::Release),
        happened(Event::<V>::ReadSwitch { cell: switch, got: on }) <==> switch.load_gives(
            Ordering::Relaxed,
            on,
        ),
        happened(Event::<V>::AcquireSwitch { cell: switch, got: on }) <==> switch.load_gives(
            Ordering::Acquire,
            on,
        ),
        happened(Event::<V>::ReleaseSwitch { cell: switch, on }) <==> switch.store_returns(
            on,
            Ordering::Release,
        ),
        happened(Event::<V>::ReadCounter { cell: counter, got: number }) <==> counter.load_gives(
            Ordering::Relaxed,
            number,
        ),
        happened(Event::<V>::AcquireCounter { cell: counter, got: number })
            <==> counter.load_gives(Ordering::Acquire, number),
        happened(Event::<V>::ReleaseCounter { cell: counter, value: number })
            <==> counter.store_returns(number, Ordering::Release),
        happened(Event::<V>::ReadStamp { cell: stamp, got: bits }) <==> stamp.load_gives(
            Ordering::Relaxed,
            bits,
        ),
        happened(Event::<V>::SwapStamp { cell: stamp, value: bits, got: old_bits })
            <==> stamp.swap_gives(bits, Ordering::AcqRel, old_bits),
        happened(Event::<V>::MarkStamp { cell: stamp, bits }) <==> stamp.cell.marks(bits),
        happened(Event::<V>::ExchangeSlot { cell: slot, given, got }) <==> slot.cell.swaps(
            given,
            got,
        ),
{
    switch.cell.does_to_what_it_keeps(Event::<V>::ReadSwitch { cell: switch, got: on });
    switch.cell.does_to_what_it_keeps(Event::<V>::AcquireSwitch { cell: switch, got: on });
    switch.cell.does_to_what_it_keeps(Event::<V>::ReleaseSwitch { cell: switch, on });
    counter.cell.does_to_what_it_keeps(Event::<V>::ReadCounter { cell: counter, got: number });
    counter.cell.does_to_what_it_keeps(Event::<V>::AcquireCounter { cell: counter, got: number });
    counter.cell.does_to_what_it_keeps(
        Event::<V>::ReleaseCounter { cell: counter, value: number },
    );
    stamp.cell.does_to_what_it_keeps(Event::<V>::ReadStamp { cell: stamp, got: bits });
    stamp.cell.does_to_what_it_keeps(
        Event::<V>::SwapStamp { cell: stamp, value: bits, got: old_bits },
    );
}

/// What happened to a word is what was called on the atomic in it, as the event says.
proof fn what_happened_is_in_the_word<V>(
    word: Word,
    expect: u64,
    value: u64,
    acquire: bool,
    got: u64,
    done: bool,
)
    ensures
        happened(Event::<V>::ReadWord { cell: word, got }) <==> word.load_gives(
            Ordering::Relaxed,
            got,
        ),
        happened(Event::<V>::AcquireWord { cell: word, got }) <==> word.load_gives(
            Ordering::Acquire,
            got,
        ),
        happened(Event::<V>::ReleaseWord { cell: word, value }) <==> word.store_returns(
            value,
            Ordering::Release,
        ),
        happened(Event::<V>::SwapWord { cell: word, value, got }) <==> word.swap_gives(
            value,
            Ordering::AcqRel,
            got,
        ),
        happened(Event::<V>::ReplaceWord { cell: word, expect, value, acquire, got, done })
            <==> word.replacement_gives(
            expect,
            value,
            if acquire {
                Ordering::AcqRel
            } else {
                Ordering::Release
            },
            if done {
                Ok(got)
            } else {
                Err(got)
            },
        ),
{
    word.cell.does_to_what_it_keeps(Event::<V>::ReadWord { cell: word, got });
    word.cell.does_to_what_it_keeps(Event::<V>::AcquireWord { cell: word, got });
    word.cell.does_to_what_it_keeps(Event::<V>::ReleaseWord { cell: word, value });
    word.cell.does_to_what_it_keeps(Event::<V>::SwapWord { cell: word, value, got });
    word.cell.does_to_what_it_keeps(
        Event::<V>::ReplaceWord { cell: word, expect, value, acquire, got, done },
    );
}

/// A cell lies where its atomic lies, under the same number, and held first what its atomic was
/// made out of.
proof fn a_cell_is_its_atomic<V>(
    flag: Flag,
    switch: Switch,
    counter: Counter,
    stamp: Stamp,
    word: Word,
    slot: Slot<V>,
)
    ensures
        flag.region() == flag.cell.region() && flag.id() == flag.cell.id(),
        flag.first() == flag.first@,
        flag.starts_so() <==> flag.cell.began(flag.first@),
        switch.region() == switch.cell.region() && switch.id() == switch.cell.id(),
        switch.first() == switch.first@,
        switch.starts_so() <==> exists|inner: AtomicBool| #[trigger]
            switch.cell.came_of(inner) && call_ensures(AtomicBool::new, (switch.first@,), inner),
        counter.region() == counter.cell.region() && counter.id() == counter.cell.id(),
        counter.first() == counter.first@,
        counter.starts_so() <==> exists|inner: AtomicU32| #[trigger]
            counter.cell.came_of(inner) && call_ensures(AtomicU32::new, (counter.first@,), inner),
        stamp.region() == stamp.cell.region() && stamp.id() == stamp.cell.id(),
        stamp.first() == stamp.first@,
        stamp.starts_so() <==> exists|inner: AtomicU8| #[trigger]
            stamp.cell.came_of(inner) && call_ensures(AtomicU8::new, (stamp.first@,), inner),
        word.region() == word.cell.region() && word.id() == word.cell.id(),
        word.first() == word.first@,
        word.starts_so() <==> exists|inner: AtomicU64| #[trigger]
            word.cell.came_of(inner) && call_ensures(AtomicU64::new, (word.first@,), inner),
        slot.region() == slot.cell.region() && slot.id() == slot.cell.id(),
        slot.first() == slot.first@,
        slot.starts_so() <==> exists|inner: AtomicCell<V>| #[trigger]
            slot.cell.came_of(inner) && call_ensures(AtomicCell::<V>::new, (slot.first@,), inner),
        flag.is_senders() == flag.cell.is_senders(),
        forall|got: bool| #[trigger]
            flag.may_read(got) <==> flag.cell.does(Event::<()>::ReadFlag { cell: flag, got }),
        forall|got: bool| #[trigger]
            switch.may_read(got) <==> switch.cell.does(
                Event::<()>::ReadSwitch { cell: switch, got },
            ),
{
}

/// A value that may be absent, as a slot holds it.
pub open spec fn boxed<T>(val: Option<T>) -> Option<Box<T>> {
    match val {
        Some(v) => Some(Box::new(v)),
        None => None,
    }
}

/// What a slot holds, as a value that may be absent.
pub open spec fn unboxed<T>(val: Option<Box<T>>) -> Option<T> {
    match val {
        Some(v) => Some(*v),
        None => None,
    }
}

/// A flag that one side raises for good, when it leaves.
pub struct Flag {
    cell: Niche<AtomicBool>,
    first: Ghost<bool>,
}

impl Flag {
    /// The region that this is in.
    pub closed spec fn region(&self) -> Name {
        self.cell.region()
    }

    /// The number of the cell within its region.
    pub closed spec fn id(&self) -> int {
        self.cell.id()
    }

    /// The cell was made with what it held first.
    #[verifier::type_invariant]
    spec fn starts_so(self) -> bool {
        self.cell.began(self.first@)
    }

    /// Whether the flag was raised at first.
    pub closed spec fn first(&self) -> bool {
        self.first@
    }

    /// Whether the sender raises the flag.
    pub closed spec fn is_senders(&self) -> bool {
        self.cell.is_senders()
    }

    /// Who reads the flag may see `got`. Only reading it tells.
    pub closed spec fn may_read(&self, got: bool) -> bool {
        self.cell.does(Event::<()>::ReadFlag { cell: *self, got })
    }

    /// What may be read of the flag is what an event may say was read.
    pub proof fn reading_tells<V>(&self, got: bool)
        ensures
            self.may_read(got) <==> happened(Event::<V>::ReadFlag { cell: *self, got }),
    {
        self.cell.alike(
            Event::<()>::ReadFlag { cell: *self, got },
            Event::<V>::ReadFlag { cell: *self, got },
        );
    }

    /// A flag of side `W` that is not raised.
    pub(crate) fn new<W: Side>(region: &mut Region) -> (r: Self)
        ensures
            r.region() == old(region).name(),
            r.id() == old(region).next(),
            r.is_senders() == W::is_sender(),
            !r.first(),
            final(region).name() == old(region).name(),
            final(region).next() == old(region).next() + 1,
    {
        let cell = Niche::make::<W, bool, _>(false, AtomicBool::new, region);
        Flag { cell, first: Ghost(false) }
    }

    /// Raises the flag.
    pub(crate) fn raise<V, W: Side>(&self, pass: Pass<W>, log: &mut Log<V>)
        requires
            pass.region() == self.region(),
            W::is_sender() == self.is_senders(),
        ensures
            final(log).region() == old(log).region(),
            final(log)@ == old(log)@.push(Event::RaiseFlag { cell: *self }),
        opens_invariants none
        no_unwind
    {
        self.cell.raise(Ordering::Relaxed, pass, Ghost(Event::RaiseFlag { cell: *self }), log);
    }

    /// Raises the flag. What was stored before is visible to who then acquires it.
    pub(crate) fn release<V, W: Side>(&self, pass: Pass<W>, log: &mut Log<V>)
        requires
            pass.region() == self.region(),
            W::is_sender() == self.is_senders(),
        ensures
            final(log).region() == old(log).region(),
            final(log)@ == old(log)@.push(Event::ReleaseFlag { cell: *self }),
        opens_invariants none
        no_unwind
    {
        self.cell.raise(Ordering::Release, pass, Ghost(Event::ReleaseFlag { cell: *self }), log);
    }

    /// Whether the flag is raised, as far as this thread sees. This is not recorded.
    pub(crate) fn peek(&self) -> (got: bool)
        ensures
            self.may_read(got),
    {
        self.cell.look(
            Ordering::Relaxed,
            AtomicBool::load,
            Ghost(|got: bool| Event::<()>::ReadFlag { cell: *self, got }),
        )
    }

    /// Whether the flag is raised, as far as this thread sees.
    pub(crate) fn read<V>(&self, log: &mut Log<V>) -> (got: bool)
        requires
            self.region() == old(log).region(),
        ensures
            final(log).region() == old(log).region(),
            final(log)@ == old(log)@.push(Event::ReadFlag { cell: *self, got }),
    {
        self.cell.act1(
            Ordering::Relaxed,
            AtomicBool::load,
            Ghost(|got: bool| Event::ReadFlag { cell: *self, got }),
            log,
        )
    }

    /// Whether the flag is raised. If it is, what was stored before it was raised is visible.
    pub(crate) fn acquire<V>(&self, log: &mut Log<V>) -> (got: bool)
        requires
            self.region() == old(log).region(),
        ensures
            final(log).region() == old(log).region(),
            final(log)@ == old(log)@.push(Event::AcquireFlag { cell: *self, got }),
    {
        self.cell.act1(
            Ordering::Acquire,
            AtomicBool::load,
            Ghost(|got: bool| Event::AcquireFlag { cell: *self, got }),
            log,
        )
    }
}

/// A switch that both sides flip.
pub struct Switch {
    cell: Vault<AtomicBool>,
    first: Ghost<bool>,
}

impl Switch {
    /// The region that this is in.
    pub closed spec fn region(&self) -> Name {
        self.cell.region()
    }

    /// The number of the cell within its region.
    pub closed spec fn id(&self) -> int {
        self.cell.id()
    }

    /// An atomic that holds `value` may be kept in `cell`.
    spec fn may_become(value: bool, cell: Vault<AtomicBool>) -> bool {
        exists|inner: AtomicBool|
            {
                &&& #[trigger] cell.came_of(inner)
                &&& call_ensures(AtomicBool::new, (value,), inner)
            }
    }

    /// The switch was made with what it held first.
    #[verifier::type_invariant]
    spec fn starts_so(self) -> bool {
        Self::may_become(self.first@, self.cell)
    }

    /// A load of the switch may give `got`.
    spec fn load_gives(&self, order: Ordering, got: bool) -> bool {
        exists|inner: &AtomicBool|
            {
                &&& #[trigger] self.cell.keeps(inner)
                &&& call_ensures(AtomicBool::load, (inner, order), got)
            }
    }

    /// A store of `value` to the switch may return.
    spec fn store_returns(&self, value: bool, order: Ordering) -> bool {
        exists|inner: &AtomicBool|
            {
                &&& #[trigger] self.cell.keeps(inner)
                &&& call_ensures(AtomicBool::store, (inner, value, order), ())
            }
    }

    /// Whether the switch was on at first.
    pub closed spec fn first(&self) -> bool {
        self.first@
    }

    /// Who reads the switch may see `got`. Only reading it tells.
    pub closed spec fn may_read(&self, got: bool) -> bool {
        self.cell.does(Event::<()>::ReadSwitch { cell: *self, got })
    }

    /// What may be read of the switch is what an event may say was read.
    pub proof fn reading_tells<V>(&self, got: bool)
        ensures
            self.may_read(got) <==> happened(Event::<V>::ReadSwitch { cell: *self, got }),
    {
        self.cell.alike(
            Event::<()>::ReadSwitch { cell: *self, got },
            Event::<V>::ReadSwitch { cell: *self, got },
        );
    }

    /// A switch that is off.
    pub(crate) fn new(region: &mut Region) -> (r: Self)
        ensures
            r.region() == old(region).name(),
            r.id() == old(region).next(),
            !r.first(),
            final(region).name() == old(region).name(),
            final(region).next() == old(region).next() + 1,
    {
        let cell = Vault::make(false, AtomicBool::new, region);
        proof {
            cell.began_as_what_it_came_of(false);
        }
        Switch { cell, first: Ghost(false) }
    }

    /// Whether the switch is on, as far as this thread sees. This is not recorded.
    pub(crate) fn peek(&self) -> (got: bool)
        ensures
            self.may_read(got),
    {
        self.cell.look(
            Ordering::Relaxed,
            AtomicBool::load,
            Ghost(|got: bool| Event::<()>::ReadSwitch { cell: *self, got }),
        )
    }

    /// Whether the switch is on, as far as this thread sees.
    pub(crate) fn read<V>(&self, log: &mut Log<V>) -> (got: bool)
        requires
            self.region() == old(log).region(),
        ensures
            final(log).region() == old(log).region(),
            final(log)@ == old(log)@.push(Event::ReadSwitch { cell: *self, got }),
    {
        self.cell.act1(
            Ordering::Relaxed,
            AtomicBool::load,
            Ghost(|got: bool| Event::ReadSwitch { cell: *self, got }),
            log,
        )
    }

    /// Whether the switch is on. What was stored before it was set so is visible.
    pub(crate) fn acquire<V>(&self, log: &mut Log<V>) -> (got: bool)
        requires
            self.region() == old(log).region(),
        ensures
            final(log).region() == old(log).region(),
            final(log)@ == old(log)@.push(Event::AcquireSwitch { cell: *self, got }),
    {
        self.cell.act1(
            Ordering::Acquire,
            AtomicBool::load,
            Ghost(|got: bool| Event::AcquireSwitch { cell: *self, got }),
            log,
        )
    }

    /// Sets the switch. What was stored before is visible to who then acquires it.
    pub(crate) fn release<V>(&self, on: bool, log: &mut Log<V>)
        requires
            self.region() == old(log).region(),
        ensures
            final(log).region() == old(log).region(),
            final(log)@ == old(log)@.push(Event::ReleaseSwitch { cell: *self, on }),
    {
        self.cell.act2(
            on,
            Ordering::Release,
            AtomicBool::store,
            Ghost(|done: ()| Event::ReleaseSwitch { cell: *self, on }),
            log,
        )
    }
}

/// A sequence counter that one side advances.
pub struct Counter {
    cell: Vault<AtomicU32>,
    first: Ghost<u32>,
}

impl Counter {
    /// The region that this is in.
    pub closed spec fn region(&self) -> Name {
        self.cell.region()
    }

    /// The number of the cell within its region.
    pub closed spec fn id(&self) -> int {
        self.cell.id()
    }

    /// An atomic that holds `value` may be kept in `cell`.
    spec fn may_become(value: u32, cell: Vault<AtomicU32>) -> bool {
        exists|inner: AtomicU32|
            {
                &&& #[trigger] cell.came_of(inner)
                &&& call_ensures(AtomicU32::new, (value,), inner)
            }
    }

    /// The counter was made with what it held first.
    #[verifier::type_invariant]
    spec fn starts_so(self) -> bool {
        Self::may_become(self.first@, self.cell)
    }

    /// A load of the counter may give `got`.
    spec fn load_gives(&self, order: Ordering, got: u32) -> bool {
        exists|inner: &AtomicU32|
            {
                &&& #[trigger] self.cell.keeps(inner)
                &&& call_ensures(AtomicU32::load, (inner, order), got)
            }
    }

    /// A store of `value` to the counter may return.
    spec fn store_returns(&self, value: u32, order: Ordering) -> bool {
        exists|inner: &AtomicU32|
            {
                &&& #[trigger] self.cell.keeps(inner)
                &&& call_ensures(AtomicU32::store, (inner, value, order), ())
            }
    }

    /// What the counter held first.
    pub closed spec fn first(&self) -> u32 {
        self.first@
    }

    /// A counter at `value`.
    pub(crate) fn new(value: u32, region: &mut Region) -> (r: Self)
        ensures
            r.region() == old(region).name(),
            r.id() == old(region).next(),
            r.first() == value,
            final(region).name() == old(region).name(),
            final(region).next() == old(region).next() + 1,
    {
        let cell = Vault::make(value, AtomicU32::new, region);
        proof {
            cell.began_as_what_it_came_of(value);
        }
        Counter { cell, first: Ghost(value) }
    }

    /// The counter, as far as this thread sees.
    pub(crate) fn read<V>(&self, log: &mut Log<V>) -> (got: u32)
        requires
            self.region() == old(log).region(),
        ensures
            final(log).region() == old(log).region(),
            final(log)@ == old(log)@.push(Event::ReadCounter { cell: *self, got }),
    {
        self.cell.act1(
            Ordering::Relaxed,
            AtomicU32::load,
            Ghost(|got: u32| Event::ReadCounter { cell: *self, got }),
            log,
        )
    }

    /// The counter. What was stored before it was set to this value is visible.
    pub(crate) fn acquire<V>(&self, log: &mut Log<V>) -> (got: u32)
        requires
            self.region() == old(log).region(),
        ensures
            final(log).region() == old(log).region(),
            final(log)@ == old(log)@.push(Event::AcquireCounter { cell: *self, got }),
    {
        self.cell.act1(
            Ordering::Acquire,
            AtomicU32::load,
            Ghost(|got: u32| Event::AcquireCounter { cell: *self, got }),
            log,
        )
    }

    /// Sets the counter. What was stored before is visible to who then acquires it.
    pub(crate) fn release<V>(&self, value: u32, log: &mut Log<V>)
        requires
            self.region() == old(log).region(),
        ensures
            final(log).region() == old(log).region(),
            final(log)@ == old(log)@.push(Event::ReleaseCounter { cell: *self, value }),
    {
        self.cell.act2(
            value,
            Ordering::Release,
            AtomicU32::store,
            Ghost(|done: ()| Event::ReleaseCounter { cell: *self, value }),
            log,
        )
    }
}

/// A stamp of a few bits that both sides swap.
pub struct Stamp {
    cell: Vault<AtomicU8>,
    first: Ghost<u8>,
}

impl Stamp {
    /// The region that this is in.
    pub closed spec fn region(&self) -> Name {
        self.cell.region()
    }

    /// The number of the cell within its region.
    pub closed spec fn id(&self) -> int {
        self.cell.id()
    }

    /// An atomic that holds `value` may be kept in `cell`.
    spec fn may_become(value: u8, cell: Vault<AtomicU8>) -> bool {
        exists|inner: AtomicU8|
            {
                &&& #[trigger] cell.came_of(inner)
                &&& call_ensures(AtomicU8::new, (value,), inner)
            }
    }

    /// The stamp was made with what it held first.
    #[verifier::type_invariant]
    spec fn starts_so(self) -> bool {
        Self::may_become(self.first@, self.cell)
    }

    /// A load of the stamp may give `got`.
    spec fn load_gives(&self, order: Ordering, got: u8) -> bool {
        exists|inner: &AtomicU8|
            {
                &&& #[trigger] self.cell.keeps(inner)
                &&& call_ensures(AtomicU8::load, (inner, order), got)
            }
    }

    /// A swap of the stamp for `value` may give `got`.
    spec fn swap_gives(&self, value: u8, order: Ordering, got: u8) -> bool {
        exists|inner: &AtomicU8|
            {
                &&& #[trigger] self.cell.keeps(inner)
                &&& call_ensures(AtomicU8::swap, (inner, value, order), got)
            }
    }

    /// What the stamp held first.
    pub closed spec fn first(&self) -> u8 {
        self.first@
    }

    /// A stamp that reads `value`.
    pub(crate) fn new(value: u8, region: &mut Region) -> (r: Self)
        ensures
            r.region() == old(region).name(),
            r.id() == old(region).next(),
            r.first() == value,
            final(region).name() == old(region).name(),
            final(region).next() == old(region).next() + 1,
    {
        let cell = Vault::make(value, AtomicU8::new, region);
        proof {
            cell.began_as_what_it_came_of(value);
        }
        Stamp { cell, first: Ghost(value) }
    }

    /// The stamp, as far as this thread sees.
    pub(crate) fn read<V>(&self, log: &mut Log<V>) -> (got: u8)
        requires
            self.region() == old(log).region(),
        ensures
            final(log).region() == old(log).region(),
            final(log)@ == old(log)@.push(Event::ReadStamp { cell: *self, got }),
    {
        self.cell.act1(
            Ordering::Relaxed,
            AtomicU8::load,
            Ghost(|got: u8| Event::ReadStamp { cell: *self, got }),
            log,
        )
    }

    /// Swaps the stamp for `value`. What was stored before is visible to who then swaps it, and
    /// what was stored before it was set to what is returned is visible here.
    pub(crate) fn swap<V>(&self, value: u8, log: &mut Log<V>) -> (got: u8)
        requires
            self.region() == old(log).region(),
        ensures
            final(log).region() == old(log).region(),
            final(log)@ == old(log)@.push(Event::SwapStamp { cell: *self, value, got }),
    {
        self.cell.act2(
            value,
            Ordering::AcqRel,
            AtomicU8::swap,
            Ghost(|got: u8| Event::SwapStamp { cell: *self, value, got }),
            log,
        )
    }

    /// Sets the bit of the stamp that says that the sender is gone.
    pub(crate) fn mark<V>(&self, bits: u8, pass: Pass<Tx>, log: &mut Log<V>)
        requires
            bits == 8,
            pass.region() == self.region(),
        ensures
            final(log).region() == old(log).region(),
            final(log)@ == old(log)@.push(Event::MarkStamp { cell: *self, bits }),
        opens_invariants none
        no_unwind
    {
        self.cell.mark(bits, pass, Ghost(Event::MarkStamp { cell: *self, bits }), log);
    }
}

/// A word that one side sets or both sides swap.
pub struct Word {
    cell: Vault<AtomicU64>,
    first: Ghost<u64>,
}

impl Word {
    /// The region that this is in.
    pub closed spec fn region(&self) -> Name {
        self.cell.region()
    }

    /// The number of the cell within its region.
    pub closed spec fn id(&self) -> int {
        self.cell.id()
    }

    /// An atomic that holds `value` may be kept in `cell`.
    spec fn may_become(value: u64, cell: Vault<AtomicU64>) -> bool {
        exists|inner: AtomicU64|
            {
                &&& #[trigger] cell.came_of(inner)
                &&& call_ensures(AtomicU64::new, (value,), inner)
            }
    }

    /// The word was made with what it held first.
    #[verifier::type_invariant]
    spec fn starts_so(self) -> bool {
        Self::may_become(self.first@, self.cell)
    }

    /// A load of the word may give `got`.
    spec fn load_gives(&self, order: Ordering, got: u64) -> bool {
        exists|inner: &AtomicU64|
            {
                &&& #[trigger] self.cell.keeps(inner)
                &&& call_ensures(AtomicU64::load, (inner, order), got)
            }
    }

    /// A store of `value` to the word may return.
    spec fn store_returns(&self, value: u64, order: Ordering) -> bool {
        exists|inner: &AtomicU64|
            {
                &&& #[trigger] self.cell.keeps(inner)
                &&& call_ensures(AtomicU64::store, (inner, value, order), ())
            }
    }

    /// A swap of the word for `value` may give `got`.
    spec fn swap_gives(&self, value: u64, order: Ordering, got: u64) -> bool {
        exists|inner: &AtomicU64|
            {
                &&& #[trigger] self.cell.keeps(inner)
                &&& call_ensures(AtomicU64::swap, (inner, value, order), got)
            }
    }

    /// A replacement of the word, if it is `expect`, by `value` may give `answer`.
    spec fn replacement_gives(
        &self,
        expect: u64,
        value: u64,
        order: Ordering,
        answer: Result<u64, u64>,
    ) -> bool {
        exists|inner: &AtomicU64|
            {
                &&& #[trigger] self.cell.keeps(inner)
                &&& call_ensures(
                    AtomicU64::compare_exchange,
                    (inner, expect, value, order, Ordering::Relaxed),
                    answer,
                )
            }
    }

    /// What the word held first.
    pub closed spec fn first(&self) -> u64 {
        self.first@
    }

    /// A word that reads `value`.
    pub(crate) fn new(value: u64, region: &mut Region) -> (r: Self)
        ensures
            r.region() == old(region).name(),
            r.id() == old(region).next(),
            r.first() == value,
            final(region).name() == old(region).name(),
            final(region).next() == old(region).next() + 1,
    {
        let cell = Vault::make(value, AtomicU64::new, region);
        proof {
            cell.began_as_what_it_came_of(value);
        }
        Word { cell, first: Ghost(value) }
    }

    /// The word, as far as this thread sees.
    pub(crate) fn read<V>(&self, log: &mut Log<V>) -> (got: u64)
        requires
            self.region() == old(log).region(),
        ensures
            final(log).region() == old(log).region(),
            final(log)@ == old(log)@.push(Event::ReadWord { cell: *self, got }),
    {
        self.cell.act1(
            Ordering::Relaxed,
            AtomicU64::load,
            Ghost(|got: u64| Event::ReadWord { cell: *self, got }),
            log,
        )
    }

    /// The word. What was stored before it was set to this value is visible.
    pub(crate) fn acquire<V>(&self, log: &mut Log<V>) -> (got: u64)
        requires
            self.region() == old(log).region(),
        ensures
            final(log).region() == old(log).region(),
            final(log)@ == old(log)@.push(Event::AcquireWord { cell: *self, got }),
    {
        self.cell.act1(
            Ordering::Acquire,
            AtomicU64::load,
            Ghost(|got: u64| Event::AcquireWord { cell: *self, got }),
            log,
        )
    }

    /// Sets the word. What was stored before is visible to who then acquires it.
    pub(crate) fn release<V>(&self, value: u64, log: &mut Log<V>)
        requires
            self.region() == old(log).region(),
        ensures
            final(log).region() == old(log).region(),
            final(log)@ == old(log)@.push(Event::ReleaseWord { cell: *self, value }),
    {
        self.cell.act2(
            value,
            Ordering::Release,
            AtomicU64::store,
            Ghost(|done: ()| Event::ReleaseWord { cell: *self, value }),
            log,
        )
    }

    /// Swaps the word for `value`. What was stored before is visible to who then swaps it, and what
    /// was stored before it was set to what is returned is visible here.
    pub(crate) fn swap<V>(&self, value: u64, log: &mut Log<V>) -> (got: u64)
        requires
            self.region() == old(log).region(),
        ensures
            final(log).region() == old(log).region(),
            final(log)@ == old(log)@.push(Event::SwapWord { cell: *self, value, got }),
    {
        self.cell.act2(
            value,
            Ordering::AcqRel,
            AtomicU64::swap,
            Ghost(|got: u64| Event::SwapWord { cell: *self, value, got }),
            log,
        )
    }

    /// Replaces the word if it is `expect`. What was stored before it was set to `expect` is then
    /// visible here if `acquire` says so. Returns whether it did, and the word that was there.
    pub(crate) fn replace<V>(
        &self,
        expect: u64,
        value: u64,
        acquire: bool,
        log: &mut Log<V>,
    ) -> (r: (bool, u64))
        requires
            self.region() == old(log).region(),
        ensures
            final(log).region() == old(log).region(),
            final(log)@ == old(log)@.push(
                Event::ReplaceWord {
                    cell: *self,
                    expect,
                    value,
                    acquire,
                    got: r.1,
                    done: r.0,
                },
            ),
    {
        let order = if acquire {
            Ordering::AcqRel
        } else {
            Ordering::Release
        };
        let ghost as_event = |answer: Result<u64, u64>|
            Event::<V>::ReplaceWord {
                cell: *self,
                expect,
                value,
                acquire,
                got: match answer {
                    Ok(found) => found,
                    Err(found) => found,
                },
                done: answer is Ok,
            };
        let answer = self.cell.act4(
            expect,
            value,
            order,
            Ordering::Relaxed,
            AtomicU64::compare_exchange,
            Ghost(as_event),
            log,
        );
        match answer {
            Ok(found) => (true, found),
            Err(found) => (false, found),
        }
    }
}

/// A place for one value that both sides of a channel can reach.
///
/// The channels keep boxes in their slots, so that a pointer is all that is swapped.
#[verifier::reject_recursive_types(V)]
pub struct Slot<V> {
    cell: Vault<AtomicCell<V>>,
    first: Ghost<V>,
}

impl<V> Slot<V> {
    /// The region that this is in.
    pub closed spec fn region(&self) -> Name {
        self.cell.region()
    }

    /// The number of the cell within its region.
    pub closed spec fn id(&self) -> int {
        self.cell.id()
    }

    /// An atomic that holds `value` may be kept in `cell`.
    spec fn may_become(value: V, cell: Vault<AtomicCell<V>>) -> bool {
        exists|inner: AtomicCell<V>|
            {
                &&& #[trigger] cell.came_of(inner)
                &&& call_ensures(AtomicCell::<V>::new, (value,), inner)
            }
    }

    /// The slot was made with what it held first.
    #[verifier::type_invariant]
    spec fn starts_so(self) -> bool {
        Self::may_become(self.first@, self.cell)
    }



    /// What the slot held first.
    pub closed spec fn first(&self) -> V {
        self.first@
    }

    /// A slot that holds `value`.
    pub(crate) fn new(value: V, region: &mut Region) -> (r: Self)
        ensures
            r.region() == old(region).name(),
            r.id() == old(region).next(),
            r.first() == value,
            final(region).name() == old(region).name(),
            final(region).next() == old(region).next() + 1,
    {
        let ghost first = value;
        let cell = Vault::make(value, AtomicCell::<V>::new, region);
        proof {
            cell.began_as_what_it_came_of(first);
        }
        Slot { cell, first: Ghost(first) }
    }

    /// Swaps the slot's value for `value`. Returns the value that was there.
    pub(crate) fn exchange(&self, value: V, log: &mut Log<V>) -> (got: V)
        requires
            self.region() == old(log).region(),
        ensures
            final(log).region() == old(log).region(),
            final(log)@ == old(log)@.push(Event::ExchangeSlot { cell: *self, given: value, got }),
    {
        let ghost given = value;
        self.cell.exchange(
            value,
            Ghost(|got: V| Event::ExchangeSlot { cell: *self, given, got }),
            log,
        )
    }
}

} // verus!
