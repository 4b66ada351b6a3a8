//! Where the atomics of a channel are kept.
//!
//! A [`Vault`] gives nobody its atomic. What can be done with it is to have one function called on
//! it, once, and what the function is must be exactly what an [`Event`] says of it ([`Does`]); that
//! event is then in the [`Log`] of who asked. The functions here do not know what is in a vault, so
//! they cannot do anything else to it. So every access to the atomics of a channel is in the log of
//! one of its two sides, and a log lists each access once: besides what is recorded there are only
//! loads that change nothing, and what a side does with its [`Pass`] when it leaves.
//!
//! A [`Region`] makes the cells of one channel, and there are two logs and two passes for it, one
//! for each side. The cells take no other.

use crate::cell::{happened, is_load, replace_content, set_bits, store_true, unpad, Event};
use crossbeam_utils::atomic::AtomicCell;
use crossbeam_utils::CachePadded;
use std::sync::atomic::{AtomicBool, AtomicU8, Ordering};
use std::sync::Arc;
use vstd::prelude::*;

verus! {

/// What events say of an atomic.
pub trait Does<E> {
    /// The call that the event speaks of, made on this atomic, may give what the event says came
    /// back. Nothing is known of what such a call may give until it is made.
    spec fn does(&self, event: E) -> bool;
}

/// How an atomic is made.
pub trait Begins<A> {
    /// The atomic may be made out of `first`.
    spec fn begins(&self, first: A) -> bool;
}

/// One of the two sides of a channel.
pub trait Side {
    /// Whether it is the sender.
    spec fn is_sender() -> bool;
}

/// The sender.
pub struct Tx;

/// The receiver.
pub struct Rx;

impl Side for Tx {
    open spec fn is_sender() -> bool {
        true
    }
}

impl Side for Rx {
    open spec fn is_sender() -> bool {
        false
    }
}

/// The record of what one side of a channel has done to the cells.
#[verifier::reject_recursive_types(V)]
pub struct Log<V> {
    events: Ghost<Seq<Event<V>>>,
    region: Ghost<Name>,
}

impl<V> Log<V> {
    /// Whatever is recorded happened.
    #[verifier::type_invariant]
    spec fn truthful(self) -> bool {
        forall|i: int| 0 <= i < self.events@.len() ==> happened(#[trigger] self.events@[i])
    }

    /// Everything that was done, in order.
    pub closed spec fn view(&self) -> Seq<Event<V>> {
        self.events@
    }

    /// The region of the cells that this is the record for.
    pub closed spec fn region(&self) -> Name {
        self.region@
    }
}

/// The right of one side of a channel to leave it.
pub struct Pass<W> {
    region: Ghost<Name>,
    spent: Ghost<bool>,
    side: Ghost<Option<W>>,
}

impl<W> Pass<W> {
    /// The region of the channel.
    pub closed spec fn region(&self) -> Name {
        self.region@
    }

    /// Whether the side has left what it had.
    pub closed spec fn is_spent(&self) -> bool {
        self.spent@
    }
}

/// What tells a region from others: an atomic that was made for it. Nothing is known of atomics
/// that were made apart, not even that they are the same.
pub struct Name {
    mark: AtomicBool,
}

/// Where the cells of one channel lie. Which region it is, is known of no region in advance.
pub struct Region {
    name: Ghost<Name>,
    next: Ghost<int>,
}

impl Region {
    /// The region, among all regions.
    pub closed spec fn name(&self) -> Name {
        self.name@
    }

    /// The number of the cell that is made next.
    pub closed spec fn next(&self) -> int {
        self.next@
    }

    /// A region without cells, and for each of two sides the record of having done nothing to its
    /// cells and the right to leave.
    pub(crate) fn new<V>() -> (r: (Self, Log<V>, Pass<Tx>, Log<V>, Pass<Rx>))
        ensures
            r.0.next() == 0,
            r.1.region() == r.0.name(),
            r.2.region() == r.0.name(),
            r.3.region() == r.0.name(),
            r.4.region() == r.0.name(),
            r.1@ == Seq::<Event<V>>::empty(),
            r.3@ == Seq::<Event<V>>::empty(),
            !r.2.is_spent(),
            !r.4.is_spent(),
    {
        let mark = AtomicBool::new(false);
        let name: Ghost<Name> = Ghost(Name { mark });
        (
            Region { name, next: Ghost(0) },
            Log { events: Ghost(Seq::empty()), region: name },
            Pass { region: name, spent: Ghost(false), side: Ghost(None) },
            Log { events: Ghost(Seq::empty()), region: name },
            Pass { region: name, spent: Ghost(false), side: Ghost(None) },
        )
    }
}

/// Dereferencing the padded cell may give `inner`.
spec fn is_inside<T>(inner: &T, cell: &CachePadded<T>) -> bool {
    call_ensures(unpad, (cell,), inner)
}

/// Padding `inner` may give the padded cell.
spec fn is_padded<T>(inner: T, cell: CachePadded<T>) -> bool {
    call_ensures(CachePadded::<T>::new, (inner,), cell)
}

/// An atomic on a cache line of its own.
#[verifier::reject_recursive_types(C)]
pub struct Vault<C> {
    cell: CachePadded<C>,
    region: Ghost<Name>,
    id: Ghost<int>,
}

impl<C> Vault<C> {
    /// The region that this is in.
    pub closed spec fn region(&self) -> Name {
        self.region@
    }

    /// The number of the cell within its region.
    pub closed spec fn id(&self) -> int {
        self.id@
    }

    /// The atomic in here may be `inner`.
    pub closed spec fn keeps(&self, inner: &C) -> bool {
        is_inside(inner, &self.cell)
    }

    /// What was put in here may be `inner`.
    pub closed spec fn came_of(&self, inner: C) -> bool {
        is_padded(inner, self.cell)
    }

    /// The atomic was made out of `first`.
    pub closed spec fn began<A>(&self, first: A) -> bool where C: Begins<A> {
        exists|inner: C| #[trigger] is_padded(inner, self.cell) && inner.begins(first)
    }

    /// The call that the event speaks of, made on the atomic, may give what the event says.
    pub closed spec fn does<E>(&self, event: E) -> bool where C: Does<E> {
        exists|inner: &C| #[trigger] is_inside(inner, &self.cell) && inner.does(event)
    }

    /// What is done to the vault is done to the atomic in it.
    pub proof fn does_to_what_it_keeps<E>(&self, event: E) where C: Does<E>
        ensures
            self.does(event) <==> exists|inner: &C| #[trigger]
                self.keeps(inner) && inner.does(event),
    {
        if self.does(event) {
            let inner = choose|inner: &C| #[trigger]
                is_inside(inner, &self.cell) && inner.does(event);
            assert(self.keeps(inner));
        }
        if exists|inner: &C| #[trigger] self.keeps(inner) && inner.does(event) {
            let inner = choose|inner: &C| #[trigger] self.keeps(inner) && inner.does(event);
            assert(is_inside(inner, &self.cell));
        }
    }

    /// The vault began as what was put in it.
    pub proof fn began_as_what_it_came_of<A>(&self, first: A) where C: Begins<A>
        ensures
            self.began(first) <==> exists|inner: C| #[trigger]
                self.came_of(inner) && inner.begins(first),
    {
        if self.began(first) {
            let inner = choose|inner: C| #[trigger]
                is_padded(inner, self.cell) && inner.begins(first);
            assert(self.came_of(inner));
        }
        if exists|inner: C| #[trigger] self.came_of(inner) && inner.begins(first) {
            let inner = choose|inner: C| #[trigger] self.came_of(inner) && inner.begins(first);
            assert(is_padded(inner, self.cell));
        }
    }

    /// Events that say the same of atomics say the same of this one.
    pub proof fn alike<E, F>(&self, e: E, f: F) where C: Does<E> + Does<F>
        requires
            forall|c: &C| #![trigger c.does(e)] #![trigger c.does(f)] c.does(e) <==> c.does(f),
        ensures
            self.does(e) <==> self.does(f),
    {
    }

    /// Keeps the atomic that `f` makes out of `first`.
    pub(crate) fn make<A, F>(first: A, f: F, region: &mut Region) -> (r: Self) where
        C: Begins<A>,
        F: FnOnce(A) -> C,

        requires
            call_requires(f, (first,)),
            forall|c: C| call_ensures(f, (first,), c) <==> #[trigger] c.begins(first),
        ensures
            r.began(first),
            r.region() == old(region).name(),
            r.id() == old(region).next(),
            final(region).name() == old(region).name(),
            final(region).next() == old(region).next() + 1,
    {
        let ghost given = first;
        let inner = f(first);
        let ghost c = inner;
        let cell = CachePadded::new(inner);
        assert(c.begins(given));
        assert(is_padded(c, cell));
        let id: Ghost<int> = Ghost(region.next@);
        proof {
            region.next@ = region.next@ + 1;
        }
        let r = Vault { cell, region: Ghost(region.name@), id };
        assert(is_padded(c, r.cell) && c.begins(given));
        assert(r.began(given));
        r
    }

    /// Calls `f`, which takes an ordering, on the atomic, and records that.
    pub(crate) fn act1<V, O, R, F>(
        &self,
        o: O,
        f: F,
        as_event: Ghost<spec_fn(R) -> Event<V>>,
        log: &mut Log<V>,
    ) -> (r: R) where C: Does<Event<V>>, F: FnOnce(&C, O) -> R
        requires
            self.region() == old(log).region(),
            forall|c: &C| #[trigger] call_requires(f, (c, o)),
            forall|c: &C, r: R| call_ensures(f, (c, o), r) <==> #[trigger] c.does(as_event@(r)),
            forall|r: R| self.does(#[trigger] as_event@(r)) ==> happened(as_event@(r)),
        ensures
            final(log).region() == old(log).region(),
            final(log)@ == old(log)@.push(as_event@(r)),
    {
        let inner = unpad(&self.cell);
        assert(is_inside(inner, &self.cell));
        let r = f(inner, o);
        proof {
            use_type_invariant(&*log);
            assert(inner.does(as_event@(r)));
            log.events@ = log.events@.push(as_event@(r));
        }
        r
    }

    /// Calls `f`, which takes a value and an ordering, on the atomic, and records that.
    pub(crate) fn act2<V, A, O, R, F>(
        &self,
        a: A,
        o: O,
        f: F,
        as_event: Ghost<spec_fn(R) -> Event<V>>,
        log: &mut Log<V>,
    ) -> (r: R) where C: Does<Event<V>>, F: FnOnce(&C, A, O) -> R
        requires
            self.region() == old(log).region(),
            forall|c: &C| #[trigger] call_requires(f, (c, a, o)),
            forall|c: &C, r: R| call_ensures(f, (c, a, o), r) <==> #[trigger] c.does(as_event@(r)),
            forall|r: R| self.does(#[trigger] as_event@(r)) ==> happened(as_event@(r)),
        ensures
            final(log).region() == old(log).region(),
            final(log)@ == old(log)@.push(as_event@(r)),
    {
        let inner = unpad(&self.cell);
        assert(is_inside(inner, &self.cell));
        let r = f(inner, a, o);
        proof {
            use_type_invariant(&*log);
            assert(inner.does(as_event@(r)));
            log.events@ = log.events@.push(as_event@(r));
        }
        r
    }

    /// Calls `f`, which takes two values and two orderings, on the atomic, and records that.
    pub(crate) fn act4<V, A, O, R, F>(
        &self,
        a: A,
        b: A,
        o: O,
        p: O,
        f: F,
        as_event: Ghost<spec_fn(R) -> Event<V>>,
        log: &mut Log<V>,
    ) -> (r: R) where C: Does<Event<V>>, F: FnOnce(&C, A, A, O, O) -> R
        requires
            self.region() == old(log).region(),
            forall|c: &C| #[trigger] call_requires(f, (c, a, b, o, p)),
            forall|c: &C, r: R|
                call_ensures(f, (c, a, b, o, p), r) <==> #[trigger] c.does(as_event@(r)),
            forall|r: R| self.does(#[trigger] as_event@(r)) ==> happened(as_event@(r)),
        ensures
            final(log).region() == old(log).region(),
            final(log)@ == old(log)@.push(as_event@(r)),
    {
        let inner = unpad(&self.cell);
        assert(is_inside(inner, &self.cell));
        let r = f(inner, a, b, o, p);
        proof {
            use_type_invariant(&*log);
            assert(inner.does(as_event@(r)));
            log.events@ = log.events@.push(as_event@(r));
        }
        r
    }

    /// Calls `f`, which takes an ordering and only looks, on the atomic.
    pub(crate) fn look<O, R, F>(
        &self,
        o: O,
        f: F,
        as_event: Ghost<spec_fn(R) -> Event<()>>,
    ) -> (r: R) where C: Does<Event<()>>, F: FnOnce(&C, O) -> R
        requires
            forall|c: &C| #[trigger] call_requires(f, (c, o)),
            forall|c: &C, r: R| call_ensures(f, (c, o), r) <==> #[trigger] c.does(as_event@(r)),
            forall|r: R| is_load(#[trigger] as_event@(r)),
        ensures
            self.does(as_event@(r)),
    {
        let inner = unpad(&self.cell);
        assert(is_inside(inner, &self.cell));
        let r = f(inner, o);
        assert(inner.does(as_event@(r)));
        r
    }
}

impl<V> Vault<AtomicCell<V>> {
    /// Swapping `given` in may give `got`.
    pub closed spec fn swaps(&self, given: V, got: V) -> bool {
        call_ensures(replace_content, (&self.cell, given), got)
    }

    /// Puts `value` in, and records that. Returns what was there.
    pub(crate) fn exchange(
        &self,
        value: V,
        as_event: Ghost<spec_fn(V) -> Event<V>>,
        log: &mut Log<V>,
    ) -> (got: V)
        requires
            self.region() == old(log).region(),
            forall|got: V| self.swaps(value, got) ==> happened(#[trigger] as_event@(got)),
        ensures
            final(log).region() == old(log).region(),
            final(log)@ == old(log)@.push(as_event@(got)),
    {
        let ghost given = value;
        let got = replace_content(&self.cell, value);
        proof {
            use_type_invariant(&*log);
            assert(self.swaps(given, got));
            log.events@ = log.events@.push(as_event@(got));
        }
        got
    }
}

impl Vault<AtomicU8> {
    /// Setting the given bits may return.
    pub closed spec fn marks(&self, bits: u8) -> bool {
        call_ensures(set_bits, (&self.cell, bits), ())
    }

    /// Sets the given bits, as the last that the sender does, and records that.
    pub(crate) fn mark<V>(
        &self,
        bits: u8,
        pass: Pass<Tx>,
        as_event: Ghost<Event<V>>,
        log: &mut Log<V>,
    )
        requires
            bits == 8,
            pass.region() == self.region(),
            self.marks(bits) ==> happened(as_event@),
        ensures
            final(log).region() == old(log).region(),
            final(log)@ == old(log)@.push(as_event@),
        opens_invariants none
        no_unwind
    {
        set_bits(&self.cell, bits);
        proof {
            use_type_invariant(&*log);
            log.events@ = log.events@.push(as_event@);
        }
    }
}

/// An atomic that shares its cache line. It belongs to one of the two sides.
#[verifier::reject_recursive_types(C)]
pub struct Niche<C> {
    cell: C,
    region: Ghost<Name>,
    id: Ghost<int>,
    sender: Ghost<bool>,
}

impl<C> Niche<C> {
    /// The region that this is in.
    pub closed spec fn region(&self) -> Name {
        self.region@
    }

    /// The number of the cell within its region.
    pub closed spec fn id(&self) -> int {
        self.id@
    }

    /// Whether this belongs to the sender.
    pub closed spec fn is_senders(&self) -> bool {
        self.sender@
    }

    /// The atomic was made out of `first`.
    pub closed spec fn began<A>(&self, first: A) -> bool where C: Begins<A> {
        self.cell.begins(first)
    }

    /// The call that the event speaks of, made on the atomic, may give what the event says.
    pub closed spec fn does<E>(&self, event: E) -> bool where C: Does<E> {
        self.cell.does(event)
    }

    /// Events that say the same of atomics say the same of this one.
    pub proof fn alike<E, F>(&self, e: E, f: F) where C: Does<E> + Does<F>
        requires
            forall|c: &C| #![trigger c.does(e)] #![trigger c.does(f)] c.does(e) <==> c.does(f),
        ensures
            self.does(e) <==> self.does(f),
    {
    }

    /// Keeps the atomic that `f` makes out of `first` for side `W`.
    pub(crate) fn make<W, A, F>(first: A, f: F, region: &mut Region) -> (r: Self) where
        W: Side,
        C: Begins<A>,
        F: FnOnce(A) -> C,

        requires
            call_requires(f, (first,)),
            forall|c: C| call_ensures(f, (first,), c) <==> #[trigger] c.begins(first),
        ensures
            r.began(first),
            r.is_senders() == W::is_sender(),
            r.region() == old(region).name(),
            r.id() == old(region).next(),
            final(region).name() == old(region).name(),
            final(region).next() == old(region).next() + 1,
    {
        let cell = f(first);
        let id: Ghost<int> = Ghost(region.next@);
        proof {
            region.next@ = region.next@ + 1;
        }
        Niche { cell, region: Ghost(region.name@), id, sender: Ghost(W::is_sender()) }
    }

    /// Calls `f`, which takes an ordering, on the atomic, and records that.
    pub(crate) fn act1<V, O, R, F>(
        &self,
        o: O,
        f: F,
        as_event: Ghost<spec_fn(R) -> Event<V>>,
        log: &mut Log<V>,
    ) -> (r: R) where C: Does<Event<V>>, F: FnOnce(&C, O) -> R
        requires
            self.region() == old(log).region(),
            forall|c: &C| #[trigger] call_requires(f, (c, o)),
            forall|c: &C, r: R| call_ensures(f, (c, o), r) <==> #[trigger] c.does(as_event@(r)),
            forall|r: R| self.does(#[trigger] as_event@(r)) ==> happened(as_event@(r)),
        ensures
            final(log).region() == old(log).region(),
            final(log)@ == old(log)@.push(as_event@(r)),
    {
        let r = f(&self.cell, o);
        proof {
            use_type_invariant(&*log);
            assert(self.cell.does(as_event@(r)));
            log.events@ = log.events@.push(as_event@(r));
        }
        r
    }

    /// Calls `f`, which takes an ordering and only looks, on the atomic.
    pub(crate) fn look<O, R, F>(
        &self,
        o: O,
        f: F,
        as_event: Ghost<spec_fn(R) -> Event<()>>,
    ) -> (r: R) where C: Does<Event<()>>, F: FnOnce(&C, O) -> R
        requires
            forall|c: &C| #[trigger] call_requires(f, (c, o)),
            forall|c: &C, r: R| call_ensures(f, (c, o), r) <==> #[trigger] c.does(as_event@(r)),
            forall|r: R| is_load(#[trigger] as_event@(r)),
        ensures
            self.does(as_event@(r)),
    {
        let r = f(&self.cell, o);
        assert(self.cell.does(as_event@(r)));
        r
    }
}

impl Niche<AtomicBool> {
    /// Storing `true` may return.
    pub closed spec fn raises(&self, order: Ordering) -> bool {
        call_ensures(store_true, (&self.cell, order), ())
    }

    /// Stores `true`, as the last that side `W` does, and records that.
    pub(crate) fn raise<V, W: Side>(
        &self,
        order: Ordering,
        pass: Pass<W>,
        as_event: Ghost<Event<V>>,
        log: &mut Log<V>,
    )
        requires
            order is Relaxed || order is Release,
            pass.region() == self.region(),
            W::is_sender() == self.is_senders(),
            self.raises(order) ==> happened(as_event@),
        ensures
            final(log).region() == old(log).region(),
            final(log)@ == old(log)@.push(as_event@),
        opens_invariants none
        no_unwind
    {
        store_true(&self.cell, order);
        proof {
            use_type_invariant(&*log);
            log.events@ = log.events@.push(as_event@);
        }
    }
}

/// What a side leaves to the channel when it goes. Nothing that a channel does depends on it before
/// both sides are gone, so it is not recorded.
#[verifier::reject_recursive_types(V)]
pub struct Place<V> {
    cell: CachePadded<AtomicCell<V>>,
    region: Ghost<Name>,
    sender: Ghost<bool>,
}

impl<V> Place<V> {
    /// The region that this is in.
    pub closed spec fn region(&self) -> Name {
        self.region@
    }

    /// Whether this belongs to the sender.
    pub closed spec fn is_senders(&self) -> bool {
        self.sender@
    }

    /// Who takes what was left, and puts `instead` there, may get `val`. Only taking it tells.
    pub closed spec fn may_give(&self, instead: V, val: V) -> bool {
        call_ensures(replace_content, (&self.cell, instead), val)
    }

    /// `val` was left here.
    pub closed spec fn was_left(&self, val: V) -> bool {
        exists|got: V| #[trigger] call_ensures(replace_content, (&self.cell, val), got)
    }

    /// A place with `val` in it, for side `W`.
    pub(crate) fn new<W: Side>(val: V, region: &Region) -> (r: Self)
        ensures
            r.region() == region.name(),
            r.is_senders() == W::is_sender(),
    {
        Place {
            cell: CachePadded::new(AtomicCell::new(val)),
            region: Ghost(region.name@),
            sender: Ghost(W::is_sender()),
        }
    }

    /// Leaves `val`, once. Returns what was there.
    pub(crate) fn leave<W: Side>(&self, val: V, pass: Pass<W>) -> (r: (V, Pass<W>))
        requires
            pass.region() == self.region(),
            W::is_sender() == self.is_senders(),
            !pass.is_spent(),
        ensures
            self.was_left(val),
            self.may_give(val, r.0),
            r.1.region() == pass.region(),
            r.1.is_spent(),
        opens_invariants none
        no_unwind
    {
        let got = replace_content(&self.cell, val);
        (got, Pass { region: pass.region, spent: Ghost(true), side: pass.side })
    }

    /// Takes what was left, and puts `instead` there.
    pub(crate) fn take(&mut self, instead: V) -> (val: V)
        ensures
            old(self).may_give(instead, val),
            *final(self) == *old(self),
        opens_invariants none
        no_unwind
    {
        replace_content(&self.cell, instead)
    }
}

/// A log lists what was pushed onto it, and all of that happened.
proof fn a_log_lists_what_happened<V>(log: Log<V>)
    ensures
        log@ == log.events@,
        log.region() == log.region@,
        log.truthful() <==> forall|i: int| 0 <= i < log@.len() ==> happened(#[trigger] log@[i]),
{
}

/// A region is told from others by its name, and numbers its cells one by one; a pass is for one
/// region, and good for leaving once.
proof fn a_pass_is_for_one_region<W>(region: Region, pass: Pass<W>)
    ensures
        region.name() == region.name@,
        region.next() == region.next@,
        pass.region() == pass.region@,
        pass.is_spent() == pass.spent@,
{
}

/// What a vault keeps is what comes of dereferencing the padded atomic, and what it came of is what
/// was padded.
proof fn a_vault_keeps_its_atomic<C>(vault: Vault<C>, inner: C)
    ensures
        vault.region() == vault.region@,
        vault.id() == vault.id@,
        vault.keeps(&inner) <==> call_ensures(unpad::<C>, (&vault.cell,), &inner),
        vault.came_of(inner) <==> call_ensures(CachePadded::<C>::new, (inner,), vault.cell),
{
}

/// To mark a stamp is to set bits of it, to exchange what a slot holds is to replace that, and to
/// leave something in a place is to replace what it holds.
proof fn atomics_are_marked_and_replaced<V>(
    stamp: Vault<AtomicU8>,
    bits: u8,
    slot: Vault<AtomicCell<V>>,
    place: Place<V>,
    given: V,
    got: V,
)
    ensures
        stamp.marks(bits) <==> call_ensures(set_bits, (&stamp.cell, bits), ()),
        slot.swaps(given, got) <==> call_ensures(replace_content, (&slot.cell, given), got),
        place.may_give(given, got) <==> call_ensures(replace_content, (&place.cell, given), got),
        place.was_left(given) <==> exists|got: V| #[trigger]
            call_ensures(replace_content, (&place.cell, given), got),
{
}

/// What is said of a niche is said of the atomic in it. To raise it is to store `true`.
proof fn a_niche_keeps_its_atomic<C, A, E>(
    niche: Niche<C>,
    first: A,
    event: E,
    flag: Niche<AtomicBool>,
    order: Ordering,
) where C: Begins<A> + Does<E>
    ensures
        niche.region() == niche.region@,
        niche.id() == niche.id@,
        niche.is_senders() == niche.sender@,
        niche.began(first) <==> niche.cell.begins(first),
        niche.does(event) <==> niche.cell.does(event),
        flag.raises(order) <==> call_ensures(store_true, (&flag.cell, order), ()),
{
}

/// What a channel's memory says of where its sides leave.
pub trait Leavable {
    /// What the two sides do when they leave, they do in `region`.
    spec fn leaves_in(&self, region: Name) -> bool;
}

/// The memory of a channel in the hands of side `W`, with the right to leave it.
#[verifier::reject_recursive_types(M)]
#[verifier::reject_recursive_types(W)]
pub struct Tie<M: Leavable, W> {
    memory: Arc<M>,
    pass: Option<Pass<W>>,
}

impl<M: Leavable, W> Tie<M, W> {
    /// The right to leave is one to leave this memory.
    #[verifier::type_invariant]
    spec fn fits(self) -> bool {
        self.pass matches Some(pass) ==> self.memory.leaves_in(pass.region()) && !pass.is_spent()
    }

    /// The memory.
    pub closed spec fn memory(&self) -> &M {
        &*self.memory
    }

    /// The side has not left.
    pub closed spec fn is_tied(&self) -> bool {
        self.pass is Some
    }

    /// Ties a side to a memory.
    pub(crate) fn new(memory: Arc<M>, pass: Pass<W>) -> (r: Self)
        requires
            memory.leaves_in(pass.region()),
            !pass.is_spent(),
        ensures
            r.memory() == &*memory,
            r.is_tied(),
    {
        Tie { memory, pass: Some(pass) }
    }

    /// The memory.
    #[verifier::when_used_as_spec(memory)]
    pub(crate) fn m(&self) -> (r: &M)
        ensures
            r == self.memory(),
        opens_invariants none
        no_unwind
    {
        &*self.memory
    }

    /// Gives up the right to leave, to leave with it.
    pub(crate) fn part(&mut self) -> (r: Option<Pass<W>>)
        ensures
            final(self).memory() == old(self).memory(),
            !final(self).is_tied(),
            r is Some == old(self).is_tied(),
            r matches Some(pass) ==> old(self).memory().leaves_in(pass.region())
                && !pass.is_spent(),
        opens_invariants none
        no_unwind
    {
        proof {
            use_type_invariant(&*self);
        }
        let mut pass = None;
        std::mem::swap(&mut pass, &mut self.pass);
        pass
    }
}

/// A side is tied to its memory as long as it has the right to leave it.
proof fn a_tie_is_a_right_to_leave<M: Leavable, W>(tie: Tie<M, W>)
    ensures
        tie.memory() == &*tie.memory,
        tie.is_tied() == tie.pass is Some,
        tie.fits() <==> (tie.pass matches Some(pass) ==> tie.memory.leaves_in(pass.region())
            && !pass.is_spent()),
{
}

} // verus!
