//! Sequence counters that wrap around at 32 bits, and the slots that positions fall on.
//!
//! Positions in a stream of values are natural numbers. The channels store them as `u32`, so a
//! stored counter is the position modulo 2^32. Which slot a position falls on does not follow from
//! that counter once it has wrapped around: each side steps from slot to slot instead.

use vstd::arithmetic::div_mod::lemma_fundamental_div_mod;
use vstd::arithmetic::div_mod::lemma_mod_multiples_vanish;
use vstd::prelude::*;

verus! {

/// The number of distinct `u32` counters.
pub open spec fn period() -> int {
    0x1_0000_0000
}

/// The counter that stands for position `n`.
pub open spec fn wrap(n: nat) -> u32 {
    (n as int % period()) as u32
}

/// How many steps lead from counter `from` to counter `to`.
pub open spec fn steps(from: u32, to: u32) -> int {
    if from <= to {
        to - from
    } else {
        to - from + period()
    }
}

/// The counter after `seq`.
pub open spec fn succ(seq: u32) -> u32 {
    if seq == u32::MAX {
        0
    } else {
        (seq + 1) as u32
    }
}

/// The slot, out of `len`, that position `n` falls on.
pub open spec fn slot_of(n: nat, len: nat) -> int {
    n as int % len as int
}

/// The slot, out of `len`, after slot `index`.
pub open spec fn next_slot(index: u32, len: int) -> u32 {
    if index + 1 >= len {
        0
    } else {
        (index + 1) as u32
    }
}

/// Position `n` falls on a slot that none of the positions from `from` up to `n` falls on.
pub open spec fn fresh_slot(from: nat, n: nat, len: nat) -> bool {
    forall|i: nat| from <= i < n ==> #[trigger] slot_of(i, len) != slot_of(n, len)
}

/// How many steps lead from counter `from` to counter `to`.
pub fn distance(from: u32, to: u32) -> (r: u32)
    ensures
        r == steps(from, to),
{
    to.wrapping_sub(from)
}

/// The counter after `seq`.
pub fn next(seq: u32) -> (r: u32)
    ensures
        r == succ(seq),
{
    seq.wrapping_add(1)
}

/// The slot, out of `len`, after slot `index`.
pub fn step(index: u32, len: u32) -> (r: u32)
    ensures
        r == next_slot(index, len as int),
{
    if index >= len || len - index <= 1 {
        0
    } else {
        index + 1
    }
}

/// Counters follow positions: the counter after that of `n` is that of `n + 1`, and the distance
/// between the counters of two positions less than 2^32 apart is that between the positions.
pub proof fn counters_follow_positions(n: nat, m: nat)
    requires
        n <= m < n + period(),
    ensures
        succ(wrap(n)) == wrap((n + 1) as nat),
        steps(wrap(n), wrap(m)) == m - n,
        wrap(n) == wrap(m) <==> n == m,
{
    lemma_fundamental_div_mod(n as int, period());
    lemma_fundamental_div_mod(m as int, period());
    lemma_fundamental_div_mod(n as int + 1, period());
}

/// The distance between the counters of two positions is that between the positions, modulo 2^32.
pub proof fn distances_are_modular(n: nat, m: nat)
    requires
        n <= m,
    ensures
        steps(wrap(n), wrap(m)) == (m - n) % period(),
{
    let laps: int = (m - n) / period();
    let rest: int = (m - n) % period();
    lemma_fundamental_div_mod(m - n, period());
    counters_follow_positions(n, (n + rest) as nat);
    lemma_mod_multiples_vanish(laps, n + rest, period());
}

/// Numbers less than `len` apart leave different remainders.
proof fn remainders_differ(a: int, b: int, len: int)
    requires
        a < b < a + len,
    ensures
        a % len != b % len,
{
    lemma_fundamental_div_mod(a, len);
    lemma_fundamental_div_mod(b, len);
    if a % len == b % len {
        let qa: int = a / len;
        let qb: int = b / len;
        assert(b - a == len * (qb - qa)) by (nonlinear_arith)
            requires
                a == len * qa + a % len,
                b == len * qb + b % len,
                a % len == b % len,
        ;
        assert(false) by (nonlinear_arith)
            requires
                b - a == len * (qb - qa),
                0 < b - a < len,
        ;
    }
}

/// Slots follow positions: the slot after that of position `n` is that of position `n + 1`.
pub proof fn slots_follow_positions(n: nat, len: nat)
    requires
        1 <= len <= period(),
    ensures
        0 <= slot_of(n, len) < len,
        slot_of((n + 1) as nat, len) == next_slot(slot_of(n, len) as u32, len as int),
{
    let (a, b) = (n as int, len as int);
    lemma_fundamental_div_mod(a, b);
    lemma_fundamental_div_mod(a + 1, b);
    assert(0 <= a % b < b && 0 <= (a + 1) % b < b) by (nonlinear_arith)
        requires
            b > 0,
    ;
    let d: int = (a + 1) / b - a / b;
    assert(b * d == 1 + a % b - (a + 1) % b) by (nonlinear_arith)
        requires
            a == b * (a / b) + a % b,
            a + 1 == b * ((a + 1) / b) + (a + 1) % b,
            d == (a + 1) / b - a / b,
    ;
    assert(d == 0 || d == 1) by (nonlinear_arith)
        requires
            b * d == 1 + a % b - (a + 1) % b,
            0 <= a % b < b,
            0 <= (a + 1) % b < b,
    ;
    if d == 0 {
        assert(b * d == 0) by (nonlinear_arith)
            requires
                d == 0,
        ;
    } else {
        assert(b * d == b) by (nonlinear_arith)
            requires
                d == 1,
        ;
    }
}

/// Positions `len` apart fall on the same slot.
pub proof fn laps_share_slots(n: nat, len: nat)
    requires
        1 <= len,
    ensures
        slot_of((n + len) as nat, len) == slot_of(n, len),
{
    lemma_mod_multiples_vanish(1, n as int, len as int);
}

/// Positions fewer than `len` apart fall on distinct slots.
pub proof fn near_positions_have_own_slots(i: nat, n: nat, len: nat)
    requires
        i < n < i + len,
    ensures
        slot_of(i, len) != slot_of(n, len),
{
    remainders_differ(i as int, n as int, len as int);
}

/// A position falls on a fresh slot behind the fewer than `len` positions before it.
pub proof fn a_slot_is_fresh(from: nat, n: nat, len: nat)
    requires
        from <= n < from + len,
    ensures
        fresh_slot(from, n, len),
{
    assert forall|i: nat| from <= i < n implies #[trigger] slot_of(i, len) != slot_of(n, len) by {
        near_positions_have_own_slots(i, n, len);
    }
}

} // verus!
