//! Arithmetic on 16-bit packet sequence numbers, which wrap from 65535 to 0.

use vstd::prelude::*;

verus! {

/// How many steps forward lead from `from` to `to`, counted modulo 2^16.
pub open spec fn seq_distance(from: u16, to: u16) -> int {
    if to >= from {
        to - from
    } else {
        to - from + 0x1_0000
    }
}

/// The sequence number `steps` steps after `s`.
pub open spec fn seq_advance(s: u16, steps: nat) -> u16 {
    ((s + steps) % 0x1_0000) as u16
}

/// The sequence number that follows `s`.
pub open spec fn seq_succ(s: u16) -> u16 {
    seq_advance(s, 1)
}

/// Steps forward from `from` to `to`, modulo 2^16.
pub fn distance(from: u16, to: u16) -> (d: u16)
    ensures
        d == seq_distance(from, to),
{
    to.wrapping_sub(from)
}

/// The sequence number after `s`, wrapping from 65535 to 0.
pub fn successor(s: u16) -> (n: u16)
    ensures
        n == seq_succ(s),
{
    s.wrapping_add(1)
}

/// The sequence number `steps` steps after `s`.
pub fn advance(s: u16, steps: u16) -> (n: u16)
    ensures
        n == seq_advance(s, steps as nat),
{
    s.wrapping_add(steps)
}

/// Walking the distance from `from` to `to` arrives at `to`, and the
/// distance to a number reached in fewer than 2^16 steps is the step count.
pub proof fn lemma_distance_advance(from: u16, to: u16, steps: nat)
    ensures
        0 <= seq_distance(from, to) < 0x1_0000,
        seq_advance(from, seq_distance(from, to) as nat) == to,
        steps < 0x1_0000 ==> seq_distance(from, seq_advance(from, steps)) == steps,
{
}

/// Two sequence numbers at the same distance from a third are equal.
pub proof fn lemma_distance_injective(from: u16, a: u16, b: u16)
    requires
        seq_distance(from, a) == seq_distance(from, b),
    ensures
        a == b,
{
}

/// Advancing step by step is the same as advancing at once.
pub proof fn lemma_advance_succ(s: u16, steps: nat)
    ensures
        seq_succ(seq_advance(s, steps)) == seq_advance(s, steps + 1),
        seq_advance(s, 0) == s,
{
}

} // verus!
