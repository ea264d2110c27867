//! Sequence counters: the identity assigned to every published item.
//!
//! A counter is a machine word that is only ever stepped forwards, so it
//! eventually wraps. Nothing may therefore compare two counters with `<`;
//! the one meaningful question is how far one lies ahead of another, and
//! that is answered by modular subtraction.
use vstd::prelude::*;

verus! {

/// The sequence number of a published item.
pub type Counter = usize;

/// The counter reached from `c` after `n` more items, wrapping past `usize::MAX`.
pub open spec fn advance(c: Counter, n: int) -> Counter
    recommends
        0 <= n <= usize::MAX,
{
    if c + n > usize::MAX {
        (c + n - usize::MAX - 1) as usize
    } else {
        (c + n) as usize
    }
}

/// The number of steps that lead from `from` forwards to `to`.
pub open spec fn distance(from: Counter, to: Counter) -> int {
    if to >= from {
        to - from
    } else {
        to - from + usize::MAX + 1
    }
}

/// Stepping forwards and measuring the distance undo each other, and steps add up.
pub proof fn lemma_counter_arithmetic(c: Counter, d: Counter, m: int, n: int)
    requires
        0 <= m,
        0 <= n,
        m + n <= usize::MAX,
    ensures
        0 <= distance(c, d) <= usize::MAX,
        distance(c, advance(c, n)) == n,
        advance(c, distance(c, d)) == d,
        advance(advance(c, m), n) == advance(c, m + n),
        m <= distance(c, d) ==> distance(advance(c, m), d) == distance(c, d) - m,
{
}

/// `c` stepped forwards `n` times.
pub fn step(c: Counter, n: usize) -> (r: Counter)
    ensures
        r == advance(c, n as int),
{
    c.wrapping_add(n)
}

/// How far `to` lies ahead of `from`.
pub fn gap(from: Counter, to: Counter) -> (r: usize)
    ensures
        r == distance(from, to),
{
    to.wrapping_sub(from)
}

} // verus!
