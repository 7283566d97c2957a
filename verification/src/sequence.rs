//! Sequence numbers. There are 65536 of them, and after the last comes the first again.

use vstd::prelude::*;

verus! {

/// The number of sequence numbers.
pub const SEQUENCE_NUMBERS: u32 = 0x1_0000;

/// The sequence number that comes `steps` after another.
pub open spec fn seq_plus(n: u16, steps: int) -> u16 {
    ((n + steps) % 0x1_0000) as u16
}

/// The number of steps from one sequence number to another.
pub open spec fn seq_distance(from: u16, to: u16) -> int {
    (to - from) % 0x1_0000
}

/// After so many steps the distance is their number, up to full rounds.
pub proof fn lemma_distance_after_steps(n: u16, steps: int)
    ensures
        seq_distance(n, seq_plus(n, steps)) == steps % 0x1_0000,
{
}

/// A sequence number is as many steps away as its distance says.
pub proof fn lemma_steps_of_distance(from: u16, to: u16)
    ensures
        seq_plus(from, seq_distance(from, to)) == to,
        0 <= seq_distance(from, to) < 0x1_0000,
{
}

/// Steps add up.
pub proof fn lemma_steps_add(n: u16, first: int, second: int)
    ensures
        seq_plus(seq_plus(n, first), second) == seq_plus(n, first + second),
{
}

/// Sequence numbers go up by one with each step, and begin again at zero after the last.
pub proof fn law_steps(n: u16, steps: int)
    requires
        0 <= steps <= 0xffff,
    ensures
        n + steps <= 0xffff ==> seq_plus(n, steps) == n + steps,
        n + steps > 0xffff ==> seq_plus(n, steps) == n + steps - 0x1_0000,
        seq_plus(seq_plus(n, steps), -steps) == n,
{
}

/// The distance is the number of steps that lead from one number to another, less than a round.
pub proof fn law_distance(from: u16, to: u16)
    ensures
        0 <= seq_distance(from, to) <= 0xffff,
        from <= to ==> seq_distance(from, to) == to - from,
        from > to ==> seq_distance(from, to) == 0x1_0000 - (from - to),
{
}

} // verus!
