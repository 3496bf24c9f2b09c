//! The collector's polling loop decisions: after every pass over the
//! tickers the cycle counter advances, and every 60th cycle the retention
//! pruning job runs.

use vstd::prelude::*;

verus! {

pub const PRUNE_EVERY_CYCLES: u64 = 60;

/// The counter after one more cycle (wrapping like a `u64` at its maximum).
pub open spec fn next_cycle(cycles: int) -> int {
    if cycles == u64::MAX {
        0
    } else {
        cycles + 1
    }
}

/// Finish a polling cycle: the new cycle count, and whether to prune now.
pub fn finish_cycle(cycles: u64) -> (r: (u64, bool))
    ensures
        r.0 == next_cycle(cycles as int),
        r.1 == (r.0 % PRUNE_EVERY_CYCLES == 0),
        cycles < u64::MAX ==> r.0 == cycles + 1,
        cycles < u64::MAX ==> (r.1 <==> (cycles + 1) % 60 == 0),
{
    let next = if cycles == u64::MAX {
        0
    } else {
        cycles + 1
    };
    (next, next % PRUNE_EVERY_CYCLES == 0)
}

/// The counter just counts: every cycle below the `u64` maximum moves it up
/// by exactly one, so starting from zero, after `n` cycles it reads `n` and
/// pruning has been decided on `n`'s multiples of 60; only the maximum wraps
/// to zero.
pub proof fn lemma_counter_counts(cycles: int)
    requires
        0 <= cycles <= u64::MAX,
    ensures
        cycles < u64::MAX ==> next_cycle(cycles) == cycles + 1,
        cycles == u64::MAX ==> next_cycle(cycles) == 0,
        0 <= next_cycle(cycles) <= u64::MAX,
        cycles < u64::MAX ==> (next_cycle(cycles) % 60 == 0 <==> (cycles + 1) % 60 == 0),
{
}

} // verus!
