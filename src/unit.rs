//! A workload unit: a simulated computation that sleeps for a random number
//! of seconds and reports which input it ran for and how long it slept.
use vstd::prelude::*;

use rand::Rng;

verus! {

/// The shortest simulated duration of a unit, in seconds.
pub const SHORTEST_SLEEP: u64 = 1;

/// The longest simulated duration of a unit, in seconds.
pub const LONGEST_SLEEP: u64 = 10;

/// Relies on `rand::Rng::gen_range` on `rand::thread_rng()`: a value drawn
/// from `low` inclusive to `high` exclusive; it panics when `low >= high`.
#[verifier::external_body]
fn draw_between(low: u64, high: u64) -> (r: u64)
    requires
        low < high,
    ensures
        low <= r < high,
{
    rand::thread_rng().gen_range(low, high)
}

/// Draws the simulated duration of the unit for `input` and returns the
/// unit's result: the input and the number of seconds it is to sleep.
pub fn plan_task(input: u64) -> (r: (u64, u64))
    ensures
        r.0 == input,
        SHORTEST_SLEEP <= r.1 <= LONGEST_SLEEP,
{
    let seconds = draw_between(SHORTEST_SLEEP, LONGEST_SLEEP + 1);
    (input, seconds)
}

} // verus!
