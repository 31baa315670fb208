//! Hardware cycle counting, where the OS lets us have it. Wall-clock on a
//! laptop-class CPU is noisy under boost and governor changes; cycles are
//! not, so the report says whether they could be counted. Cycle counting
//! uses `perf_event_open`, which works with the default
//! `perf_event_paranoid = 2`: no root needed.

use vstd::prelude::*;

use perf_event::Counter;

verus! {

#[verifier::external_type_specification]
#[verifier::external_body]
pub struct ExCounter(Counter);

/// `perf_event::Builder::new().kind(Hardware::CPU_CYCLES).build()`: a CPU
/// cycle counter for this process, if the OS grants one. Whether it does
/// depends on the machine, so nothing is claimed of the result.
#[verifier::external_body]
fn cycle_counter() -> Option<Counter> {
    perf_event::Builder::new().kind(perf_event::events::Hardware::CPU_CYCLES).build().ok()
}

/// `Counter::enable`: whether the counter started; it depends on the
/// machine, so nothing is claimed of the result.
#[verifier::external_body]
fn counter_enable(counter: &mut Counter) -> bool {
    counter.enable().is_ok()
}

/// Whether hardware cycle counting is available on this machine, for the
/// report header: a cycle counter can be built and enabled.
pub fn cycles_available() -> bool {
    match cycle_counter() {
        Some(mut counter) => counter_enable(&mut counter),
        None => false,
    }
}

} // verus!
