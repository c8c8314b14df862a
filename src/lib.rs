//! Ordered fan-out/fan-in over independent workload units.
//!
//! `unit` plans one workload unit, `batch` reassembles the outcomes of a
//! batch of units in submission order whatever order they finish in, and
//! `cli` interprets the command line of the demonstration program.
use vstd::prelude::*;

pub mod batch;
pub mod cli;
pub mod unit;

verus! {

} // verus!
