//! A control and telemetry runtime for robotic platforms: a graph of blocks
//! wired by signal name, run in a stable topological order at a fixed step
//! with unit delays for feedback, and a telemetry plane that lists streams
//! and fans encoded samples out to subscribers.
use vstd::prelude::*;

pub mod fanout;
pub mod graph;
pub mod node;
pub mod order;
pub mod params;
pub mod system;
pub mod telemetry;

verus! {

} // verus!
