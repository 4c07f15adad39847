//! A task graph scheduler: graph construction, the walker over the ready
//! tasks, and the simulation of a pool of workers.

pub mod clock;
pub mod codepoint;
pub mod critical_path;
pub mod error;
pub mod graph;
pub mod order;
pub mod sequential;
pub mod timed;
pub mod timing_laws;
pub mod laws;
pub mod walker;
pub mod workers;
