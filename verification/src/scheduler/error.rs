//! What can keep a graph from being scheduled.

use vstd::prelude::*;

verus! {

#[derive(Clone, Copy, Debug, PartialEq, Eq, Structural)]
pub enum SchedulerError {
    /// No task is ready and some are unfinished: tasks of the graph wait for
    /// each other in a circle.
    Stalled,
    /// The pool was to have no worker.
    NoWorkers,
}

} // verus!
